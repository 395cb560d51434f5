use chat_bridge::chat_service::{
    create_message, message_origin, FullMessage, Message, MessageStore, User,
};
use chat_bridge::relay::{
    delete_message, destination, edit_message, find_reply_anchor, permalink, relay_message,
    ReplyContext, RoomPair,
};

fn rooms() -> Vec<RoomPair> {
    vec![RoomPair {
        matrix: "!room:example.org".to_string(),
        discord: "100".to_string(),
        discord_guild: "42".to_string(),
    }]
}

fn matrix_user() -> User {
    User {
        source: "matrix".to_string(),
        id: "@alice:example.org".to_string(),
        ping: "<@@alice:example.org>".to_string(),
        tag: "@alice:example.org".to_string(),
        display: "Alice".to_string(),
        avatar: None,
    }
}

fn matrix_message(id: &str, room: &str, content: &str) -> FullMessage {
    FullMessage {
        user: matrix_user(),
        message: Message::new("matrix", "", room, id),
        content: content.to_string(),
        reply: None,
    }
}

#[test]
fn message_relays_edits_and_deletes() {
    let mut store = MessageStore::new();
    let rooms = rooms();
    let m1 = matrix_message("$m1", "!room:example.org", "hi @everyone");
    let plan = relay_message(&store, &rooms, &m1, &None).unwrap();
    assert_eq!(plan.room.service, "discord");
    assert_eq!(plan.room.server_id, "42");
    assert_eq!(plan.room.room_id, "100");
    assert_eq!(plan.content, "hi @\u{200B}everyone");
    assert_eq!(plan.username, "Alice (@alice:example.org)");

    let m2 = Message::new("discord", "42", "100", "900");
    assert_eq!(create_message(&mut store, m1.message.clone(), m2.clone()), Ok(()));

    let edited = matrix_message("$m1", "!room:example.org", "edited @x");
    let edits = edit_message(&store, &rooms, &edited, &None);
    assert_eq!(edits.len(), 1);
    assert_eq!(edits[0].target, m2);
    assert_eq!(edits[0].content, "edited @\u{200B}x");

    let gone = delete_message(&mut store, &m1.message);
    assert_eq!(gone, vec![m2.clone()]);
    assert_eq!(store.len(), 0);
    assert_eq!(message_origin(&store, &m2), None);

    let again = delete_message(&mut store, &m1.message);
    assert_eq!(again, Vec::<Message>::new());
    assert_eq!(store.len(), 0);
}

#[test]
fn reply_is_anchored_on_the_relay() {
    let mut store = MessageStore::new();
    let rooms = rooms();
    let m1 = Message::new("matrix", "", "!room:example.org", "$m1");
    let m2 = Message::new("discord", "42", "100", "900");
    assert_eq!(create_message(&mut store, m1.clone(), m2.clone()), Ok(()));

    let mut m3 = matrix_message("$m3", "!room:example.org", "> <@bob:hs> quoted\n\nmy answer");
    m3.reply = Some(Box::new(m1.clone()));
    let long_first_line = "z".repeat(100);
    let ctx = ReplyContext {
        target: m1.clone(),
        author_ping: "<@7>".to_string(),
        body: format!("{}\nsecond line", long_first_line),
    };
    let plan = relay_message(&store, &rooms, &m3, &Some(ctx)).unwrap();
    let expected = format!(
        "> <@\u{200B}7> [{}...](https://discord.com/channels/42/100/900)\n\nmy answer\n",
        "z".repeat(64)
    );
    assert_eq!(plan.content, expected);
}

#[test]
fn reply_to_a_gateway_message_links_its_origin() {
    let mut store = MessageStore::new();
    let origin = Message::new("discord", "42", "100", "800");
    let relay = Message::new("matrix", "", "!room:example.org", "$r");
    assert_eq!(create_message(&mut store, origin.clone(), relay.clone()), Ok(()));
    assert_eq!(find_reply_anchor(&store, &relay, "discord"), Some(origin));
    assert_eq!(find_reply_anchor(&store, &relay, "matrix"), None);
}

#[test]
fn reply_without_anchor_has_no_link() {
    let store = MessageStore::new();
    let rooms = rooms();
    let m = matrix_message("$m3", "!room:example.org", "answer");
    let ctx = ReplyContext {
        target: Message::new("matrix", "", "!room:example.org", "$unknown"),
        author_ping: "@bob:hs".to_string(),
        body: "short".to_string(),
    };
    let plan = relay_message(&store, &rooms, &m, &Some(ctx)).unwrap();
    assert_eq!(plan.content, "> @\u{200B}bob:hs short\nanswer\n");
}

#[test]
fn unbridged_room_is_ignored() {
    let mut store = MessageStore::new();
    let rooms = rooms();
    let m = matrix_message("$m1", "!elsewhere:example.org", "hello");
    assert!(relay_message(&store, &rooms, &m, &None).is_none());
    let r = Message::new("discord", "42", "100", "1");
    assert_eq!(create_message(&mut store, m.message.clone(), r), Ok(()));
    assert!(edit_message(&store, &rooms, &m, &None).is_empty());
}

#[test]
fn gateway_room_maps_to_federated_room() {
    let rooms = rooms();
    let d = destination(&rooms, &Message::new("discord", "42", "100", "1")).unwrap();
    assert_eq!(d.service, "matrix");
    assert_eq!(d.server_id, "");
    assert_eq!(d.room_id, "!room:example.org");
    assert!(destination(&rooms, &Message::new("discord", "42", "101", "1")).is_none());
    assert!(destination(&rooms, &Message::new("irc", "", "100", "1")).is_none());
}

#[test]
fn permalink_only_for_gateway_messages() {
    assert_eq!(
        permalink(&Message::new("discord", "1", "2", "3")),
        Some("https://discord.com/channels/1/2/3".to_string())
    );
    assert_eq!(permalink(&Message::new("matrix", "", "!r", "$e")), None);
}

#[test]
fn deleting_a_relay_deletes_its_origin() {
    let mut store = MessageStore::new();
    let o = Message::new("discord", "42", "100", "800");
    let r = Message::new("matrix", "", "!room:example.org", "$r");
    assert_eq!(create_message(&mut store, o.clone(), r.clone()), Ok(()));
    assert_eq!(delete_message(&mut store, &r), vec![o]);
    assert_eq!(store.len(), 0);
}

#[test]
fn edits_go_only_to_the_counterpart_platform() {
    let mut store = MessageStore::new();
    let rooms = rooms();
    let m1 = matrix_message("$m1", "!room:example.org", "v2");
    let a = Message::new("discord", "42", "100", "1");
    let b = Message::new("other", "", "x", "2");
    assert_eq!(create_message(&mut store, m1.message.clone(), a.clone()), Ok(()));
    assert_eq!(create_message(&mut store, m1.message.clone(), b), Ok(()));
    let edits = edit_message(&store, &rooms, &m1, &None);
    assert_eq!(edits.len(), 1);
    assert_eq!(edits[0].target, a);
}
