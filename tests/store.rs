use chat_bridge::chat_service::{
    create_message, delete_message, message_origin, message_relays, Message, MessageStore,
    StoreError,
};

fn matrix_msg(id: &str) -> Message {
    Message::new("matrix", "", "!room:example.org", id)
}

fn discord_msg(id: &str) -> Message {
    Message::new("discord", "42", "100", id)
}

#[test]
fn record_then_find_both_ways() {
    let mut store = MessageStore::new();
    let o = matrix_msg("$m1");
    let r = discord_msg("555");
    assert_eq!(create_message(&mut store, o.clone(), r.clone()), Ok(()));
    assert_eq!(message_origin(&store, &r), Some(o.clone()));
    assert_eq!(message_relays(&store, &o), vec![r.clone()]);
    assert_eq!(message_origin(&store, &o), None);
    assert_eq!(message_relays(&store, &r), Vec::<Message>::new());
}

#[test]
fn record_twice_keeps_one_row() {
    let mut store = MessageStore::new();
    let o = matrix_msg("$m1");
    let r = discord_msg("555");
    assert_eq!(create_message(&mut store, o.clone(), r.clone()), Ok(()));
    assert_eq!(create_message(&mut store, o.clone(), r.clone()), Ok(()));
    assert_eq!(store.len(), 1);
    assert_eq!(store.row(0), (o, r));
}

#[test]
fn second_origin_for_a_relay_is_refused() {
    let mut store = MessageStore::new();
    let o1 = matrix_msg("$m1");
    let o2 = matrix_msg("$m2");
    let r = discord_msg("555");
    assert_eq!(create_message(&mut store, o1.clone(), r.clone()), Ok(()));
    assert_eq!(
        create_message(&mut store, o2.clone(), r.clone()),
        Err(StoreError::ConflictingOrigin)
    );
    assert_eq!(store.len(), 1);
    assert_eq!(message_origin(&store, &r), Some(o1));
    assert_eq!(message_relays(&store, &o2), Vec::<Message>::new());
}

#[test]
fn identities_differing_in_one_component_are_distinct() {
    let mut store = MessageStore::new();
    let o = matrix_msg("$m1");
    let r = discord_msg("555");
    let other_room = Message::new("discord", "42", "101", "555");
    assert_eq!(create_message(&mut store, o.clone(), r.clone()), Ok(()));
    assert_eq!(message_origin(&store, &other_room), None);
}

#[test]
fn relays_come_in_insertion_order() {
    let mut store = MessageStore::new();
    let o = matrix_msg("$m1");
    let a = discord_msg("1");
    let b = Message::new("other", "", "room", "2");
    let c = discord_msg("3");
    assert_eq!(create_message(&mut store, o.clone(), a.clone()), Ok(()));
    assert_eq!(create_message(&mut store, matrix_msg("$x"), discord_msg("9")), Ok(()));
    assert_eq!(create_message(&mut store, o.clone(), b.clone()), Ok(()));
    assert_eq!(create_message(&mut store, o.clone(), c.clone()), Ok(()));
    assert_eq!(message_relays(&store, &o), vec![a, b, c]);
}

#[test]
fn delete_by_origin_side() {
    let mut store = MessageStore::new();
    let o = matrix_msg("$m1");
    let r = discord_msg("555");
    assert_eq!(create_message(&mut store, o.clone(), r.clone()), Ok(()));
    delete_message(&mut store, &o);
    assert_eq!(message_relays(&store, &o), Vec::<Message>::new());
    assert_eq!(message_origin(&store, &r), None);
    assert_eq!(store.len(), 0);
}

#[test]
fn delete_by_relay_side() {
    let mut store = MessageStore::new();
    let o = matrix_msg("$m1");
    let r = discord_msg("555");
    let r2 = discord_msg("556");
    assert_eq!(create_message(&mut store, o.clone(), r.clone()), Ok(()));
    assert_eq!(create_message(&mut store, o.clone(), r2.clone()), Ok(()));
    delete_message(&mut store, &r);
    assert_eq!(message_origin(&store, &r), None);
    assert_eq!(message_relays(&store, &o), vec![r2.clone()]);
    assert_eq!(message_origin(&store, &r2), Some(o));
}

#[test]
fn delete_of_unknown_message_changes_nothing() {
    let mut store = MessageStore::new();
    let o = matrix_msg("$m1");
    let r = discord_msg("555");
    assert_eq!(create_message(&mut store, o.clone(), r.clone()), Ok(()));
    delete_message(&mut store, &matrix_msg("$nothing"));
    assert_eq!(store.len(), 1);
    assert_eq!(store.row(0), (o, r));
}

#[test]
fn empty_store_finds_nothing() {
    let store = MessageStore::new();
    assert_eq!(store.len(), 0);
    assert_eq!(message_origin(&store, &discord_msg("1")), None);
    assert_eq!(message_relays(&store, &matrix_msg("$1")), Vec::<Message>::new());
}
