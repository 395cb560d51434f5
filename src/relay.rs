use vstd::prelude::*;

use crate::chat_service::{
    self, keys_of, lemma_deleted_is_gone, lemma_record_then_find, lemma_recorded_wf,
    recorded, record_allowed, relayed_keys_unique, message_origin, message_relays, origin_of, relays_of, rows_without,
    FullMessage, Message, MessageKey, MessageStore,
};
use crate::content::{
    build_reply_header, first_line, first_line_of, format_with_reply, reply_header, same_text,
    sanitize, sanitized, strip_reply, stripped, with_reply,
};

verus! {

/// A configured pair of bridged rooms: a federated room, and the gateway
/// channel with the server (guild) it belongs to.
#[derive(Debug)]
pub struct RoomPair {
    pub matrix: String,
    pub discord: String,
    pub discord_guild: String,
}

pub struct RoomPairKey {
    pub matrix: Seq<char>,
    pub discord: Seq<char>,
    pub discord_guild: Seq<char>,
}

impl View for RoomPair {
    type V = RoomPairKey;

    open spec fn view(&self) -> RoomPairKey {
        RoomPairKey { matrix: self.matrix@, discord: self.discord@, discord_guild: self.discord_guild@ }
    }
}

/// A room on one platform: where a relay is sent.
#[derive(Debug)]
pub struct Room {
    pub service: String,
    pub server_id: String,
    pub room_id: String,
}

pub struct RoomKey {
    pub service: Seq<char>,
    pub server_id: Seq<char>,
    pub room_id: Seq<char>,
}

impl View for Room {
    type V = RoomKey;

    open spec fn view(&self) -> RoomKey {
        RoomKey { service: self.service@, server_id: self.server_id@, room_id: self.room_id@ }
    }
}

/// The quoted side of a reply: the message replied to, how its author is
/// mentioned, and its body.
#[derive(Debug)]
pub struct ReplyContext {
    pub target: Message,
    pub author_ping: String,
    pub body: String,
}

/// What a new relay is: the room it goes to, its text, and the name it is
/// shown under.
#[derive(Debug)]
pub struct Delivery {
    pub room: Room,
    pub content: String,
    pub username: String,
}

/// An edit to make: the relayed message and its new text.
#[derive(Debug)]
pub struct EditCommand {
    pub target: Message,
    pub content: String,
}

pub open spec fn rooms_of(rooms: Seq<RoomPair>) -> Seq<RoomPairKey> {
    rooms.map_values(|p: RoomPair| p@)
}

/// Whether the pair `p` bridges the room of message `m`.
pub open spec fn pair_matches(p: RoomPairKey, m: MessageKey) -> bool {
    (m.service == "matrix"@ && p.matrix == m.room_id) || (m.service == "discord"@ && p.discord
        == m.room_id)
}

/// The room on the other side of `p` from the room of `m`.
pub open spec fn counterpart(p: RoomPairKey, m: MessageKey) -> RoomKey {
    if m.service == "matrix"@ {
        RoomKey { service: "discord"@, server_id: p.discord_guild, room_id: p.discord }
    } else {
        RoomKey { service: "matrix"@, server_id: ""@, room_id: p.matrix }
    }
}

/// The counterpart room given by the first pair, from position `k` on, that
/// bridges the room of `m`.
pub open spec fn destination_from(rooms: Seq<RoomPairKey>, m: MessageKey, k: int) -> Option<RoomKey>
    decreases rooms.len() - k,
{
    if k < 0 || k >= rooms.len() {
        None
    } else if pair_matches(rooms[k], m) {
        Some(counterpart(rooms[k], m))
    } else {
        destination_from(rooms, m, k + 1)
    }
}

/// Where a message of the room of `m` is relayed to, if that room is bridged.
pub open spec fn destination_of(rooms: Seq<RoomPairKey>, m: MessageKey) -> Option<RoomKey> {
    destination_from(rooms, m, 0)
}

/// The first identity in `ids` that lives on `service`.
pub open spec fn first_on(ids: Seq<MessageKey>, service: Seq<char>) -> Option<MessageKey>
    decreases ids.len(),
{
    if ids.len() == 0 {
        None
    } else if ids[0].service == service {
        Some(ids[0])
    } else {
        first_on(ids.drop_first(), service)
    }
}

/// The identities in `ids` that live on `service`, in order.
pub open spec fn on_service(ids: Seq<MessageKey>, service: Seq<char>) -> Seq<MessageKey>
    decreases ids.len(),
{
    if ids.len() == 0 {
        Seq::empty()
    } else {
        let prev = on_service(ids.drop_last(), service);
        if ids.last().service == service {
            prev.push(ids.last())
        } else {
            prev
        }
    }
}

/// The copy of the replied-to message `target` that lives on `service`: a
/// relay of it there if there is one, else its origin if that lives there.
pub open spec fn reply_anchor(rows: Seq<(MessageKey, MessageKey)>, target: MessageKey, service: Seq<char>) -> Option<MessageKey> {
    match first_on(relays_of(rows, target), service) {
        Some(a) => Some(a),
        None => match origin_of(rows, target) {
            Some(o) => if o.service == service {
                Some(o)
            } else {
                None
            },
            None => None,
        },
    }
}

/// The gateway's link to a message of its own.
pub open spec fn discord_link(m: MessageKey) -> Seq<char> {
    "https://discord.com/channels/"@ + m.server_id + "/"@ + m.room_id + "/"@ + m.id
}

/// A link to `m`, where its platform has a link scheme.
pub open spec fn permalink_of(m: MessageKey) -> Option<Seq<char>> {
    if m.service == "discord"@ {
        Some(discord_link(m))
    } else {
        None
    }
}

pub open spec fn reply_view(reply: Option<ReplyContext>) -> Option<(MessageKey, Seq<char>, Seq<char>)> {
    match reply {
        Some(c) => Some((c.target@, c.author_ping@, c.body@)),
        None => None,
    }
}

/// The text of a relay, before mentions are escaped: the body, headed by a
/// reply header where the message replies to another.
pub open spec fn relay_text(
    rows: Seq<(MessageKey, MessageKey)>,
    body: Seq<char>,
    reply: Option<(MessageKey, Seq<char>, Seq<char>)>,
    service: Seq<char>,
) -> Seq<char> {
    match reply {
        None => body,
        Some((target, ping, quoted)) => with_reply(
            body,
            reply_header(
                ping,
                first_line(stripped(quoted)),
                match reply_anchor(rows, target, service) {
                    Some(a) => permalink_of(a),
                    None => None,
                },
            ),
        ),
    }
}

/// The name a relay is shown under: "{display} ({tag})".
pub open spec fn display_label(display: Seq<char>, tag: Seq<char>) -> Seq<char> {
    display + " ("@ + tag + ")"@
}

/// The identities of every message to delete when `m` is deleted: its relays,
/// then its origin.
pub open spec fn delete_targets(rows: Seq<(MessageKey, MessageKey)>, m: MessageKey) -> Seq<MessageKey> {
    relays_of(rows, m) + match origin_of(rows, m) {
        Some(o) => seq![o],
        None => Seq::empty(),
    }
}

/// The room that messages of the room of `msg` are relayed to, if it is bridged.
pub fn destination(rooms: &Vec<RoomPair>, msg: &Message) -> (r: Option<Room>)
    ensures
        match r {
            Some(d) => destination_of(rooms_of(rooms@), msg@) == Some(d@),
            None => destination_of(rooms_of(rooms@), msg@) is None,
        },
{
    let from_matrix = same_text(msg.service.as_str(), "matrix");
    let from_discord = same_text(msg.service.as_str(), "discord");
    let n = rooms.len();
    let mut k: usize = 0;
    while k < n
        invariant
            n == rooms@.len(),
            k <= n,
            from_matrix == (msg@.service == "matrix"@),
            from_discord == (msg@.service == "discord"@),
            destination_from(rooms_of(rooms@), msg@, k as int) == destination_of(rooms_of(rooms@), msg@),
        decreases n - k,
    {
        let p = &rooms[k];
        assert(rooms_of(rooms@)[k as int] == p@);
        let hit = (from_matrix && same_text(p.matrix.as_str(), msg.room_id.as_str())) || (from_discord
            && same_text(p.discord.as_str(), msg.room_id.as_str()));
        if hit {
            if from_matrix {
                return Some(
                    Room {
                        service: "discord".to_owned(),
                        server_id: p.discord_guild.clone(),
                        room_id: p.discord.clone(),
                    },
                );
            } else {
                return Some(
                    Room { service: "matrix".to_owned(), server_id: "".to_owned(), room_id: p.matrix.clone() },
                );
            }
        }
        k = k + 1;
    }
    None
}

/// The gateway's link to the message `m`, or none where `m` is not a gateway
/// message.
pub fn permalink(m: &Message) -> (r: Option<String>)
    ensures
        match r {
            Some(l) => permalink_of(m@) == Some(l@),
            None => permalink_of(m@) is None,
        },
{
    if same_text(m.service.as_str(), "discord") {
        let mut out = String::from_str("https://discord.com/channels/");
        out.append(m.server_id.as_str());
        out.append("/");
        out.append(m.room_id.as_str());
        out.append("/");
        out.append(m.id.as_str());
        Some(out)
    } else {
        None
    }
}

/// The copy of the message `target` to anchor a reply to on `service`.
pub fn find_reply_anchor(store: &MessageStore, target: &Message, service: &str) -> (r: Option<
    Message,
>)
    requires
        store.wf(),
    ensures
        match r {
            Some(a) => reply_anchor(store@, target@, service@) == Some(a@),
            None => reply_anchor(store@, target@, service@) is None,
        },
{
    let relays = message_relays(store, target);
    let ghost ids = keys_of(relays@);
    let n = relays.len();
    let mut k: usize = 0;
    assert(ids.subrange(0, n as int) =~= ids);
    while k < n
        invariant
            n == relays@.len(),
            ids == keys_of(relays@),
            ids == relays_of(store@, target@),
            k <= n,
            first_on(ids.subrange(k as int, n as int), service@) == first_on(ids, service@),
        decreases n - k,
    {
        proof {
            assert(ids.subrange(k as int, n as int).drop_first() =~= ids.subrange(k + 1, n as int));
            assert(ids.subrange(k as int, n as int)[0] == relays@[k as int]@);
        }
        if same_text(relays[k].service.as_str(), service) {
            return Some(relays[k].clone());
        }
        k = k + 1;
    }
    match message_origin(store, target) {
        Some(o) => {
            if same_text(o.service.as_str(), service) {
                Some(o)
            } else {
                None
            }
        },
        None => None,
    }
}

/// The text of a relay of a message with body `body`, before mentions are
/// escaped.
pub fn relay_body(store: &MessageStore, body: &str, reply: &Option<ReplyContext>, service: &str) -> (r:
    String)
    requires
        store.wf(),
    ensures
        r@ == relay_text(store@, body@, reply_view(*reply), service@),
{
    match reply {
        None => body.to_owned(),
        Some(c) => {
            let quoted = strip_reply(c.body.as_str());
            let line = first_line_of(quoted.as_str());
            let link = match find_reply_anchor(store, &c.target, service) {
                Some(a) => permalink(&a),
                None => None,
            };
            let header = build_reply_header(c.author_ping.as_str(), line, &link);
            format_with_reply(body, header.as_str())
        },
    }
}

/// Plans the relay of a new message: nothing where its room is not bridged;
/// else the counterpart room, the text (reply header first where it replies,
/// mentions escaped) and the label "{display} ({tag})" to show it under.
pub fn relay_message(
    store: &MessageStore,
    rooms: &Vec<RoomPair>,
    message: &FullMessage,
    reply: &Option<ReplyContext>,
) -> (r: Option<Delivery>)
    requires
        store.wf(),
    ensures
        match destination_of(rooms_of(rooms@), message.message@) {
            None => r is None,
            Some(d) => r is Some && r->0.room@ == d && r->0.content@ == sanitized(
                relay_text(store@, message.content@, reply_view(*reply), d.service),
            ) && r->0.username@ == display_label(message.user.display@, message.user.tag@),
        },
{
    match destination(rooms, &message.message) {
        None => None,
        Some(room) => {
            let text = relay_body(store, message.content.as_str(), reply, room.service.as_str());
            let content = sanitize(text.as_str());
            let mut username = message.user.display.clone();
            username.append(" (");
            username.append(message.user.tag.as_str());
            username.append(")");
            Some(Delivery { room, content, username })
        },
    }
}

/// Plans the edits that follow an edit of an origin message: one for each of
/// its relays in the counterpart room's platform, all with the new text
/// (reply header first where it replies, mentions escaped). None where its room
/// is not bridged. The store is not changed.
pub fn edit_message(
    store: &MessageStore,
    rooms: &Vec<RoomPair>,
    message: &FullMessage,
    reply: &Option<ReplyContext>,
) -> (r: Vec<EditCommand>)
    requires
        store.wf(),
    ensures
        match destination_of(rooms_of(rooms@), message.message@) {
            None => r@.len() == 0,
            Some(d) => {
                &&& r@.len() == on_service(relays_of(store@, message.message@), d.service).len()
                &&& forall|i: int|
                    0 <= i < r@.len() ==> #[trigger] r@[i].target@ == on_service(
                        relays_of(store@, message.message@),
                        d.service,
                    )[i] && r@[i].content@ == sanitized(
                        relay_text(store@, message.content@, reply_view(*reply), d.service),
                    )
            },
        },
{
    let mut out: Vec<EditCommand> = Vec::new();
    match destination(rooms, &message.message) {
        None => out,
        Some(room) => {
            let text = relay_body(store, message.content.as_str(), reply, room.service.as_str());
            let content = sanitize(text.as_str());
            let relays = message_relays(store, &message.message);
            let ghost ids = keys_of(relays@);
            let ghost svc = room@.service;
            let n = relays.len();
            let mut k: usize = 0;
            while k < n
                invariant
                    n == relays@.len(),
                    ids == keys_of(relays@),
                    svc == room@.service,
                    k <= n,
                    out@.len() == on_service(ids.subrange(0, k as int), svc).len(),
                    forall|i: int|
                        0 <= i < out@.len() ==> #[trigger] out@[i].target@ == on_service(
                            ids.subrange(0, k as int),
                            svc,
                        )[i] && out@[i].content@ == content@,
                decreases n - k,
            {
                let ghost before = out@;
                proof {
                    assert(ids.subrange(0, k + 1).drop_last() =~= ids.subrange(0, k as int));
                    assert(ids.subrange(0, k + 1).last() == relays@[k as int]@);
                }
                if same_text(relays[k].service.as_str(), room.service.as_str()) {
                    let target = relays[k].clone();
                    let c = content.clone();
                    out.push(EditCommand { target, content: c });
                    assert forall|i: int| 0 <= i < out@.len() implies #[trigger] out@[i].target@
                        == on_service(ids.subrange(0, k + 1), svc)[i] && out@[i].content@
                        == content@ by {
                        if i < before.len() {
                            assert(out@[i] == before[i]);
                        }
                    }
                }
                k = k + 1;
            }
            assert(ids.subrange(0, n as int) =~= ids);
            out
        },
    }
}

/// Deletes message `message` from the store and returns every message that
/// goes with it: its relays, then its origin. The store loses every row in
/// which `message` appears.
pub fn delete_message(store: &mut MessageStore, message: &Message) -> (r: Vec<Message>)
    requires
        old(store).wf(),
    ensures
        final(store).wf(),
        final(store)@ == rows_without(old(store)@, message@),
        keys_of(r@) == delete_targets(old(store)@, message@),
{
    let mut targets = message_relays(store, message);
    let ghost relays = keys_of(targets@);
    match message_origin(store, message) {
        Some(o) => {
            targets.push(o);
            assert(keys_of(targets@) =~= delete_targets(store@, message@));
        },
        None => {
            assert(keys_of(targets@) =~= delete_targets(store@, message@));
        },
    }
    chat_service::delete_message(store, message);
    targets
}

/// `on_service` keeps every identity of `ids` that lives on `service`.
pub proof fn lemma_on_service_keeps(ids: Seq<MessageKey>, service: Seq<char>, j: int)
    requires
        0 <= j < ids.len(),
        ids[j].service == service,
    ensures
        on_service(ids, service).contains(ids[j]),
    decreases ids.len(),
{
    let init = ids.drop_last();
    if j == ids.len() - 1 {
        let cur = on_service(ids, service);
        assert(cur[cur.len() - 1] == ids[j]);
    } else {
        assert(init[j] == ids[j]);
        lemma_on_service_keeps(init, service, j);
        let prev = on_service(init, service);
        let a = choose|a: int| 0 <= a < prev.len() && prev[a] == ids[j];
        if ids.last().service == service {
            assert(on_service(ids, service)[a] == ids[j]);
        }
    }
}

/// What `first_on` gives after one more identity is appended.
pub proof fn lemma_first_on_push(ids: Seq<MessageKey>, x: MessageKey, service: Seq<char>)
    ensures
        first_on(ids.push(x), service) == if first_on(ids, service) is Some {
            first_on(ids, service)
        } else if x.service == service {
            Some(x)
        } else {
            None
        },
    decreases ids.len(),
{
    if ids.len() == 0 {
        assert(ids.push(x).drop_first() =~= Seq::<MessageKey>::empty());
    } else {
        assert(ids.push(x)[0] == ids[0]);
        assert(ids.push(x).drop_first() =~= ids.drop_first().push(x));
        lemma_first_on_push(ids.drop_first(), x, service);
    }
}

/// A message's whole life across the bridge: once `m1` is relayed as `m2`, an
/// edit of `m1` is sent to `m2`; deleting `m1` deletes `m2` and removes their
/// row; deleting `m1` again deletes nothing and leaves the store as it is.
pub proof fn lemma_relay_edit_delete(rows: Seq<(MessageKey, MessageKey)>, m1: MessageKey, m2: MessageKey)
    requires
        relayed_keys_unique(rows),
        record_allowed(rows, m1, m2),
    ensures
        on_service(relays_of(recorded(rows, m1, m2), m1), m2.service).contains(m2),
        delete_targets(recorded(rows, m1, m2), m1).contains(m2),
        !rows_without(recorded(rows, m1, m2), m1).contains((m1, m2)),
        delete_targets(rows_without(recorded(rows, m1, m2), m1), m1) == Seq::<MessageKey>::empty(),
        rows_without(rows_without(recorded(rows, m1, m2), m1), m1) == rows_without(
            recorded(rows, m1, m2),
            m1,
        ),
{
    let after = recorded(rows, m1, m2);
    lemma_record_then_find(rows, m1, m2);
    let rel = relays_of(after, m1);
    let j = choose|j: int| 0 <= j < rel.len() && rel[j] == m2;
    lemma_on_service_keeps(rel, m2.service, j);
    let dt = delete_targets(after, m1);
    assert(dt[j] == m2);
    chat_service::lemma_rows_without(after, m1);
    if rows_without(after, m1).contains((m1, m2)) {
        let a = choose|a: int| 0 <= a < rows_without(after, m1).len() && rows_without(after, m1)[a] == (m1, m2);
        assert(rows_without(after, m1)[a].0 != m1);
    }
    lemma_deleted_is_gone(after, m1);
    assert(delete_targets(rows_without(after, m1), m1) =~= Seq::<MessageKey>::empty());
}

/// A reply relayed across the bridge: where `m1` was relayed to the gateway as
/// `m2` (its first copy there), the text relayed for a reply to `m1` opens with
/// a header that quotes the first line of `m1`'s body, cut to 64 characters,
/// as a link to `m2`.
pub proof fn lemma_reply_links_relay(
    rows: Seq<(MessageKey, MessageKey)>,
    m1: MessageKey,
    m2: MessageKey,
    body: Seq<char>,
    ping: Seq<char>,
    quoted: Seq<char>,
)
    requires
        relayed_keys_unique(rows),
        origin_of(rows, m2) is None,
        first_on(relays_of(rows, m1), m2.service) is None,
        m2.service == "discord"@,
    ensures
        relay_text(recorded(rows, m1, m2), body, Some((m1, ping, quoted)), m2.service) == with_reply(
            body,
            reply_header(ping, first_line(stripped(quoted)), Some(discord_link(m2))),
        ),
{
    let after = recorded(rows, m1, m2);
    assert(after == rows.push((m1, m2)));
    assert(after.drop_last() =~= rows);
    assert(relays_of(after, m1) == relays_of(rows, m1).push(m2));
    lemma_first_on_push(relays_of(rows, m1), m2, m2.service);
}

} // verus!
