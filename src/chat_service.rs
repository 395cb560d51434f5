use vstd::prelude::*;

verus! {

/// What identifies a message, seen mathematically: the four key components.
pub struct MessageKey {
    pub service: Seq<char>,
    pub server_id: Seq<char>,
    pub room_id: Seq<char>,
    pub id: Seq<char>,
}

/// A message's identity across both platforms. `server_id` is empty where
/// the platform has no notion of a server.
#[derive(Debug, PartialEq, Eq)]
pub struct Message {
    pub service: String,
    pub server_id: String,
    pub room_id: String,
    pub id: String,
}

impl View for Message {
    type V = MessageKey;

    open spec fn view(&self) -> MessageKey {
        MessageKey {
            service: self.service@,
            server_id: self.server_id@,
            room_id: self.room_id@,
            id: self.id@,
        }
    }
}

impl Clone for Message {
    fn clone(&self) -> (r: Self)
        ensures
            r@ == self@,
    {
        Message {
            service: self.service.clone(),
            server_id: self.server_id.clone(),
            room_id: self.room_id.clone(),
            id: self.id.clone(),
        }
    }
}

impl Message {
    /// Builds an identity from its four components.
    pub fn new(service: &str, server_id: &str, room_id: &str, id: &str) -> (r: Message)
        ensures
            r@ == (MessageKey { service: service@, server_id: server_id@, room_id: room_id@, id: id@ }),
    {
        Message {
            service: service.to_owned(),
            server_id: server_id.to_owned(),
            room_id: room_id.to_owned(),
            id: id.to_owned(),
        }
    }

    /// Whether two identities name the same message.
    pub fn same_as(&self, other: &Message) -> (r: bool)
        ensures
            r == (self@ == other@),
    {
        self.service == other.service && self.server_id == other.server_id
            && self.room_id == other.room_id && self.id == other.id
    }
}

/// The author of a message, rebuilt for every event and never stored.
#[derive(Debug)]
pub struct User {
    /// Platform the author writes on, e.g. "matrix" or "discord".
    pub source: String,
    pub id: String,
    /// Text that mentions the author on its own platform.
    pub ping: String,
    pub tag: String,
    pub display: String,
    pub avatar: Option<String>,
}

/// A message together with its author, body and the message it replies to.
#[derive(Debug)]
pub struct FullMessage {
    pub user: User,
    pub message: Message,
    pub content: String,
    pub reply: Option<Box<Message>>,
}


/// One persisted link: a message as first written, and one of its relays.
pub struct CorrelationRecord {
    pub origin: Message,
    pub relayed: Message,
}

impl View for CorrelationRecord {
    type V = (MessageKey, MessageKey);

    open spec fn view(&self) -> (MessageKey, MessageKey) {
        (self.origin@, self.relayed@)
    }
}

/// The identities of a sequence of messages.
pub open spec fn keys_of(v: Seq<Message>) -> Seq<MessageKey> {
    v.map_values(|m: Message| m@)
}

/// No relayed identity appears in two rows: every relay has at most one origin,
/// and no row is stored twice.
pub open spec fn relayed_keys_unique(rows: Seq<(MessageKey, MessageKey)>) -> bool {
    forall|i: int, j: int|
        0 <= i < rows.len() && 0 <= j < rows.len() && i != j ==> #[trigger] rows[i].1 != #[trigger] rows[j].1
}

/// Whether some row has `r` as its relayed side.
pub open spec fn is_relayed(rows: Seq<(MessageKey, MessageKey)>, r: MessageKey) -> bool {
    exists|i: int| 0 <= i < rows.len() && #[trigger] rows[i].1 == r
}

/// The origin recorded for the relayed identity `r`, if any.
pub open spec fn origin_of(rows: Seq<(MessageKey, MessageKey)>, r: MessageKey) -> Option<MessageKey> {
    if is_relayed(rows, r) {
        Some(rows[choose|i: int| 0 <= i < rows.len() && #[trigger] rows[i].1 == r].0)
    } else {
        None
    }
}

/// The relayed identities of every row whose origin is `o`, in row order.
pub open spec fn relays_of(rows: Seq<(MessageKey, MessageKey)>, o: MessageKey) -> Seq<MessageKey>
    decreases rows.len(),
{
    if rows.len() == 0 {
        Seq::empty()
    } else {
        let prev = relays_of(rows.drop_last(), o);
        if rows.last().0 == o {
            prev.push(rows.last().1)
        } else {
            prev
        }
    }
}

/// The rows in which `k` appears on neither side, in row order.
pub open spec fn rows_without(rows: Seq<(MessageKey, MessageKey)>, k: MessageKey) -> Seq<
    (MessageKey, MessageKey),
>
    decreases rows.len(),
{
    if rows.len() == 0 {
        Seq::empty()
    } else {
        let prev = rows_without(rows.drop_last(), k);
        if rows.last().0 != k && rows.last().1 != k {
            prev.push(rows.last())
        } else {
            prev
        }
    }
}

/// Every row kept by `rows_without` is a row of `rows` that does not mention
/// `k`, and the kept rows stay free of shared relayed identities.
pub proof fn lemma_rows_without(rows: Seq<(MessageKey, MessageKey)>, k: MessageKey)
    ensures
        forall|m: int|
            0 <= m < rows_without(rows, k).len() ==> {
                &&& rows.contains(#[trigger] rows_without(rows, k)[m])
                &&& rows_without(rows, k)[m].0 != k
                &&& rows_without(rows, k)[m].1 != k
            },
        relayed_keys_unique(rows) ==> relayed_keys_unique(rows_without(rows, k)),
    decreases rows.len(),
{
    if rows.len() > 0 {
        let init = rows.drop_last();
        lemma_rows_without(init, k);
        let prev = rows_without(init, k);
        let w = rows_without(rows, k);
        assert forall|m: int| 0 <= m < prev.len() implies rows.contains(#[trigger] prev[m]) by {
            let j = choose|j: int| 0 <= j < init.len() && init[j] == prev[m];
            assert(rows[j] == prev[m]);
        }
        if rows.last().0 != k && rows.last().1 != k {
            assert(rows[rows.len() - 1] == rows.last());
            if relayed_keys_unique(rows) {
                assert forall|i: int, j: int|
                    0 <= i < w.len() && 0 <= j < w.len() && i != j implies #[trigger] w[i].1
                    != #[trigger] w[j].1 by {
                    if i < prev.len() && j < prev.len() {
                        assert(w[i] == prev[i] && w[j] == prev[j]);
                    } else if i < prev.len() {
                        let a = choose|a: int| 0 <= a < init.len() && init[a] == prev[i];
                        assert(rows[a] == w[i]);
                        assert(rows[rows.len() - 1] == w[j]);
                    } else {
                        let a = choose|a: int| 0 <= a < init.len() && init[a] == prev[j];
                        assert(rows[a] == w[j]);
                        assert(rows[rows.len() - 1] == w[i]);
                    }
                }
            }
        }
        if relayed_keys_unique(rows) {
            assert forall|i: int, j: int|
                0 <= i < init.len() && 0 <= j < init.len() && i != j implies #[trigger] init[i].1
                != #[trigger] init[j].1 by {
                assert(init[i] == rows[i] && init[j] == rows[j]);
            }
        }
    }
}

/// Whether `r` may be recorded as a relay of `o`: it is not yet a relay, or
/// already one of `o`.
pub open spec fn record_allowed(rows: Seq<(MessageKey, MessageKey)>, o: MessageKey, r: MessageKey) -> bool {
    origin_of(rows, r) is None || origin_of(rows, r) == Some(o)
}

/// The rows after recording `r` as a relay of `o`: a new row only where `r` is
/// not yet the relay of anything.
pub open spec fn recorded(rows: Seq<(MessageKey, MessageKey)>, o: MessageKey, r: MessageKey) -> Seq<
    (MessageKey, MessageKey),
> {
    if origin_of(rows, r) is None {
        rows.push((o, r))
    } else {
        rows
    }
}

/// Recording keeps relayed identities unique.
pub proof fn lemma_recorded_wf(rows: Seq<(MessageKey, MessageKey)>, o: MessageKey, r: MessageKey)
    requires
        relayed_keys_unique(rows),
    ensures
        relayed_keys_unique(recorded(rows, o, r)),
{
    if origin_of(rows, r) is None {
        let s = rows.push((o, r));
        assert forall|i: int, j: int|
            0 <= i < s.len() && 0 <= j < s.len() && i != j implies #[trigger] s[i].1
            != #[trigger] s[j].1 by {
            if i < rows.len() && j < rows.len() {
                assert(s[i] == rows[i] && s[j] == rows[j]);
            } else if i < rows.len() {
                assert(s[i] == rows[i]);
            } else {
                assert(s[j] == rows[j]);
            }
        }
    }
}

/// Every member of `relays_of(rows, o)` comes from a row `(o, m)`, and every
/// row `(o, m)` puts `m` among them.
pub proof fn lemma_relays_of_members(rows: Seq<(MessageKey, MessageKey)>, o: MessageKey)
    ensures
        forall|m: MessageKey| #[trigger] relays_of(rows, o).contains(m) ==> rows.contains((o, m)),
        forall|j: int| 0 <= j < rows.len() && #[trigger] rows[j].0 == o ==> relays_of(rows, o).contains(rows[j].1),
    decreases rows.len(),
{
    if rows.len() > 0 {
        let init = rows.drop_last();
        lemma_relays_of_members(init, o);
        let prev = relays_of(init, o);
        let cur = relays_of(rows, o);
        assert forall|m: MessageKey| #[trigger] cur.contains(m) implies rows.contains((o, m)) by {
            if prev.contains(m) {
                let a = choose|a: int| 0 <= a < init.len() && init[a] == (o, m);
                assert(rows[a] == (o, m));
            } else {
                assert(rows[rows.len() - 1] == (o, m));
            }
        }
        assert forall|j: int| 0 <= j < rows.len() && #[trigger] rows[j].0 == o implies cur.contains(rows[j].1) by {
            if j < rows.len() - 1 {
                assert(init[j] == rows[j]);
                assert(prev.contains(rows[j].1));
                if rows.last().0 == o {
                    let k = choose|k: int| 0 <= k < prev.len() && prev[k] == rows[j].1;
                    assert(cur[k] == rows[j].1);
                }
            } else {
                assert(cur[cur.len() - 1] == rows[j].1);
            }
        }
    }
}

/// Round trip: once `r` is recorded as a relay of `o`, the origin of `r` is
/// `o`, and `r` is among the relays of `o`.
pub proof fn lemma_record_then_find(rows: Seq<(MessageKey, MessageKey)>, o: MessageKey, r: MessageKey)
    requires
        relayed_keys_unique(rows),
        record_allowed(rows, o, r),
    ensures
        origin_of(recorded(rows, o, r), r) == Some(o),
        relays_of(recorded(rows, o, r), o).contains(r),
{
    let after = recorded(rows, o, r);
    lemma_recorded_wf(rows, o, r);
    lemma_relays_of_members(after, o);
    if origin_of(rows, r) is None {
        assert(after[rows.len() as int] == (o, r));
        assert(after[rows.len() as int].1 == r);
        assert(is_relayed(after, r));
        let j = choose|j: int| 0 <= j < after.len() && #[trigger] after[j].1 == r;
        assert(j == rows.len());
    } else {
        let j = choose|j: int| 0 <= j < rows.len() && #[trigger] rows[j].1 == r;
        assert(rows[j].0 == o);
    }
}

/// Recording a pair twice is the same as recording it once, and leaves exactly
/// one row for it.
pub proof fn lemma_record_idempotent(rows: Seq<(MessageKey, MessageKey)>, o: MessageKey, r: MessageKey)
    requires
        relayed_keys_unique(rows),
        record_allowed(rows, o, r),
    ensures
        recorded(recorded(rows, o, r), o, r) == recorded(rows, o, r),
        exists|i: int|
            0 <= i < recorded(rows, o, r).len() && #[trigger] recorded(rows, o, r)[i] == (o, r) && forall|
                j: int,
            |
                0 <= j < recorded(rows, o, r).len() && #[trigger] recorded(rows, o, r)[j] == (o, r) ==> j
                    == i,
{
    let after = recorded(rows, o, r);
    lemma_record_then_find(rows, o, r);
    lemma_recorded_wf(rows, o, r);
    let i = choose|i: int| 0 <= i < after.len() && #[trigger] after[i].1 == r;
    assert(after[i] == (o, r));
    assert forall|j: int| 0 <= j < after.len() && #[trigger] after[j] == (o, r) implies j == i by {
        assert(after[j].1 == after[i].1);
    }
}

/// At most one origin: two rows that share their relayed identity are the same
/// row, so a relayed identity resolves to a single origin.
pub proof fn lemma_at_most_one_origin(rows: Seq<(MessageKey, MessageKey)>, i: int, j: int)
    requires
        relayed_keys_unique(rows),
        0 <= i < rows.len(),
        0 <= j < rows.len(),
        rows[i].1 == rows[j].1,
    ensures
        i == j,
        rows[i].0 == rows[j].0,
        origin_of(rows, rows[i].1) == Some(rows[i].0),
{
    let c = choose|c: int| 0 <= c < rows.len() && #[trigger] rows[c].1 == rows[i].1;
    assert(rows[c].1 == rows[i].1);
}

/// Deleting either side of a recorded pair unlinks it: after deleting `o` it
/// has no relays left and `r` no origin; after deleting `r` it has no origin
/// and is no relay of `o`.
pub proof fn lemma_delete_either_side(rows: Seq<(MessageKey, MessageKey)>, o: MessageKey, r: MessageKey)
    requires
        relayed_keys_unique(rows),
        record_allowed(rows, o, r),
    ensures
        relays_of(rows_without(recorded(rows, o, r), o), o) == Seq::<MessageKey>::empty(),
        origin_of(rows_without(recorded(rows, o, r), o), r) is None,
        origin_of(rows_without(recorded(rows, o, r), r), r) is None,
        !relays_of(rows_without(recorded(rows, o, r), r), o).contains(r),
{
    let after = recorded(rows, o, r);
    lemma_record_then_find(rows, o, r);
    lemma_recorded_wf(rows, o, r);
    let c = choose|c: int| 0 <= c < after.len() && #[trigger] after[c].1 == r;
    assert(after[c].0 == o);

    let wo = rows_without(after, o);
    lemma_rows_without(after, o);
    lemma_relays_of_members(wo, o);
    let ro = relays_of(wo, o);
    if ro.len() > 0 {
        assert(ro.contains(ro[0]));
        let m = choose|m: int| 0 <= m < wo.len() && wo[m] == (o, ro[0]);
        assert(wo[m].0 != o);
    }
    assert(ro =~= Seq::<MessageKey>::empty());
    if is_relayed(wo, r) {
        let m = choose|m: int| 0 <= m < wo.len() && #[trigger] wo[m].1 == r;
        assert(after.contains(wo[m]));
        let a = choose|a: int| 0 <= a < after.len() && after[a] == wo[m];
        assert(after[a].1 == after[c].1);
        assert(wo[m].0 != o);
    }

    let wr = rows_without(after, r);
    lemma_rows_without(after, r);
    lemma_relays_of_members(wr, o);
    if is_relayed(wr, r) {
        let m = choose|m: int| 0 <= m < wr.len() && #[trigger] wr[m].1 == r;
        assert(wr[m].1 != r);
    }
    if relays_of(wr, o).contains(r) {
        let m = choose|m: int| 0 <= m < wr.len() && wr[m] == (o, r);
        assert(wr[m].1 != r);
    }
}

/// Once `k` is deleted, it has no relays and no origin left.
pub proof fn lemma_deleted_is_gone(rows: Seq<(MessageKey, MessageKey)>, k: MessageKey)
    ensures
        relays_of(rows_without(rows, k), k) == Seq::<MessageKey>::empty(),
        origin_of(rows_without(rows, k), k) is None,
        rows_without(rows_without(rows, k), k) == rows_without(rows, k),
{
    let w = rows_without(rows, k);
    lemma_rows_without(rows, k);
    lemma_relays_of_members(w, k);
    let rk = relays_of(w, k);
    if rk.len() > 0 {
        assert(rk.contains(rk[0]));
        let m = choose|m: int| 0 <= m < w.len() && w[m] == (k, rk[0]);
        assert(w[m].0 != k);
    }
    assert(rk =~= Seq::<MessageKey>::empty());
    if is_relayed(w, k) {
        let m = choose|m: int| 0 <= m < w.len() && #[trigger] w[m].1 == k;
        assert(w[m].1 != k);
    }
    lemma_rows_without_absent(w, k);
}

/// Deleting a key that appears in no row changes nothing.
pub proof fn lemma_rows_without_absent(rows: Seq<(MessageKey, MessageKey)>, k: MessageKey)
    requires
        forall|i: int| 0 <= i < rows.len() ==> #[trigger] rows[i].0 != k && rows[i].1 != k,
    ensures
        rows_without(rows, k) == rows,
    decreases rows.len(),
{
    if rows.len() > 0 {
        let init = rows.drop_last();
        assert forall|i: int| 0 <= i < init.len() implies #[trigger] init[i].0 != k && init[i].1 != k by {
            assert(init[i] == rows[i]);
        }
        lemma_rows_without_absent(init, k);
        assert(rows[rows.len() - 1] == rows.last());
        assert(init.push(rows.last()) =~= rows);
    }
}

/// Errors of the correlation store.
#[derive(PartialEq, Eq, Structural, Clone, Copy, Debug)]
pub enum StoreError {
    /// The relayed identity is already linked to a different origin.
    ConflictingOrigin,
}

/// The correlation store: every link between an origin message and its relays.
pub struct MessageStore {
    rows: Vec<CorrelationRecord>,
}

impl View for MessageStore {
    type V = Seq<(MessageKey, MessageKey)>;

    closed spec fn view(&self) -> Seq<(MessageKey, MessageKey)> {
        self.rows@.map_values(|r: CorrelationRecord| r@)
    }
}

impl MessageStore {
    /// The store's invariant: at most one origin per relayed identity.
    pub open spec fn wf(&self) -> bool {
        relayed_keys_unique(self@)
    }

    /// An empty store.
    pub fn new() -> (r: MessageStore)
        ensures
            r.wf(),
            r@ == Seq::<(MessageKey, MessageKey)>::empty(),
    {
        let r = MessageStore { rows: Vec::new() };
        assert(r@ =~= Seq::<(MessageKey, MessageKey)>::empty());
        r
    }

    /// The number of rows.
    pub fn len(&self) -> (r: usize)
        ensures
            r == self@.len(),
    {
        self.rows.len()
    }

    /// The row at position `i`, as (origin, relayed).
    pub fn row(&self, i: usize) -> (r: (Message, Message))
        requires
            i < self@.len(),
        ensures
            (r.0@, r.1@) == self@[i as int],
    {
        (self.rows[i].origin.clone(), self.rows[i].relayed.clone())
    }
}

} // verus!

verus! {

/// Records that `relayed` was created as a relay of `source`. Recording the same
/// pair again changes nothing; linking a relayed identity to a second origin is
/// refused and leaves the store as it was.
pub fn create_message(store: &mut MessageStore, source: Message, relayed: Message) -> (r: Result<
    (),
    StoreError,
>)
    requires
        old(store).wf(),
    ensures
        final(store).wf(),
        final(store)@ == recorded(old(store)@, source@, relayed@),
        r is Ok <==> record_allowed(old(store)@, source@, relayed@),
        r is Err ==> r == Err::<(), StoreError>(StoreError::ConflictingOrigin),
{
    match message_origin(store, &relayed) {
        Some(o) => {
            if o.same_as(&source) {
                Ok(())
            } else {
                Err(StoreError::ConflictingOrigin)
            }
        },
        None => {
            let ghost before = store@;
            let ghost key = (source@, relayed@);
            store.rows.push(CorrelationRecord { origin: source, relayed });
            proof {
                assert(store@ =~= before.push(key));
                lemma_recorded_wf(before, key.0, key.1);
            }
            Ok(())
        },
    }
}

/// The origin of the relayed message `relayed`, if it is one.
pub fn message_origin(store: &MessageStore, relayed: &Message) -> (r: Option<Message>)
    requires
        store.wf(),
    ensures
        match r {
            Some(o) => origin_of(store@, relayed@) == Some(o@),
            None => origin_of(store@, relayed@) is None,
        },
{
    let n = store.rows.len();
    let mut i: usize = 0;
    while i < n
        invariant
            n == store@.len(),
            store.wf(),
            i <= n,
            forall|k: int| 0 <= k < i ==> #[trigger] store@[k].1 != relayed@,
        decreases n - i,
    {
        if store.rows[i].relayed.same_as(relayed) {
            proof {
                assert(store@[i as int].1 == relayed@);
                let j = choose|j: int| 0 <= j < store@.len() && #[trigger] store@[j].1 == relayed@;
                assert(j == i);
            }
            return Some(store.rows[i].origin.clone());
        }
        i = i + 1;
    }
    None
}

/// Every relay recorded for `source`, in the order in which they were recorded.
pub fn message_relays(store: &MessageStore, source: &Message) -> (r: Vec<Message>)
    ensures
        keys_of(r@) == relays_of(store@, source@),
{
    let n = store.rows.len();
    let mut out: Vec<Message> = Vec::new();
    let mut i: usize = 0;
    while i < n
        invariant
            n == store@.len(),
            i <= n,
            keys_of(out@) == relays_of(store@.subrange(0, i as int), source@),
        decreases n - i,
    {
        let ghost before = out@;
        proof {
            assert(store@.subrange(0, i + 1).drop_last() =~= store@.subrange(0, i as int));
            assert(store@[i as int] == (store.rows@[i as int].origin@, store.rows@[i as int].relayed@));
        }
        if store.rows[i].origin.same_as(source) {
            out.push(store.rows[i].relayed.clone());
            assert(keys_of(out@) =~= keys_of(before).push(store@[i as int].1));
        }
        i = i + 1;
    }
    assert(store@.subrange(0, n as int) =~= store@);
    out
}

/// Removes every row in which `msg` appears, as origin or as relay. A message
/// that appears nowhere leaves the store unchanged.
pub fn delete_message(store: &mut MessageStore, msg: &Message)
    requires
        old(store).wf(),
    ensures
        final(store).wf(),
        final(store)@ == rows_without(old(store)@, msg@),
{
    let ghost rows = store@;
    let n = store.rows.len();
    let mut kept: Vec<CorrelationRecord> = Vec::new();
    let mut i: usize = 0;
    while i < n
        invariant
            n == rows.len(),
            rows == store@,
            i <= n,
            kept@.map_values(|r: CorrelationRecord| r@) == rows_without(rows.subrange(0, i as int), msg@),
        decreases n - i,
    {
        let ghost before = kept@;
        proof {
            assert(rows.subrange(0, i + 1).drop_last() =~= rows.subrange(0, i as int));
            assert(rows[i as int] == store.rows@[i as int]@);
        }
        let row = &store.rows[i];
        if !row.origin.same_as(msg) && !row.relayed.same_as(msg) {
            kept.push(CorrelationRecord { origin: row.origin.clone(), relayed: row.relayed.clone() });
            assert(kept@.map_values(|r: CorrelationRecord| r@) =~= before.map_values(
                |r: CorrelationRecord| r@,
            ).push(rows[i as int]));
        }
        i = i + 1;
    }
    assert(rows.subrange(0, n as int) =~= rows);
    store.rows = kept;
    proof {
        lemma_rows_without(rows, msg@);
    }
}

} // verus!
