//! The queue of outgoing messages and the ledger of received ones: what is due, what is tried
//! again, what is given up, and what has been seen before.
use vstd::prelude::*;
use crate::arith::{same_bytes, sat_u64};
use crate::bytes::{same, to_array, to_vec};
use crate::crypto::generator_failed;
use crate::envelope::{Envelope, EnvelopeData, MsgId, PayloadKind};
use crate::identity::NodeId;
use crate::lists::{lemma_filter_all, lemma_filter_keeps, lemma_filter_push, lemma_push_contains};
use crate::retry::RetryPolicy;
use crate::text::{append_signed, signed_decimal};
use crate::CoreError;

verus! {

/// Most received messages that the ledger remembers.
pub const INBOX_SEEN_CAP: u32 = 16384;

/// How long a received message is remembered at least.
pub const SEEN_RETENTION_WINDOW_MS: u64 = 604_800_000;

/// What has become of an outgoing message.
#[derive(Debug, Clone, Copy, PartialEq, Eq, Structural)]
pub enum RowState {
    Pending,
    Sent,
    Dead,
    /// A state that the library does not know.
    Unknown,
}

/// An outgoing message as it is stored. The byte strings are as long as the store says; whether
/// they are as long as they should be is found out when the row is used.
#[derive(Debug)]
pub struct StoredRow {
    pub msg_id: Vec<u8>,
    pub recipient: Option<Vec<u8>>,
    pub group_id: Option<Vec<u8>>,
    pub kind: i64,
    pub body: Vec<u8>,
    pub state: RowState,
    pub attempts: u32,
    pub next_attempt_ms: i64,
    pub created_ms: i64,
    /// The whole envelope, if it was kept; a text instead if what was kept cannot be read.
    pub archive: Option<Result<Envelope, String>>,
}

/// What a stored row says.
pub struct StoredData {
    pub msg_id: Seq<u8>,
    pub recipient: Option<Seq<u8>>,
    pub group_id: Option<Seq<u8>>,
    pub kind: i64,
    pub body: Seq<u8>,
    pub state: RowState,
    pub attempts: u32,
    pub next_attempt_ms: i64,
    pub created_ms: i64,
    pub archive: Option<Result<EnvelopeData, Seq<char>>>,
}

/// The bytes of an optional byte string.
pub open spec fn optional_bytes(v: Option<Vec<u8>>) -> Option<Seq<u8>> {
    match v {
        Some(b) => Some(b@),
        None => None,
    }
}

/// The bytes of an optional key.
pub open spec fn key_bytes(k: Option<NodeId>) -> Option<Seq<u8>> {
    match k {
        Some(id) => Some(id@),
        None => None,
    }
}

impl View for StoredRow {
    type V = StoredData;

    open spec fn view(&self) -> StoredData {
        StoredData {
            msg_id: self.msg_id@,
            recipient: optional_bytes(self.recipient),
            group_id: optional_bytes(self.group_id),
            kind: self.kind,
            body: self.body@,
            state: self.state,
            attempts: self.attempts,
            next_attempt_ms: self.next_attempt_ms,
            created_ms: self.created_ms,
            archive: match self.archive {
                Some(Ok(e)) => Some(Ok(e@)),
                Some(Err(t)) => Some(Err(t@)),
                None => None,
            },
        }
    }
}

/// An outgoing message, as callers see it.
#[derive(Debug)]
pub struct PendingRow {
    pub msg_id: MsgId,
    pub recipient: Option<[u8; 32]>,
    pub group_id: Option<[u8; 32]>,
    pub kind: u8,
    pub body: Vec<u8>,
    pub attempts: u32,
}

/// An optional key has the length of one.
pub open spec fn key_sized(v: Option<Seq<u8>>) -> bool {
    v matches Some(b) ==> b.len() == 32
}

impl StoredData {
    /// The byte strings have the lengths they should have.
    pub open spec fn sized(self) -> bool {
        self.msg_id.len() == 16 && key_sized(self.recipient) && key_sized(self.group_id)
    }

    /// The row as callers see it.
    pub open spec fn is_pending_row(self, p: PendingRow) -> bool {
        &&& p.msg_id@ == self.msg_id
        &&& key_bytes(p.recipient) == self.recipient
        &&& key_bytes(p.group_id) == self.group_id
        &&& p.kind == (self.kind as u8)
        &&& p.body@ == self.body
        &&& p.attempts == self.attempts
    }

    /// The envelope can be had: the kept one if it is sound, else one made from the columns.
    pub open spec fn restorable(self) -> bool {
        match self.archive {
            Some(Ok(e)) => e.one_way() && e.can_spread(),
            Some(Err(_)) => false,
            None => self.sized() && 1 <= self.kind <= 4,
        }
    }

    /// The envelope of a row. What the columns do not hold is filled in: no sender, six hops.
    pub open spec fn is_restored(self, e: EnvelopeData) -> bool {
        match self.archive {
            Some(Ok(kept)) => e == kept,
            Some(Err(_)) => false,
            None => {
                &&& e.msg_id@ == self.msg_id
                &&& e.sender@ == Seq::new(32, |i: int| 0u8)
                &&& key_bytes(e.recipient) == self.recipient
                &&& key_bytes(e.group) == self.group_id
                &&& e.kind.number() == self.kind
                &&& e.body == self.body
                &&& e.sent_at_ms == if self.created_ms < 0 {
                    0
                } else {
                    self.created_ms as u64
                }
                &&& e.ttl_hops == 6
                &&& e.sig is None
            },
        }
    }

    /// The row that an envelope is stored as.
    pub open spec fn of_envelope(e: EnvelopeData, whole: bool) -> StoredData {
        StoredData {
            msg_id: e.msg_id@,
            recipient: key_bytes(e.recipient),
            group_id: key_bytes(e.group),
            kind: e.kind.number() as i64,
            body: e.body,
            state: RowState::Pending,
            attempts: 0,
            next_attempt_ms: 0,
            created_ms: clamped_ms(e.sent_at_ms),
            archive: if whole {
                Some(Ok(e))
            } else {
                None
            },
        }
    }
}

/// A time as it is stored: what does not fit counts as the end of time, not as its beginning.
pub open spec fn clamped_ms(v: u64) -> i64 {
    if v > i64::MAX {
        i64::MAX
    } else {
        v as i64
    }
}

/// A time as it is stored.
pub fn clamp_ms(v: u64) -> (r: i64)
    ensures
        r == clamped_ms(v),
{
    if v > i64::MAX as u64 {
        i64::MAX
    } else {
        v as i64
    }
}

/// Storing times keeps their order, and no time turns negative.
pub proof fn law_clamping_keeps_order(a: u64, b: u64)
    requires
        a <= b,
    ensures
        0 <= clamped_ms(a) <= clamped_ms(b),
{
}

/// The fault of a row with a byte string of the wrong length.
pub open spec fn column_fault(r: StoredData) -> Seq<char> {
    if r.msg_id.len() != 16 {
        "Invalid column type Blob at index: 0, name: msg_id"@
    } else if !key_sized(r.recipient) {
        "Invalid column type Blob at index: 1, name: recipient"@
    } else {
        "Invalid column type Blob at index: 2, name: group_id"@
    }
}

/// The fault of a row that gives no envelope.
pub open spec fn restore_fault(r: StoredData) -> Seq<char> {
    match r.archive {
        Some(Ok(e)) => "Conversion error from type Blob at index: 6, "@ + ("CBOR 编解码错误: "@
            + e.shape_fault()),
        Some(Err(text)) => "Conversion error from type Blob at index: 6, "@ + text,
        None => if !r.sized() {
            column_fault(r)
        } else {
            "Conversion error from type Integer at index: 3, 数据库错误: 未知 PayloadKind: "@
                + signed_decimal(r.kind as int)
        },
    }
}

/// Makes a key of an optional byte string, if it has the length of one.
fn optional_key_of(v: &Option<Vec<u8>>) -> (r: Result<Option<[u8; 32]>, ()>)
    ensures
        match r {
            Ok(k) => key_sized(optional_bytes(*v)) && key_bytes(k) == optional_bytes(*v),
            Err(_) => !key_sized(optional_bytes(*v)),
        },
{
    match v {
        None => Ok(None),
        Some(b) => {
            if b.len() != 32 {
                return Err(());
            }
            assert(b@.take(32) =~= b@);
            Ok(Some(to_array::<32>(b.as_slice())))
        },
    }
}

/// The keys of a row, or its fault.
fn row_keys(r: &StoredRow) -> (k: Result<(MsgId, Option<[u8; 32]>, Option<[u8; 32]>), CoreError>)
    ensures
        match k {
            Ok((id, recipient, group)) => r@.sized() && id@ == r@.msg_id && key_bytes(recipient)
                == r@.recipient && key_bytes(group) == r@.group_id,
            Err(e) => !r@.sized() && e is Db && e.text() == column_fault(r@),
        },
{
    if r.msg_id.len() != 16 {
        return Err(
            CoreError::Db("Invalid column type Blob at index: 0, name: msg_id".to_owned()),
        );
    }
    assert(r.msg_id@.take(16) =~= r.msg_id@);
    let id = to_array::<16>(r.msg_id.as_slice());
    let recipient = match optional_key_of(&r.recipient) {
        Ok(k) => k,
        Err(_) => {
            return Err(
                CoreError::Db("Invalid column type Blob at index: 1, name: recipient".to_owned()),
            );
        },
    };
    let group = match optional_key_of(&r.group_id) {
        Ok(k) => k,
        Err(_) => {
            return Err(
                CoreError::Db("Invalid column type Blob at index: 2, name: group_id".to_owned()),
            );
        },
    };
    Ok((id, recipient, group))
}

/// A stored row as callers see it. A row with a byte string of the wrong length is reported, not
/// mended.
pub fn row_to_pending(r: &StoredRow) -> (p: Result<PendingRow, CoreError>)
    ensures
        match p {
            Ok(row) => r@.sized() && r@.is_pending_row(row),
            Err(e) => !r@.sized() && e is Db && e.text() == column_fault(r@),
        },
{
    let (msg_id, recipient, group_id) = row_keys(r)?;
    Ok(
        PendingRow {
            msg_id,
            recipient,
            group_id,
            kind: r.kind as u8,
            body: to_vec(r.body.as_slice()),
            attempts: r.attempts,
        },
    )
}

/// The kind that a number on record stands for.
fn kind_of(kind: i64) -> (r: Option<PayloadKind>)
    ensures
        match r {
            Some(k) => k.number() == kind,
            None => !(1 <= kind <= 4),
        },
{
    if kind == 1 {
        Some(PayloadKind::Text)
    } else if kind == 2 {
        Some(PayloadKind::SessionMgmt)
    } else if kind == 3 {
        Some(PayloadKind::GroupMgmt)
    } else if kind == 4 {
        Some(PayloadKind::NodeCtl)
    } else {
        None
    }
}

/// The envelope of a stored row: the kept one, or one made from the columns. A row that cannot
/// give a sound envelope is reported.
pub fn row_to_envelope(r: &StoredRow) -> (e: Result<Envelope, CoreError>)
    ensures
        match e {
            Ok(env) => r@.restorable() && r@.is_restored(env@),
            Err(f) => !r@.restorable() && f is Db && f.text() == restore_fault(r@),
        },
{
    match &r.archive {
        Some(Ok(kept)) => {
            match kept.check_shape() {
                Ok(_) => Ok(kept.clone()),
                Err(f) => {
                    let text = f.message();
                    let mut out = "Conversion error from type Blob at index: 6, ".to_owned();
                    out.append(text.as_str());
                    proof {
                        reveal_strlit("");
                        assert(out@ =~= restore_fault(r@));
                    }
                    Err(CoreError::Db(out))
                },
            }
        },
        Some(Err(text)) => {
            let mut out = "Conversion error from type Blob at index: 6, ".to_owned();
            out.append(text.as_str());
            Err(CoreError::Db(out))
        },
        None => {
            let (msg_id, recipient, group) = row_keys(r)?;
            let kind = match kind_of(r.kind) {
                Some(k) => k,
                None => {
                    let mut out =
                        "Conversion error from type Integer at index: 3, 数据库错误: 未知 PayloadKind: ".to_owned();
                    append_signed(&mut out, r.kind);
                    return Err(CoreError::Db(out));
                },
            };
            let env = Envelope {
                msg_id,
                sender: [0; 32],
                recipient,
                group,
                kind,
                body: to_vec(r.body.as_slice()),
                sent_at_ms: if r.created_ms < 0 {
                    0
                } else {
                    r.created_ms as u64
                },
                ttl_hops: 6,
                sig: None,
            };
            assert(env.sender@ =~= Seq::new(32, |i: int| 0u8));
            Ok(env)
        },
    }
}


/// What rows say.
pub open spec fn rows_said(v: Seq<StoredRow>) -> Seq<StoredData> {
    v.map_values(|r: StoredRow| r@)
}

/// Puts a row behind those that were created no later.
pub open spec fn place_behind(s: Seq<StoredData>, r: StoredData) -> Seq<StoredData>
    decreases s.len(),
{
    if s.len() == 0 || s.last().created_ms <= r.created_ms {
        s.push(r)
    } else {
        place_behind(s.drop_last(), r).push(s.last())
    }
}

/// Rows by the time of their creation, those of one time in the order in which they came.
pub open spec fn by_created(s: Seq<StoredData>) -> Seq<StoredData>
    decreases s.len(),
{
    if s.len() == 0 {
        Seq::empty()
    } else {
        place_behind(by_created(s.drop_last()), s.last())
    }
}

/// A row is in a state, and due by a time if one is given.
pub open spec fn wanted(r: StoredData, state: RowState, due_by: Option<i64>) -> bool {
    r.state == state && (due_by matches Some(t) ==> r.next_attempt_ms <= t)
}

/// All rows in a state that are due, oldest first.
pub open spec fn all_wanted(s: Seq<StoredData>, state: RowState, due_by: Option<i64>) -> Seq<
    StoredData,
> {
    by_created(s.filter(|r: StoredData| wanted(r, state, due_by)))
}

/// The first rows in a state that are due, oldest first.
pub open spec fn first_wanted(
    s: Seq<StoredData>,
    state: RowState,
    due_by: Option<i64>,
    limit: u32,
) -> Seq<StoredData> {
    let all = all_wanted(s, state, due_by);
    all.take(
        if all.len() < limit {
            all.len() as int
        } else {
            limit as int
        },
    )
}

/// How many rows are in a state.
pub open spec fn count_in(s: Seq<StoredData>, state: RowState) -> nat
    decreases s.len(),
{
    if s.len() == 0 {
        0
    } else {
        count_in(s.drop_last(), state) + if s.last().state == state {
            1nat
        } else {
            0nat
        }
    }
}

/// A row goes where everything behind it was created later.
proof fn lemma_place_behind(s: Seq<StoredData>, r: StoredData, p: int)
    requires
        0 <= p <= s.len(),
        forall|i: int| p <= i < s.len() ==> (#[trigger] s[i]).created_ms > r.created_ms,
        p > 0 ==> s[p - 1].created_ms <= r.created_ms,
    ensures
        place_behind(s, r) == s.insert(p, r),
    decreases s.len(),
{
    if p == s.len() {
        assert(s.insert(p, r) =~= s.push(r));
    } else {
        assert(s[s.len() - 1].created_ms > r.created_ms);
        lemma_place_behind(s.drop_last(), r, p);
        assert(s.insert(p, r) =~= s.drop_last().insert(p, r).push(s.last()));
    }
}

/// The oldest rows come first.
proof fn lemma_place_behind_sorted(s: Seq<StoredData>, r: StoredData)
    requires
        forall|i: int, j: int|
            #![trigger s[i], s[j]]
            0 <= i < j < s.len() ==> s[i].created_ms <= s[j].created_ms,
    ensures
        place_behind(s, r).len() == s.len() + 1,
        forall|i: int, j: int|
            #![trigger place_behind(s, r)[i], place_behind(s, r)[j]]
            0 <= i < j < place_behind(s, r).len() ==> place_behind(s, r)[i].created_ms
                <= place_behind(s, r)[j].created_ms,
        place_behind(s, r).to_multiset() == s.to_multiset().insert(r),
        forall|i: int|
            0 <= i < place_behind(s, r).len() ==> (#[trigger] place_behind(s, r)[i] == r || s.contains(
                place_behind(s, r)[i],
            )),
    decreases s.len(),
{
    broadcast use vstd::seq_lib::group_to_multiset_ensures;

    let p = place_behind(s, r);
    if s.len() > 0 && s.last().created_ms > r.created_ms {
        let front = s.drop_last();
        lemma_place_behind_sorted(front, r);
        let q = place_behind(front, r);
        assert forall|i: int| 0 <= i < p.len() implies (#[trigger] p[i] == r || s.contains(p[i])) by {
            if i < q.len() {
                assert(p[i] == q[i]);
                if q[i] != r {
                    assert(front.contains(q[i]));
                    let k = choose|k: int| 0 <= k < front.len() && front[k] == q[i];
                    assert(s[k] == p[i]);
                }
            } else {
                assert(s[s.len() - 1] == p[i]);
            }
        }
        assert forall|i: int, j: int| #![trigger p[i], p[j]]
            0 <= i < j < p.len() implies p[i].created_ms <= p[j].created_ms by {
            assert(p[i] == q[i]);
            if j < q.len() {
                assert(p[j] == q[j]);
            } else {
                if q[i] != r {
                    assert(front.contains(q[i]));
                    let k = choose|k: int| 0 <= k < front.len() && front[k] == q[i];
                    assert(s[k].created_ms <= s[s.len() - 1].created_ms);
                }
            }
        }
        assert(s.to_multiset() =~= front.to_multiset().insert(s.last())) by {
            assert(front.push(s.last()) =~= s);
        }
        assert(p.to_multiset() =~= q.to_multiset().insert(s.last()));
        assert(p.to_multiset() =~= s.to_multiset().insert(r));
    } else {
        assert forall|i: int| 0 <= i < p.len() implies (#[trigger] p[i] == r || s.contains(p[i])) by {
            if i < s.len() {
                assert(s[i] == p[i]);
            }
        }
        assert forall|i: int, j: int| #![trigger p[i], p[j]]
            0 <= i < j < p.len() implies p[i].created_ms <= p[j].created_ms by {
            if j < s.len() {
                assert(s[i].created_ms <= s[j].created_ms);
            } else if i < s.len() - 1 {
                assert(s[i].created_ms <= s[s.len() - 1].created_ms);
            }
        }
    }
}

/// Rows by the time of their creation are the same rows, oldest first.
pub proof fn law_oldest_first(s: Seq<StoredData>)
    ensures
        by_created(s).len() == s.len(),
        by_created(s).to_multiset() == s.to_multiset(),
        forall|i: int, j: int|
            #![trigger by_created(s)[i], by_created(s)[j]]
            0 <= i < j < s.len() ==> by_created(s)[i].created_ms <= by_created(s)[j].created_ms,
    decreases s.len(),
{
    broadcast use vstd::seq_lib::group_to_multiset_ensures;

    if s.len() > 0 {
        law_oldest_first(s.drop_last());
        lemma_place_behind_sorted(by_created(s.drop_last()), s.last());
        assert(s.drop_last().push(s.last()) =~= s);
    } else {
        assert(s =~= Seq::empty());
    }
}

/// A received message on record.
#[derive(Debug, Clone, Copy)]
pub struct SeenRow {
    pub msg_id: MsgId,
    pub seen_ms: i64,
}

/// A message is on record as received.
pub open spec fn seen_before(s: Seq<SeenRow>, id: MsgId) -> bool {
    exists|i: int| 0 <= i < s.len() && (#[trigger] s[i]).msg_id == id
}

/// The record without what was received before a time.
pub open spec fn seen_since(s: Seq<SeenRow>, cutoff: i64) -> Seq<SeenRow> {
    s.filter(|r: SeenRow| r.seen_ms >= cutoff)
}

/// The record as it stands when a message arrives: if it is full, what is too old goes.
pub open spec fn seen_with_room(s: Seq<SeenRow>, now_ms: u64) -> Seq<SeenRow> {
    if s.len() >= INBOX_SEEN_CAP {
        seen_since(
            s,
            clamped_ms(
                if now_ms < SEEN_RETENTION_WINDOW_MS {
                    0
                } else {
                    (now_ms - SEEN_RETENTION_WINDOW_MS) as u64
                },
            ),
        )
    } else {
        s
    }
}

/// A message is new: it is not on record, and there is room to put it there.
pub open spec fn seen_accepts(s: Seq<SeenRow>, id: MsgId, now_ms: u64) -> bool {
    !seen_before(seen_with_room(s, now_ms), id) && seen_with_room(s, now_ms).len() < INBOX_SEEN_CAP
}

/// The record after a message arrived.
pub open spec fn seen_after(s: Seq<SeenRow>, id: MsgId, now_ms: u64) -> Seq<SeenRow> {
    if seen_accepts(s, id, now_ms) {
        seen_with_room(s, now_ms).push(SeenRow { msg_id: id, seen_ms: clamped_ms(now_ms) })
    } else {
        seen_with_room(s, now_ms)
    }
}

/// The queue of outgoing messages and the record of received ones.
#[derive(Debug)]
pub struct Db {
    outbox: Vec<StoredRow>,
    seen: Vec<SeenRow>,
}

/// What the queue holds.
pub struct DbState {
    pub outbox: Seq<StoredData>,
    pub seen: Seq<SeenRow>,
}

impl View for Db {
    type V = DbState;

    closed spec fn view(&self) -> DbState {
        DbState { outbox: rows_said(self.outbox@), seen: self.seen@ }
    }
}

/// The row of a message stands at position `i`.
pub open spec fn row_at(s: Seq<StoredData>, id: Seq<u8>, i: int) -> bool {
    0 <= i < s.len() && s[i].msg_id == id
}

/// A message is in the queue.
pub open spec fn queued(s: Seq<StoredData>, id: Seq<u8>) -> bool {
    exists|i: int| #[trigger] row_at(s, id, i)
}

/// Where the row of a message stands.
pub open spec fn row_place(s: Seq<StoredData>, id: Seq<u8>) -> int {
    choose|i: int| #[trigger] row_at(s, id, i)
}

/// No message is in the queue twice.
pub open spec fn rows_distinct(s: Seq<StoredData>) -> bool {
    forall|i: int, j: int|
        #![trigger s[i], s[j]]
        0 <= i < j < s.len() ==> s[i].msg_id != s[j].msg_id
}

/// In a queue without doubles a row's place is unique.
proof fn lemma_row_place(s: Seq<StoredData>, id: Seq<u8>, i: int)
    requires
        rows_distinct(s),
        row_at(s, id, i),
    ensures
        row_place(s, id) == i,
{
    let k = row_place(s, id);
    assert(row_at(s, id, k));
    assert(s[k].msg_id == s[i].msg_id);
}

/// A queue as it comes from a store can be used: no message is in it twice, neither among the
/// outgoing ones nor among the received ones.
pub open spec fn state_valid(s: DbState) -> bool {
    &&& rows_distinct(s.outbox)
    &&& forall|i: int, j: int|
        #![trigger s.seen[i], s.seen[j]]
        0 <= i < j < s.seen.len() ==> s.seen[i].msg_id != s.seen[j].msg_id
}

/// The row after it was sent: what was kept of the envelope is not needed any more.
pub open spec fn sent_row(r: StoredData) -> StoredData {
    StoredData { state: RowState::Sent, archive: None, ..r }
}

/// The row after a dead message was given another chance. Others stay as they are.
pub open spec fn revived_row(r: StoredData) -> StoredData {
    if r.state == RowState::Dead {
        StoredData { state: RowState::Pending, attempts: 0, next_attempt_ms: 0, ..r }
    } else {
        r
    }
}

/// The attempts after one more.
pub open spec fn one_more(attempts: u32) -> u32 {
    if attempts == u32::MAX {
        attempts
    } else {
        (attempts + 1) as u32
    }
}

/// The row after its last attempt failed.
pub open spec fn dead_row(r: StoredData) -> StoredData {
    StoredData { state: RowState::Dead, attempts: one_more(r.attempts), ..r }
}

/// The row after an attempt failed and another one is to follow after `delay`.
pub open spec fn postponed_row(r: StoredData, now_ms: u64, delay: u64) -> StoredData {
    StoredData {
        attempts: one_more(r.attempts),
        next_attempt_ms: clamped_ms(sat_u64(now_ms + delay)),
        ..r
    }
}

/// The rows after the message at `i` changed.
pub open spec fn row_changed(s: DbState, i: int, r: StoredData) -> DbState {
    DbState { outbox: s.outbox.update(i, r), ..s }
}

/// The rows without those in a state that were created before a time.
pub open spec fn without_old(s: Seq<StoredData>, state: RowState, cutoff: i64) -> Seq<StoredData> {
    s.filter(|r: StoredData| !(r.state == state && r.created_ms < cutoff))
}

/// Filtering leaves no doubles.
proof fn lemma_filter_rows(s: Seq<StoredData>, keep: spec_fn(StoredData) -> bool)
    requires
        rows_distinct(s),
    ensures
        rows_distinct(s.filter(keep)),
        forall|i: int| 0 <= i < s.filter(keep).len() ==> s.contains(#[trigger] s.filter(keep)[i]),
    decreases s.len(),
{
    reveal(Seq::filter);
    if s.len() > 0 {
        let front = s.drop_last();
        assert(rows_distinct(front)) by {
            assert forall|i: int, j: int| #![trigger front[i], front[j]]
                0 <= i < j < front.len() implies front[i].msg_id != front[j].msg_id by {
                assert(s[i].msg_id != s[j].msg_id);
            }
        }
        lemma_filter_rows(front, keep);
        let f = front.filter(keep);
        let g = s.filter(keep);
        assert forall|i: int| 0 <= i < g.len() implies s.contains(#[trigger] g[i]) by {
            if i < f.len() {
                assert(g[i] == f[i]);
                let k = choose|k: int| 0 <= k < front.len() && front[k] == f[i];
                assert(s[k] == g[i]);
            } else {
                assert(s[s.len() - 1] == g[i]);
            }
        }
        assert forall|i: int, j: int| #![trigger g[i], g[j]]
            0 <= i < j < g.len() implies g[i].msg_id != g[j].msg_id by {
            assert(g[i] == f[i]);
            if j < f.len() {
                assert(g[j] == f[j]);
            } else {
                let k = choose|k: int| 0 <= k < front.len() && front[k] == f[i];
                assert(s[k].msg_id != s[s.len() - 1].msg_id);
            }
        }
    }
}

/// Filtering the record leaves no doubles.
proof fn lemma_filter_seen(s: Seq<SeenRow>, keep: spec_fn(SeenRow) -> bool)
    requires
        forall|i: int, j: int|
            #![trigger s[i], s[j]]
            0 <= i < j < s.len() ==> s[i].msg_id != s[j].msg_id,
    ensures
        forall|i: int, j: int|
            #![trigger s.filter(keep)[i], s.filter(keep)[j]]
            0 <= i < j < s.filter(keep).len() ==> s.filter(keep)[i].msg_id != s.filter(keep)[j].msg_id,
        forall|i: int| 0 <= i < s.filter(keep).len() ==> s.contains(#[trigger] s.filter(keep)[i]),
        s.filter(keep).len() <= s.len(),
    decreases s.len(),
{
    reveal(Seq::filter);
    if s.len() > 0 {
        let front = s.drop_last();
        assert forall|i: int, j: int| #![trigger front[i], front[j]]
            0 <= i < j < front.len() implies front[i].msg_id != front[j].msg_id by {
            assert(s[i].msg_id != s[j].msg_id);
        }
        lemma_filter_seen(front, keep);
        let f = front.filter(keep);
        let g = s.filter(keep);
        assert forall|i: int| 0 <= i < g.len() implies s.contains(#[trigger] g[i]) by {
            if i < f.len() {
                assert(g[i] == f[i]);
                let k = choose|k: int| 0 <= k < front.len() && front[k] == f[i];
                assert(s[k] == g[i]);
            } else {
                assert(s[s.len() - 1] == g[i]);
            }
        }
        assert forall|i: int, j: int| #![trigger g[i], g[j]]
            0 <= i < j < g.len() implies g[i].msg_id != g[j].msg_id by {
            assert(g[i] == f[i]);
            if j < f.len() {
                assert(g[j] == f[j]);
            } else {
                let k = choose|k: int| 0 <= k < front.len() && front[k] == f[i];
                assert(s[k].msg_id != s[s.len() - 1].msg_id);
            }
        }
    }
}

impl Db {
    /// The invariant of the queue.
    pub open spec fn wf(self) -> bool {
        state_valid(self@)
    }

    /// An empty queue.
    pub fn new() -> (r: Db)
        ensures
            r.wf(),
            r@ == (DbState { outbox: Seq::empty(), seen: Seq::empty() }),
    {
        let r = Db { outbox: Vec::new(), seen: Vec::new() };
        assert(r@.outbox =~= Seq::empty());
        r
    }

    /// The outgoing messages, to be written to a store.
    pub fn outbox(&self) -> (r: &Vec<StoredRow>)
        ensures
            rows_said(r@) == self@.outbox,
    {
        &self.outbox
    }

    /// The received messages on record, to be written to a store.
    pub fn seen(&self) -> (r: &Vec<SeenRow>)
        ensures
            r@ == self@.seen,
    {
        &self.seen
    }

    fn find(&self, id: &MsgId) -> (r: Option<usize>)
        ensures
            match r {
                Some(i) => row_at(self@.outbox, id@, i as int),
                None => !queued(self@.outbox, id@),
            },
    {
        let mut i: usize = 0;
        while i < self.outbox.len()
            invariant
                i <= self.outbox@.len(),
                forall|k: int| 0 <= k < i ==> !#[trigger] row_at(self@.outbox, id@, k),
            decreases self.outbox@.len() - i,
        {
            assert(self@.outbox[i as int] == self.outbox@[i as int]@);
            if same(self.outbox[i].msg_id.as_slice(), id.as_slice()) {
                assert(row_at(self@.outbox, id@, i as int));
                return Some(i);
            }
            i = i + 1;
        }
        None
    }

    /// The stored row of a message.
    pub fn row(&self, id: &MsgId) -> (r: Option<&StoredRow>)
        requires
            self.wf(),
        ensures
            match r {
                Some(row) => queued(self@.outbox, id@) && row@ == self@.outbox[row_place(
                    self@.outbox,
                    id@,
                )],
                None => !queued(self@.outbox, id@),
            },
    {
        match self.find(id) {
            Some(i) => {
                proof {
                    lemma_row_place(self@.outbox, id@, i as int);
                }
                Some(&self.outbox[i])
            },
            None => None,
        }
    }

    fn insert(&mut self, env: &Envelope, whole: bool)
        requires
            old(self).wf(),
        ensures
            final(self).wf(),
            final(self)@ == if queued(old(self)@.outbox, env.msg_id@) {
                old(self)@
            } else {
                DbState {
                    outbox: old(self)@.outbox.push(StoredData::of_envelope(env@, whole)),
                    ..old(self)@
                }
            },
    {
        if self.find(&env.msg_id).is_some() {
            return ;
        }
        let row = StoredRow {
            msg_id: to_vec(env.msg_id.as_slice()),
            recipient: match &env.recipient {
                Some(k) => Some(to_vec(k.as_slice())),
                None => None,
            },
            group_id: match &env.group {
                Some(k) => Some(to_vec(k.as_slice())),
                None => None,
            },
            kind: env.kind.code() as i64,
            body: to_vec(env.body.as_slice()),
            state: RowState::Pending,
            attempts: 0,
            next_attempt_ms: 0,
            created_ms: clamp_ms(env.sent_at_ms),
            archive: if whole {
                Some(Ok(env.clone()))
            } else {
                None
            },
        };
        let ghost before = self@.outbox;
        self.outbox.push(row);
        proof {
            let after = self@.outbox;
            assert(after =~= before.push(StoredData::of_envelope(env@, whole)));
            assert forall|i: int, j: int| #![trigger after[i], after[j]]
                0 <= i < j < after.len() implies after[i].msg_id != after[j].msg_id by {
                if j < before.len() {
                    assert(before[i].msg_id != before[j].msg_id);
                } else {
                    assert(!row_at(before, env.msg_id@, i));
                }
            }
        }
    }

    /// Puts a message into the queue, by its columns. A message that is in it already stays as it
    /// is: the first one counts.
    pub fn enqueue(&mut self, env: &Envelope)
        requires
            old(self).wf(),
        ensures
            final(self).wf(),
            final(self)@ == if queued(old(self)@.outbox, env.msg_id@) {
                old(self)@
            } else {
                DbState {
                    outbox: old(self)@.outbox.push(StoredData::of_envelope(env@, false)),
                    ..old(self)@
                }
            },
    {
        self.insert(env, false)
    }

    /// Puts a message into the queue and keeps the whole envelope. A message that is in it already
    /// stays as it is: the first one counts.
    pub fn enqueue_full(&mut self, env: &Envelope)
        requires
            old(self).wf(),
        ensures
            final(self).wf(),
            final(self)@ == if queued(old(self)@.outbox, env.msg_id@) {
                old(self)@
            } else {
                DbState {
                    outbox: old(self)@.outbox.push(StoredData::of_envelope(env@, true)),
                    ..old(self)@
                }
            },
    {
        self.insert(env, true)
    }

    /// Notes that a message was sent. An unknown message is no matter.
    pub fn mark_sent(&mut self, msg_id: &MsgId)
        requires
            old(self).wf(),
        ensures
            final(self).wf(),
            final(self)@ == if queued(old(self)@.outbox, msg_id@) {
                let i = row_place(old(self)@.outbox, msg_id@);
                row_changed(old(self)@, i, sent_row(old(self)@.outbox[i]))
            } else {
                old(self)@
            },
    {
        if let Some(i) = self.find(msg_id) {
            let ghost before = self@;
            proof {
                lemma_row_place(before.outbox, msg_id@, i as int);
            }
            self.outbox[i].state = RowState::Sent;
            self.outbox[i].archive = None;
            proof {
                self.lemma_changed(before, i as int, sent_row(before.outbox[i as int]));
            }
        }
    }

    /// A changed row that keeps its message id leaves the queue in order.
    proof fn lemma_changed(self, before: DbState, i: int, r: StoredData)
        requires
            state_valid(before),
            0 <= i < before.outbox.len(),
            self.outbox@.len() == before.outbox.len(),
            self.outbox@[i]@ == r,
            r.msg_id == before.outbox[i].msg_id,
            forall|k: int|
                0 <= k < before.outbox.len() && k != i ==> self.outbox@[k]@ == before.outbox[k],
            self.seen@ == before.seen,
        ensures
            self@ == row_changed(before, i, r),
            self.wf(),
    {
        let after = self@.outbox;
        assert(after =~= before.outbox.update(i, r));
        assert forall|a: int, b: int| #![trigger after[a], after[b]]
            0 <= a < b < after.len() implies after[a].msg_id != after[b].msg_id by {
            assert(before.outbox[a].msg_id != before.outbox[b].msg_id);
        }
    }

    /// Gives a dead message another chance. Any other message stays as it is.
    pub fn revive(&mut self, msg_id: &MsgId)
        requires
            old(self).wf(),
        ensures
            final(self).wf(),
            final(self)@ == if queued(old(self)@.outbox, msg_id@) {
                let i = row_place(old(self)@.outbox, msg_id@);
                row_changed(old(self)@, i, revived_row(old(self)@.outbox[i]))
            } else {
                old(self)@
            },
    {
        if let Some(i) = self.find(msg_id) {
            let ghost before = self@;
            proof {
                lemma_row_place(before.outbox, msg_id@, i as int);
                assert(self@.outbox[i as int] == self.outbox@[i as int]@);
            }
            if self.outbox[i].state == RowState::Dead {
                self.outbox[i].state = RowState::Pending;
                self.outbox[i].attempts = 0;
                self.outbox[i].next_attempt_ms = 0;
            }
            proof {
                self.lemma_changed(before, i as int, revived_row(before.outbox[i as int]));
            }
        }
    }
}


impl Db {
    /// Takes a row over from a store. A message that is in the queue already stays as it is.
    pub fn restore_row(&mut self, row: StoredRow)
        requires
            old(self).wf(),
        ensures
            final(self).wf(),
            final(self)@ == if queued(old(self)@.outbox, row@.msg_id) {
                old(self)@
            } else {
                DbState { outbox: old(self)@.outbox.push(row@), ..old(self)@ }
            },
    {
        let ghost before = self@.outbox;
        let mut i: usize = 0;
        while i < self.outbox.len()
            invariant
                i <= self.outbox@.len(),
                self@ == old(self)@,
                self.wf(),
                before == self@.outbox,
                forall|k: int| 0 <= k < i ==> !#[trigger] row_at(before, row@.msg_id, k),
            decreases self.outbox@.len() - i,
        {
            assert(self@.outbox[i as int] == self.outbox@[i as int]@);
            if same(self.outbox[i].msg_id.as_slice(), row.msg_id.as_slice()) {
                assert(row_at(before, row@.msg_id, i as int));
                return ;
            }
            i = i + 1;
        }
        let ghost data = row@;
        self.outbox.push(row);
        proof {
            let after = self@.outbox;
            assert(after =~= before.push(data));
            assert forall|a: int, b: int| #![trigger after[a], after[b]]
                0 <= a < b < after.len() implies after[a].msg_id != after[b].msg_id by {
                if b < before.len() {
                    assert(before[a].msg_id != before[b].msg_id);
                } else {
                    assert(!row_at(before, data.msg_id, a));
                }
            }
        }
    }

    /// Takes the record of a received message over from a store.
    pub fn restore_seen(&mut self, row: SeenRow)
        requires
            old(self).wf(),
        ensures
            final(self).wf(),
            final(self)@ == if seen_before(old(self)@.seen, row.msg_id) {
                old(self)@
            } else {
                DbState { seen: old(self)@.seen.push(row), ..old(self)@ }
            },
    {
        if self.find_seen(&row.msg_id) {
            return ;
        }
        let ghost before = self@.seen;
        self.seen.push(row);
        proof {
            let after = self@.seen;
            assert forall|i: int, j: int| #![trigger after[i], after[j]]
                0 <= i < j < after.len() implies after[i].msg_id != after[j].msg_id by {
                if j < before.len() {
                    assert(before[i].msg_id != before[j].msg_id);
                } else {
                    assert(before[i].msg_id != row.msg_id);
                }
            }
        }
    }

    fn find_seen(&self, id: &MsgId) -> (r: bool)
        ensures
            r == seen_before(self@.seen, *id),
    {
        let mut i: usize = 0;
        while i < self.seen.len()
            invariant
                i <= self.seen@.len(),
                forall|k: int| 0 <= k < i ==> (#[trigger] self.seen@[k]).msg_id != *id,
            decreases self.seen@.len() - i,
        {
            if same_bytes(&self.seen[i].msg_id, id) {
                assert(self@.seen[i as int].msg_id == *id);
                return true;
            }
            i = i + 1;
        }
        false
    }

    /// Notes a failed attempt, for a given random number. The message is given up once the policy
    /// allows no further attempt, and tried again later until then.
    pub fn reschedule_with(&mut self, msg_id: &MsgId, policy: &RetryPolicy, now_ms: u64, random: u64) -> (r:
        Result<bool, CoreError>)
        requires
            old(self).wf(),
        ensures
            final(self).wf(),
            match r {
                Ok(dead) => {
                    let i = row_place(old(self)@.outbox, msg_id@);
                    let row = old(self)@.outbox[i];
                    &&& queued(old(self)@.outbox, msg_id@)
                    &&& dead == (one_more(row.attempts) >= policy.max_attempts)
                    &&& final(self)@ == row_changed(
                        old(self)@,
                        i,
                        if dead {
                            dead_row(row)
                        } else {
                            postponed_row(
                                row,
                                now_ms,
                                policy.delay(one_more(row.attempts), random as nat) as u64,
                            )
                        },
                    )
                },
                Err(e) => !queued(old(self)@.outbox, msg_id@) && final(self)@ == old(self)@ && e is Db
                    && e.text() == "Query returned no rows"@,
            },
    {
        let i: usize = match self.find(msg_id) {
            Some(i) => i,
            None => {
                return Err(CoreError::Db("Query returned no rows".to_owned()));
            },
        };
        let ghost before = self@;
        proof {
            lemma_row_place(before.outbox, msg_id@, i as int);
            assert(self@.outbox[i as int] == self.outbox@[i as int]@);
        }
        let attempts: u32 = if self.outbox[i].attempts == u32::MAX {
            u32::MAX
        } else {
            self.outbox[i].attempts + 1
        };
        if policy.exhausted(attempts) {
            self.outbox[i].state = RowState::Dead;
            self.outbox[i].attempts = attempts;
            proof {
                self.lemma_changed(before, i as int, dead_row(before.outbox[i as int]));
            }
            return Ok(true);
        }
        let delay: u64 = match policy.delay_with(attempts, random) {
            Ok(d) => d,
            Err(_) => {
                assert(false);
                0
            },
        };
        self.outbox[i].attempts = attempts;
        self.outbox[i].next_attempt_ms = clamp_ms(now_ms.saturating_add(delay));
        proof {
            self.lemma_changed(
                before,
                i as int,
                postponed_row(before.outbox[i as int], now_ms, delay),
            );
        }
        Ok(false)
    }

    /// Notes a failed attempt. The message is given up once the policy allows no further attempt,
    /// and tried again after a random delay until then.
    pub fn fail_and_reschedule(&mut self, msg_id: &MsgId, policy: &RetryPolicy, now_ms: u64) -> (r:
        Result<bool, CoreError>)
        requires
            old(self).wf(),
        ensures
            final(self).wf(),
            match r {
                Ok(dead) => {
                    let i = row_place(old(self)@.outbox, msg_id@);
                    let row = old(self)@.outbox[i];
                    &&& queued(old(self)@.outbox, msg_id@)
                    &&& dead == (one_more(row.attempts) >= policy.max_attempts)
                    &&& dead ==> final(self)@ == row_changed(old(self)@, i, dead_row(row))
                    &&& !dead ==> exists|delay: u64|
                        policy.is_drawn(one_more(row.attempts), delay) && policy.base_delay_ms
                            <= delay <= policy.longest_delay(one_more(row.attempts))
                            && final(self)@ == row_changed(
                            old(self)@,
                            i,
                            #[trigger] postponed_row(row, now_ms, delay),
                        )
                },
                Err(e) => {
                    &&& final(self)@ == old(self)@
                    &&& !queued(old(self)@.outbox, msg_id@) ==> e is Db && e.text()
                        == "Query returned no rows"@
                    &&& queued(old(self)@.outbox, msg_id@) ==> e is Entropy && generator_failed(8)
                        && one_more(
                        old(self)@.outbox[row_place(old(self)@.outbox, msg_id@)].attempts,
                    ) < policy.max_attempts
                },
            },
    {
        let i: usize = match self.find(msg_id) {
            Some(i) => i,
            None => {
                return Err(CoreError::Db("Query returned no rows".to_owned()));
            },
        };
        let ghost before = self@;
        proof {
            lemma_row_place(before.outbox, msg_id@, i as int);
            assert(self@.outbox[i as int] == self.outbox@[i as int]@);
        }
        let attempts: u32 = if self.outbox[i].attempts == u32::MAX {
            u32::MAX
        } else {
            self.outbox[i].attempts + 1
        };
        if policy.exhausted(attempts) {
            return self.reschedule_with(msg_id, policy, now_ms, 0);
        }
        let delay: u64 = match policy.next_delay_ms(attempts) {
            Ok(d) => d,
            Err(e) => {
                return Err(e);
            },
        };
        self.outbox[i].attempts = attempts;
        self.outbox[i].next_attempt_ms = clamp_ms(now_ms.saturating_add(delay));
        proof {
            self.lemma_changed(
                before,
                i as int,
                postponed_row(before.outbox[i as int], now_ms, delay),
            );
        }
        Ok(false)
    }

    /// The places of the first rows in a state that are due, oldest first.
    fn select(&self, state: RowState, due_by: Option<i64>, limit: u32) -> (r: Vec<usize>)
        ensures
            r@.len() == first_wanted(self@.outbox, state, due_by, limit).len(),
            forall|k: int| 0 <= k < r@.len() ==> (#[trigger] r@[k]) < self.outbox@.len(),
            forall|k: int|
                0 <= k < r@.len() ==> self@.outbox[(#[trigger] r@[k]) as int] == first_wanted(
                    self@.outbox,
                    state,
                    due_by,
                    limit,
                )[k],
    {
        let mut order: Vec<usize> = Vec::new();
        let ghost rows = self@.outbox;
        let ghost keep = |r: StoredData| wanted(r, state, due_by);
        let mut i: usize = 0;
        proof {
            reveal(Seq::filter);
            assert(rows.take(0) =~= Seq::empty());
        }
        while i < self.outbox.len()
            invariant
                i <= self.outbox@.len(),
                rows == self@.outbox,
                keep == (|r: StoredData| wanted(r, state, due_by)),
                forall|k: int| 0 <= k < order@.len() ==> (#[trigger] order@[k]) < i,
                picked(rows, order@) == by_created(rows.take(i as int).filter(keep)),
            decreases self.outbox@.len() - i,
        {
            let row: &StoredRow = &self.outbox[i];
            proof {
                reveal(Seq::filter);
                assert(rows[i as int] == row@);
                assert(rows.take(i + 1).drop_last() =~= rows.take(i as int));
                assert(rows.take(i + 1).last() == rows[i as int]);
            }
            let due: bool = match due_by {
                Some(t) => row.next_attempt_ms <= t,
                None => true,
            };
            if row.state == state && due {
                let mut p: usize = order.len();
                let ghost sorted = picked(rows, order@);
                while p > 0 && self.outbox[order[p - 1]].created_ms > row.created_ms
                    invariant
                        p <= order@.len(),
                        rows == self@.outbox,
                        sorted == picked(rows, order@),
                        row@ == rows[i as int],
                        i < self.outbox@.len(),
                        forall|k: int| 0 <= k < order@.len() ==> (#[trigger] order@[k]) < i,
                        forall|k: int|
                            p <= k < sorted.len() ==> (#[trigger] sorted[k]).created_ms > row.created_ms,
                    decreases p,
                {
                    proof {
                        let q = order@[p - 1] as int;
                        assert(rows[q] == self.outbox@[q]@);
                        assert(sorted[p - 1] == rows[q]);
                    }
                    p = p - 1;
                }
                proof {
                    if p > 0 {
                        let q = order@[p - 1] as int;
                        assert(rows[q] == self.outbox@[q]@);
                        assert(sorted[p - 1] == rows[q]);
                    }
                    lemma_place_behind(sorted, row@, p as int);
                    assert(picked(rows, order@.insert(p as int, i)) =~= sorted.insert(p as int, row@));
                    assert forall|k: int| 0 <= k < order@.insert(p as int, i).len() implies (
                    #[trigger] order@.insert(p as int, i)[k]) < i + 1 by {
                        if k < p {
                            assert(order@[k] < i);
                        } else if k > p {
                            assert(order@[k - 1] < i);
                        }
                    }
                    let f = rows.take(i + 1).filter(keep);
                    assert(f.drop_last() =~= rows.take(i as int).filter(keep));
                }
                order.insert(p, i);
            }
            i = i + 1;
        }
        assert(rows.take(i as int) =~= rows);
        if order.len() > limit as usize {
            order.truncate(limit as usize);
        }
        order
    }

    /// The messages that wait, oldest first.
    pub fn pending(&self, limit: u32) -> (r: Result<Vec<PendingRow>, CoreError>)
        ensures
            is_row_list(
                first_wanted(self@.outbox, RowState::Pending, None, limit),
                r,
            ),
    {
        let order = self.select(RowState::Pending, None, limit);
        assert(picked(self@.outbox, order@) =~= first_wanted(
            self@.outbox,
            RowState::Pending,
            None,
            limit,
        ));
        self.rows_of(order)
    }

    /// The messages that are to be tried now, oldest first.
    pub fn due(&self, now_ms: u64, limit: u32) -> (r: Result<Vec<PendingRow>, CoreError>)
        ensures
            is_row_list(
                first_wanted(self@.outbox, RowState::Pending, Some(clamped_ms(now_ms)), limit),
                r,
            ),
    {
        let order = self.select(RowState::Pending, Some(clamp_ms(now_ms)), limit);
        assert(picked(self@.outbox, order@) =~= first_wanted(
            self@.outbox,
            RowState::Pending,
            Some(clamped_ms(now_ms)),
            limit,
        ));
        self.rows_of(order)
    }

    fn rows_of(&self, order: Vec<usize>) -> (r: Result<Vec<PendingRow>, CoreError>)
        requires
            forall|k: int| 0 <= k < order@.len() ==> (#[trigger] order@[k]) < self.outbox@.len(),
        ensures
            is_row_list(picked(self@.outbox, order@), r),
    {
        let mut out: Vec<PendingRow> = Vec::new();
        let ghost rows = picked(self@.outbox, order@);
        let mut k: usize = 0;
        while k < order.len()
            invariant
                k <= order@.len(),
                rows == picked(self@.outbox, order@),
                out@.len() == k,
                forall|j: int| 0 <= j < order@.len() ==> (#[trigger] order@[j]) < self.outbox@.len(),
                forall|j: int|
                    0 <= j < k ==> (#[trigger] rows[j]).sized() && rows[j].is_pending_row(out@[j]),
            decreases order@.len() - k,
        {
            assert(order@[k as int] < self.outbox@.len());
            let row: &StoredRow = &self.outbox[order[k]];
            assert(rows[k as int] == row@);
            match row_to_pending(row) {
                Ok(p) => {
                    out.push(p);
                },
                Err(e) => {
                    return Err(e);
                },
            }
            k = k + 1;
        }
        Ok(out)
    }

    /// The envelopes of the messages that are to be tried now, oldest first.
    pub fn due_envelopes(&self, now_ms: u64, limit: u32) -> (r: Result<Vec<Envelope>, CoreError>)
        ensures
            is_envelope_list(
                first_wanted(self@.outbox, RowState::Pending, Some(clamped_ms(now_ms)), limit),
                r,
            ),
    {
        let order = self.select(RowState::Pending, Some(clamp_ms(now_ms)), limit);
        let ghost rows = first_wanted(
            self@.outbox,
            RowState::Pending,
            Some(clamped_ms(now_ms)),
            limit,
        );
        let mut out: Vec<Envelope> = Vec::new();
        let mut k: usize = 0;
        while k < order.len()
            invariant
                k <= order@.len(),
                order@.len() == rows.len(),
                out@.len() == k,
                rows == first_wanted(
                    self@.outbox,
                    RowState::Pending,
                    Some(clamped_ms(now_ms)),
                    limit,
                ),
                forall|j: int| 0 <= j < order@.len() ==> (#[trigger] order@[j]) < self.outbox@.len(),
                forall|j: int|
                    0 <= j < order@.len() ==> self@.outbox[(#[trigger] order@[j]) as int] == rows[j],
                forall|j: int|
                    0 <= j < k ==> (#[trigger] rows[j]).restorable() && rows[j].is_restored(out@[j]@),
            decreases order@.len() - k,
        {
            assert(order@[k as int] < self.outbox@.len());
            let row: &StoredRow = &self.outbox[order[k]];
            assert(rows[k as int] == row@);
            match row_to_envelope(row) {
                Ok(e) => {
                    out.push(e);
                },
                Err(e) => {
                    return Err(e);
                },
            }
            k = k + 1;
        }
        Ok(out)
    }

    /// The messages that were given up, oldest first.
    pub fn dead_list(&self, limit: u32) -> (r: Result<Vec<MsgId>, CoreError>)
        ensures
            ({
                let rows = first_wanted(self@.outbox, RowState::Dead, None, limit);
                match r {
                    Ok(v) => v@.len() == rows.len() && forall|k: int|
                        0 <= k < rows.len() ==> (#[trigger] v@[k])@ == rows[k].msg_id,
                    Err(e) => e is Db && e.text()
                        == "Invalid column type Blob at index: 0, name: msg_id"@ && exists|k: int|
                        0 <= k < rows.len() && (#[trigger] rows[k]).msg_id.len() != 16,
                }
            }),
    {
        let order = self.select(RowState::Dead, None, limit);
        let ghost rows = first_wanted(self@.outbox, RowState::Dead, None, limit);
        let mut out: Vec<MsgId> = Vec::new();
        let mut k: usize = 0;
        while k < order.len()
            invariant
                k <= order@.len(),
                order@.len() == rows.len(),
                out@.len() == k,
                forall|j: int| 0 <= j < order@.len() ==> (#[trigger] order@[j]) < self.outbox@.len(),
                forall|j: int|
                    0 <= j < order@.len() ==> self@.outbox[(#[trigger] order@[j]) as int] == rows[j],
                rows == first_wanted(self@.outbox, RowState::Dead, None, limit),
                forall|j: int| 0 <= j < k ==> (#[trigger] out@[j])@ == rows[j].msg_id,
            decreases order@.len() - k,
        {
            assert(order@[k as int] < self.outbox@.len());
            let row: &StoredRow = &self.outbox[order[k]];
            assert(rows[k as int] == row@);
            if row.msg_id.len() != 16 {
                return Err(
                    CoreError::Db("Invalid column type Blob at index: 0, name: msg_id".to_owned()),
                );
            }
            assert(row.msg_id@.take(16) =~= row.msg_id@);
            out.push(to_array::<16>(row.msg_id.as_slice()));
            k = k + 1;
        }
        Ok(out)
    }
}

/// The rows at some places.
pub open spec fn picked(rows: Seq<StoredData>, places: Seq<usize>) -> Seq<StoredData> {
    places.map_values(|i: usize| rows[i as int])
}

/// A list of rows as callers see them, or the fault of one that cannot be shown.
pub open spec fn is_row_list(rows: Seq<StoredData>, r: Result<Vec<PendingRow>, CoreError>) -> bool {
    match r {
        Ok(v) => v@.len() == rows.len() && forall|k: int|
            0 <= k < rows.len() ==> (#[trigger] rows[k]).sized() && rows[k].is_pending_row(v@[k]),
        Err(e) => e is Db && exists|k: int|
            {
                &&& 0 <= k < rows.len()
                &&& !(#[trigger] rows[k]).sized()
                &&& forall|j: int| 0 <= j < k ==> (#[trigger] rows[j]).sized()
                &&& e.text() == column_fault(rows[k])
            },
    }
}

/// A text is the fault of the first of some rows that gives no envelope.
pub open spec fn first_unrestorable(rows: Seq<StoredData>, text: Seq<char>) -> bool {
    exists|k: int|
        {
            &&& 0 <= k < rows.len()
            &&& !(#[trigger] rows[k]).restorable()
            &&& forall|j: int| 0 <= j < k ==> (#[trigger] rows[j]).restorable()
            &&& text == restore_fault(rows[k])
        }
}

/// The envelopes of some rows, or the fault of one that has none.
pub open spec fn is_envelope_list(rows: Seq<StoredData>, r: Result<Vec<Envelope>, CoreError>) -> bool {
    match r {
        Ok(v) => v@.len() == rows.len() && forall|k: int|
            0 <= k < rows.len() ==> (#[trigger] rows[k]).restorable() && rows[k].is_restored(v@[k]@),
        Err(e) => e is Db && first_unrestorable(rows, e.text()),
    }
}


impl Db {
    /// Drops the rows in a state that were created before a time, and says how many there were.
    fn prune_outbox(&mut self, state: RowState, created_before_ms: u64) -> (r: usize)
        requires
            old(self).wf(),
        ensures
            final(self).wf(),
            final(self)@ == (DbState {
                outbox: without_old(old(self)@.outbox, state, clamped_ms(created_before_ms)),
                ..old(self)@
            }),
            r == old(self)@.outbox.len() - final(self)@.outbox.len(),
    {
        let cutoff: i64 = clamp_ms(created_before_ms);
        let ghost all = self@.outbox;
        let ghost keep = |r: StoredData| !(r.state == state && r.created_ms < cutoff);
        let ghost mut done: int = 0;
        let total: usize = self.outbox.len();
        let mut gone: usize = 0;
        let mut i: usize = 0;
        proof {
            reveal(Seq::filter);
            assert(all.take(0) =~= Seq::empty());
            assert(all =~= Seq::empty() + all.skip(0));
        }
        while i < self.outbox.len()
            invariant
                keep == (|r: StoredData| !(r.state == state && r.created_ms < cutoff)),
                0 <= done <= all.len(),
                rows_said(self.outbox@) == all.take(done).filter(keep) + all.skip(done),
                i == all.take(done).filter(keep).len(),
                gone + self.outbox@.len() == all.len(),
                self.seen@ == old(self)@.seen,
                all.len() == total,
            decreases all.len() - done,
        {
            let ghost f = all.take(done).filter(keep);
            let ghost said = rows_said(self.outbox@);
            let drop_it: bool = self.outbox[i].state == state && self.outbox[i].created_ms < cutoff;
            proof {
                reveal(Seq::filter);
                assert(said.len() == f.len() + (all.len() - done));
                assert(said[i as int] == all[done]);
                assert(said[i as int] == self.outbox@[i as int]@);
                assert(all.take(done + 1).drop_last() =~= all.take(done));
                assert(all.take(done + 1).last() == all[done]);
            }
            if drop_it {
                let _row = self.outbox.remove(i);
                gone = gone + 1;
                proof {
                    assert(rows_said(self.outbox@) =~= said.remove(i as int));
                    assert(said.remove(i as int) =~= f + all.skip(done + 1));
                }
            } else {
                i = i + 1;
                proof {
                    assert(f.push(all[done]) + all.skip(done + 1) =~= f + all.skip(done));
                }
            }
            proof {
                done = done + 1;
            }
        }
        proof {
            assert(done == all.len());
            assert(all.take(done) =~= all);
            assert(rows_said(self.outbox@) =~= all.filter(keep));
            lemma_filter_rows(all, keep);
        }
        gone
    }

    /// Drops the messages that were given up and created before a time, and says how many there
    /// were.
    pub fn prune_dead(&mut self, created_before_ms: u64) -> (r: usize)
        requires
            old(self).wf(),
        ensures
            final(self).wf(),
            final(self)@ == (DbState {
                outbox: without_old(
                    old(self)@.outbox,
                    RowState::Dead,
                    clamped_ms(created_before_ms),
                ),
                ..old(self)@
            }),
            r == old(self)@.outbox.len() - final(self)@.outbox.len(),
    {
        self.prune_outbox(RowState::Dead, created_before_ms)
    }

    /// Drops the messages that were sent and created before a time, and says how many there were.
    pub fn prune_sent(&mut self, created_before_ms: u64) -> (r: usize)
        requires
            old(self).wf(),
        ensures
            final(self).wf(),
            final(self)@ == (DbState {
                outbox: without_old(
                    old(self)@.outbox,
                    RowState::Sent,
                    clamped_ms(created_before_ms),
                ),
                ..old(self)@
            }),
            r == old(self)@.outbox.len() - final(self)@.outbox.len(),
    {
        self.prune_outbox(RowState::Sent, created_before_ms)
    }

    /// Drops the record of messages received before a time, and says how many there were.
    pub fn prune_seen(&mut self, before_ms: u64) -> (r: usize)
        requires
            old(self).wf(),
        ensures
            final(self).wf(),
            final(self)@ == (DbState {
                seen: seen_since(old(self)@.seen, clamped_ms(before_ms)),
                ..old(self)@
            }),
            r == old(self)@.seen.len() - final(self)@.seen.len(),
    {
        let cutoff: i64 = clamp_ms(before_ms);
        let ghost keep = |r: SeenRow| r.seen_ms >= cutoff;
        let mut kept: Vec<SeenRow> = Vec::new();
        let mut i: usize = 0;
        while i < self.seen.len()
            invariant
                i <= self.seen@.len(),
                *self == *old(self),
                keep == (|r: SeenRow| r.seen_ms >= cutoff),
                kept@ == self.seen@.take(i as int).filter(keep),
            decreases self.seen@.len() - i,
        {
            proof {
                reveal(Seq::filter);
                assert(self.seen@.take(i + 1).drop_last() =~= self.seen@.take(i as int));
            }
            if self.seen[i].seen_ms >= cutoff {
                kept.push(self.seen[i]);
            }
            i = i + 1;
        }
        proof {
            assert(self.seen@.take(i as int) =~= self.seen@);
            lemma_filter_seen(self.seen@, keep);
        }
        let gone: usize = self.seen.len() - kept.len();
        self.seen = kept;
        gone
    }

    /// Whether a received message is new; if it is, it is put on record. When the record is full,
    /// what is too old goes first, and if it is still full the message is refused.
    pub fn record_seen(&mut self, msg_id: &MsgId, now_ms: u64) -> (r: bool)
        requires
            old(self).wf(),
        ensures
            final(self).wf(),
            r == seen_accepts(old(self)@.seen, *msg_id, now_ms),
            final(self)@ == (DbState {
                seen: seen_after(old(self)@.seen, *msg_id, now_ms),
                ..old(self)@
            }),
    {
        if self.seen.len() >= INBOX_SEEN_CAP as usize {
            let _gone: usize = self.prune_seen(now_ms.saturating_sub(SEEN_RETENTION_WINDOW_MS));
            if self.seen.len() >= INBOX_SEEN_CAP as usize {
                return false;
            }
        }
        if self.find_seen(msg_id) {
            return false;
        }
        let ghost before = self@.seen;
        self.seen.push(SeenRow { msg_id: *msg_id, seen_ms: clamp_ms(now_ms) });
        proof {
            let after = self@.seen;
            assert forall|i: int, j: int| #![trigger after[i], after[j]]
                0 <= i < j < after.len() implies after[i].msg_id != after[j].msg_id by {
                if j < before.len() {
                    assert(before[i].msg_id != before[j].msg_id);
                } else {
                    assert(before[i].msg_id != *msg_id);
                }
            }
        }
        true
    }

    /// How many messages wait, were given up, and are on record as received.
    pub fn stats(&self) -> (r: (u32, u32, u32))
        ensures
            r.0 == count_in(self@.outbox, RowState::Pending) as u32,
            r.1 == count_in(self@.outbox, RowState::Dead) as u32,
            r.2 == self@.seen.len() as u32,
    {
        let pending: usize = self.count(RowState::Pending);
        let dead: usize = self.count(RowState::Dead);
        (pending as u32, dead as u32, self.seen.len() as u32)
    }

    fn count(&self, state: RowState) -> (r: usize)
        ensures
            r == count_in(self@.outbox, state),
    {
        let ghost rows = self@.outbox;
        let mut n: usize = 0;
        let mut i: usize = 0;
        while i < self.outbox.len()
            invariant
                i <= self.outbox@.len(),
                rows == self@.outbox,
                n <= i,
                n == count_in(rows.take(i as int), state),
            decreases self.outbox@.len() - i,
        {
            proof {
                assert(rows[i as int] == self.outbox@[i as int]@);
                assert(rows.take(i + 1).drop_last() =~= rows.take(i as int));
            }
            if self.outbox[i].state == state {
                n = n + 1;
            }
            i = i + 1;
        }
        assert(rows.take(i as int) =~= rows);
        n
    }
}

/// What a filter leaves was there before.
proof fn lemma_filter_subset(s: Seq<StoredData>, keep: spec_fn(StoredData) -> bool, i: int)
    requires
        0 <= i < s.filter(keep).len(),
    ensures
        s.contains(s.filter(keep)[i]),
    decreases s.len(),
{
    reveal(Seq::filter);
    let front = s.drop_last();
    if i < front.filter(keep).len() {
        lemma_filter_subset(front, keep, i);
        let k = choose|k: int| 0 <= k < front.len() && front[k] == front.filter(keep)[i];
        assert(s[k] == s.filter(keep)[i]);
    } else {
        assert(s[s.len() - 1] == s.filter(keep)[i]);
    }
}

/// A message that was sent or given up is never due.
pub proof fn law_only_waiting_messages_are_due(s: Seq<StoredData>, due_by: Option<i64>, k: int)
    requires
        0 <= k < all_wanted(s, RowState::Pending, due_by).len(),
    ensures
        all_wanted(s, RowState::Pending, due_by)[k].state == RowState::Pending,
        due_by matches Some(t) ==> all_wanted(s, RowState::Pending, due_by)[k].next_attempt_ms <= t,
        s.contains(all_wanted(s, RowState::Pending, due_by)[k]),
{
    broadcast use vstd::seq_lib::group_filter_ensures;

    let keep = |r: StoredData| wanted(r, RowState::Pending, due_by);
    let f = s.filter(keep);
    let all = all_wanted(s, RowState::Pending, due_by);
    law_oldest_first(f);
    f.to_multiset_ensures();
    all.to_multiset_ensures();
    assert(all.contains(all[k]));
    assert(all.to_multiset().count(all[k]) > 0);
    assert(f.contains(all[k]));
    let m = choose|m: int| 0 <= m < f.len() && f[m] == all[k];
    lemma_filter_subset(s, keep, m);
}

/// Something that touches the record of received messages: a message arrives, or what was received
/// more than a week before a time is dropped.
pub enum SeenEvent {
    Arrival { id: MsgId, now_ms: u64 },
    Cleanup { now_ms: u64 },
}

impl SeenEvent {
    /// When it happens.
    pub open spec fn at(self) -> u64 {
        match self {
            SeenEvent::Arrival { now_ms, .. } => now_ms,
            SeenEvent::Cleanup { now_ms } => now_ms,
        }
    }
}

/// The record after an event.
pub open spec fn seen_after_event(s: Seq<SeenRow>, e: SeenEvent) -> Seq<SeenRow> {
    match e {
        SeenEvent::Arrival { id, now_ms } => seen_after(s, id, now_ms),
        SeenEvent::Cleanup { now_ms } => seen_since(
            s,
            clamped_ms(
                if now_ms < SEEN_RETENTION_WINDOW_MS {
                    0
                } else {
                    (now_ms - SEEN_RETENTION_WINDOW_MS) as u64
                },
            ),
        ),
    }
}

/// The record after some events.
pub open spec fn seen_after_all(s: Seq<SeenRow>, events: Seq<SeenEvent>) -> Seq<SeenRow>
    decreases events.len(),
{
    if events.len() == 0 {
        s
    } else {
        seen_after_event(seen_after_all(s, events.drop_last()), events.last())
    }
}

/// A line of the record stays through an event less than a week later.
proof fn lemma_seen_stays(s: Seq<SeenRow>, e: SeenEvent, row: SeenRow, first_ms: u64)
    requires
        s.contains(row),
        row.seen_ms == clamped_ms(first_ms),
        e.at() <= first_ms + SEEN_RETENTION_WINDOW_MS,
    ensures
        seen_after_event(s, e).contains(row),
{
    broadcast use vstd::seq_lib::group_filter_ensures;

    match e {
        SeenEvent::Cleanup { .. } => {},
        SeenEvent::Arrival { id, now_ms } => {
            let room = seen_with_room(s, now_ms);
            assert(room.contains(row));
            let k = choose|k: int| 0 <= k < room.len() && room[k] == row;
            assert(seen_after(s, id, now_ms)[k] == row);
        },
    }
}

/// No message is taken twice within a week: once it was new it is refused, whatever arrives in
/// between, however much of it, and whatever is cleaned up.
pub proof fn law_no_message_is_taken_twice(
    s: Seq<SeenRow>,
    id: MsgId,
    first_ms: u64,
    between: Seq<SeenEvent>,
    again_ms: u64,
)
    requires
        seen_accepts(s, id, first_ms),
        forall|i: int|
            0 <= i < between.len() ==> (#[trigger] between[i]).at() <= first_ms
                + SEEN_RETENTION_WINDOW_MS,
        again_ms <= first_ms + SEEN_RETENTION_WINDOW_MS,
    ensures
        !seen_accepts(seen_after_all(seen_after(s, id, first_ms), between), id, again_ms),
{
    let row = SeenRow { msg_id: id, seen_ms: clamped_ms(first_ms) };
    let start = seen_after(s, id, first_ms);
    assert(start[start.len() - 1] == row);
    lemma_seen_survives(start, between, row, first_ms);
    let now = seen_after_all(start, between);
    lemma_seen_stays(now, SeenEvent::Arrival { id, now_ms: again_ms }, row, first_ms);
    broadcast use vstd::seq_lib::group_filter_ensures;

    let room = seen_with_room(now, again_ms);
    assert(room.contains(row));
    let k = choose|k: int| 0 <= k < room.len() && room[k] == row;
    assert(room[k].msg_id == id);
}

/// A line of the record stays through events less than a week later.
proof fn lemma_seen_survives(s: Seq<SeenRow>, events: Seq<SeenEvent>, row: SeenRow, first_ms: u64)
    requires
        s.contains(row),
        row.seen_ms == clamped_ms(first_ms),
        forall|i: int|
            0 <= i < events.len() ==> (#[trigger] events[i]).at() <= first_ms
                + SEEN_RETENTION_WINDOW_MS,
    ensures
        seen_after_all(s, events).contains(row),
    decreases events.len(),
{
    if events.len() > 0 {
        let front = events.drop_last();
        assert(events[events.len() - 1].at() <= first_ms + SEEN_RETENTION_WINDOW_MS);
        assert forall|i: int| 0 <= i < front.len() implies (#[trigger] front[i]).at() <= first_ms
            + SEEN_RETENTION_WINDOW_MS by {
            assert(events[i].at() <= first_ms + SEEN_RETENTION_WINDOW_MS);
        }
        lemma_seen_survives(s, front, row, first_ms);
        lemma_seen_stays(seen_after_all(s, front), events.last(), row, first_ms);
    }
}

/// A failed attempt costs a message nothing but the attempt: who it is for, what it says and what is
/// kept of it stay as they were, whether it waits for another attempt or was given up.
pub proof fn law_failure_keeps_the_message(r: StoredData, now_ms: u64, delay: u64)
    ensures
        ({
            let (waits, dead) = (postponed_row(r, now_ms, delay), dead_row(r));
            &&& waits.state == r.state
            &&& dead.state == RowState::Dead
            &&& waits.msg_id == r.msg_id && dead.msg_id == r.msg_id
            &&& waits.recipient == r.recipient && dead.recipient == r.recipient
            &&& waits.body == r.body && dead.body == r.body
            &&& waits.archive == r.archive && dead.archive == r.archive
            &&& waits.created_ms == r.created_ms && dead.created_ms == r.created_ms
        }),
{
}

/// Only what was given up comes back: a message that waits or was sent is not touched, so nothing is
/// sent twice this way.
pub proof fn law_only_the_dead_are_revived(r: StoredData)
    ensures
        r.state != RowState::Dead ==> revived_row(r) == r,
        r.state == RowState::Dead ==> revived_row(r).state == RowState::Pending
            && revived_row(r).attempts == 0 && revived_row(r).msg_id == r.msg_id && revived_row(
            r,
        ).body == r.body && revived_row(r).archive == r.archive,
{
}

/// Nothing that is due is left out, whoever it is for and whatever it holds: every row in a state whose
/// time has come is among those that are wanted, as often as it stands in the queue, and no other row
/// is.
pub proof fn law_nothing_due_is_left_out(
    s: Seq<StoredData>,
    state: RowState,
    due_by: Option<i64>,
    r: StoredData,
)
    ensures
        all_wanted(s, state, due_by).contains(r) <==> s.contains(r) && r.state == state && (due_by matches Some(
            t,
        ) ==> r.next_attempt_ms <= t),
        all_wanted(s, state, due_by).len() == s.filter(
            |x: StoredData| x.state == state && (due_by matches Some(t) ==> x.next_attempt_ms <= t),
        ).len(),
{
    let keep = |x: StoredData| wanted(x, state, due_by);
    let raw = |x: StoredData| x.state == state && (due_by matches Some(t) ==> x.next_attempt_ms <= t);
    assert(keep =~= raw);
    let f = s.filter(keep);
    lemma_filter_keeps(s, keep, r);
    law_oldest_first(f);
    f.to_multiset_ensures();
    by_created(f).to_multiset_ensures();
    assert(f.contains(r) <==> f.to_multiset().count(r) > 0);
    assert(by_created(f).contains(r) <==> by_created(f).to_multiset().count(r) > 0);
}

/// A list of so many is the beginning of the whole list, and as long as the limit and the number of rows
/// allow.
pub proof fn law_limit_cuts_the_end(
    s: Seq<StoredData>,
    state: RowState,
    due_by: Option<i64>,
    limit: u32,
    k: int,
)
    ensures
        first_wanted(s, state, due_by, limit).len() == if all_wanted(s, state, due_by).len() < limit {
            all_wanted(s, state, due_by).len()
        } else {
            limit as nat
        },
        0 <= k < first_wanted(s, state, due_by, limit).len() ==> first_wanted(s, state, due_by, limit)[k]
            == all_wanted(s, state, due_by)[k],
{
}

/// Messages of one time are taken in the order in which they were put in.
pub proof fn law_same_time_keeps_the_order(s: Seq<StoredData>, created_ms: i64)
    ensures
        by_created(s).filter(|r: StoredData| r.created_ms == created_ms) == s.filter(
            |r: StoredData| r.created_ms == created_ms,
        ),
    decreases s.len(),
{
    reveal(Seq::filter);
    if s.len() > 0 {
        law_same_time_keeps_the_order(s.drop_last(), created_ms);
        law_oldest_first(s.drop_last());
        let sorted = by_created(s.drop_last());
        lemma_place_behind_filter(sorted, s.last(), created_ms);
        let keep = |r: StoredData| r.created_ms == created_ms;
        lemma_filter_push(sorted, s.last(), keep);
        lemma_filter_push(s.drop_last(), s.last(), keep);
        assert(s.drop_last().push(s.last()) =~= s);
    }
}

/// Putting a row in its place puts it behind those of its time.
proof fn lemma_place_behind_filter(s: Seq<StoredData>, r: StoredData, created_ms: i64)
    requires
        forall|i: int, j: int|
            #![trigger s[i], s[j]]
            0 <= i < j < s.len() ==> s[i].created_ms <= s[j].created_ms,
    ensures
        place_behind(s, r).filter(|x: StoredData| x.created_ms == created_ms) == s.push(r).filter(
            |x: StoredData| x.created_ms == created_ms,
        ),
    decreases s.len(),
{
    reveal(Seq::filter);
    let keep = |x: StoredData| x.created_ms == created_ms;
    if s.len() == 0 || s.last().created_ms <= r.created_ms {
    } else {
        let (front, last) = (s.drop_last(), s.last());
        lemma_place_behind_filter(front, r, created_ms);
        assert(front.push(last) =~= s);
        lemma_filter_push(place_behind(front, r), last, keep);
        lemma_filter_push(front, r, keep);
        lemma_filter_push(front, last, keep);
        lemma_filter_push(s, r, keep);
    }
}

/// The count of a state is the number of its rows.
pub proof fn law_every_row_is_counted(s: Seq<StoredData>, state: RowState)
    ensures
        count_in(s, state) == s.filter(|r: StoredData| r.state == state).len(),
    decreases s.len(),
{
    reveal(Seq::filter);
    if s.len() > 0 {
        law_every_row_is_counted(s.drop_last(), state);
    }
}

/// A message that is not on record is taken as long as there is room, and put on record with its time;
/// nothing else on record changes then. One that is on record is not taken.
pub proof fn law_new_message_is_taken(s: Seq<SeenRow>, id: MsgId, now_ms: u64)
    requires
        s.len() < 16_384,
    ensures
        seen_accepts(s, id, now_ms) <==> forall|i: int|
            0 <= i < s.len() ==> (#[trigger] s[i]).msg_id != id,
        seen_accepts(s, id, now_ms) ==> seen_after(s, id, now_ms).drop_last() == s && seen_after(
            s,
            id,
            now_ms,
        ).last().msg_id == id && (now_ms <= i64::MAX ==> seen_after(s, id, now_ms).last().seen_ms
            == now_ms),
        !seen_accepts(s, id, now_ms) ==> seen_after(s, id, now_ms) == s,
{
    assert(s.push(SeenRow { msg_id: id, seen_ms: clamped_ms(now_ms) }).drop_last() =~= s);
}

/// A record is never forgotten within a week, neither for want of room nor in a cleanup; when the record
/// is full of such, nothing new is taken.
pub proof fn law_recent_record_stays(s: Seq<SeenRow>, id: MsgId, now_ms: u64, r: SeenRow)
    requires
        s.contains(r),
        r.seen_ms >= now_ms - 604_800_000,
        r.seen_ms >= 0,
    ensures
        seen_after(s, id, now_ms).contains(r),
        seen_after_event(s, SeenEvent::Cleanup { now_ms }).contains(r),
        r.msg_id == id ==> !seen_accepts(s, id, now_ms),
        s.len() >= 16_384 && (forall|i: int|
            0 <= i < s.len() ==> (#[trigger] s[i]).seen_ms >= now_ms - 604_800_000 && s[i].seen_ms >= 0)
            ==> !seen_accepts(s, id, now_ms) && seen_after(s, id, now_ms) == s,
{
    let cutoff = clamped_ms(
        if now_ms < SEEN_RETENTION_WINDOW_MS {
            0
        } else {
            (now_ms - SEEN_RETENTION_WINDOW_MS) as u64
        },
    );
    let keep = |x: SeenRow| x.seen_ms >= cutoff;
    lemma_filter_keeps(s, keep, r);
    let room = seen_with_room(s, now_ms);
    assert(room.contains(r));
    let new = SeenRow { msg_id: id, seen_ms: clamped_ms(now_ms) };
    lemma_push_contains(room, new, r);
    if r.msg_id == id {
        let i = choose|i: int| 0 <= i < room.len() && room[i] == r;
        assert(room[i].msg_id == id);
    }
    if s.len() >= 16_384 && (forall|i: int|
        0 <= i < s.len() ==> (#[trigger] s[i]).seen_ms >= now_ms - 604_800_000 && s[i].seen_ms >= 0) {
        lemma_filter_all(s, keep);
    }
}

/// A cleanup drops what was received before its time limit, and nothing else.
pub proof fn law_cleanup_drops_only_the_old(s: Seq<SeenRow>, cutoff: i64, r: SeenRow)
    ensures
        seen_since(s, cutoff).contains(r) <==> s.contains(r) && r.seen_ms >= cutoff,
{
    lemma_filter_keeps(s, |x: SeenRow| x.seen_ms >= cutoff, r);
}

/// Rows are dropped if they are in the state and were created before the time limit, and only then.
pub proof fn law_pruning_drops_only_the_old(
    s: Seq<StoredData>,
    state: RowState,
    cutoff: i64,
    r: StoredData,
)
    ensures
        without_old(s, state, cutoff).contains(r) <==> s.contains(r) && (r.state != state || r.created_ms
            >= cutoff),
{
    lemma_filter_keeps(s, |x: StoredData| !(x.state == state && x.created_ms < cutoff), r);
}

/// A failed attempt counts as one attempt, and the next one is due as long after it as the delay says; a
/// message that is given up was tried once more, and is not due any more.
pub proof fn law_failure_is_counted(r: StoredData, now_ms: u64, delay: u64)
    requires
        r.attempts < u32::MAX,
        now_ms + delay <= i64::MAX,
    ensures
        postponed_row(r, now_ms, delay) == (StoredData {
            attempts: (r.attempts + 1) as u32,
            next_attempt_ms: (now_ms + delay) as i64,
            ..r
        }),
        dead_row(r) == (StoredData {
            attempts: (r.attempts + 1) as u32,
            state: RowState::Dead,
            ..r
        }),
{
}

/// A sent message is on record as sent, with all that it says; a revived one waits and is due at once.
pub proof fn law_sent_and_revived_rows(r: StoredData)
    ensures
        sent_row(r).state == RowState::Sent,
        sent_row(r).msg_id == r.msg_id && sent_row(r).recipient == r.recipient && sent_row(r).group_id
            == r.group_id && sent_row(r).kind == r.kind && sent_row(r).body == r.body && sent_row(r).attempts
            == r.attempts && sent_row(r).created_ms == r.created_ms,
        r.state == RowState::Dead ==> revived_row(r) == (StoredData {
            state: RowState::Pending,
            attempts: 0,
            next_attempt_ms: 0,
            ..r
        }),
{
}

/// A change of one message leaves all others as they are.
pub proof fn law_only_that_row_changes(s: DbState, i: int, r: StoredData, j: int)
    requires
        0 <= i < s.outbox.len(),
        0 <= j < s.outbox.len(),
    ensures
        row_changed(s, i, r).outbox.len() == s.outbox.len(),
        row_changed(s, i, r).outbox[j] == if j == i {
            r
        } else {
            s.outbox[j]
        },
        row_changed(s, i, r).seen == s.seen,
{
}

/// What is put into the queue whole comes out of it as it was, as long as it waits, and is due at once.
pub proof fn law_queued_envelope_comes_back(e: EnvelopeData, out: EnvelopeData)
    ensures
        ({
            let row = StoredData::of_envelope(e, true);
            &&& row.restorable() <==> !(e.group is Some && e.recipient is Some) && !(e.group is Some
                && e.ttl_hops == 0)
            &&& row.is_restored(out) <==> out == e
            &&& row.state == RowState::Pending && row.attempts == 0 && row.next_attempt_ms == 0
            &&& row.msg_id == e.msg_id@
            &&& e.sent_at_ms <= i64::MAX ==> row.created_ms == e.sent_at_ms
        }),
{
}

/// What is put into the queue without the whole envelope comes out with its id, its receiver, its kind and
/// its body; the sender is left open.
pub proof fn law_queued_columns_come_back(e: EnvelopeData, out: EnvelopeData)
    requires
        e.sent_at_ms <= i64::MAX,
        StoredData::of_envelope(e, false).is_restored(out),
    ensures
        StoredData::of_envelope(e, false).restorable(),
        out.msg_id@ == e.msg_id@,
        key_bytes(out.recipient) == key_bytes(e.recipient),
        key_bytes(out.group) == key_bytes(e.group),
        out.kind == e.kind,
        out.body == e.body,
        out.sent_at_ms == e.sent_at_ms,
        out.ttl_hops == 6,
        forall|i: int| 0 <= i < 32 ==> #[trigger] out.sender@[i] == 0,
{
}

/// A time is stored as it is, as long as it fits.
pub proof fn law_time_is_stored_as_it_is(v: u64)
    ensures
        v <= i64::MAX ==> clamped_ms(v) == v,
        v > i64::MAX ==> clamped_ms(v) == i64::MAX,
{
}

/// A full record takes a message if and only if no message of the last week has its id and fewer than 16384
/// came in that week.
pub proof fn law_full_record_makes_room(s: Seq<SeenRow>, id: MsgId, now_ms: u64)
    requires
        s.len() >= 16_384,
        604_800_000 <= now_ms <= i64::MAX,
    ensures
        seen_accepts(s, id, now_ms) <==> {
            &&& forall|r: SeenRow| #[trigger]
                s.contains(r) && r.msg_id == id ==> r.seen_ms < now_ms - 604_800_000
            &&& s.filter(|r: SeenRow| r.seen_ms >= now_ms - 604_800_000).len() < 16_384
        },
{
    let cutoff = clamped_ms((now_ms - SEEN_RETENTION_WINDOW_MS) as u64);
    let keep = |r: SeenRow| r.seen_ms >= cutoff;
    let kept = seen_with_room(s, now_ms);
    assert(keep =~= (|r: SeenRow| r.seen_ms >= now_ms - 604_800_000));
    if seen_before(kept, id) {
        let i = choose|i: int| 0 <= i < kept.len() && (#[trigger] kept[i]).msg_id == id;
        assert(kept.contains(kept[i]));
        lemma_filter_keeps(s, keep, kept[i]);
    } else {
        assert forall|r: SeenRow| #[trigger] s.contains(r) && r.msg_id == id implies r.seen_ms < now_ms
            - 604_800_000 by {
            lemma_filter_keeps(s, keep, r);
            if kept.contains(r) {
                let i = choose|i: int| 0 <= i < kept.len() && kept[i] == r;
                assert(kept[i].msg_id == id);
            }
        }
    }
}

/// A message is in the queue if some row has its id, and that row is the one that is meant.
pub proof fn law_row_is_found_by_its_id(s: Seq<StoredData>, id: Seq<u8>, i: int)
    requires
        rows_distinct(s),
        0 <= i < s.len(),
        s[i].msg_id == id,
    ensures
        queued(s, id),
        row_place(s, id) == i,
{
    assert(row_at(s, id, i));
    let k = row_place(s, id);
    assert(row_at(s, id, k));
    if k < i {
        assert(s[k].msg_id != s[i].msg_id);
    } else if i < k {
        assert(s[i].msg_id != s[k].msg_id);
    }
}

/// A list of rows shows every row in its place, with its own id, recipient, group, kind, body and number of
/// attempts. It is given whenever all ids and keys have their lengths.
pub proof fn law_list_shows_the_rows(
    rows: Seq<StoredData>,
    r: Result<Vec<PendingRow>, CoreError>,
    k: int,
)
    requires
        is_row_list(rows, r),
        0 <= k < rows.len(),
    ensures
        r matches Ok(v) ==> {
            &&& v@.len() == rows.len()
            &&& v@[k].msg_id@ == rows[k].msg_id
            &&& v@[k].recipient is Some <==> rows[k].recipient is Some
            &&& v@[k].recipient matches Some(id) ==> rows[k].recipient == Some(id@)
            &&& v@[k].group_id is Some <==> rows[k].group_id is Some
            &&& v@[k].group_id matches Some(id) ==> rows[k].group_id == Some(id@)
            &&& 0 <= rows[k].kind <= 255 ==> v@[k].kind == rows[k].kind
            &&& v@[k].body@ == rows[k].body
            &&& v@[k].attempts == rows[k].attempts
        },
        (forall|j: int|
            0 <= j < rows.len() ==> (#[trigger] rows[j]).msg_id.len() == 16 && (
            rows[j].recipient matches Some(b) ==> b.len() == 32) && (rows[j].group_id matches Some(b)
                ==> b.len() == 32)) ==> r is Ok,
{
    assert(rows[k] == rows[k]);
}

/// A list of envelopes has one for every row, in their order. It is given whenever every row gives one.
pub proof fn law_list_has_every_envelope(
    rows: Seq<StoredData>,
    r: Result<Vec<Envelope>, CoreError>,
    k: int,
)
    requires
        is_envelope_list(rows, r),
        0 <= k < rows.len(),
    ensures
        r matches Ok(v) ==> v@.len() == rows.len() && rows[k].is_restored(v@[k]@),
        !rows[k].restorable() ==> r is Err,
        (forall|j: int| 0 <= j < rows.len() ==> (#[trigger] rows[j]).restorable()) ==> r is Ok,
{
    assert(rows[k] == rows[k]);
}

/// What a row can be restored from: a kept envelope of a sound shape, or columns of the right lengths with a
/// kind that there is.
pub proof fn law_what_can_be_restored(r: StoredData)
    ensures
        r.archive matches Some(Ok(e)) ==> (r.restorable() <==> (e.group is None || (e.recipient is None
            && e.ttl_hops > 0))),
        r.archive matches Some(Err(_)) ==> !r.restorable(),
        r.archive is None ==> (r.restorable() <==> {
            &&& r.msg_id.len() == 16
            &&& r.recipient matches Some(b) ==> b.len() == 32
            &&& r.group_id matches Some(b) ==> b.len() == 32
            &&& r.kind == 1 || r.kind == 2 || r.kind == 3 || r.kind == 4
        }),
{
}

/// The columns of a stored envelope are those of the envelope, whether all of it is kept or not.
pub proof fn law_columns_are_the_envelopes(e: EnvelopeData, whole: bool)
    ensures
        ({
            let row = StoredData::of_envelope(e, whole);
            &&& row.msg_id == e.msg_id@
            &&& e.recipient is None ==> row.recipient is None
            &&& e.recipient matches Some(id) ==> row.recipient == Some(id@)
            &&& e.group is None ==> row.group_id is None
            &&& e.group matches Some(id) ==> row.group_id == Some(id@)
            &&& row.kind == e.kind.number()
            &&& row.body == e.body
            &&& row.archive is Some <==> whole
            &&& row.state == RowState::Pending
            &&& row.attempts == 0
            &&& row.next_attempt_ms == 0
        }),
        sent_row(StoredData::of_envelope(e, whole)).archive is None,
{
}

/// A fault names what is wrong: the first column with a wrong length, the kind that there is not, or what the
/// kept envelope says.
pub proof fn law_fault_names_the_column(r: StoredData)
    ensures
        r.msg_id.len() != 16 ==> column_fault(r) == "Invalid column type Blob at index: 0, name: msg_id"@,
        r.msg_id.len() == 16 && (r.recipient matches Some(b) && b.len() != 32) ==> column_fault(r)
            == "Invalid column type Blob at index: 1, name: recipient"@,
        r.archive is None && r.sized() ==> restore_fault(r)
            == "Conversion error from type Integer at index: 3, 数据库错误: 未知 PayloadKind: "@
            + signed_decimal(r.kind as int),
        r.archive is None && !r.sized() ==> restore_fault(r) == column_fault(r),
        r.archive matches Some(Err(t)) ==> restore_fault(r)
            == "Conversion error from type Blob at index: 6, "@ + t,
{
}

} // verus!
