//! The mailbox service: the entrance, a limit on how often a pair of contacts may write, the
//! buckets themselves and how they are read.
use vstd::prelude::*;
use crate::arith::same_bytes;
use crate::bytes::to_vec;
use crate::crypto::{
    absorb, absorbed, blake3_hash, digest, draw_array, generator_failed, generator_gave, hasher,
    random_error_text,
};
use crate::envelope::{Dedup, Envelope, EnvelopeData, MsgId, PayloadKind};
use crate::lists::{lemma_filter_keeps, lemma_push_contains};
use crate::identity::NodeId;
use crate::mailbox::{
    ids_distinct, in_window, law_restart_forgets_nothing, ledger_accepts, ledger_after, ledger_with,
    verify_inbound, BucketWrite, BucketWriteData, LedgerEntry, MailboxRead, NonceCache, LEDGER_CAP,
};
use crate::nodekey::NodeKeyAnnouncement;
use crate::text::{ascii, ascii_bytes, contains_text, holds_text, stands_at};
use crate::CoreError;

verus! {

/// Writes that one pair of contacts has per minute.
pub const WRITES_PER_MINUTE: u32 = 30;

/// A pair's budget is counted in parts of a write: one part flows back per millisecond, and
/// this many parts make a write.
pub const PARTS_PER_WRITE: u64 = 2_000;

/// The budget of a minute.
pub const FULL_BUDGET: u64 = 60_000;

/// A pair that has not written for so long has a full budget again and can be forgotten.
pub const SENDER_IDLE_EVICT_MS: u64 = 120_000;

/// Budgets are forgotten only once there are as many as this.
pub const SENDER_SOFT_CAP: usize = 4096;

/// Why a write was refused at the entrance.
#[derive(Debug, Clone, Copy, PartialEq, Eq, Structural)]
pub enum MailboxError {
    /// The hash is wrong: another key, or altered content.
    MacMismatch,
    /// The time stamp lies outside the replay window.
    WindowExceeded,
    /// The message has been accepted before.
    ReplayRejected,
    /// The budget of the pair is used up.
    RateLimited,
}

impl MailboxError {
    /// The message for a user.
    pub open spec fn text(self) -> Seq<char> {
        match self {
            MailboxError::MacMismatch => "信箱写入验签失败（钥匙不符或内容被篡改）"@,
            MailboxError::WindowExceeded => "信箱写入时间戳超出重放窗口"@,
            MailboxError::ReplayRejected => "重放的信箱写入被拒绝"@,
            MailboxError::RateLimited => "发送方写入超过限速（≤30 封/分钟/对）"@,
        }
    }

    /// The message for a user.
    pub fn message(&self) -> (r: String)
        ensures
            r@ == self.text(),
    {
        let s = match self {
            MailboxError::MacMismatch => "信箱写入验签失败（钥匙不符或内容被篡改）",
            MailboxError::WindowExceeded => "信箱写入时间戳超出重放窗口",
            MailboxError::ReplayRejected => "重放的信箱写入被拒绝",
            MailboxError::RateLimited => "发送方写入超过限速（≤30 封/分钟/对）",
        };
        s.to_owned()
    }
}

/// The kind of refusal that an error of the entrance stands for. What is not known counts as an
/// altered write.
pub open spec fn gate_class(e: CoreError) -> MailboxError {
    match e {
        CoreError::Crypto(msg) => if holds_text(msg@, "replayed write"@) {
            MailboxError::ReplayRejected
        } else if holds_text(msg@, "outside replay window"@) {
            MailboxError::WindowExceeded
        } else {
            MailboxError::MacMismatch
        },
        _ => MailboxError::MacMismatch,
    }
}

/// Sorts an error of the entrance by its text.
pub fn classify_gate(e: CoreError) -> (r: MailboxError)
    ensures
        r == gate_class(e),
{
    match e {
        CoreError::Crypto(msg) => {
            if contains_text(msg.as_str(), "replayed write") {
                MailboxError::ReplayRejected
            } else if contains_text(msg.as_str(), "outside replay window") {
                MailboxError::WindowExceeded
            } else {
                MailboxError::MacMismatch
            }
        },
        _ => MailboxError::MacMismatch,
    }
}

/// The three texts of the entrance are told apart.
proof fn lemma_gate_texts()
    ensures
        !holds_text("mailbox mac mismatch"@, "replayed write"@),
        !holds_text("mailbox mac mismatch"@, "outside replay window"@),
        !holds_text("mailbox write outside replay window"@, "replayed write"@),
        holds_text("mailbox write outside replay window"@, "outside replay window"@),
        holds_text("replayed write"@, "replayed write"@),
{
    reveal_strlit("mailbox mac mismatch");
    reveal_strlit("replayed write");
    reveal_strlit("outside replay window");
    reveal_strlit("mailbox write outside replay window");
    let (m, w, r, o) = (
        "mailbox mac mismatch"@,
        "mailbox write outside replay window"@,
        "replayed write"@,
        "outside replay window"@,
    );
    assert forall|i: int| !#[trigger] stands_at(m, r, i) by {
        if stands_at(m, r, i) {
            assert(m.subrange(i, i + r.len())[0] == m[i]);
        }
    }
    assert forall|i: int| !#[trigger] stands_at(w, r, i) by {
        if stands_at(w, r, i) {
            assert(w.subrange(i, i + r.len())[0] == w[i]);
            assert(w.subrange(i, i + r.len())[1] == w[i + 1]);
        }
    }
    assert(w.subrange(14, 14 + o.len() as int) =~= o);
    assert(stands_at(w, o, 14));
    assert(r.subrange(0, r.len() as int) =~= r);
    assert(stands_at(r, r, 0));
}


/// What is left of a pair's budget, and when that was last reckoned.
#[derive(Clone, Copy)]
pub struct PairRate {
    pub pair: NodeId,
    pub parts: u64,
    pub last_refill_ms: u64,
}

impl PairRate {
    /// A pair that writes for the first time has the full budget.
    pub open spec fn fresh(pair: NodeId, now_ms: u64) -> PairRate {
        PairRate { pair, parts: FULL_BUDGET, last_refill_ms: now_ms }
    }

    /// The budget at `now_ms`. A clock that runs back adds nothing and takes nothing away.
    pub open spec fn refilled(self, now_ms: u64) -> PairRate {
        if now_ms > self.last_refill_ms {
            PairRate {
                parts: if self.parts + (now_ms - self.last_refill_ms) > FULL_BUDGET {
                    FULL_BUDGET
                } else {
                    (self.parts + (now_ms - self.last_refill_ms)) as u64
                },
                last_refill_ms: now_ms,
                ..self
            }
        } else {
            self
        }
    }

    /// There is budget for a write at `now_ms`.
    pub open spec fn may_write(self, now_ms: u64) -> bool {
        self.refilled(now_ms).parts >= PARTS_PER_WRITE
    }

    /// The budget after a write was asked for.
    pub open spec fn after_request(self, now_ms: u64) -> PairRate {
        if self.may_write(now_ms) {
            PairRate {
                parts: (self.refilled(now_ms).parts - PARTS_PER_WRITE) as u64,
                ..self.refilled(now_ms)
            }
        } else {
            self.refilled(now_ms)
        }
    }

    /// The pair has been idle for long at `now_ms`.
    pub open spec fn forgotten(self, now_ms: u64) -> bool {
        now_ms - self.last_refill_ms >= SENDER_IDLE_EVICT_MS
    }

    fn try_take(&mut self, now_ms: u64) -> (r: bool)
        requires
            old(self).parts <= FULL_BUDGET,
        ensures
            r == old(self).may_write(now_ms),
            *final(self) == old(self).after_request(now_ms),
            final(self).parts <= FULL_BUDGET,
    {
        if now_ms > self.last_refill_ms {
            let elapsed: u64 = now_ms - self.last_refill_ms;
            self.parts = if elapsed > FULL_BUDGET - self.parts {
                FULL_BUDGET
            } else {
                self.parts + elapsed
            };
            self.last_refill_ms = now_ms;
        }
        if self.parts >= PARTS_PER_WRITE {
            self.parts = self.parts - PARTS_PER_WRITE;
            true
        } else {
            false
        }
    }

    fn idle_for(&self, now_ms: u64) -> (r: u64)
        ensures
            r >= SENDER_IDLE_EVICT_MS <==> self.forgotten(now_ms),
    {
        now_ms.saturating_sub(self.last_refill_ms)
    }
}

/// Every pair stands in the table once, with a budget within bounds.
pub open spec fn rates_valid(rates: Seq<PairRate>) -> bool {
    &&& forall|i: int| 0 <= i < rates.len() ==> (#[trigger] rates[i]).parts <= FULL_BUDGET
    &&& forall|i: int, j: int|
        #![trigger rates[i], rates[j]]
        0 <= i < j < rates.len() ==> rates[i].pair != rates[j].pair
}

/// The table after idle pairs were forgotten, which happens only when it is long.
pub open spec fn swept(rates: Seq<PairRate>, now_ms: u64) -> Seq<PairRate> {
    if rates.len() >= SENDER_SOFT_CAP {
        rates.filter(|r: PairRate| !r.forgotten(now_ms))
    } else {
        rates
    }
}

/// The pair stands at position `i` of the table.
pub open spec fn on_record_at(rates: Seq<PairRate>, pair: NodeId, i: int) -> bool {
    0 <= i < rates.len() && rates[i].pair == pair
}

/// The pair stands in the table.
pub open spec fn on_record(rates: Seq<PairRate>, pair: NodeId) -> bool {
    exists|i: int| #[trigger] on_record_at(rates, pair, i)
}

/// A pair's line of the table, a fresh one if it has none.
pub open spec fn rate_of(rates: Seq<PairRate>, pair: NodeId, now_ms: u64) -> PairRate {
    if on_record(rates, pair) {
        rates[choose|i: int| #[trigger] on_record_at(rates, pair, i)]
    } else {
        PairRate::fresh(pair, now_ms)
    }
}

/// The table with `r` in place of the pair's line, or behind the others.
pub open spec fn with_rate(rates: Seq<PairRate>, r: PairRate) -> Seq<PairRate> {
    if on_record(rates, r.pair) {
        rates.update(choose|i: int| #[trigger] on_record_at(rates, r.pair, i), r)
    } else {
        rates.push(r)
    }
}

/// A pair may write at `now_ms`.
pub open spec fn rate_allows(rates: Seq<PairRate>, pair: NodeId, now_ms: u64) -> bool {
    rate_of(swept(rates, now_ms), pair, now_ms).may_write(now_ms)
}

/// The table after a pair asked for a write.
pub open spec fn rates_after(rates: Seq<PairRate>, pair: NodeId, now_ms: u64) -> Seq<PairRate> {
    with_rate(
        swept(rates, now_ms),
        rate_of(swept(rates, now_ms), pair, now_ms).after_request(now_ms),
    )
}

/// Filtering leaves a table valid.
proof fn lemma_filter_rates(rates: Seq<PairRate>, keep: spec_fn(PairRate) -> bool)
    requires
        rates_valid(rates),
    ensures
        rates_valid(rates.filter(keep)),
        forall|i: int|
            0 <= i < rates.filter(keep).len() ==> rates.contains(#[trigger] rates.filter(keep)[i]),
    decreases rates.len(),
{
    reveal(Seq::filter);
    if rates.len() > 0 {
        let front = rates.drop_last();
        assert(rates_valid(front)) by {
            assert forall|i: int, j: int| #![trigger front[i], front[j]]
                0 <= i < j < front.len() implies front[i].pair != front[j].pair by {
                assert(rates[i].pair != rates[j].pair);
            }
        }
        lemma_filter_rates(front, keep);
        let f = front.filter(keep);
        let g = rates.filter(keep);
        assert forall|i: int| 0 <= i < g.len() implies rates.contains(#[trigger] g[i])
            && g[i].parts <= FULL_BUDGET by {
            if i < f.len() {
                assert(g[i] == f[i]);
                let k = choose|k: int| 0 <= k < front.len() && front[k] == f[i];
                assert(rates[k] == g[i]);
            } else {
                assert(rates[rates.len() - 1] == g[i]);
            }
        }
        assert forall|i: int, j: int| #![trigger g[i], g[j]]
            0 <= i < j < g.len() implies g[i].pair != g[j].pair by {
            assert(g[i] == f[i]);
            if j < f.len() {
                assert(g[j] == f[j]);
            } else {
                let k = choose|k: int| 0 <= k < front.len() && front[k] == f[i];
                assert(rates[k].pair != rates[rates.len() - 1].pair);
            }
        }
    }
}

/// In a valid table a pair's place is unique.
proof fn lemma_record_unique(rates: Seq<PairRate>, pair: NodeId, i: int)
    requires
        rates_valid(rates),
        on_record_at(rates, pair, i),
    ensures
        (choose|k: int| #[trigger] on_record_at(rates, pair, k)) == i,
{
    let k = choose|k: int| #[trigger] on_record_at(rates, pair, k);
    assert(on_record_at(rates, pair, k));
    assert(rates[k].pair == rates[i].pair);
}

/// What the key of a pair is hashed from.
pub open spec fn pair_material(secret: Seq<u8>) -> Seq<u8> {
    ascii("dc-mailbox-pair-v1\n"@) + secret
}

/// The key by which a pair of contacts is known: a hash of the secret that they share. It does not
/// depend on what a write says of its sender.
pub open spec fn pair_of(secret: Seq<u8>) -> NodeId {
    choose|k: NodeId| k@ == blake3_hash(pair_material(secret))
}

/// The key of a pair.
fn pair_key(secret: &[u8; 32]) -> (r: NodeId)
    ensures
        r == pair_of(secret@),
        r@ == blake3_hash(pair_material(secret@)),
{
    let mut h = hasher();
    absorb(&mut h, ascii_bytes("dc-mailbox-pair-v1\n").as_slice());
    absorb(&mut h, secret.as_slice());
    assert(absorbed(h) =~= pair_material(secret@));
    let key: NodeId = digest(&h);
    assert(pair_of(secret@) =~= key);
    key
}

/// A table with a line of its own for each pair.
pub type PerPair<X> = Seq<(NodeId, Seq<X>)>;

/// A pair's line stands at `i`.
pub open spec fn line_at<X>(table: PerPair<X>, pair: NodeId, i: int) -> bool {
    0 <= i < table.len() && table[i].0 == pair
}

/// A pair has a line.
pub open spec fn has_line<X>(table: PerPair<X>, pair: NodeId) -> bool {
    exists|i: int| #[trigger] line_at(table, pair, i)
}

/// A pair's line, an empty one if it has none.
pub open spec fn line_of<X>(table: PerPair<X>, pair: NodeId) -> Seq<X> {
    if has_line(table, pair) {
        table[choose|i: int| #[trigger] line_at(table, pair, i)].1
    } else {
        Seq::empty()
    }
}

/// The table with `line` in place of the pair's line, or behind the others.
pub open spec fn with_line<X>(table: PerPair<X>, pair: NodeId, line: Seq<X>) -> PerPair<X> {
    if has_line(table, pair) {
        table.update(choose|i: int| #[trigger] line_at(table, pair, i), (pair, line))
    } else {
        table.push((pair, line))
    }
}

/// No pair has two lines.
pub open spec fn pairs_distinct<X>(table: PerPair<X>) -> bool {
    forall|i: int, j: int|
        #![trigger table[i], table[j]]
        0 <= i < j < table.len() ==> table[i].0 != table[j].0
}

/// A pair's line is unique.
proof fn lemma_line_unique<X>(table: PerPair<X>, pair: NodeId, i: int)
    requires
        pairs_distinct(table),
        line_at(table, pair, i),
    ensures
        (choose|k: int| #[trigger] line_at(table, pair, k)) == i,
        line_of(table, pair) == table[i].1,
        has_line(table, pair),
{
    let k = choose|k: int| #[trigger] line_at(table, pair, k);
    assert(line_at(table, pair, k));
    assert(table[k].0 == table[i].0);
}

/// A new line of one pair is that pair's line, and the lines of the others stay as they were.
pub proof fn law_lines_are_separate<X>(table: PerPair<X>, pair: NodeId, line: Seq<X>)
    requires
        pairs_distinct(table),
    ensures
        pairs_distinct(with_line(table, pair, line)),
        has_line(with_line(table, pair, line), pair),
        line_of(with_line(table, pair, line), pair) == line,
        forall|other: NodeId|
            other != pair ==> #[trigger] line_of(with_line(table, pair, line), other) == line_of(
                table,
                other,
            ),
        forall|other: NodeId|
            other != pair ==> #[trigger] has_line(with_line(table, pair, line), other) == has_line(
                table,
                other,
            ),
{
    let after = with_line(table, pair, line);
    let i = if has_line(table, pair) {
        choose|i: int| #[trigger] line_at(table, pair, i)
    } else {
        table.len() as int
    };
    if has_line(table, pair) {
        assert(line_at(table, pair, i));
    }
    assert forall|a: int, b: int| #![trigger after[a], after[b]]
        0 <= a < b < after.len() implies after[a].0 != after[b].0 by {
        if b < table.len() {
            assert(table[a].0 != table[b].0);
        } else {
            assert(!line_at(table, pair, a));
        }
    }
    assert(line_at(after, pair, i));
    lemma_line_unique(after, pair, i);
    assert forall|other: NodeId| other != pair implies #[trigger] line_of(after, other) == line_of(
        table,
        other,
    ) && has_line(after, other) == has_line(table, other) by {
        if has_line(table, other) {
            let k = choose|k: int| #[trigger] line_at(table, other, k);
            assert(line_at(table, other, k));
            assert(after[k] == table[k]);
            assert(line_at(after, other, k));
            lemma_line_unique(after, other, k);
        }
        if has_line(after, other) {
            let k = choose|k: int| #[trigger] line_at(after, other, k);
            assert(line_at(after, other, k));
            assert(line_at(table, other, k));
        }
    }
    assert forall|other: NodeId| other != pair implies #[trigger] has_line(after, other) == has_line(
        table,
        other,
    ) by {
        assert(line_of(after, other) == line_of(table, other));
    }
}

/// Read requests that are remembered of one pair.
pub const READ_NONCES: usize = 16_384;

/// Pairs of which read requests are remembered.
pub const READ_PAIRS: usize = 4096;

/// A read request is let through: it is new, and there is room for its pair.
pub open spec fn read_accepts(reads: PerPair<MsgId>, pair: NodeId, nonce: MsgId) -> bool {
    !line_of(reads, pair).contains(nonce) && (has_line(reads, pair) || reads.len() < READ_PAIRS)
}

/// The remembered requests of a pair after one more. When there are too many, the oldest one of
/// that pair makes room.
pub open spec fn with_nonce(nonces: Seq<MsgId>, nonce: MsgId) -> Seq<MsgId> {
    if nonces.len() < READ_NONCES {
        nonces.push(nonce)
    } else {
        nonces.push(nonce).drop_first()
    }
}

/// What is remembered after a request.
pub open spec fn reads_after(reads: PerPair<MsgId>, pair: NodeId, nonce: MsgId) -> PerPair<MsgId> {
    if read_accepts(reads, pair, nonce) {
        with_line(reads, pair, with_nonce(line_of(reads, pair), nonce))
    } else {
        reads
    }
}

/// What is remembered after some requests.
pub open spec fn reads_after_all(reads: PerPair<MsgId>, requests: Seq<(NodeId, MsgId)>) -> PerPair<
    MsgId,
>
    decreases requests.len(),
{
    if requests.len() == 0 {
        reads
    } else {
        reads_after(
            reads_after_all(reads, requests.drop_last()),
            requests.last().0,
            requests.last().1,
        )
    }
}

/// A flood of requests of other pairs makes no remembered request of this one pass again.
pub proof fn law_read_flood_stays_in_its_pair(
    reads: PerPair<MsgId>,
    flood: Seq<(NodeId, MsgId)>,
    pair: NodeId,
    nonce: MsgId,
)
    requires
        pairs_distinct(reads),
        line_of(reads, pair).contains(nonce),
        forall|i: int| 0 <= i < flood.len() ==> (#[trigger] flood[i]).0 != pair,
    ensures
        pairs_distinct(reads_after_all(reads, flood)),
        line_of(reads_after_all(reads, flood), pair) == line_of(reads, pair),
        !read_accepts(reads_after_all(reads, flood), pair, nonce),
    decreases flood.len(),
{
    if flood.len() > 0 {
        let front = flood.drop_last();
        assert(flood[flood.len() - 1].0 != pair);
        assert forall|i: int| 0 <= i < front.len() implies (#[trigger] front[i]).0 != pair by {
            assert(flood[i].0 != pair);
        }
        law_read_flood_stays_in_its_pair(reads, front, pair, nonce);
        let before = reads_after_all(reads, front);
        law_lines_are_separate(
            before,
            flood.last().0,
            with_nonce(line_of(before, flood.last().0), flood.last().1),
        );
    }
}

/// A request that was let through does not pass a second time.
pub proof fn law_read_passes_once(reads: PerPair<MsgId>, pair: NodeId, nonce: MsgId)
    requires
        pairs_distinct(reads),
        read_accepts(reads, pair, nonce),
    ensures
        line_of(reads_after(reads, pair, nonce), pair) == with_nonce(line_of(reads, pair), nonce),
        !read_accepts(reads_after(reads, pair, nonce), pair, nonce),
{
    let line = with_nonce(line_of(reads, pair), nonce);
    law_lines_are_separate(reads, pair, line);
    assert(line[line.len() - 1] == nonce);
}

/// The remembered read requests of one pair.
struct ReadLine {
    pair: NodeId,
    nonces: Dedup,
}

/// The remembered read requests, each pair's by themselves.
struct ReadLedger {
    lines: Vec<ReadLine>,
}

impl ReadLedger {
    spec fn said(self) -> PerPair<MsgId> {
        Seq::new(
            self.lines@.len(),
            |i: int| (self.lines@[i].pair, self.lines@[i].nonces.order()),
        )
    }

    spec fn wf(self) -> bool {
        &&& pairs_distinct(self.said())
        &&& forall|i: int|
            0 <= i < self.lines@.len() ==> (#[trigger] self.lines@[i]).nonces.cap() == READ_NONCES
    }

    fn new() -> (r: ReadLedger)
        ensures
            r.wf(),
            r.said() == Seq::<(NodeId, Seq<MsgId>)>::empty(),
    {
        let r = ReadLedger { lines: Vec::new() };
        assert(r.said() =~= Seq::<(NodeId, Seq<MsgId>)>::empty());
        r
    }

    /// Lets a request through if it is new and there is room for its pair, and remembers it.
    fn check_and_insert(&mut self, pair: &NodeId, nonce: MsgId) -> (r: bool)
        requires
            old(self).wf(),
        ensures
            final(self).wf(),
            r == read_accepts(old(self).said(), *pair, nonce),
            final(self).said() == reads_after(old(self).said(), *pair, nonce),
    {
        let ghost before = self.said();
        let mut i: usize = 0;
        while i < self.lines.len()
            invariant
                i <= self.lines@.len(),
                *self == *old(self),
                self.wf(),
                before == self.said(),
                forall|k: int| 0 <= k < i ==> !#[trigger] line_at(before, *pair, k),
            decreases self.lines@.len() - i,
        {
            if same_bytes(&self.lines[i].pair, pair) {
                proof {
                    assert(line_at(before, *pair, i as int));
                    lemma_line_unique(before, *pair, i as int);
                    assert(self.lines@[i as int].nonces.cap() == READ_NONCES);
                }
                let fresh: bool = self.lines[i].nonces.check_and_insert(nonce);
                proof {
                    if fresh {
                        assert(self.said() =~= reads_after(before, *pair, nonce));
                    } else {
                        assert(self.said() =~= before);
                    }
                    law_lines_are_separate(before, *pair, with_nonce(line_of(before, *pair), nonce));
                }
                return fresh;
            }
            assert(!line_at(before, *pair, i as int));
            i = i + 1;
        }
        assert(!has_line(before, *pair));
        if self.lines.len() >= READ_PAIRS {
            return false;
        }
        let mut nonces = Dedup::new(READ_NONCES);
        let _first: bool = nonces.check_and_insert(nonce);
        assert(nonces.order() =~= with_nonce(Seq::empty(), nonce));
        self.lines.push(ReadLine { pair: *pair, nonces });
        proof {
            assert(self.said() =~= reads_after(before, *pair, nonce));
            law_lines_are_separate(before, *pair, with_nonce(line_of(before, *pair), nonce));
        }
        true
    }
}

/// The ledgers after a message of a pair.
pub open spec fn ledgers_after(
    ledgers: PerPair<LedgerEntry>,
    pair: NodeId,
    id: MsgId,
    ts_ms: u64,
    now_ms: u64,
) -> PerPair<LedgerEntry> {
    with_line(ledgers, pair, ledger_after(line_of(ledgers, pair), id, ts_ms, now_ms))
}

/// How many lines the ledgers hold together.
pub open spec fn entries_in(ledgers: PerPair<LedgerEntry>) -> nat
    decreases ledgers.len(),
{
    if ledgers.len() == 0 {
        0
    } else {
        entries_in(ledgers.drop_last()) + ledgers.last().1.len()
    }
}

/// The ledgers after lines were taken up that were kept over a restart.
pub open spec fn ledgers_with(ledgers: PerPair<LedgerEntry>, kept: PerPair<LedgerEntry>) -> PerPair<
    LedgerEntry,
>
    decreases kept.len(),
{
    if kept.len() == 0 {
        ledgers
    } else {
        let front = ledgers_with(ledgers, kept.drop_last());
        with_line(front, kept.last().0, ledger_with(line_of(front, kept.last().0), kept.last().1))
    }
}

/// The ledgers are as a service leaves them: one for each pair, no message twice in one of them,
/// and none longer than it may be.
pub open spec fn ledgers_valid(ledgers: PerPair<LedgerEntry>) -> bool {
    &&& pairs_distinct(ledgers)
    &&& forall|i: int|
        0 <= i < ledgers.len() ==> ids_distinct((#[trigger] ledgers[i]).1) && ledgers[i].1.len()
            <= LEDGER_CAP
}

/// A restart does not make a message new again: a fresh service that takes up the ledgers of
/// another one has the same ledgers.
pub proof fn law_restart_keeps_every_ledger(kept: PerPair<LedgerEntry>)
    requires
        ledgers_valid(kept),
    ensures
        ledgers_with(Seq::empty(), kept) == kept,
    decreases kept.len(),
{
    if kept.len() > 0 {
        let front = kept.drop_last();
        assert forall|i: int, j: int| #![trigger front[i], front[j]]
            0 <= i < j < front.len() implies front[i].0 != front[j].0 by {
            assert(kept[i].0 != kept[j].0);
        }
        assert forall|i: int| 0 <= i < front.len() implies ids_distinct((#[trigger] front[i]).1)
            && front[i].1.len() <= LEDGER_CAP by {
            assert(kept[i].1.len() <= LEDGER_CAP);
        }
        law_restart_keeps_every_ledger(front);
        let (pair, line) = (kept.last().0, kept.last().1);
        assert(kept[kept.len() - 1] == (pair, line));
        law_restart_forgets_nothing(line);
        assert forall|i: int| !#[trigger] line_at(front, pair, i) by {
            if 0 <= i < front.len() {
                assert(kept[i].0 != kept[kept.len() - 1].0);
            }
        }
        assert(front.push((pair, line)) =~= kept);
    } else {
        assert(kept =~= Seq::empty());
    }
}

/// What one pair writes, however much, fills no other pair's ledger: there the next message is let
/// through or refused as it would have been.
pub proof fn law_write_flood_stays_in_its_pair(
    ledgers: PerPair<LedgerEntry>,
    pair: NodeId,
    flood: Seq<crate::mailbox::Arrival>,
    other: NodeId,
    id: MsgId,
    now_ms: u64,
)
    requires
        pairs_distinct(ledgers),
        other != pair,
    ensures
        pairs_distinct(ledgers_after_flood(ledgers, pair, flood)),
        line_of(ledgers_after_flood(ledgers, pair, flood), other) == line_of(ledgers, other),
        ledger_accepts(line_of(ledgers_after_flood(ledgers, pair, flood), other), id, now_ms)
            == ledger_accepts(line_of(ledgers, other), id, now_ms),
    decreases flood.len(),
{
    if flood.len() > 0 {
        law_write_flood_stays_in_its_pair(ledgers, pair, flood.drop_last(), other, id, now_ms);
        let before = ledgers_after_flood(ledgers, pair, flood.drop_last());
        let a = flood.last();
        law_lines_are_separate(
            before,
            pair,
            ledger_after(line_of(before, pair), a.id, a.ts_ms, a.now_ms),
        );
    }
}

/// The ledgers after many messages of one pair.
pub open spec fn ledgers_after_flood(
    ledgers: PerPair<LedgerEntry>,
    pair: NodeId,
    flood: Seq<crate::mailbox::Arrival>,
) -> PerPair<LedgerEntry>
    decreases flood.len(),
{
    if flood.len() == 0 {
        ledgers
    } else {
        ledgers_after(
            ledgers_after_flood(ledgers, pair, flood.drop_last()),
            pair,
            flood.last().id,
            flood.last().ts_ms,
            flood.last().now_ms,
        )
    }
}

/// The ledger of one pair.
struct PairLedger {
    pair: NodeId,
    nonces: NonceCache,
}

/// The ledger of one pair, to be kept over a restart.
#[derive(Debug, Clone, PartialEq, Eq)]
pub struct KeptLedger {
    pub pair: NodeId,
    pub lines: Vec<LedgerEntry>,
}

/// What some kept ledgers say.
pub open spec fn kept_said(v: Seq<KeptLedger>) -> PerPair<LedgerEntry> {
    Seq::new(v.len(), |i: int| (v[i].pair, v[i].lines@))
}

/// The writes of all buckets, in the order in which they came.
pub struct InMemoryBucketStorage {
    stored: Vec<(NodeId, BucketWrite)>,
}

/// The writes of one bucket.
pub open spec fn in_bucket(stored: Seq<(NodeId, BucketWriteData)>, bucket: NodeId) -> Seq<
    BucketWriteData,
>
    decreases stored.len(),
{
    if stored.len() == 0 {
        Seq::empty()
    } else if stored.last().0 == bucket {
        in_bucket(stored.drop_last(), bucket).push(stored.last().1)
    } else {
        in_bucket(stored.drop_last(), bucket)
    }
}

/// What some writes say.
pub open spec fn writes_said(v: Seq<BucketWrite>) -> Seq<BucketWriteData> {
    Seq::new(v.len(), |i: int| v[i]@)
}

/// What follows a cursor.
pub open spec fn after_cursor(writes: Seq<BucketWriteData>, cursor: u64) -> Seq<BucketWriteData> {
    if cursor < writes.len() {
        writes.skip(cursor as int)
    } else {
        Seq::empty()
    }
}

impl InMemoryBucketStorage {
    /// Everything that was stored.
    pub closed spec fn said(self) -> Seq<(NodeId, BucketWriteData)> {
        Seq::new(self.stored@.len(), |i: int| (self.stored@[i].0, self.stored@[i].1@))
    }

    /// What a bucket holds, in the order in which it came. The first write has the number one.
    pub open spec fn bucket(self, bucket: NodeId) -> Seq<BucketWriteData> {
        in_bucket(self.said(), bucket)
    }

    pub fn new() -> (r: InMemoryBucketStorage)
        ensures
            r.said() == Seq::<(NodeId, BucketWriteData)>::empty(),
    {
        let r = InMemoryBucketStorage { stored: Vec::new() };
        assert(r.said() =~= Seq::<(NodeId, BucketWriteData)>::empty());
        r
    }

    /// Puts a write into a bucket and gives it the next number there.
    pub fn store(&mut self, bucket: &NodeId, write: &BucketWrite) -> (r: u64)
        ensures
            final(self).said() == old(self).said().push((*bucket, write@)),
            final(self).bucket(*bucket) == old(self).bucket(*bucket).push(write@),
            r == final(self).bucket(*bucket).len(),
    {
        self.stored.push((*bucket, write.clone()));
        proof {
            assert(self.said() =~= old(self).said().push((*bucket, write@)));
            assert(self.said().drop_last() =~= old(self).said());
        }
        self.count(bucket)
    }

    /// How many writes a bucket holds.
    pub fn count(&self, bucket: &NodeId) -> (r: u64)
        ensures
            r == self.bucket(*bucket).len(),
    {
        let mut n: u64 = 0;
        let mut i: usize = 0;
        let ghost all = self.said();
        while i < self.stored.len()
            invariant
                i <= self.stored@.len(),
                all == self.said(),
                n == in_bucket(all.take(i as int), *bucket).len(),
                n <= i,
            decreases self.stored@.len() - i,
        {
            assert(all.take(i + 1).drop_last() =~= all.take(i as int));
            if same_bytes(&self.stored[i].0, bucket) {
                n = n + 1;
            }
            i = i + 1;
        }
        assert(all.take(i as int) =~= all);
        n
    }

    /// The writes of a bucket that follow a cursor.
    pub fn fetch_after(&self, bucket: &NodeId, cursor: u64) -> (r: Vec<BucketWrite>)
        ensures
            writes_said(r@) == after_cursor(self.bucket(*bucket), cursor),
    {
        let mut out: Vec<BucketWrite> = Vec::new();
        let mut n: u64 = 0;
        let mut i: usize = 0;
        let ghost all = self.said();
        while i < self.stored.len()
            invariant
                i <= self.stored@.len(),
                all == self.said(),
                n == in_bucket(all.take(i as int), *bucket).len(),
                n <= i,
                writes_said(out@) == after_cursor(in_bucket(all.take(i as int), *bucket), cursor),
            decreases self.stored@.len() - i,
        {
            let ghost before = in_bucket(all.take(i as int), *bucket);
            let ghost had = out@;
            assert(all.take(i + 1).drop_last() =~= all.take(i as int));
            if same_bytes(&self.stored[i].0, bucket) {
                if n >= cursor {
                    out.push(self.stored[i].1.clone());
                    assert(writes_said(out@) =~= writes_said(had).push(all[i as int].1));
                }
                proof {
                    let now = before.push(all[i as int].1);
                    assert(in_bucket(all.take(i + 1), *bucket) == now);
                    assert(writes_said(out@) =~= after_cursor(now, cursor));
                }
                n = n + 1;
            }
            i = i + 1;
        }
        assert(all.take(i as int) =~= all);
        out
    }
}

impl Default for InMemoryBucketStorage {
    fn default() -> (r: InMemoryBucketStorage)
        ensures
            r.said() == Seq::<(NodeId, BucketWriteData)>::empty(),
    {
        InMemoryBucketStorage::new()
    }
}

/// What is stored in one bucket is not seen in another.
pub proof fn law_buckets_are_separate(
    stored: Seq<(NodeId, BucketWriteData)>,
    bucket: NodeId,
    write: BucketWriteData,
    other: NodeId,
)
    requires
        bucket != other,
    ensures
        in_bucket(stored.push((bucket, write)), other) == in_bucket(stored, other),
{
    assert(stored.push((bucket, write)).drop_last() =~= stored);
}

/// A reader who goes on from the number of the last message gets the messages that came since, and
/// no others.
pub proof fn law_cursor_reads_on(writes: Seq<BucketWriteData>, since: Seq<BucketWriteData>)
    requires
        writes.len() + since.len() <= u64::MAX,
    ensures
        after_cursor(writes + since, writes.len() as u64) == since,
{
    assert(after_cursor(writes + since, writes.len() as u64) =~= since);
}

/// The mailbox service of a node: the ledgers of messages, the pairs' budgets, and the ledger
/// of read requests.
pub struct MailboxManager {
    ledgers: Vec<PairLedger>,
    cap: usize,
    budgets: Vec<PairRate>,
    reads: ReadLedger,
}

/// What the ledgers say.
spec fn ledgers_said(v: Seq<PairLedger>) -> PerPair<LedgerEntry> {
    Seq::new(v.len(), |i: int| (v[i].pair, v[i].nonces@))
}

/// Where a pair's ledger stands.
fn ledger_place(v: &Vec<PairLedger>, pair: &NodeId) -> (r: Option<usize>)
    ensures
        match r {
            Some(i) => line_at(ledgers_said(v@), *pair, i as int),
            None => !has_line(ledgers_said(v@), *pair),
        },
{
    let mut i: usize = 0;
    while i < v.len()
        invariant
            i <= v@.len(),
            forall|k: int| 0 <= k < i ==> !#[trigger] line_at(ledgers_said(v@), *pair, k),
        decreases v@.len() - i,
    {
        if same_bytes(&v[i].pair, pair) {
            return Some(i);
        }
        assert(!line_at(ledgers_said(v@), *pair, i as int));
        i = i + 1;
    }
    None
}

impl MailboxManager {
    /// The ledgers of messages, one for each pair.
    pub closed spec fn ledgers(self) -> PerPair<LedgerEntry> {
        ledgers_said(self.ledgers@)
    }

    /// The pairs' budgets.
    pub closed spec fn rates(self) -> Seq<PairRate> {
        self.budgets@
    }

    /// The remembered read requests.
    pub closed spec fn reads(self) -> PerPair<MsgId> {
        self.reads.said()
    }

    /// The invariant of the service.
    pub open spec fn wf(self) -> bool {
        &&& rates_valid(self.rates())
        &&& pairs_distinct(self.ledgers())
        &&& pairs_distinct(self.reads())
        &&& self.reads_bounded()
    }

    /// As many requests of each pair are remembered as should be.
    pub closed spec fn reads_bounded(self) -> bool {
        self.reads.wf()
    }

    /// A service without messages or budgets. `cap` is the soft target of each ledger.
    pub fn new(cap: usize) -> (r: MailboxManager)
        ensures
            r.wf(),
            r.ledgers() == Seq::<(NodeId, Seq<LedgerEntry>)>::empty(),
            r.rates() == Seq::<PairRate>::empty(),
            r.reads() == Seq::<(NodeId, Seq<MsgId>)>::empty(),
    {
        let r = MailboxManager {
            ledgers: Vec::new(),
            cap,
            budgets: Vec::new(),
            reads: ReadLedger::new(),
        };
        assert(r.ledgers() =~= Seq::<(NodeId, Seq<LedgerEntry>)>::empty());
        r
    }

    /// Reads a bucket: the hash of the request, then the pair's ledger of requests, then what
    /// follows the cursor. There is no time window on reading.
    pub fn read_bucket(
        &mut self,
        read: &MailboxRead,
        secret: &[u8; 32],
        storage: &InMemoryBucketStorage,
    ) -> (r: Result<Vec<BucketWrite>, MailboxError>)
        requires
            old(self).wf(),
        ensures
            final(self).wf(),
            final(self).ledgers() == old(self).ledgers(),
            final(self).rates() == old(self).rates(),
            final(self).reads() == if read.authentic(secret@) {
                reads_after(old(self).reads(), pair_of(secret@), read.nonce)
            } else {
                old(self).reads()
            },
            match r {
                Ok(writes) => {
                    &&& read.authentic(secret@)
                    &&& read_accepts(old(self).reads(), pair_of(secret@), read.nonce)
                    &&& writes_said(writes@) == after_cursor(
                        storage.bucket(read.bucket),
                        read.cursor,
                    )
                },
                Err(MailboxError::MacMismatch) => !read.authentic(secret@),
                Err(MailboxError::ReplayRejected) => {
                    &&& read.authentic(secret@)
                    &&& !read_accepts(old(self).reads(), pair_of(secret@), read.nonce)
                },
                Err(_) => false,
            },
    {
        if !read.verify(secret) {
            return Err(MailboxError::MacMismatch);
        }
        let pair: NodeId = pair_key(secret);
        if !self.reads.check_and_insert(&pair, read.nonce) {
            return Err(MailboxError::ReplayRejected);
        }
        Ok(storage.fetch_after(&read.bucket, read.cursor))
    }

    /// The whole check of a write: the hash, the window, the pair's ledger, then the pair's
    /// budget. A write that is refused for want of budget stays in the ledger, so that trying it
    /// again is a replay. The pair is known by its secret: whom a write names as its sender makes
    /// no difference.
    pub fn submit_write(&mut self, write: &BucketWrite, secret: &[u8; 32], now_ms: u64) -> (r: Result<
        (),
        MailboxError,
    >)
        requires
            old(self).wf(),
        ensures
            final(self).wf(),
            final(self).reads() == old(self).reads(),
            r == (if !write@.authentic(secret@) {
                Err::<(), MailboxError>(MailboxError::MacMismatch)
            } else if !in_window(write.ts_ms, now_ms) {
                Err(MailboxError::WindowExceeded)
            } else if !ledger_accepts(
                line_of(old(self).ledgers(), pair_of(secret@)),
                write.envelope.msg_id,
                now_ms,
            ) {
                Err(MailboxError::ReplayRejected)
            } else if !rate_allows(old(self).rates(), pair_of(secret@), now_ms) {
                Err(MailboxError::RateLimited)
            } else {
                Ok(())
            }),
            final(self).ledgers() == if write@.passes(secret@, now_ms) {
                ledgers_after(
                    old(self).ledgers(),
                    pair_of(secret@),
                    write.envelope.msg_id,
                    write.ts_ms,
                    now_ms,
                )
            } else {
                old(self).ledgers()
            },
            final(self).rates() == if write@.passes(secret@, now_ms) && ledger_accepts(
                line_of(old(self).ledgers(), pair_of(secret@)),
                write.envelope.msg_id,
                now_ms,
            ) {
                rates_after(old(self).rates(), pair_of(secret@), now_ms)
            } else {
                old(self).rates()
            },
    {
        let pair: NodeId = pair_key(secret);
        match self.let_in(write, secret, &pair, now_ms) {
            Ok(_) => self.rate_limit(&pair, now_ms),
            Err(e) => Err(e),
        }
    }

    /// The checks up to the ledger.
    fn let_in(&mut self, write: &BucketWrite, secret: &[u8; 32], pair: &NodeId, now_ms: u64) -> (r:
        Result<(), MailboxError>)
        requires
            old(self).wf(),
        ensures
            final(self).wf(),
            final(self).reads() == old(self).reads(),
            final(self).rates() == old(self).rates(),
            r == (if !write@.authentic(secret@) {
                Err::<(), MailboxError>(MailboxError::MacMismatch)
            } else if !in_window(write.ts_ms, now_ms) {
                Err(MailboxError::WindowExceeded)
            } else if !ledger_accepts(
                line_of(old(self).ledgers(), *pair),
                write.envelope.msg_id,
                now_ms,
            ) {
                Err(MailboxError::ReplayRejected)
            } else {
                Ok(())
            }),
            final(self).ledgers() == if write@.passes(secret@, now_ms) {
                ledgers_after(
                    old(self).ledgers(),
                    *pair,
                    write.envelope.msg_id,
                    write.ts_ms,
                    now_ms,
                )
            } else {
                old(self).ledgers()
            },
    {
        let ghost before = self.ledgers();
        let ghost line = ledger_after(
            line_of(before, *pair),
            write.envelope.msg_id,
            write.ts_ms,
            now_ms,
        );
        proof {
            lemma_gate_texts();
            law_lines_are_separate(before, *pair, line);
        }
        match ledger_place(&self.ledgers, pair) {
            Some(i) => {
                proof {
                    lemma_line_unique(before, *pair, i as int);
                }
                let outcome = verify_inbound(write, secret, &mut self.ledgers[i].nonces, now_ms);
                proof {
                    if write@.passes(secret@, now_ms) {
                        assert(self.ledgers() =~= with_line(before, *pair, line));
                    } else {
                        assert(self.ledgers() =~= before);
                    }
                }
                match outcome {
                    Ok(_) => Ok(()),
                    Err(e) => Err(classify_gate(e)),
                }
            },
            None => {
                let mut nonces = NonceCache::new(self.cap);
                let outcome = verify_inbound(write, secret, &mut nonces, now_ms);
                proof {
                    lemma_empty_ledger_accepts(write.envelope.msg_id, now_ms);
                }
                match outcome {
                    Ok(_) => {
                        self.ledgers.push(PairLedger { pair: *pair, nonces });
                        assert(self.ledgers() =~= with_line(before, *pair, line));
                        Ok(())
                    },
                    Err(e) => Err(classify_gate(e)),
                }
            },
        }
    }

    fn rate_limit(&mut self, pair: &NodeId, now_ms: u64) -> (r: Result<(), MailboxError>)
        requires
            old(self).wf(),
        ensures
            final(self).wf(),
            r == (if rate_allows(old(self).rates(), *pair, now_ms) {
                Ok::<(), MailboxError>(())
            } else {
                Err(MailboxError::RateLimited)
            }),
            final(self).rates() == rates_after(old(self).rates(), *pair, now_ms),
            final(self).ledgers() == old(self).ledgers(),
            final(self).reads() == old(self).reads(),
    {
        if self.budgets.len() >= SENDER_SOFT_CAP {
            self.sweep(now_ms);
        }
        let ghost table = self.budgets@;
        let mut i: usize = 0;
        while i < self.budgets.len()
            invariant
                i <= self.budgets@.len(),
                table == self.budgets@,
                self.ledgers() == old(self).ledgers(),
                pairs_distinct(self.ledgers()),
                self.reads == old(self).reads,
                self.reads.wf(),
                table == swept(old(self).rates(), now_ms),
                rates_valid(table),
                forall|k: int| 0 <= k < i ==> !#[trigger] on_record_at(table, *pair, k),
            decreases self.budgets@.len() - i,
        {
            if same_bytes(&self.budgets[i].pair, pair) {
                let mut rate: PairRate = self.budgets[i];
                proof {
                    assert(on_record_at(table, *pair, i as int));
                    lemma_record_unique(table, *pair, i as int);
                }
                let allowed: bool = rate.try_take(now_ms);
                self.budgets.set(i, rate);
                proof {
                    let after = self.budgets@;
                    assert forall|a: int, b: int| #![trigger after[a], after[b]]
                        0 <= a < b < after.len() implies after[a].pair != after[b].pair by {
                        assert(table[a].pair != table[b].pair);
                    }
                }
                return if allowed {
                    Ok(())
                } else {
                    Err(MailboxError::RateLimited)
                };
            }
            assert(!on_record_at(table, *pair, i as int));
            i = i + 1;
        }
        let mut rate = PairRate { pair: *pair, parts: FULL_BUDGET, last_refill_ms: now_ms };
        let _first: bool = rate.try_take(now_ms);
        self.budgets.push(rate);
        proof {
            let after = self.budgets@;
            assert forall|a: int, b: int| #![trigger after[a], after[b]]
                0 <= a < b < after.len() implies after[a].pair != after[b].pair by {
                if b < table.len() {
                    assert(table[a].pair != table[b].pair);
                } else {
                    assert(!on_record_at(table, *pair, a));
                }
            }
        }
        Ok(())
    }

    /// Forgets the idle pairs.
    fn sweep(&mut self, now_ms: u64)
        requires
            old(self).wf(),
        ensures
            final(self).wf(),
            final(self).ledgers() == old(self).ledgers(),
            final(self).reads == old(self).reads,
            final(self).rates() == old(self).rates().filter(|r: PairRate| !r.forgotten(now_ms)),
    {
        let mut kept: Vec<PairRate> = Vec::new();
        let mut i: usize = 0;
        let ghost keep = |r: PairRate| !r.forgotten(now_ms);
        while i < self.budgets.len()
            invariant
                i <= self.budgets@.len(),
                *self == *old(self),
                keep == (|r: PairRate| !r.forgotten(now_ms)),
                kept@ == self.budgets@.take(i as int).filter(keep),
            decreases self.budgets@.len() - i,
        {
            proof {
                reveal(Seq::filter);
                assert(self.budgets@.take(i + 1).drop_last() =~= self.budgets@.take(i as int));
            }
            let rate: PairRate = self.budgets[i];
            if rate.idle_for(now_ms) < SENDER_IDLE_EVICT_MS {
                kept.push(rate);
            }
            i = i + 1;
        }
        proof {
            assert(self.budgets@.take(i as int) =~= self.budgets@);
            lemma_filter_rates(self.budgets@, keep);
        }
        self.budgets = kept;
    }

    /// The ledgers of messages, to be kept over a restart.
    pub fn export_ledger(&self) -> (r: Vec<KeptLedger>)
        ensures
            kept_said(r@) == self.ledgers(),
    {
        let mut out: Vec<KeptLedger> = Vec::new();
        let mut i: usize = 0;
        while i < self.ledgers.len()
            invariant
                i <= self.ledgers@.len(),
                kept_said(out@) == self.ledgers().take(i as int),
            decreases self.ledgers@.len() - i,
        {
            let ghost had = out@;
            out.push(
                KeptLedger {
                    pair: self.ledgers[i].pair,
                    lines: self.ledgers[i].nonces.export_state(),
                },
            );
            assert(kept_said(out@) =~= kept_said(had).push(self.ledgers()[i as int]));
            assert(self.ledgers().take(i + 1) =~= self.ledgers().take(i as int).push(
                self.ledgers()[i as int],
            ));
            i = i + 1;
        }
        assert(self.ledgers().take(i as int) =~= self.ledgers());
        out
    }

    /// Takes ledgers up that were kept over a restart, as far as there is room in each.
    pub fn import_ledger(&mut self, kept: &Vec<KeptLedger>)
        requires
            old(self).wf(),
        ensures
            final(self).wf(),
            final(self).ledgers() == ledgers_with(old(self).ledgers(), kept_said(kept@)),
            final(self).rates() == old(self).rates(),
            final(self).reads() == old(self).reads(),
    {
        let mut i: usize = 0;
        let ghost said = kept_said(kept@);
        assert(said.take(0) =~= Seq::empty());
        while i < kept.len()
            invariant
                i <= kept@.len(),
                said == kept_said(kept@),
                self.wf(),
                self.ledgers() == ledgers_with(old(self).ledgers(), said.take(i as int)),
                self.rates() == old(self).rates(),
                self.reads() == old(self).reads(),
            decreases kept@.len() - i,
        {
            let ghost before = self.ledgers();
            let ghost pair = said[i as int].0;
            let ghost line = ledger_with(line_of(before, pair), said[i as int].1);
            proof {
                assert(said.take(i + 1).drop_last() =~= said.take(i as int));
                assert(said.take(i + 1).last() == said[i as int]);
                law_lines_are_separate(before, pair, line);
            }
            match ledger_place(&self.ledgers, &kept[i].pair) {
                Some(k) => {
                    proof {
                        lemma_line_unique(before, pair, k as int);
                    }
                    self.ledgers[k].nonces.import_state(&kept[i].lines);
                },
                None => {
                    let mut nonces = NonceCache::new(self.cap);
                    nonces.import_state(&kept[i].lines);
                    self.ledgers.push(PairLedger { pair: kept[i].pair, nonces });
                },
            }
            assert(self.ledgers() =~= with_line(before, pair, line));
            i = i + 1;
        }
        assert(said.take(i as int) =~= said);
    }

    /// How many messages the ledgers hold together.
    pub fn nonce_cache_len(&self) -> (r: usize)
        ensures
            r == if entries_in(self.ledgers()) <= usize::MAX {
                entries_in(self.ledgers())
            } else {
                usize::MAX as nat
            },
    {
        let mut n: usize = 0;
        let mut i: usize = 0;
        while i < self.ledgers.len()
            invariant
                i <= self.ledgers@.len(),
                n == if entries_in(self.ledgers().take(i as int)) <= usize::MAX {
                    entries_in(self.ledgers().take(i as int))
                } else {
                    usize::MAX as nat
                },
            decreases self.ledgers@.len() - i,
        {
            assert(self.ledgers().take(i + 1).drop_last() =~= self.ledgers().take(i as int));
            assert(self.ledgers().take(i + 1).last() == self.ledgers()[i as int]);
            n = n.saturating_add(self.ledgers[i].nonces.len());
            i = i + 1;
        }
        assert(self.ledgers().take(i as int) =~= self.ledgers());
        n
    }

    /// How many pairs have a budget on record.
    pub fn tracked_senders(&self) -> (r: usize)
        ensures
            r == self.rates().len(),
    {
        self.budgets.len()
    }
}

/// An empty ledger has room for any message.
proof fn lemma_empty_ledger_accepts(id: MsgId, now_ms: u64)
    ensures
        ledger_accepts(Seq::empty(), id, now_ms),
{
    reveal(Seq::filter);
}


/// A pair's budget after requests at the given times.
pub open spec fn after_requests(rate: PairRate, times: Seq<u64>) -> PairRate
    decreases times.len(),
{
    if times.len() == 0 {
        rate
    } else {
        after_requests(rate, times.drop_last()).after_request(times.last())
    }
}

/// How many of the requests at the given times are granted.
pub open spec fn granted(rate: PairRate, times: Seq<u64>) -> nat
    decreases times.len(),
{
    if times.len() == 0 {
        0
    } else if after_requests(rate, times.drop_last()).may_write(times.last()) {
        granted(rate, times.drop_last()) + 1
    } else {
        granted(rate, times.drop_last())
    }
}

/// What was granted and what is left came from the budget and the time that passed.
proof fn lemma_budget_accounts(rate: PairRate, times: Seq<u64>)
    requires
        rate.parts <= FULL_BUDGET,
    ensures
        after_requests(rate, times).parts <= FULL_BUDGET,
        rate.last_refill_ms <= after_requests(rate, times).last_refill_ms,
        after_requests(rate, times).last_refill_ms == rate.last_refill_ms || exists|i: int|
            0 <= i < times.len() && #[trigger] times[i] == after_requests(rate, times).last_refill_ms,
        after_requests(rate, times).parts + PARTS_PER_WRITE * granted(rate, times) <= rate.parts + (
        after_requests(rate, times).last_refill_ms - rate.last_refill_ms),
    decreases times.len(),
{
    if times.len() > 0 {
        let front = times.drop_last();
        lemma_budget_accounts(rate, front);
        assert(times[times.len() - 1] == times.last());
        let before = after_requests(rate, front);
        if before.last_refill_ms != rate.last_refill_ms {
            let i = choose|i: int|
                0 <= i < front.len() && #[trigger] front[i] == before.last_refill_ms;
            assert(times[i] == before.last_refill_ms);
        }
        assert(PARTS_PER_WRITE * (granted(rate, front) + 1) == PARTS_PER_WRITE * granted(rate, front)
            + PARTS_PER_WRITE) by (nonlinear_arith);
    }
}

/// Over any stretch of time a pair is granted thirty writes, and one more for every two
/// seconds that pass; at one moment it is thirty at most.
pub proof fn law_writes_are_limited(rate: PairRate, times: Seq<u64>, span_ms: nat)
    requires
        rate.parts <= FULL_BUDGET,
        forall|i: int| 0 <= i < times.len() ==> #[trigger] times[i] <= rate.last_refill_ms + span_ms,
    ensures
        granted(rate, times) <= WRITES_PER_MINUTE + span_ms / 2000,
{
    lemma_budget_accounts(rate, times);
    let g = granted(rate, times);
    assert(PARTS_PER_WRITE * g <= FULL_BUDGET + span_ms);
    assert(g <= 30 + span_ms / 2000) by (nonlinear_arith)
        requires
            2000 * g <= 60000 + span_ms,
    ;
}

/// What one pair writes costs another nothing: the other's budget at any later time is what it
/// would have been, even if its line was forgotten.
pub proof fn law_pairs_do_not_share_a_budget(
    rates: Seq<PairRate>,
    pair: NodeId,
    other: NodeId,
    now_ms: u64,
    later_ms: u64,
)
    requires
        rates_valid(rates),
        pair != other,
        now_ms <= later_ms,
    ensures
        rate_of(rates_after(rates, pair, now_ms), other, later_ms).refilled(later_ms).parts
            == rate_of(rates, other, later_ms).refilled(later_ms).parts,
{
    let s = swept(rates, now_ms);
    let keep = |r: PairRate| !r.forgotten(now_ms);
    lemma_filter_rates(rates, keep);
    let line = rate_of(s, pair, now_ms).after_request(now_ms);
    if on_record(s, pair) {
        let i = choose|i: int| #[trigger] on_record_at(s, pair, i);
        assert(on_record_at(s, pair, i));
    }
    assert(line.pair == pair);
    let after = with_rate(s, line);
    assert(rates_valid(s));
    if on_record(s, pair) {
        let i = choose|i: int| #[trigger] on_record_at(s, pair, i);
        assert(on_record_at(s, pair, i));
        assert forall|a: int, b: int| #![trigger after[a], after[b]]
            0 <= a < b < after.len() implies after[a].pair != after[b].pair by {
            assert(s[a].pair != s[b].pair);
        }
    } else {
        assert forall|a: int, b: int| #![trigger after[a], after[b]]
            0 <= a < b < after.len() implies after[a].pair != after[b].pair by {
            if b < s.len() {
                assert(s[a].pair != s[b].pair);
            } else {
                assert(!on_record_at(s, pair, a));
            }
        }
    }
    // The other's line is the same before and after, unless it was forgotten.
    if on_record(after, other) {
        let k = choose|k: int| #[trigger] on_record_at(after, other, k);
        assert(on_record_at(after, other, k));
        assert(s[k] == after[k]);
        assert(on_record_at(s, other, k));
        assert(rates.contains(s[k]));
        let m = choose|m: int| 0 <= m < rates.len() && rates[m] == s[k];
        assert(on_record_at(rates, other, m));
        lemma_record_unique(rates, other, m);
    } else if on_record(rates, other) {
        let m = choose|m: int| #[trigger] on_record_at(rates, other, m);
        assert(on_record_at(rates, other, m));
        lemma_record_unique(rates, other, m);
        if s == rates {
            assert(on_record_at(s, other, m));
            assert(after[m] == s[m]);
            assert(on_record_at(after, other, m));
        } else if keep(rates[m]) {
            broadcast use vstd::seq_lib::group_filter_ensures;

            assert(s.contains(rates[m]));
            let k = choose|k: int| 0 <= k < s.len() && s[k] == rates[m];
            assert(after[k] == s[k]);
            assert(on_record_at(after, other, k));
        }
    }
}

/// Hops that an announcement's envelope may take.
pub const ANNOUNCEMENT_HOPS: u8 = 6;

/// The envelope of an announcement, in its encoded form.
pub open spec fn announcement_envelope(
    identity: NodeId,
    encoded: Seq<u8>,
    now_ms: u64,
    msg_id: MsgId,
) -> EnvelopeData {
    EnvelopeData {
        msg_id,
        sender: identity,
        recipient: None,
        group: None,
        kind: PayloadKind::SessionMgmt,
        body: encoded,
        sent_at_ms: now_ms,
        ttl_hops: ANNOUNCEMENT_HOPS,
        sig: None,
    }
}

/// A write is an announcement on its way into a bucket.
pub open spec fn announces(
    write: BucketWriteData,
    identity: NodeId,
    encoded: Seq<u8>,
    secret: Seq<u8>,
    now_ms: u64,
) -> bool {
    &&& write.envelope == announcement_envelope(identity, encoded, now_ms, write.envelope.msg_id)
    &&& write.serial == 1
    &&& write.ts_ms == now_ms
    &&& write.authentic(secret)
}

/// The message id and the nonce of a write are what the operating system's generator gave.
pub open spec fn drawn_at_random(write: BucketWriteData) -> bool {
    &&& generator_gave(16, write.envelope.msg_id@)
    &&& generator_gave(16, write.nonce@)
}

/// Wraps an announcement for a bucket, with a given message id and nonce. An announcement that its
/// identity did not sign is not passed on. `encoded` is the announcement's encoded form, which the
/// receiver decodes and checks again.
pub fn announcement_write(
    ann: &NodeKeyAnnouncement,
    encoded: &[u8],
    secret: &[u8; 32],
    now_ms: u64,
    msg_id: MsgId,
    nonce: [u8; 16],
) -> (r: Result<BucketWrite, CoreError>)
    ensures
        r is Ok <==> ann@.genuine(),
        r matches Ok(w) ==> announces(w@, ann.identity, encoded@, secret@, now_ms)
            && w.envelope.msg_id == msg_id && w.nonce == nonce,
        r matches Err(e) ==> e is Crypto,
{
    ann.verify()?;
    let env = Envelope {
        msg_id,
        sender: ann.identity,
        recipient: None,
        group: None,
        kind: PayloadKind::SessionMgmt,
        body: to_vec(encoded),
        sent_at_ms: now_ms,
        ttl_hops: ANNOUNCEMENT_HOPS,
        sig: None,
    };
    Ok(BucketWrite::seal(env, secret, 1, now_ms, nonce))
}

/// Wraps an announcement for a bucket, with a random message id and nonce.
pub fn seal_announcement_write(
    ann: &NodeKeyAnnouncement,
    encoded: &[u8],
    secret: &[u8; 32],
    now_ms: u64,
) -> (r: Result<BucketWrite, CoreError>)
    ensures
        match r {
            Ok(w) => ann@.genuine() && announces(w@, ann.identity, encoded@, secret@, now_ms)
                && drawn_at_random(w@),
            Err(e) => e is Entropy && generator_failed(16) || e is Crypto && !ann@.genuine(),
        },
{
    let msg_id: MsgId = match draw_array::<16>() {
        Ok(id) => id,
        Err(e) => {
            return Err(CoreError::Entropy(random_error_text(&e)));
        },
    };
    let nonce: [u8; 16] = match draw_array::<16>() {
        Ok(n) => n,
        Err(e) => {
            return Err(CoreError::Entropy(random_error_text(&e)));
        },
    };
    announcement_write(ann, encoded, secret, now_ms, msg_id, nonce)
}

/// Puts an announcement into a contact's bucket and says which number it got there.
pub fn distribute_announcement(
    ann: &NodeKeyAnnouncement,
    encoded: &[u8],
    secret: &[u8; 32],
    storage: &mut InMemoryBucketStorage,
    bucket: &NodeId,
    now_ms: u64,
) -> (r: Result<u64, CoreError>)
    ensures
        match r {
            Ok(n) => {
                &&& ann@.genuine()
                &&& final(storage).said().len() == old(storage).said().len() + 1
                &&& final(storage).said().drop_last() == old(storage).said()
                &&& final(storage).said().last().0 == *bucket
                &&& announces(
                    final(storage).said().last().1,
                    ann.identity,
                    encoded@,
                    secret@,
                    now_ms,
                )
                &&& drawn_at_random(final(storage).said().last().1)
                &&& n == final(storage).bucket(*bucket).len()
            },
            Err(e) => {
                &&& final(storage).said() == old(storage).said()
                &&& e is Entropy && generator_failed(16) || e is Crypto && !ann@.genuine()
            },
        },
{
    let write = seal_announcement_write(ann, encoded, secret, now_ms)?;
    let n: u64 = storage.store(bucket, &write);
    assert(storage.said().drop_last() =~= old(storage).said());
    Ok(n)
}

/// A pair's budget flows back, a part a millisecond up to 60000, and a write costs 2000: it is granted if and
/// only if as much is there. A clock that runs back brings nothing.
pub proof fn law_budget_flows_back(r: PairRate, now_ms: u64)
    requires
        r.parts <= 60_000,
    ensures
        ({
            let sum = r.parts + if now_ms > r.last_refill_ms {
                now_ms - r.last_refill_ms
            } else {
                0
            };
            let have = if sum > 60_000 {
                60_000
            } else {
                sum
            };
            &&& r.may_write(now_ms) <==> have >= 2_000
            &&& have >= 2_000 ==> r.after_request(now_ms).parts == have - 2_000
            &&& have < 2_000 ==> r.after_request(now_ms).parts == have
            &&& r.after_request(now_ms).pair == r.pair
            &&& r.after_request(now_ms).last_refill_ms == if now_ms > r.last_refill_ms {
                now_ms
            } else {
                r.last_refill_ms
            }
        }),
{
}

/// Whoever waited for two seconds may write, and whoever writes for the first time has thirty writes at once.
pub proof fn law_patient_pair_may_write(r: PairRate, pair: NodeId, now_ms: u64, times: Seq<u64>)
    requires
        now_ms >= r.last_refill_ms + 2_000,
        forall|i: int| 0 <= i < times.len() ==> #[trigger] times[i] == now_ms,
    ensures
        r.may_write(now_ms),
        granted(PairRate::fresh(pair, now_ms), times) == if times.len() <= 30 {
            times.len()
        } else {
            30
        },
{
    lemma_first_writes(pair, now_ms, times);
}

/// The budget of a new pair after requests at one time.
proof fn lemma_first_writes(pair: NodeId, now_ms: u64, times: Seq<u64>)
    requires
        forall|i: int| 0 <= i < times.len() ==> #[trigger] times[i] == now_ms,
    ensures
        after_requests(PairRate::fresh(pair, now_ms), times).last_refill_ms == now_ms,
        after_requests(PairRate::fresh(pair, now_ms), times).parts == 2_000 * (30 - granted(
            PairRate::fresh(pair, now_ms),
            times,
        )),
        granted(PairRate::fresh(pair, now_ms), times) == if times.len() <= 30 {
            times.len()
        } else {
            30
        },
    decreases times.len(),
{
    if times.len() > 0 {
        let front = times.drop_last();
        assert forall|i: int| 0 <= i < front.len() implies #[trigger] front[i] == now_ms by {
            assert(front[i] == times[i]);
        }
        lemma_first_writes(pair, now_ms, front);
        assert(times[times.len() - 1] == now_ms);
    }
}

/// Nobody is forgotten from a table of fewer than 4096 pairs, nor anyone who asked within the last two
/// minutes.
pub proof fn law_active_pairs_stay(rates: Seq<PairRate>, now_ms: u64, r: PairRate)
    ensures
        rates.len() < 4096 ==> swept(rates, now_ms) == rates,
        rates.len() >= 4096 ==> (swept(rates, now_ms).contains(r) <==> rates.contains(r) && now_ms
            - r.last_refill_ms < 120_000),
{
    lemma_filter_keeps(rates, |x: PairRate| !x.forgotten(now_ms), r);
}

/// A pair without a line of the table has its full budget, and one with a line what the line says.
pub proof fn law_line_says_the_budget(rates: Seq<PairRate>, r: PairRate, now_ms: u64)
    requires
        rates_valid(rates),
    ensures
        rates.contains(r) ==> rate_of(rates, r.pair, now_ms) == r,
        (forall|x: PairRate| #[trigger] rates.contains(x) ==> x.pair != r.pair) ==> rate_of(
            rates,
            r.pair,
            now_ms,
        ) == (PairRate { pair: r.pair, parts: 60_000, last_refill_ms: now_ms }),
        rate_allows(rates, r.pair, now_ms) <==> rate_of(swept(rates, now_ms), r.pair, now_ms).may_write(
            now_ms,
        ),
        with_rate(rates, r).contains(r),
        forall|x: PairRate|
            x.pair != r.pair ==> (#[trigger] with_rate(rates, r).contains(x) <==> rates.contains(x)),
{
    let after = with_rate(rates, r);
    if rates.contains(r) {
        let i = choose|i: int| 0 <= i < rates.len() && rates[i] == r;
        assert(on_record_at(rates, r.pair, i));
        let k = choose|k: int| #[trigger] on_record_at(rates, r.pair, k);
        if k < i {
            assert(rates[k].pair != rates[i].pair);
        } else if i < k {
            assert(rates[i].pair != rates[k].pair);
        }
    }
    if on_record(rates, r.pair) {
        let k = choose|k: int| #[trigger] on_record_at(rates, r.pair, k);
        assert(rates.contains(rates[k]));
        assert(after[k] == r);
    } else {
        assert(after[rates.len() as int] == r);
    }
    assert forall|x: PairRate| x.pair != r.pair implies (#[trigger] after.contains(x) <==> rates.contains(
        x,
    )) by {
        if on_record(rates, r.pair) {
            let k = choose|k: int| #[trigger] on_record_at(rates, r.pair, k);
            if after.contains(x) {
                let i = choose|i: int| 0 <= i < after.len() && after[i] == x;
                assert(rates[i] == x);
            }
            if rates.contains(x) {
                let i = choose|i: int| 0 <= i < rates.len() && rates[i] == x;
                assert(after[i] == x);
            }
        } else {
            lemma_push_contains(rates, r, x);
        }
    }
}

/// The key of a pair is the hash of a fixed text and the secret, and hashes of two secrets cover different
/// bytes.
pub proof fn law_pair_is_known_by_its_secret(a: Seq<u8>, b: Seq<u8>)
    ensures
        pair_material(a) == ascii("dc-mailbox-pair-v1\n"@) + a,
        pair_material(a) == pair_material(b) ==> a == b,
{
    if pair_material(a) == pair_material(b) {
        let n = ascii("dc-mailbox-pair-v1\n"@).len() as int;
        assert(a =~= pair_material(a).skip(n));
        assert(b =~= pair_material(b).skip(n));
    }
}

/// A bucket holds the writes that were stored for it, all of them and in the order in which they came.
pub proof fn law_bucket_holds_its_writes(stored: Seq<(NodeId, BucketWriteData)>, bucket: NodeId)
    ensures
        in_bucket(stored, bucket) == stored.filter(
            |s: (NodeId, BucketWriteData)| s.0 == bucket,
        ).map_values(|s: (NodeId, BucketWriteData)| s.1),
    decreases stored.len(),
{
    reveal(Seq::filter);
    let keep = |s: (NodeId, BucketWriteData)| s.0 == bucket;
    let of = |s: (NodeId, BucketWriteData)| s.1;
    if stored.len() > 0 {
        let front = stored.drop_last();
        law_bucket_holds_its_writes(front, bucket);
        let (f, g) = (front.filter(keep), stored.filter(keep));
        if keep(stored.last()) {
            assert(g == f.push(stored.last()));
            assert(g.map_values(of) =~= f.map_values(of).push(stored.last().1));
        }
    } else {
        assert(in_bucket(stored, bucket) =~= stored.filter(keep).map_values(of));
    }
}

/// A reader gets everything behind the cursor, and nothing that it has read.
pub proof fn law_reader_gets_the_rest(writes: Seq<BucketWriteData>, cursor: u64, i: int)
    ensures
        after_cursor(writes, cursor).len() == if cursor < writes.len() {
            writes.len() - cursor
        } else {
            0
        },
        0 <= i && cursor + i < writes.len() ==> after_cursor(writes, cursor)[i] == writes[cursor + i],
{
}

/// A request is let through if and only if its pair did not make it before, as far as is remembered, and the
/// pair is known or fewer than 4096 pairs are.
pub proof fn law_new_read_passes(reads: PerPair<MsgId>, pair: NodeId, nonce: MsgId, line: Seq<MsgId>)
    requires
        pairs_distinct(reads),
    ensures
        reads.contains((pair, line)) ==> (read_accepts(reads, pair, nonce) <==> !line.contains(nonce)),
        (forall|l: Seq<MsgId>| !#[trigger] reads.contains((pair, l))) ==> (read_accepts(reads, pair, nonce)
            <==> reads.len() < 4096),
{
    if reads.contains((pair, line)) {
        let i = choose|i: int| 0 <= i < reads.len() && reads[i] == (pair, line);
        assert(line_at(reads, pair, i));
        lemma_line_unique(reads, pair, i);
    } else if has_line(reads, pair) {
        let k = choose|k: int| #[trigger] line_at(reads, pair, k);
        assert(reads[k] == (pair, reads[k].1));
        assert(reads.contains((pair, reads[k].1)));
    }
}

/// Of each pair the last 16384 requests are remembered, the latest one among them.
pub proof fn law_latest_reads_are_remembered(nonces: Seq<MsgId>, nonce: MsgId)
    requires
        nonces.len() <= 16_384,
    ensures
        with_nonce(nonces, nonce).last() == nonce,
        with_nonce(nonces, nonce).contains(nonce),
        nonces.len() < 16_384 ==> with_nonce(nonces, nonce).drop_last() == nonces,
        nonces.len() == 16_384 ==> with_nonce(nonces, nonce).drop_last() == nonces.skip(1),
{
    let after = with_nonce(nonces, nonce);
    assert(after[after.len() - 1] == nonce);
    if nonces.len() < 16_384 {
        assert(after.drop_last() =~= nonces);
    } else {
        assert(after.drop_last() =~= nonces.skip(1));
    }
}

/// Ledgers that are put together hold what both held, and one ledger holds its lines.
pub proof fn law_ledgers_count_their_lines(
    ledgers: PerPair<LedgerEntry>,
    more: PerPair<LedgerEntry>,
    pair: NodeId,
    line: Seq<LedgerEntry>,
)
    ensures
        entries_in(seq![(pair, line)]) == line.len(),
        entries_in(ledgers + more) == entries_in(ledgers) + entries_in(more),
    decreases more.len(),
{
    let one = seq![(pair, line)];
    assert(one.drop_last() =~= Seq::<(NodeId, Seq<LedgerEntry>)>::empty());
    assert(one.last() == (pair, line));
    assert(entries_in(one) == entries_in(one.drop_last()) + one.last().1.len());
    if more.len() > 0 {
        law_ledgers_count_their_lines(ledgers, more.drop_last(), pair, line);
        assert((ledgers + more).drop_last() =~= ledgers + more.drop_last());
    } else {
        assert(ledgers + more =~= ledgers);
    }
}

/// An announcement travels for six hops, under the name of its identity, at the time it is made, to nobody in
/// particular, and carries the encoded announcement and no signature of its own.
pub proof fn law_announcement_travels_six_hops(identity: NodeId, encoded: Seq<u8>, now_ms: u64, msg_id: MsgId)
    ensures
        ({
            let e = announcement_envelope(identity, encoded, now_ms, msg_id);
            &&& e.ttl_hops == 6
            &&& e.msg_id == msg_id
            &&& e.sender == identity
            &&& e.recipient is None && e.group is None && e.sig is None
            &&& e.kind == PayloadKind::SessionMgmt
            &&& e.body == encoded
            &&& e.sent_at_ms == now_ms
        }),
{
}

/// A write with an announcement holds that announcement, is of the first version, has the time of the
/// announcement, and passes the receiver's check for five minutes.
pub proof fn law_announcement_write_passes(
    write: BucketWriteData,
    identity: NodeId,
    encoded: Seq<u8>,
    secret: Seq<u8>,
    now_ms: u64,
    later_ms: u64,
)
    requires
        announces(write, identity, encoded, secret, now_ms),
        now_ms <= later_ms <= now_ms + 300_000,
    ensures
        write.serial == 1,
        write.ts_ms == now_ms,
        write.envelope.body == encoded,
        write.envelope.sender == identity,
        write.envelope.sent_at_ms == now_ms,
        write.passes(secret, later_ms),
{
}

} // verus!
