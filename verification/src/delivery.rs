//! Delivery: takes what is due from the queue, hands it to a channel and keeps the books.
//!
//! A message whose receiver cannot be reached stays in the queue and is tried again later; none
//! is dropped in silence.
use vstd::prelude::*;
use crate::crypto::generator_failed;
use crate::envelope::Envelope;
use crate::queue::{
    all_wanted, clamped_ms, dead_row, first_unrestorable, first_wanted, law_cleanup_drops_only_the_old,
    law_nothing_due_is_left_out, law_oldest_first, law_pruning_drops_only_the_old, one_more,
    postponed_row, queued, row_at, row_changed, row_place, rows_distinct, seen_since, sent_row,
    without_old, Db, DbState, RowState, SeenRow, StoredData,
};
use crate::retry::RetryPolicy;
use crate::CoreError;

verus! {

/// Most messages that one round tries.
pub const DEFAULT_BATCH_LIMIT: u32 = 16;

/// How long a received message is remembered.
pub const SEEN_RETENTION_MS: u64 = 604_800_000;

/// How long a message that was given up is kept for another chance.
pub const DEAD_RETENTION_MS: u64 = 2_592_000_000;

/// How long a sent message is kept.
pub const SENT_RETENTION_MS: u64 = 604_800_000;

/// The count of one round.
#[derive(Debug, Clone, Copy, PartialEq, Eq)]
pub struct TickReport {
    /// Messages that were handed to the channel.
    pub attempted: u32,
    pub sent: u32,
    /// Messages whose receiver could not be reached.
    pub unreachable: u32,
    /// Messages on which the channel failed.
    pub errored: u32,
    /// Messages that were given up.
    pub dead: u32,
}

impl TickReport {
    /// The count before anything was tried.
    pub open spec fn nothing() -> TickReport {
        TickReport { attempted: 0, sent: 0, unreachable: 0, errored: 0, dead: 0 }
    }
}

impl Default for TickReport {
    fn default() -> (r: TickReport)
        ensures
            r == TickReport::nothing(),
    {
        TickReport { attempted: 0, sent: 0, unreachable: 0, errored: 0, dead: 0 }
    }
}

/// The count of a cleanup.
#[derive(Debug, Clone, Copy, PartialEq, Eq)]
pub struct CleanupReport {
    pub pruned_seen: u32,
    pub pruned_dead: u32,
}

impl Default for CleanupReport {
    fn default() -> (r: CleanupReport)
        ensures
            r.pruned_seen == 0,
            r.pruned_dead == 0,
    {
        CleanupReport { pruned_seen: 0, pruned_dead: 0 }
    }
}

/// What became of an attempt.
#[derive(Debug, Clone, Copy, PartialEq, Eq, Structural)]
pub enum SendOutcome {
    Delivered,
    Unreachable,
    Failed,
}

/// The outcome that a channel's answer stands for.
pub open spec fn outcome_of(answer: Result<bool, String>) -> SendOutcome {
    match answer {
        Ok(true) => SendOutcome::Delivered,
        Ok(false) => SendOutcome::Unreachable,
        Err(_) => SendOutcome::Failed,
    }
}

/// One attempt: the message, what became of it, and the queue before and after.
pub struct Step {
    pub id: Seq<u8>,
    pub outcome: SendOutcome,
    pub before: DbState,
    pub after: DbState,
}

impl Step {
    /// The message is given up with this attempt.
    pub open spec fn dies(self, policy: RetryPolicy) -> bool {
        self.outcome != SendOutcome::Delivered && one_more(
            self.before.outbox[row_place(self.before.outbox, self.id)].attempts,
        ) >= policy.max_attempts
    }

    /// The books are kept as they should be: a delivered message is noted as sent, any other one
    /// is postponed or given up.
    pub open spec fn booked(self, policy: RetryPolicy, now_ms: u64) -> bool {
        let i = row_place(self.before.outbox, self.id);
        let row = self.before.outbox[i];
        if self.outcome == SendOutcome::Delivered {
            self.after == if queued(self.before.outbox, self.id) {
                row_changed(self.before, i, sent_row(row))
            } else {
                self.before
            }
        } else {
            &&& queued(self.before.outbox, self.id)
            &&& self.dies(policy) ==> self.after == row_changed(self.before, i, dead_row(row))
            &&& !self.dies(policy) ==> exists|delay: u64|
                policy.is_drawn(one_more(row.attempts), delay) && policy.base_delay_ms <= delay
                    <= policy.longest_delay(one_more(row.attempts)) && self.after == row_changed(
                    self.before,
                    i,
                    #[trigger] postponed_row(row, now_ms, delay),
                )
        }
    }
}

/// The queue after some attempts.
pub open spec fn end_of(steps: Seq<Step>, start: DbState) -> DbState {
    if steps.len() == 0 {
        start
    } else {
        steps.last().after
    }
}

/// Attempts that follow each other, all of them booked.
pub open spec fn is_trace(steps: Seq<Step>, start: DbState, policy: RetryPolicy, now_ms: u64) -> bool
    decreases steps.len(),
{
    steps.len() > 0 ==> {
        &&& is_trace(steps.drop_last(), start, policy, now_ms)
        &&& steps.last().before == end_of(steps.drop_last(), start)
        &&& steps.last().booked(policy, now_ms)
    }
}

/// The count of some attempts.
pub open spec fn report_of(steps: Seq<Step>, policy: RetryPolicy) -> TickReport
    decreases steps.len(),
{
    if steps.len() == 0 {
        TickReport::nothing()
    } else {
        let r = report_of(steps.drop_last(), policy);
        let s = steps.last();
        TickReport {
            attempted: (r.attempted + 1) as u32,
            sent: if s.outcome == SendOutcome::Delivered {
                (r.sent + 1) as u32
            } else {
                r.sent
            },
            unreachable: if s.outcome == SendOutcome::Unreachable {
                (r.unreachable + 1) as u32
            } else {
                r.unreachable
            },
            errored: if s.outcome == SendOutcome::Failed {
                (r.errored + 1) as u32
            } else {
                r.errored
            },
            dead: if s.dies(policy) {
                (r.dead + 1) as u32
            } else {
                r.dead
            },
        }
    }
}

/// The counts add up.
proof fn lemma_report_bounds(steps: Seq<Step>, policy: RetryPolicy)
    requires
        steps.len() <= u32::MAX,
    ensures
        report_of(steps, policy).attempted == steps.len(),
        report_of(steps, policy).sent + report_of(steps, policy).unreachable + report_of(
            steps,
            policy,
        ).errored == steps.len(),
        report_of(steps, policy).dead <= report_of(steps, policy).unreachable + report_of(
            steps,
            policy,
        ).errored,
    decreases steps.len(),
{
    if steps.len() > 0 {
        lemma_report_bounds(steps.drop_last(), policy);
    }
}

/// Every attempt of a round is counted once as sent, unreachable or failed, and only those that
/// were not sent can be given up.
pub proof fn law_report_adds_up(steps: Seq<Step>, policy: RetryPolicy)
    requires
        steps.len() <= u32::MAX,
    ensures
        ({
            let r = report_of(steps, policy);
            &&& r.attempted == r.sent + r.unreachable + r.errored
            &&& r.dead <= r.unreachable + r.errored
        }),
{
    lemma_report_bounds(steps, policy);
}

/// The same messages stand in the same places.
pub open spec fn same_messages(a: DbState, b: DbState) -> bool {
    &&& a.outbox.len() == b.outbox.len()
    &&& forall|i: int| 0 <= i < a.outbox.len() ==> (#[trigger] a.outbox[i]).msg_id == b.outbox[i].msg_id
    &&& a.seen == b.seen
}

/// However a round goes, no message leaves the queue.
pub proof fn law_no_message_is_lost(
    steps: Seq<Step>,
    start: DbState,
    policy: RetryPolicy,
    now_ms: u64,
)
    requires
        is_trace(steps, start, policy, now_ms),
    ensures
        same_messages(start, end_of(steps, start)),
    decreases steps.len(),
{
    if steps.len() > 0 {
        law_no_message_is_lost(steps.drop_last(), start, policy, now_ms);
        let s = steps.last();
        let before = s.before;
        if queued(before.outbox, s.id) {
            let i = row_place(before.outbox, s.id);
            assert(row_at(before.outbox, s.id, i));
            let row = before.outbox[i];
            if s.outcome != SendOutcome::Delivered && !s.dies(policy) {
                let delay = choose|delay: u64|
                    policy.is_drawn(one_more(row.attempts), delay) && policy.base_delay_ms <= delay
                        <= policy.longest_delay(one_more(row.attempts)) && s.after == row_changed(
                        before,
                        i,
                        #[trigger] postponed_row(row, now_ms, delay),
                    );
            }
        }
    }
}

/// An attempt that did not succeed cannot be booked: its message is not in the queue, or another
/// attempt follows and the generator gave no number for the delay.
pub open spec fn cannot_book(
    queue: DbState,
    id: Seq<u8>,
    policy: RetryPolicy,
    error: CoreError,
) -> bool {
    if queued(queue.outbox, id) {
        &&& error is Entropy
        &&& generator_failed(8)
        &&& one_more(queue.outbox[row_place(queue.outbox, id)].attempts) < policy.max_attempts
    } else {
        error is Db && error.text() == "Query returned no rows"@
    }
}

/// Books one attempt.
fn book(
    db: &mut Db,
    policy: &RetryPolicy,
    id: &[u8; 16],
    outcome: SendOutcome,
    now_ms: u64,
    report: &mut TickReport,
    Ghost(steps): Ghost<Seq<Step>>,
) -> (r: Result<Ghost<Step>, CoreError>)
    requires
        old(db).wf(),
        steps.len() < u32::MAX,
        *old(report) == report_of(steps, *policy),
    ensures
        final(db).wf(),
        match r {
            Ok(step) => {
                &&& step@.id == id@
                &&& step@.outcome == outcome
                &&& step@.before == old(db)@
                &&& step@.after == final(db)@
                &&& step@.booked(*policy, now_ms)
                &&& *final(report) == report_of(steps.push(step@), *policy)
            },
            Err(e) => {
                &&& final(db)@ == old(db)@
                &&& outcome != SendOutcome::Delivered
                &&& cannot_book(old(db)@, id@, *policy, e)
            },
        },
{
    let ghost before = db@;
    proof {
        lemma_report_bounds(steps, *policy);
    }
    if outcome == SendOutcome::Delivered {
        db.mark_sent(id);
        report.attempted = report.attempted + 1;
        report.sent = report.sent + 1;
        let ghost step = Step { id: id@, outcome, before, after: db@ };
        assert(steps.push(step).drop_last() =~= steps);
        return Ok(Ghost(step));
    }
    let dead: bool = match db.fail_and_reschedule(id, policy, now_ms) {
        Ok(d) => d,
        Err(e) => {
            return Err(e);
        },
    };
    report.attempted = report.attempted + 1;
    if outcome == SendOutcome::Unreachable {
        report.unreachable = report.unreachable + 1;
    } else {
        report.errored = report.errored + 1;
    }
    if dead {
        report.dead = report.dead + 1;
    }
    let ghost step = Step { id: id@, outcome, before, after: db@ };
    assert(steps.push(step).drop_last() =~= steps);
    Ok(Ghost(step))
}

/// Takes messages from the queue to a channel, when there is one. The channel says of an envelope
/// `Ok(true)` when it was delivered, `Ok(false)` when its receiver cannot be reached now, and an
/// error when the channel itself failed.
pub struct DeliveryManager<F: Fn(&Envelope) -> Result<bool, String>> {
    db: Db,
    send: Option<F>,
    policy: RetryPolicy,
    batch_limit: u32,
}

impl<F: Fn(&Envelope) -> Result<bool, String>> DeliveryManager<F> {
    /// What the queue holds.
    pub closed spec fn queue(self) -> Db {
        self.db
    }

    /// The channel, if there is one.
    pub closed spec fn channel(self) -> Option<F> {
        self.send
    }

    /// When to try again.
    pub closed spec fn retry(self) -> RetryPolicy {
        self.policy
    }

    /// Most messages that one round tries.
    pub closed spec fn batch(self) -> u32 {
        self.batch_limit
    }

    /// The messages that a round at `now_ms` tries.
    pub open spec fn round(self, now_ms: u64) -> Seq<StoredData> {
        first_wanted(
            self.queue()@.outbox,
            RowState::Pending,
            Some(clamped_ms(now_ms)),
            self.batch(),
        )
    }

    /// The invariant of the manager: the queue is in order and the channel takes any envelope.
    pub open spec fn wf(self) -> bool {
        &&& self.queue().wf()
        &&& self.channel() matches Some(f) ==> takes_all(f)
    }

    /// A manager with the usual policy.
    pub fn new(db: Db, send: F) -> (r: DeliveryManager<F>)
        requires
            db.wf(),
            takes_all(send),
        ensures
            r.wf(),
            r.queue() == db,
            r.channel() == Some(send),
            r.batch() == DEFAULT_BATCH_LIMIT,
            r.batch() == 16,
            r.retry() == (RetryPolicy {
                max_attempts: 8,
                base_delay_ms: 2_000,
                max_delay_ms: 900_000,
            }),
    {
        DeliveryManager {
            db,
            send: Some(send),
            policy: RetryPolicy::default(),
            batch_limit: DEFAULT_BATCH_LIMIT,
        }
    }

    /// A manager with a policy and a batch of its own, of one message at least.
    pub fn with_policy(
        db: Db,
        send: Option<F>,
        policy: RetryPolicy,
        batch_limit: u32,
    ) -> (r: DeliveryManager<F>)
        requires
            db.wf(),
            send matches Some(f) ==> takes_all(f),
        ensures
            r.wf(),
            r.queue() == db,
            r.channel() == send,
            r.retry() == policy,
            r.batch() == if batch_limit == 0 {
                1
            } else {
                batch_limit
            },
    {
        let batch_limit: u32 = if batch_limit == 0 {
            1
        } else {
            batch_limit
        };
        DeliveryManager { db, send, policy, batch_limit }
    }

    /// Connects a channel, in place of the one that was there.
    pub fn set_send_fn(&mut self, send: F)
        requires
            old(self).wf(),
            takes_all(send),
        ensures
            final(self).wf(),
            final(self).channel() == Some(send),
            final(self).queue() == old(self).queue(),
            final(self).retry() == old(self).retry(),
            final(self).batch() == old(self).batch(),
    {
        self.send = Some(send);
    }

    /// Takes the channel away: until another one is connected the messages wait.
    pub fn clear_send_fn(&mut self)
        requires
            old(self).wf(),
        ensures
            final(self).wf(),
            final(self).channel() == None::<F>,
            final(self).queue() == old(self).queue(),
            final(self).retry() == old(self).retry(),
            final(self).batch() == old(self).batch(),
    {
        self.send = None;
    }

    /// The queue, to look at.
    pub fn db(&self) -> (r: &Db)
        ensures
            *r == self.queue(),
    {
        &self.db
    }

    /// The queue, to work with.
    pub fn db_mut(&mut self) -> (r: &mut Db)
        ensures
            *r == old(self).queue(),
            final(self).queue() == *final(r),
            final(self).channel() == old(self).channel(),
            final(self).retry() == old(self).retry(),
            final(self).batch() == old(self).batch(),
    {
        &mut self.db
    }

    pub fn policy(&self) -> (r: &RetryPolicy)
        ensures
            *r == self.retry(),
    {
        &self.policy
    }

    /// One round: hands what is due to the channel, one message after the other, and books what
    /// the channel says. Without a channel nothing happens.
    pub fn tick(&mut self, now_ms: u64) -> (r: Result<TickReport, CoreError>)
        requires
            old(self).wf(),
        ensures
            final(self).wf(),
            final(self).channel() == old(self).channel(),
            final(self).retry() == old(self).retry(),
            final(self).batch() == old(self).batch(),
            is_round(*old(self), *final(self), now_ms, r),
    {
        let mut report = TickReport::default();
        let ghost channel = self.send;
        let ghost rows = self.round(now_ms);
        let ghost start = self.db@;
        let ghost policy = self.policy;
        let ghost batch = self.batch_limit;
        let f: &F = match &self.send {
            Some(f) => f,
            None => {
                return Ok(report);
            },
        };
        let due: Vec<Envelope> = match self.db.due_envelopes(now_ms, self.batch_limit) {
            Ok(v) => v,
            Err(e) => {
                return Err(e);
            },
        };
        let ghost mut steps: Seq<Step> = Seq::empty();
        let mut k: usize = 0;
        while k < due.len()
            invariant
                k <= due@.len(),
                self.db.wf(),
                self.send == channel,
                channel == Some(*f),
                takes_all(*f),
                self.policy == policy,
                self.batch_limit == batch,
                old(self).channel() == channel,
                old(self).retry() == policy,
                old(self).batch() == batch,
                old(self).round(now_ms) == rows,
                old(self).queue()@ == start,
                due@.len() == rows.len(),
                rows.len() <= batch,
                forall|j: int|
                    0 <= j < rows.len() ==> (#[trigger] rows[j]).restorable() && rows[j].is_restored(
                        due@[j]@,
                    ),
                steps.len() == k,
                is_trace(steps, start, policy, now_ms),
                end_of(steps, start) == self.db@,
                report == report_of(steps, policy),
                answered(steps, rows, *f),
            decreases due@.len() - k,
        {
            let env: &Envelope = &due[k];
            assert(f.requires((env,)));
            let answer: Result<bool, String> = f(env);
            let outcome: SendOutcome = match answer {
                Ok(true) => SendOutcome::Delivered,
                Ok(false) => SendOutcome::Unreachable,
                Err(_) => SendOutcome::Failed,
            };
            assert(f.ensures((&due@[k as int],), answer));
            assert(rows[k as int].is_restored(due@[k as int]@));
            match book(&mut self.db, &self.policy, &env.msg_id, outcome, now_ms, &mut report, Ghost(
                steps,
            )) {
                Ok(step) => {
                    proof {
                        let longer = steps.push(step@);
                        assert(longer.drop_last() =~= steps);
                        assert(longer.last() == step@);
                        assert forall|j: int| 0 <= j < longer.len() implies #[trigger] answered_at(
                            longer,
                            rows,
                            *f,
                            j,
                        ) by {
                            if j < steps.len() {
                                assert(answered_at(steps, rows, *f, j));
                                assert(longer[j] == steps[j]);
                                let (e, a) = choose|e: Envelope, a: Result<bool, String>|
                                    rows[j].is_restored(e@) && #[trigger] f.ensures((&e,), a)
                                        && steps[j].id == e.msg_id@ && steps[j].outcome == outcome_of(
                                        a,
                                    );
                                assert(f.ensures((&e,), a));
                            }
                        }
                        steps = longer;
                    }
                },
                Err(e) => {
                    return Err(e);
                },
            }
            k = k + 1;
        }
        Ok(report)
    }

    /// Drops what has been kept long enough: the record of received messages and the sent ones
    /// after a week, the ones that were given up after thirty days.
    pub fn cleanup(&mut self, now_ms: u64) -> (r: CleanupReport)
        requires
            old(self).wf(),
        ensures
            final(self).wf(),
            final(self).channel() == old(self).channel(),
            final(self).retry() == old(self).retry(),
            final(self).batch() == old(self).batch(),
            final(self).queue()@ == cleaned(old(self).queue()@, now_ms),
            r.pruned_seen == (old(self).queue()@.seen.len() - final(self).queue()@.seen.len()) as u32,
            r.pruned_dead == (old(self).queue()@.outbox.len() - without_dead(
                old(self).queue()@,
                now_ms,
            ).len()) as u32,
    {
        let seen: usize = self.db.prune_seen(now_ms.saturating_sub(SEEN_RETENTION_MS));
        let dead: usize = self.db.prune_dead(now_ms.saturating_sub(DEAD_RETENTION_MS));
        let _sent: usize = self.db.prune_sent(now_ms.saturating_sub(SENT_RETENTION_MS));
        CleanupReport { pruned_seen: seen as u32, pruned_dead: dead as u32 }
    }
}

/// The outgoing messages without those that were given up too long ago.
pub open spec fn without_dead(s: DbState, now_ms: u64) -> Seq<StoredData> {
    without_old(
        s.outbox,
        RowState::Dead,
        clamped_ms(time_before(now_ms, DEAD_RETENTION_MS)),
    )
}

/// The queue after a cleanup.
pub open spec fn cleaned(s: DbState, now_ms: u64) -> DbState {
    DbState {
        seen: seen_since(s.seen, clamped_ms(time_before(now_ms, SEEN_RETENTION_MS))),
        outbox: without_old(
            without_dead(s, now_ms),
            RowState::Sent,
            clamped_ms(time_before(now_ms, SENT_RETENTION_MS)),
        ),
    }
}

/// The time that lies `span` before another, or the beginning of time.
pub open spec fn time_before(now_ms: u64, span: u64) -> u64 {
    if now_ms < span {
        0
    } else {
        (now_ms - span) as u64
    }
}

/// What a round does and reports. Without a channel it does nothing. With one it hands over what is
/// due, each envelope in its turn, and books the answers; the report counts them. It fails when
/// something that is due cannot be restored, before anything is tried, or when an attempt cannot be
/// booked, after those before it were.
pub open spec fn is_round<F: Fn(&Envelope) -> Result<bool, String>>(
    was: DeliveryManager<F>,
    now: DeliveryManager<F>,
    now_ms: u64,
    r: Result<TickReport, CoreError>,
) -> bool {
    match was.channel() {
        None => r == Ok::<TickReport, CoreError>(TickReport::nothing()) && now.queue() == was.queue(),
        Some(f) => match r {
            Ok(report) => exists|steps: Seq<Step>|
                {
                    &&& #[trigger] is_trace(steps, was.queue()@, was.retry(), now_ms)
                    &&& steps.len() == was.round(now_ms).len()
                    &&& end_of(steps, was.queue()@) == now.queue()@
                    &&& report == report_of(steps, was.retry())
                    &&& answered(steps, was.round(now_ms), f)
                },
            Err(e) => {
                ||| now.queue() == was.queue() && e is Db && first_unrestorable(
                    was.round(now_ms),
                    e.text(),
                )
                ||| exists|steps: Seq<Step>|
                    {
                        &&& #[trigger] is_trace(steps, was.queue()@, was.retry(), now_ms)
                        &&& steps.len() < was.round(now_ms).len()
                        &&& end_of(steps, was.queue()@) == now.queue()@
                        &&& answered(steps, was.round(now_ms), f)
                        &&& stuck(
                            now.queue()@,
                            was.round(now_ms)[steps.len() as int],
                            f,
                            was.retry(),
                            e,
                        )
                    }
            },
        },
    }
}

/// The channel can be handed any envelope.
pub open spec fn takes_all<F: Fn(&Envelope) -> Result<bool, String>>(f: F) -> bool {
    forall|e: &Envelope| #[trigger] f.requires((e,))
}

/// A round cannot go on behind a row: its envelope was not delivered, and that cannot be booked.
pub open spec fn stuck<F: Fn(&Envelope) -> Result<bool, String>>(
    queue: DbState,
    row: StoredData,
    f: F,
    policy: RetryPolicy,
    error: CoreError,
) -> bool {
    exists|e: Envelope, a: Result<bool, String>|
        row.is_restored(e@) && #[trigger] f.ensures((&e,), a) && outcome_of(a)
            != SendOutcome::Delivered && cannot_book(queue, e.msg_id@, policy, error)
}

/// The attempt at `k` handed the envelope of the row at `k` to the channel and booked its answer.
pub open spec fn answered_at<F: Fn(&Envelope) -> Result<bool, String>>(
    steps: Seq<Step>,
    rows: Seq<StoredData>,
    f: F,
    k: int,
) -> bool {
    exists|e: Envelope, a: Result<bool, String>|
        rows[k].is_restored(e@) && #[trigger] f.ensures((&e,), a) && steps[k].id == e.msg_id@
            && steps[k].outcome == outcome_of(a)
}

/// Every attempt handed over its own envelope, in the order of the rows.
pub open spec fn answered<F: Fn(&Envelope) -> Result<bool, String>>(
    steps: Seq<Step>,
    rows: Seq<StoredData>,
    f: F,
) -> bool {
    forall|k: int| 0 <= k < steps.len() ==> #[trigger] answered_at(steps, rows, f, k)
}

/// What a channel says is what is booked: a message counts as delivered only if the channel took it,
/// as unreachable if the channel said so, and as failed if the channel itself failed.
pub proof fn law_answers_are_told_apart(answer: Result<bool, String>)
    ensures
        outcome_of(answer) == SendOutcome::Delivered <==> answer == Ok::<bool, String>(true),
        outcome_of(answer) == SendOutcome::Unreachable <==> answer == Ok::<bool, String>(false),
        outcome_of(answer) == SendOutcome::Failed <==> answer is Err,
{
}

/// The report counts every attempt of a round under what became of it, and a message as given up if it
/// was not delivered and had been tried as often as the policy allows.
pub proof fn law_report_counts_the_attempts(steps: Seq<Step>, policy: RetryPolicy)
    requires
        steps.len() <= u32::MAX,
    ensures
        ({
            let r = report_of(steps, policy);
            &&& r.attempted == steps.len()
            &&& r.sent == steps.filter(|s: Step| s.outcome == SendOutcome::Delivered).len()
            &&& r.unreachable == steps.filter(|s: Step| s.outcome == SendOutcome::Unreachable).len()
            &&& r.errored == steps.filter(|s: Step| s.outcome == SendOutcome::Failed).len()
            &&& r.dead == steps.filter(
                |s: Step|
                    s.outcome != SendOutcome::Delivered && one_more(
                        s.before.outbox[row_place(s.before.outbox, s.id)].attempts,
                    ) >= policy.max_attempts,
            ).len()
        }),
    decreases steps.len(),
{
    reveal(Seq::filter);
    lemma_report_bounds(steps, policy);
    if steps.len() > 0 {
        law_report_counts_the_attempts(steps.drop_last(), policy);
        lemma_report_bounds(steps.drop_last(), policy);
        let dies = |s: Step|
            s.outcome != SendOutcome::Delivered && one_more(
                s.before.outbox[row_place(s.before.outbox, s.id)].attempts,
            ) >= policy.max_attempts;
        assert(dies(steps.last()) == steps.last().dies(policy));
    }
}

/// What one attempt does to the queue: the row of its message is on record as sent if it was delivered;
/// if not, it has one attempt more, and is given up when the policy allows no further one, and else waits
/// until a delay of at least the base is over. No other message is touched.
pub proof fn law_attempt_is_booked(step: Step, policy: RetryPolicy, now_ms: u64, i: int)
    requires
        step.booked(policy, now_ms),
        rows_distinct(step.before.outbox),
        0 <= i < step.before.outbox.len(),
        step.before.outbox[i].attempts < u32::MAX,
    ensures
        step.after.seen == step.before.seen,
        step.after.outbox.len() == step.before.outbox.len(),
        ({
            let (was, now) = (step.before.outbox[i], step.after.outbox[i]);
            &&& now.msg_id == was.msg_id && now.recipient == was.recipient && now.group_id == was.group_id
                && now.kind == was.kind && now.body == was.body && now.created_ms == was.created_ms
            &&& was.msg_id != step.id ==> now == was
            &&& was.msg_id == step.id && step.outcome == SendOutcome::Delivered ==> now.state
                == RowState::Sent && now.attempts == was.attempts
            &&& was.msg_id == step.id && step.outcome != SendOutcome::Delivered ==> {
                &&& now.attempts == was.attempts + 1
                &&& now.archive == was.archive
                &&& was.attempts + 1 >= policy.max_attempts ==> now.state == RowState::Dead
                    && now.next_attempt_ms == was.next_attempt_ms
                &&& was.attempts + 1 < policy.max_attempts ==> {
                    &&& now.state == was.state
                    &&& now_ms + policy.base_delay_ms <= i64::MAX ==> now.next_attempt_ms >= now_ms
                        + policy.base_delay_ms
                    &&& now_ms + policy.longest_delay((was.attempts + 1) as u32) <= i64::MAX
                        ==> now.next_attempt_ms <= now_ms + policy.longest_delay(
                        (was.attempts + 1) as u32,
                    )
                }
            }
        }),
{
    let rows = step.before.outbox;
    if queued(rows, step.id) {
        let p = row_place(rows, step.id);
        assert(row_at(rows, step.id, p));
        assert(rows[p].msg_id == step.id);
        if p < i {
            assert(rows[p].msg_id != rows[i].msg_id);
        } else if i < p {
            assert(rows[i].msg_id != rows[p].msg_id);
        }
        if step.outcome != SendOutcome::Delivered && !step.dies(policy) {
            let delay = choose|delay: u64|
                policy.is_drawn(one_more(rows[p].attempts), delay) && policy.base_delay_ms <= delay
                    <= policy.longest_delay(one_more(rows[p].attempts)) && step.after == row_changed(
                    step.before,
                    p,
                    #[trigger] postponed_row(rows[p], now_ms, delay),
                );
            assert(step.after == row_changed(step.before, p, postponed_row(rows[p], now_ms, delay)));
        }
    } else if rows[i].msg_id == step.id {
        assert(row_at(rows, step.id, i));
    }
}

/// A round tries every waiting message whose time has come, up to the size of a batch, oldest first: one
/// that is left out was created no earlier than any that is tried.
pub proof fn law_round_takes_the_oldest_due(
    s: Seq<StoredData>,
    now_ms: u64,
    batch: u32,
    r: StoredData,
    k: int,
)
    requires
        now_ms <= i64::MAX,
        s.contains(r),
        r.state == RowState::Pending,
        r.next_attempt_ms <= now_ms,
    ensures
        ({
            let tried = first_wanted(s, RowState::Pending, Some(clamped_ms(now_ms)), batch);
            &&& !tried.contains(r) ==> tried.len() == batch
            &&& !tried.contains(r) && 0 <= k < tried.len() ==> tried[k].created_ms <= r.created_ms
        }),
{
    let due_by = Some(clamped_ms(now_ms));
    let all = all_wanted(s, RowState::Pending, due_by);
    let tried = first_wanted(s, RowState::Pending, due_by, batch);
    law_nothing_due_is_left_out(s, RowState::Pending, due_by, r);
    let m = choose|m: int| 0 <= m < all.len() && all[m] == r;
    if !tried.contains(r) {
        if m < tried.len() {
            assert(tried[m] == r);
        }
        if 0 <= k < tried.len() {
            let f = s.filter(|x: StoredData| crate::queue::wanted(x, RowState::Pending, due_by));
            law_oldest_first(f);
            assert(all[k].created_ms <= all[m].created_ms);
        }
    }
}

/// A cleanup drops the sent messages after a week, the ones that were given up after thirty days, and the
/// record of received ones after a week. What waits stays, however old it is.
pub proof fn law_cleanup_keeps_what_waits(s: DbState, now_ms: u64, r: StoredData, seen: SeenRow)
    requires
        2_592_000_000 <= now_ms <= i64::MAX,
    ensures
        cleaned(s, now_ms).outbox.contains(r) <==> {
            &&& s.outbox.contains(r)
            &&& !(r.state == RowState::Dead && r.created_ms < now_ms - 2_592_000_000)
            &&& !(r.state == RowState::Sent && r.created_ms < now_ms - 604_800_000)
        },
        cleaned(s, now_ms).seen.contains(seen) <==> s.seen.contains(seen) && seen.seen_ms >= now_ms
            - 604_800_000,
{
    let dead_by = clamped_ms(time_before(now_ms, DEAD_RETENTION_MS));
    let sent_by = clamped_ms(time_before(now_ms, SENT_RETENTION_MS));
    law_pruning_drops_only_the_old(s.outbox, RowState::Dead, dead_by, r);
    law_pruning_drops_only_the_old(without_dead(s, now_ms), RowState::Sent, sent_by, r);
    law_cleanup_drops_only_the_old(s.seen, clamped_ms(time_before(now_ms, SEEN_RETENTION_MS)), seen);
}

/// What a round tries: messages of the queue that wait and are due, as many as there are and as the batch
/// allows, and none that is younger than one left out.
pub proof fn law_round_tries_what_is_due<F: Fn(&Envelope) -> Result<bool, String>>(
    m: DeliveryManager<F>,
    now_ms: u64,
    k: int,
    r: StoredData,
)
    requires
        now_ms <= i64::MAX,
        0 <= k < m.round(now_ms).len(),
    ensures
        m.round(now_ms).len() <= m.batch(),
        m.queue()@.outbox.contains(m.round(now_ms)[k]),
        m.round(now_ms)[k].state == RowState::Pending,
        m.round(now_ms)[k].next_attempt_ms <= now_ms,
        m.queue()@.outbox.contains(r) && r.state == RowState::Pending && r.next_attempt_ms <= now_ms
            && !m.round(now_ms).contains(r) ==> m.round(now_ms).len() == m.batch() && m.round(
            now_ms,
        )[k].created_ms <= r.created_ms,
{
    let s = m.queue()@.outbox;
    let due_by = Some(clamped_ms(now_ms));
    let all = all_wanted(s, RowState::Pending, due_by);
    assert(m.round(now_ms)[k] == all[k]);
    assert(all.contains(all[k]));
    law_nothing_due_is_left_out(s, RowState::Pending, due_by, all[k]);
    if s.contains(r) && r.state == RowState::Pending && r.next_attempt_ms <= now_ms {
        law_round_takes_the_oldest_due(s, now_ms, m.batch(), r, k);
    }
}

/// A message that a round did not try stays as it is.
pub proof fn law_other_messages_stay(
    steps: Seq<Step>,
    start: DbState,
    policy: RetryPolicy,
    now_ms: u64,
    i: int,
)
    requires
        is_trace(steps, start, policy, now_ms),
        0 <= i < start.outbox.len(),
        forall|k: int| 0 <= k < steps.len() ==> (#[trigger] steps[k]).id != start.outbox[i].msg_id,
    ensures
        end_of(steps, start).outbox[i] == start.outbox[i],
    decreases steps.len(),
{
    if steps.len() > 0 {
        let front = steps.drop_last();
        let s = steps.last();
        assert forall|k: int| 0 <= k < front.len() implies (#[trigger] front[k]).id
            != start.outbox[i].msg_id by {
            assert(front[k] == steps[k]);
        }
        law_other_messages_stay(front, start, policy, now_ms, i);
        law_no_message_is_lost(front, start, policy, now_ms);
        assert(steps[steps.len() - 1].id != start.outbox[i].msg_id);
        let rows = s.before.outbox;
        if queued(rows, s.id) {
            let p = row_place(rows, s.id);
            assert(row_at(rows, s.id, p));
            assert(p != i);
            if s.outcome != SendOutcome::Delivered && !s.dies(policy) {
                let delay = choose|delay: u64|
                    policy.is_drawn(one_more(rows[p].attempts), delay) && policy.base_delay_ms <= delay
                        <= policy.longest_delay(one_more(rows[p].attempts)) && s.after == row_changed(
                        s.before,
                        p,
                        #[trigger] postponed_row(rows[p], now_ms, delay),
                    );
                assert(s.after == row_changed(s.before, p, postponed_row(rows[p], now_ms, delay)));
            }
        }
    }
}

/// A round that succeeds tried everything that was due in that batch, and counts it. One without a channel
/// does nothing.
pub proof fn law_round_tries_everything<F: Fn(&Envelope) -> Result<bool, String>>(
    was: DeliveryManager<F>,
    now: DeliveryManager<F>,
    now_ms: u64,
    report: TickReport,
)
    requires
        is_round(was, now, now_ms, Ok(report)),
    ensures
        was.channel() is None ==> now.queue() == was.queue() && report.attempted == 0 && report.sent == 0
            && report.unreachable == 0 && report.errored == 0 && report.dead == 0,
        was.channel() is Some ==> report.attempted == was.round(now_ms).len(),
        same_messages(was.queue()@, now.queue()@),
{
    if was.channel() is Some {
        let f = was.channel()->0;
        let steps = choose|steps: Seq<Step>|
            {
                &&& #[trigger] is_trace(steps, was.queue()@, was.retry(), now_ms)
                &&& steps.len() == was.round(now_ms).len()
                &&& end_of(steps, was.queue()@) == now.queue()@
                &&& report == report_of(steps, was.retry())
                &&& answered(steps, was.round(now_ms), f)
            };
        assert(is_trace(steps, was.queue()@, was.retry(), now_ms));
        law_no_message_is_lost(steps, was.queue()@, was.retry(), now_ms);
        law_report_counts_the_attempts(steps, was.retry());
    }
}

/// A queue younger than a week loses nothing to a cleanup, and dead messages alone go when only they are
/// dropped.
pub proof fn law_young_queue_is_kept(s: DbState, now_ms: u64, r: StoredData, seen: SeenRow)
    requires
        now_ms <= i64::MAX,
    ensures
        now_ms <= 604_800_000 && s.outbox.contains(r) && r.created_ms >= 0 ==> cleaned(
            s,
            now_ms,
        ).outbox.contains(r),
        now_ms <= 604_800_000 && s.seen.contains(seen) && seen.seen_ms >= 0 ==> cleaned(
            s,
            now_ms,
        ).seen.contains(seen),
        now_ms >= 2_592_000_000 ==> (without_dead(s, now_ms).contains(r) <==> s.outbox.contains(r) && !(
        r.state == RowState::Dead && r.created_ms < now_ms - 2_592_000_000)),
{
    let dead = clamped_ms(time_before(now_ms, DEAD_RETENTION_MS));
    let sent = clamped_ms(time_before(now_ms, SENT_RETENTION_MS));
    law_pruning_drops_only_the_old(s.outbox, RowState::Dead, dead, r);
    law_pruning_drops_only_the_old(without_dead(s, now_ms), RowState::Sent, sent, r);
    law_cleanup_drops_only_the_old(s.seen, clamped_ms(time_before(now_ms, SEEN_RETENTION_MS)), seen);
}

/// To give a message up takes no number from the generator; a delay does.
pub proof fn law_giving_up_needs_no_number(
    queue: DbState,
    id: Seq<u8>,
    policy: RetryPolicy,
    error: CoreError,
    i: int,
)
    requires
        rows_distinct(queue.outbox),
        0 <= i < queue.outbox.len(),
        queue.outbox[i].msg_id == id,
        queue.outbox[i].attempts < u32::MAX,
        cannot_book(queue, id, policy, error),
    ensures
        queue.outbox[i].attempts + 1 < policy.max_attempts,
        error is Entropy,
        generator_failed(8),
{
    crate::queue::law_row_is_found_by_its_id(queue.outbox, id, i);
}

/// A round that succeeds has handed the envelope of every message that it tried to the channel.
pub proof fn law_every_message_is_handed_over<F: Fn(&Envelope) -> Result<bool, String>>(
    was: DeliveryManager<F>,
    now: DeliveryManager<F>,
    now_ms: u64,
    report: TickReport,
    f: F,
    k: int,
)
    requires
        is_round(was, now, now_ms, Ok(report)),
        was.channel() == Some(f),
        0 <= k < was.round(now_ms).len(),
    ensures
        exists|e: Envelope, a: Result<bool, String>|
            was.round(now_ms)[k].is_restored(e@) && #[trigger] f.ensures((&e,), a),
{
    let steps = choose|steps: Seq<Step>|
        {
            &&& #[trigger] is_trace(steps, was.queue()@, was.retry(), now_ms)
            &&& steps.len() == was.round(now_ms).len()
            &&& end_of(steps, was.queue()@) == now.queue()@
            &&& report == report_of(steps, was.retry())
            &&& answered(steps, was.round(now_ms), f)
        };
    assert(answered_at(steps, was.round(now_ms), f, k));
}

/// A round stops in the middle only behind a message whose envelope the channel did not deliver and whose
/// failure could not be booked.
pub proof fn law_round_stops_behind_a_failure<F: Fn(&Envelope) -> Result<bool, String>>(
    queue: DbState,
    row: StoredData,
    f: F,
    policy: RetryPolicy,
    error: CoreError,
)
    requires
        stuck(queue, row, f, policy, error),
    ensures
        exists|e: Envelope, a: Result<bool, String>|
            {
                &&& row.is_restored(e@)
                &&& #[trigger] f.ensures((&e,), a)
                &&& a != Ok::<bool, String>(true)
                &&& cannot_book(queue, e.msg_id@, policy, error)
            },
{
    let (e, a) = choose|e: Envelope, a: Result<bool, String>|
        row.is_restored(e@) && #[trigger] f.ensures((&e,), a) && outcome_of(a)
            != SendOutcome::Delivered && cannot_book(queue, e.msg_id@, policy, error);
    assert(f.ensures((&e,), a));
    law_answers_are_told_apart(a);
}

} // verus!
