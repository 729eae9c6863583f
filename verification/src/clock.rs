//! The internal clock: the system clock plus a calibrated offset.
//!
//! The system time is never changed. Offsets come from the network, where two
//! different sources have to agree, or from a quorum of trusted contacts. A high
//! water mark keeps the clock from running backwards.
use vstd::prelude::*;
use vstd::relations::{sorted_by, total_ordering};
use vstd::seq_lib::{lemma_sorted_unique, to_multiset_insert};
use crate::lists::{lemma_filter_keeps, lemma_push_contains};
use crate::arith::{
    bounded, clamp, distance, half, halve, same_bytes, sat_i64, saturating_add, saturating_sub,
};

verus! {

/// No calibration moves the clock further than this.
pub const MAX_CORRECTION_MS: i64 = 86_400_000;

/// How long a network calibration stays in force.
pub const NETWORK_FRESH_MS: i64 = 21_600_000;

/// Longest round trip of a peer exchange that is still believed.
pub const MAX_RTT_MS: i64 = 5_000;

/// Largest gap between neighbouring offsets of one cluster.
pub const CLUSTER_TOLERANCE_MS: i64 = 60_000;

/// Fewest contacts that can move the clock.
pub const PEER_QUORUM: usize = 3;

/// Two network sources agree when their offsets are at most this far apart.
pub const CROSS_CHECK_TOLERANCE_MS: i64 = 5_000;

/// Largest change of the offset in force that one network calibration may bring.
pub const NETWORK_ADOPTION_CAP_MS: i64 = 120_000;

/// Shortest time between two network calibrations.
pub const NETWORK_ADOPTION_COOLDOWN_MS: i64 = 600_000;

/// Readings of the local clock past this one (about the year 2100) are garbage.
pub const MAX_PLAUSIBLE_LOCAL_MS: i64 = 4_102_444_800_000;

/// Largest forward jump of the local clock that the high water mark follows.
pub const MAX_TRUSTED_ADVANCE_MS: i64 = 604_800_000;

/// How long a first network reading waits for a second source.
pub const NETWORK_PENDING_TIMEOUT_MS: i64 = 300_000;

/// How long a contact's sample counts.
pub const SAMPLE_FRESH_MS: i64 = 1_800_000;

/// A local clock this far below its own high water mark has been set back.
pub const ROLLBACK_SLACK_MS: i64 = 60_000;

/// A fall of the high water mark larger than this is refused during a rollback.
pub const SIGNIFICANT_DROP_MS: i64 = 3_600_000;

/// Stands for "never" in a field that holds a local time.
pub const NEVER_MS: i64 = -4_611_686_018_427_387_904;

/// Where the offset in force comes from.
#[derive(Debug, Clone, Copy, PartialEq, Eq, Structural)]
pub enum Source {
    Unsynced,
    Network,
    Peers,
}

/// Why a peer exchange was refused.
#[derive(Debug, Clone, Copy, PartialEq, Eq, Structural)]
pub enum ClockError {
    RttTooLarge,
    Clamped,
    UntrustedPeer,
}

/// What one contact's last exchange said.
#[derive(Clone, Copy)]
pub struct PeerSample {
    pub peer: [u8; 32],
    pub offset_ms: i64,
    pub at_local_ms: i64,
}

/// The state that the clock's decisions depend on.
pub struct ClockState {
    pub network_offset_ms: Option<i64>,
    pub network_fresh_until: i64,
    pub pending_network: Option<(u8, i64, i64)>,
    pub last_network_adopted_at: i64,
    pub trusted: Set<[u8; 32]>,
    pub samples: Seq<PeerSample>,
    pub internal_high_water_ms: int,
    pub local_high_water_ms: i64,
    pub last_offset_ms: i64,
    pub rollback_detected: bool,
}

pub struct InternalClock {
    network_offset_ms: Option<i64>,
    network_fresh_until: i64,
    /// The first network reading: source, offset, local time of its arrival.
    pending_network: Option<(u8, i64, i64)>,
    last_network_adopted_at: i64,
    trusted_peers: Vec<[u8; 32]>,
    peers: Vec<PeerSample>,
    internal_high_water_ms: u64,
    local_high_water_ms: i64,
    last_offset_ms: i64,
    pub rollback_detected: bool,
}

/// `x` is a correction that a calibration may ask for.
pub open spec fn is_correction(x: int) -> bool {
    -MAX_CORRECTION_MS <= x <= MAX_CORRECTION_MS
}

impl ClockState {
    /// Every state that the clock can reach.
    pub open spec fn valid(self) -> bool {
        &&& self.network_offset_ms matches Some(o) ==> is_correction(o as int)
        &&& self.pending_network matches Some(p) ==> is_correction(p.1 as int)
        &&& is_correction(self.last_offset_ms as int)
        &&& forall|i: int|
            0 <= i < self.samples.len() ==> is_correction((#[trigger] self.samples[i]).offset_ms as int)
        &&& forall|i: int, j: int|
            #![trigger self.samples[i], self.samples[j]]
            0 <= i < j < self.samples.len() ==> self.samples[i].peer != self.samples[j].peer
        &&& 0 <= self.internal_high_water_ms <= MAX_PLAUSIBLE_LOCAL_MS + MAX_CORRECTION_MS
        &&& self.local_high_water_ms == NEVER_MS || 0 <= self.local_high_water_ms
            <= MAX_PLAUSIBLE_LOCAL_MS
    }
}

impl View for InternalClock {
    type V = ClockState;

    closed spec fn view(&self) -> ClockState {
        ClockState {
            network_offset_ms: self.network_offset_ms,
            network_fresh_until: self.network_fresh_until,
            pending_network: self.pending_network,
            last_network_adopted_at: self.last_network_adopted_at,
            trusted: self.trusted_peers@.to_set(),
            samples: self.peers@,
            internal_high_water_ms: self.internal_high_water_ms as int,
            local_high_water_ms: self.local_high_water_ms,
            last_offset_ms: self.last_offset_ms,
            rollback_detected: self.rollback_detected,
        }
    }
}


/// `x <= y`, as a function.
pub open spec fn at_most() -> spec_fn(i64, i64) -> bool {
    |x: i64, y: i64| x <= y
}

/// The offsets of the samples taken at `cut` or later, in the order of the samples.
pub open spec fn fresh_offsets(samples: Seq<PeerSample>, cut: i64) -> Seq<i64>
    decreases samples.len(),
{
    if samples.len() == 0 {
        Seq::empty()
    } else {
        let earlier = fresh_offsets(samples.drop_last(), cut);
        if samples.last().at_local_ms >= cut {
            earlier.push(samples.last().offset_ms)
        } else {
            earlier
        }
    }
}

/// The entry at `k` lies no further above the one before than the tolerance.
pub open spec fn close_to_previous(s: Seq<i64>, k: int) -> bool {
    s[k] - s[k - 1] <= CLUSTER_TOLERANCE_MS
}

/// The entries `a..b` of `s` follow each other without a gap above the tolerance.
pub open spec fn is_run(s: Seq<i64>, a: int, b: int) -> bool {
    &&& 0 <= a < b <= s.len()
    &&& forall|k: int| a < k < b ==> #[trigger] close_to_previous(s, k)
}

/// `a..b` is the longest run of `s`, and the first of the longest.
pub open spec fn is_peak(s: Seq<i64>, a: int, b: int) -> bool {
    &&& is_run(s, a, b)
    &&& forall|x: int, y: int| #[trigger]
        is_run(s, x, y) ==> y - x < b - a || (y - x == b - a && a <= x)
}

/// Some run of `s` has as many members as a quorum.
pub open spec fn has_quorum(s: Seq<i64>) -> bool {
    exists|x: int, y: int| #[trigger] is_run(s, x, y) && y - x >= PEER_QUORUM
}

/// The longest run of `s`, as a pair of its ends.
pub open spec fn peak(s: Seq<i64>) -> (int, int) {
    choose|p: (int, int)| #[trigger] is_peak(s, p.0, p.1)
}

/// The members of the longest run, when they are a quorum. `s` is sorted.
pub open spec fn consensus_cluster(s: Seq<i64>) -> Option<Seq<i64>> {
    if has_quorum(s) {
        Some(s.subrange(peak(s).0, peak(s).1))
    } else {
        None
    }
}

/// Two longest runs that are both first are the same run.
proof fn lemma_peak_unique(s: Seq<i64>, a: int, b: int)
    requires
        is_peak(s, a, b),
    ensures
        peak(s) == (a, b),
{
    assert(is_peak(s, (a, b).0, (a, b).1));
    let p = peak(s);
    assert(is_peak(s, p.0, p.1));
    assert(is_run(s, p.0, p.1));
    assert(is_run(s, a, b));
}

/// Among the runs at least as good as `x..y` there is a peak.
proof fn lemma_peak_exists(s: Seq<i64>, x: int, y: int)
    requires
        is_run(s, x, y),
    ensures
        is_peak(s, peak(s).0, peak(s).1),
        peak(s).1 - peak(s).0 >= y - x,
    decreases s.len() - (y - x), x,
{
    if is_peak(s, x, y) {
        lemma_peak_unique(s, x, y);
    } else {
        let (a, b) = choose|a: int, b: int| #[trigger]
            is_run(s, a, b) && !(b - a < y - x || (b - a == y - x && x <= a));
        lemma_peak_exists(s, a, b);
    }
}

impl ClockState {
    /// The offsets, in ascending order, that contacts reported not too long before `local_ms`.
    pub open spec fn recent_offsets(self, local_ms: i64) -> Seq<i64> {
        fresh_offsets(self.samples, sat_i64(local_ms - SAMPLE_FRESH_MS)).sort_by(at_most())
    }

    /// What the contacts agree on at `local_ms`.
    pub open spec fn cluster(self, local_ms: i64) -> Option<Seq<i64>> {
        consensus_cluster(self.recent_offsets(local_ms))
    }

    /// A network calibration is in force at `local_ms`.
    pub open spec fn network_in_force(self, local_ms: i64) -> bool {
        self.network_offset_ms is Some && local_ms <= self.network_fresh_until
    }

    /// The offset in force at `local_ms`: the network's, else the median of the contacts'
    /// cluster, else none.
    pub open spec fn offset(self, local_ms: i64) -> i64 {
        if self.network_in_force(local_ms) {
            self.network_offset_ms->0
        } else {
            match self.cluster(local_ms) {
                Some(c) => c[c.len() as int / 2],
                None => 0,
            }
        }
    }
}

/// Puts `x` into the sorted vector `v`, behind its equals.
fn insert_sorted(v: &mut Vec<i64>, x: i64)
    requires
        sorted_by(old(v)@, at_most()),
    ensures
        sorted_by(final(v)@, at_most()),
        final(v)@.to_multiset() == old(v)@.to_multiset().insert(x),
{
    let mut i: usize = v.len();
    while i > 0 && v[i - 1] > x
        invariant
            i <= v.len(),
            v@ == old(v)@,
            sorted_by(v@, at_most()),
            forall|k: int| i <= k < v.len() ==> v@[k] > x,
        decreases i,
    {
        i = i - 1;
    }
    proof {
        let leq = at_most();
        assert forall|k: int| 0 <= k < i implies v@[k] <= x by {
            assert(leq(v@[k], v@[i - 1]));
        }
        to_multiset_insert(v@, i as int, x);
        let w = v@.insert(i as int, x);
        assert forall|a: int, b: int| 0 <= a < b < w.len() implies #[trigger] leq(w[a], w[b]) by {
            let a0 = if a < i { a } else { a - 1 };
            let b0 = if b < i { b } else { b - 1 };
            if a != i && b != i {
                assert(leq(v@[a0], v@[b0]));
            }
        }
    }
    v.insert(i, x);
}


impl ClockState {
    /// The clock before its first reading.
    pub open spec fn initial() -> ClockState {
        ClockState {
            network_offset_ms: None,
            network_fresh_until: NEVER_MS,
            pending_network: None,
            last_network_adopted_at: NEVER_MS,
            trusted: Set::empty(),
            samples: Seq::empty(),
            internal_high_water_ms: 0,
            local_high_water_ms: NEVER_MS,
            last_offset_ms: 0,
            rollback_detected: false,
        }
    }

    /// The first network reading, while it may still be paired at `local_ms`.
    pub open spec fn waiting(self, local_ms: i64) -> Option<(u8, i64, i64)> {
        match self.pending_network {
            Some(p) => if sat_i64(local_ms - p.2) <= NETWORK_PENDING_TIMEOUT_MS {
                Some(p)
            } else {
                None
            },
            None => None,
        }
    }

    /// A reading of `source_id` meets a waiting one of another source.
    pub open spec fn pairs(self, source_id: u8, local_ms: i64) -> bool {
        self.waiting(local_ms) matches Some(p) && p.0 != source_id
    }

    /// The mean of the waiting reading and the new one.
    pub open spec fn agreed_offset(self, local_ms: i64, network_ms: i64) -> int {
        half((self.waiting(local_ms)->0).1 + network_correction(local_ms, network_ms))
    }

    /// A reading completes a pair that may move the clock.
    pub open spec fn adopts(self, source_id: u8, local_ms: i64, network_ms: i64) -> bool {
        &&& self.pairs(source_id, local_ms)
        &&& distance((self.waiting(local_ms)->0).1 - network_correction(local_ms, network_ms))
            <= CROSS_CHECK_TOLERANCE_MS
        &&& distance(self.agreed_offset(local_ms, network_ms) - self.last_offset_ms)
            <= NETWORK_ADOPTION_CAP_MS
        &&& sat_i64(local_ms - self.last_network_adopted_at) >= NETWORK_ADOPTION_COOLDOWN_MS
    }

    /// The clock after a network reading.
    pub open spec fn after_network_sync(
        self,
        source_id: u8,
        local_ms: i64,
        network_ms: i64,
    ) -> ClockState {
        if !self.pairs(source_id, local_ms) {
            ClockState {
                pending_network: Some(
                    (source_id, network_correction(local_ms, network_ms) as i64, local_ms),
                ),
                ..self
            }
        } else if self.adopts(source_id, local_ms, network_ms) {
            ClockState {
                pending_network: None,
                network_offset_ms: Some(self.agreed_offset(local_ms, network_ms) as i64),
                network_fresh_until: sat_i64(local_ms + NETWORK_FRESH_MS),
                last_network_adopted_at: local_ms,
                ..self
            }
        } else {
            ClockState {
                pending_network: None,
                network_offset_ms: None,
                network_fresh_until: NEVER_MS,
                ..self
            }
        }
    }
}

/// The correction that a network reading asks for.
pub open spec fn network_correction(local_ms: i64, network_ms: i64) -> int {
    bounded(
        sat_i64(network_ms - local_ms) as int,
        -MAX_CORRECTION_MS as int,
        MAX_CORRECTION_MS as int,
    )
}

/// Round trip time of an exchange: `t1` sent, `t2` received and `t3` answered by the peer,
/// `t4` answer received.
pub open spec fn round_trip(t1: i64, t2: i64, t3: i64, t4: i64) -> int {
    sat_i64(sat_i64(t4 - t1) - sat_i64(t3 - t2)) as int
}

/// The correction that an exchange asks for.
pub open spec fn exchange_correction(t1: i64, t2: i64, t3: i64, t4: i64) -> int {
    bounded(
        half(sat_i64(sat_i64(t2 - t1) + sat_i64(t3 - t4)) as int),
        -MAX_CORRECTION_MS as int,
        MAX_CORRECTION_MS as int,
    )
}

/// `samples` with `s` in place of the contact's last sample, or behind the others.
pub open spec fn with_sample(samples: Seq<PeerSample>, s: PeerSample) -> Seq<PeerSample> {
    if exists|i: int| 0 <= i < samples.len() && (#[trigger] samples[i]).peer == s.peer {
        let i = choose|i: int| 0 <= i < samples.len() && (#[trigger] samples[i]).peer == s.peer;
        samples.update(i, s)
    } else {
        samples.push(s)
    }
}

/// `samples` but for those of `peer`.
pub open spec fn without(samples: Seq<PeerSample>, peer: [u8; 32]) -> Seq<PeerSample> {
    samples.filter(|s: PeerSample| s.peer != peer)
}

impl InternalClock {
    /// The invariant of the clock.
    pub open spec fn wf(self) -> bool {
        self@.valid()
    }

    pub fn new() -> (r: InternalClock)
        ensures
            r.wf(),
            r@ == ClockState::initial(),
    {
        let r = InternalClock {
            network_offset_ms: None,
            network_fresh_until: NEVER_MS,
            pending_network: None,
            last_network_adopted_at: NEVER_MS,
            trusted_peers: Vec::new(),
            peers: Vec::new(),
            internal_high_water_ms: 0,
            local_high_water_ms: NEVER_MS,
            last_offset_ms: 0,
            rollback_detected: false,
        };
        assert(r@.trusted =~= Set::empty());
        r
    }

    /// Takes over a high water mark that was saved before a restart. What lies past the
    /// plausible range counts as its end.
    pub fn restore_high_water(&mut self, persisted_ms: u64)
        requires
            old(self).wf(),
        ensures
            final(self).wf(),
            final(self)@ == (ClockState {
                internal_high_water_ms: if old(self)@.internal_high_water_ms > bounded(
                    persisted_ms as int,
                    0,
                    MAX_PLAUSIBLE_LOCAL_MS as int,
                ) {
                    old(self)@.internal_high_water_ms
                } else {
                    bounded(persisted_ms as int, 0, MAX_PLAUSIBLE_LOCAL_MS as int)
                },
                ..old(self)@
            }),
    {
        let most: u64 = MAX_PLAUSIBLE_LOCAL_MS as u64;
        let v: u64 = if persisted_ms > most {
            most
        } else {
            persisted_ms
        };
        if v > self.internal_high_water_ms {
            self.internal_high_water_ms = v;
        }
    }

    pub fn high_water_ms(&self) -> (r: u64)
        ensures
            r == self@.internal_high_water_ms,
    {
        self.internal_high_water_ms
    }

    fn trusted_index(&self, peer: &[u8; 32]) -> (r: Option<usize>)
        ensures
            match r {
                Some(i) => i < self.trusted_peers@.len() && self.trusted_peers@[i as int] == *peer,
                None => !self.trusted_peers@.contains(*peer),
            },
    {
        let mut i: usize = 0;
        while i < self.trusted_peers.len()
            invariant
                i <= self.trusted_peers@.len(),
                forall|k: int| 0 <= k < i ==> self.trusted_peers@[k] != *peer,
            decreases self.trusted_peers@.len() - i,
        {
            if same_bytes(&self.trusted_peers[i], peer) {
                return Some(i);
            }
            i = i + 1;
        }
        None
    }

    /// Marks a contact as verified: only such contacts can calibrate the clock.
    pub fn trust_peer(&mut self, peer: [u8; 32])
        requires
            old(self).wf(),
        ensures
            final(self).wf(),
            final(self)@ == (ClockState { trusted: old(self)@.trusted.insert(peer), ..old(self)@ }),
    {
        let ghost before = self.trusted_peers@;
        if self.trusted_index(&peer).is_none() {
            self.trusted_peers.push(peer);
            proof {
                assert forall|q: [u8; 32]| self.trusted_peers@.contains(q) <==> before.contains(q)
                    || q == peer by {
                    if before.contains(q) {
                        let i = choose|i: int| 0 <= i < before.len() && before[i] == q;
                        assert(self.trusted_peers@[i] == q);
                    }
                    assert(self.trusted_peers@[before.len() as int] == peer);
                }
            }
        }
        assert(self@.trusted =~= old(self)@.trusted.insert(peer));
    }

    /// Withdraws the trust in a contact, and what it said.
    pub fn distrust_peer(&mut self, peer: &[u8; 32])
        requires
            old(self).wf(),
        ensures
            final(self).wf(),
            final(self)@ == (ClockState {
                trusted: old(self)@.trusted.remove(*peer),
                samples: without(old(self)@.samples, *peer),
                ..old(self)@
            }),
    {
        let mut trusted: Vec<[u8; 32]> = Vec::new();
        let mut i: usize = 0;
        while i < self.trusted_peers.len()
            invariant
                i <= self.trusted_peers@.len(),
                self@ == old(self)@,
                forall|q: [u8; 32]| #[trigger]
                    trusted@.contains(q) <==> self.trusted_peers@.take(i as int).contains(q) && q != *peer,
            decreases self.trusted_peers@.len() - i,
        {
            let ghost before = trusted@;
            let ghost all = self.trusted_peers@;
            let same: bool = same_bytes(&self.trusted_peers[i], peer);
            if !same {
                trusted.push(self.trusted_peers[i]);
            }
            proof {
                assert forall|q: [u8; 32]| #[trigger] trusted@.contains(q) <==> all.take(i + 1).contains(
                    q,
                ) && q != *peer by {
                    assert(all.take(i + 1) =~= all.take(i as int).push(all[i as int]));
                    if before.contains(q) {
                        let k = choose|k: int| 0 <= k < before.len() && before[k] == q;
                        assert(trusted@[k] == q);
                    }
                    if all.take(i as int).contains(q) {
                        let k = choose|k: int| 0 <= k < i && all.take(i as int)[k] == q;
                        assert(all.take(i + 1)[k] == q);
                    }
                    assert(all.take(i + 1)[i as int] == all[i as int]);
                    if !same {
                        assert(trusted@[before.len() as int] == all[i as int]);
                    }
                }
            }
            i = i + 1;
        }
        let mut kept: Vec<PeerSample> = Vec::new();
        let ghost keep = |s: PeerSample| s.peer != *peer;
        let mut j: usize = 0;
        while j < self.peers.len()
            invariant
                j <= self.peers@.len(),
                self@ == old(self)@,
                keep == (|s: PeerSample| s.peer != *peer),
                kept@ == self.peers@.take(j as int).filter(keep),
            decreases self.peers@.len() - j,
        {
            proof {
                reveal(Seq::filter);
                assert(self.peers@.take(j + 1).drop_last() =~= self.peers@.take(j as int));
            }
            if !same_bytes(&self.peers[j].peer, peer) {
                kept.push(self.peers[j]);
            }
            j = j + 1;
        }
        proof {
            assert(self.peers@.take(j as int) =~= self.peers@);
            assert(self.trusted_peers@.take(i as int) =~= self.trusted_peers@);
            assert(trusted@.to_set() =~= self.trusted_peers@.to_set().remove(*peer));
            lemma_filter_keeps_valid(self.peers@, keep);
        }
        self.trusted_peers = trusted;
        self.peers = kept;
    }

    pub fn is_trusted(&self, peer: &[u8; 32]) -> (r: bool)
        ensures
            r == self@.trusted.contains(*peer),
    {
        self.trusted_index(peer).is_some()
    }
}

/// Filtering keeps the samples' order, so bounds and distinctness survive.
proof fn lemma_filter_keeps_valid(samples: Seq<PeerSample>, keep: spec_fn(PeerSample) -> bool)
    requires
        forall|i: int|
            0 <= i < samples.len() ==> is_correction((#[trigger] samples[i]).offset_ms as int),
        forall|i: int, j: int|
            #![trigger samples[i], samples[j]]
            0 <= i < j < samples.len() ==> samples[i].peer != samples[j].peer,
    ensures
        forall|i: int|
            0 <= i < samples.filter(keep).len() ==> samples.contains(
                #[trigger] samples.filter(keep)[i],
            ) && is_correction(samples.filter(keep)[i].offset_ms as int),
        forall|i: int, j: int|
            #![trigger samples.filter(keep)[i], samples.filter(keep)[j]]
            0 <= i < j < samples.filter(keep).len() ==> samples.filter(keep)[i].peer
                != samples.filter(keep)[j].peer,
    decreases samples.len(),
{
    reveal(Seq::filter);
    if samples.len() > 0 {
        let front = samples.drop_last();
        assert forall|i: int, j: int| #![trigger front[i], front[j]]
            0 <= i < j < front.len() implies front[i].peer != front[j].peer by {
            assert(samples[i].peer != samples[j].peer);
        }
        lemma_filter_keeps_valid(front, keep);
        let f = front.filter(keep);
        let g = samples.filter(keep);
        assert forall|i: int| 0 <= i < g.len() implies samples.contains(#[trigger] g[i])
            && is_correction(g[i].offset_ms as int) by {
            if i < f.len() {
                assert(g[i] == f[i]);
                let k = choose|k: int| 0 <= k < front.len() && front[k] == f[i];
                assert(samples[k] == g[i]);
            } else {
                assert(samples[samples.len() - 1] == g[i]);
            }
        }
        assert forall|i: int, j: int| #![trigger g[i], g[j]]
            0 <= i < j < g.len() implies g[i].peer != g[j].peer by {
            if j < f.len() {
                assert(g[i] == f[i] && g[j] == f[j]);
            } else {
                assert(g[i] == f[i]);
                let k = choose|k: int| 0 <= k < front.len() && front[k] == f[i];
                assert(samples[k].peer != samples[samples.len() - 1].peer);
            }
        }
    }
}


impl ClockState {
    /// The reading of the local clock that the state machine works with.
    pub open spec fn plausible(local_ms: i64) -> int {
        bounded(local_ms as int, 0, MAX_PLAUSIBLE_LOCAL_MS as int)
    }

    /// The reading is the first one, or no impossible jump ahead of those before.
    pub open spec fn believes(self, local_ms: i64) -> bool {
        if self.local_high_water_ms == NEVER_MS {
            Self::plausible(local_ms) < MAX_PLAUSIBLE_LOCAL_MS
        } else {
            Self::plausible(local_ms) - self.local_high_water_ms <= MAX_TRUSTED_ADVANCE_MS
        }
    }

    /// The reading moves the high water mark of the local clock.
    pub open spec fn advances(self, local_ms: i64) -> bool {
        Self::plausible(local_ms) > self.local_high_water_ms && self.believes(local_ms)
    }

    /// The local clock counts as set back once it has been read as `local_ms`.
    pub open spec fn rolled_back(self, local_ms: i64) -> bool {
        !self.advances(local_ms) && (self.rollback_detected || Self::plausible(local_ms)
            < sat_i64(self.local_high_water_ms - ROLLBACK_SLACK_MS))
    }

    /// The internal time that belongs to a reading.
    pub open spec fn internal_time(self, local_ms: i64) -> int {
        let sum = Self::plausible(local_ms) + self.offset(Self::plausible(local_ms) as i64);
        if sum < 0 {
            0
        } else {
            sum
        }
    }

    /// A changed offset is taken over with this reading, and the high water mark starts anew.
    pub open spec fn rebases(self, local_ms: i64) -> bool {
        &&& self.offset(Self::plausible(local_ms) as i64) != self.last_offset_ms
        &&& self.believes(local_ms)
        &&& !(self.rolled_back(local_ms) && self.internal_high_water_ms - self.internal_time(local_ms)
            > SIGNIFICANT_DROP_MS)
    }

    /// The clock after the local clock has been read as `local_ms`.
    pub open spec fn after_now(self, local_ms: i64) -> ClockState {
        let offset = self.offset(Self::plausible(local_ms) as i64);
        let internal = self.internal_time(local_ms);
        ClockState {
            local_high_water_ms: if self.advances(local_ms) {
                Self::plausible(local_ms) as i64
            } else {
                self.local_high_water_ms
            },
            rollback_detected: self.rolled_back(local_ms),
            last_offset_ms: if self.rebases(local_ms) {
                offset
            } else {
                self.last_offset_ms
            },
            internal_high_water_ms: if self.rebases(local_ms) || (offset == self.last_offset_ms
                && self.believes(local_ms) && internal > self.internal_high_water_ms) {
                internal
            } else {
                self.internal_high_water_ms
            },
            ..self
        }
    }

    /// The time that the clock tells for a reading.
    pub open spec fn told(self, local_ms: i64) -> int {
        let high = self.after_now(local_ms).internal_high_water_ms;
        let raw = sat_i64(local_ms + self.offset(Self::plausible(local_ms) as i64));
        if self.rolled_back(local_ms) || raw < high {
            high
        } else {
            raw as int
        }
    }

    /// Where the offset in force at `local_ms` comes from.
    pub open spec fn source(self, local_ms: i64) -> Source {
        if self.network_in_force(local_ms) {
            Source::Network
        } else if self.cluster(local_ms) is Some {
            Source::Peers
        } else {
            Source::Unsynced
        }
    }
}

/// Fresh offsets come from samples.
proof fn lemma_fresh_from_samples(samples: Seq<PeerSample>, cut: i64)
    ensures
        fresh_offsets(samples, cut).len() <= samples.len(),
        forall|k: int|
            0 <= k < fresh_offsets(samples, cut).len() ==> exists|i: int|
                0 <= i < samples.len() && #[trigger] samples[i].offset_ms
                    == #[trigger] fresh_offsets(samples, cut)[k] && samples[i].at_local_ms >= cut,
    decreases samples.len(),
{
    if samples.len() > 0 {
        let front = samples.drop_last();
        lemma_fresh_from_samples(front, cut);
        assert forall|k: int| 0 <= k < fresh_offsets(samples, cut).len() implies exists|i: int|
            0 <= i < samples.len() && #[trigger] samples[i].offset_ms
                == #[trigger] fresh_offsets(samples, cut)[k] && samples[i].at_local_ms >= cut by {
            if k < fresh_offsets(front, cut).len() {
                assert(fresh_offsets(front, cut)[k] == fresh_offsets(samples, cut)[k]);
                let i = choose|i: int|
                    0 <= i < front.len() && #[trigger] front[i].offset_ms == fresh_offsets(front, cut)[k]
                        && front[i].at_local_ms >= cut;
                assert(samples[i].offset_ms == fresh_offsets(samples, cut)[k]);
            } else {
                assert(samples[samples.len() - 1].offset_ms == fresh_offsets(samples, cut)[k]);
            }
        }
    }
}

/// Sorting by `at_most` is determined by the entries alone.
proof fn lemma_sorted_is_sort(s: Seq<i64>, t: Seq<i64>)
    requires
        sorted_by(t, at_most()),
        t.to_multiset() == s.to_multiset(),
    ensures
        t == s.sort_by(at_most()),
{
    assert(total_ordering(at_most()));
    s.lemma_sort_by_ensures(at_most());
    lemma_sorted_unique(t, s.sort_by(at_most()), at_most());
}

/// Every entry of a sorted sequence is an entry of the sequence that was sorted.
proof fn lemma_sort_members(s: Seq<i64>, k: int)
    requires
        0 <= k < s.sort_by(at_most()).len(),
    ensures
        s.contains(s.sort_by(at_most())[k]),
        s.sort_by(at_most()).len() == s.len(),
{
    assert(total_ordering(at_most()));
    s.lemma_sort_by_ensures(at_most());
    s.to_multiset_ensures();
    s.sort_by(at_most()).to_multiset_ensures();
    assert(s.sort_by(at_most()).contains(s.sort_by(at_most())[k]));
}

impl InternalClock {
    /// The longest run of recent offsets that is a quorum, in ascending order.
    fn peak_cluster(&self, local_ms: i64) -> (r: Option<Vec<i64>>)
        requires
            self.wf(),
        ensures
            match r {
                Some(v) => self@.cluster(local_ms) == Some(v@) && v@.len() >= PEER_QUORUM,
                None => self@.cluster(local_ms) is None,
            },
    {
        let cut: i64 = saturating_sub(local_ms, SAMPLE_FRESH_MS);
        let mut s: Vec<i64> = Vec::new();
        let mut i: usize = 0;
        assert(fresh_offsets(self.peers@.take(0), cut) =~= s@);
        while i < self.peers.len()
            invariant
                i <= self.peers@.len(),
                sorted_by(s@, at_most()),
                s@.to_multiset() == fresh_offsets(self.peers@.take(i as int), cut).to_multiset(),
            decreases self.peers@.len() - i,
        {
            let sample = self.peers[i];
            proof {
                assert(self.peers@.take(i + 1).drop_last() =~= self.peers@.take(i as int));
                fresh_offsets(self.peers@.take(i as int), cut).to_multiset_ensures();
            }
            if sample.at_local_ms >= cut {
                insert_sorted(&mut s, sample.offset_ms);
            }
            i = i + 1;
        }
        proof {
            assert(self.peers@.take(i as int) =~= self.peers@);
            lemma_sorted_is_sort(fresh_offsets(self.peers@, cut), s@);
            assert forall|k: int| 0 <= k < s@.len() implies is_correction(s@[k] as int) by {
                lemma_sort_members(fresh_offsets(self.peers@, cut), k);
                lemma_fresh_from_samples(self.peers@, cut);
            }
        }
        let n: usize = s.len();
        if n < PEER_QUORUM {
            return None;
        }
        let mut best_start: usize = 0;
        let mut best_len: usize = 0;
        let mut start: usize = 0;
        let mut k: usize = 1;
        while k < n
            invariant
                n == s@.len(),
                1 <= k <= n,
                start < k,
                is_run(s@, start as int, k as int),
                start == 0 || !close_to_previous(s@, start as int),
                forall|j: int| 0 <= j < n ==> is_correction(#[trigger] s@[j] as int),
                best_start + best_len <= start,
                best_len > 0 ==> is_run(s@, best_start as int, best_start + best_len),
                forall|x: int, y: int| #[trigger]
                    is_run(s@, x, y) && y <= start ==> y - x < best_len || (y - x == best_len
                        && best_start <= x),
            decreases n - k,
        {
            assert(is_correction(s@[k as int] as int) && is_correction(s@[k - 1] as int));
            let gap: i64 = s[k] - s[k - 1];
            assert(close_to_previous(s@, k as int) <==> gap <= CLUSTER_TOLERANCE_MS);
            if gap > CLUSTER_TOLERANCE_MS {
                let len: usize = k - start;
                let ghost (old_start, old_best, old_len) = (start, best_start, best_len);
                if len > best_len {
                    best_start = start;
                    best_len = len;
                }
                proof {
                    assert forall|x: int, y: int| #[trigger] is_run(s@, x, y) && y <= k implies y - x
                        < best_len || (y - x == best_len && best_start <= x) by {
                        if y > old_start && x < old_start {
                            assert(close_to_previous(s@, old_start as int));
                        }
                    }
                }
                start = k;
            }
            k = k + 1;
        }
        let len: usize = n - start;
        let ghost (old_best, old_len) = (best_start, best_len);
        if len > best_len {
            best_start = start;
            best_len = len;
        }
        proof {
            assert forall|x: int, y: int| #[trigger] is_run(s@, x, y) implies y - x < best_len || (y - x
                == best_len && best_start <= x) by {
                if y > start && x < start {
                    assert(close_to_previous(s@, start as int));
                }
            }
            assert(is_peak(s@, best_start as int, best_start + best_len));
            lemma_peak_unique(s@, best_start as int, best_start + best_len);
        }
        if best_len < PEER_QUORUM {
            return None;
        }
        let mut best: Vec<i64> = Vec::new();
        let mut j: usize = 0;
        while j < best_len
            invariant
                j <= best_len,
                n == s@.len(),
                best_start + best_len <= n,
                best@ == s@.subrange(best_start as int, best_start + j),
            decreases best_len - j,
        {
            best.push(s[best_start + j]);
            assert(best@ =~= s@.subrange(best_start as int, best_start + j + 1));
            j = j + 1;
        }
        Some(best)
    }

    /// The offset in force at `local_ms`.
    fn effective_offset(&self, local_ms: i64) -> (r: i64)
        requires
            self.wf(),
        ensures
            r == self@.offset(local_ms),
    {
        if let Some(network) = self.network_offset_ms {
            if local_ms <= self.network_fresh_until {
                return network;
            }
        }
        match self.peak_cluster(local_ms) {
            Some(v) => v[v.len() / 2],
            None => 0,
        }
    }

    pub fn source(&self, local_ms: i64) -> (r: Source)
        requires
            self.wf(),
        ensures
            r == self@.source(local_ms),
    {
        if self.network_offset_ms.is_some() && local_ms <= self.network_fresh_until {
            Source::Network
        } else if self.peak_cluster(local_ms).is_some() {
            Source::Peers
        } else {
            Source::Unsynced
        }
    }

    /// A reading of a network time source. Two different sources have to agree before the
    /// offset moves; one source alone never moves it.
    pub fn on_network_sync(&mut self, source_id: u8, local_ms: i64, network_ms: i64)
        requires
            old(self).wf(),
        ensures
            final(self).wf(),
            final(self)@ == old(self)@.after_network_sync(source_id, local_ms, network_ms),
    {
        let raw: i64 = saturating_sub(network_ms, local_ms);
        let clamped: i64 = clamp(raw, -MAX_CORRECTION_MS, MAX_CORRECTION_MS);
        let waiting: Option<(u8, i64, i64)> = match self.pending_network {
            Some(p) => if saturating_sub(local_ms, p.2) <= NETWORK_PENDING_TIMEOUT_MS {
                Some(p)
            } else {
                None
            },
            None => None,
        };
        if let Some(p) = waiting {
            if p.0 != source_id {
                let gap: i64 = p.1 - clamped;
                let agrees: bool = -CROSS_CHECK_TOLERANCE_MS <= gap && gap <= CROSS_CHECK_TOLERANCE_MS;
                let adopted: i64 = halve(p.1 + clamped);
                let delta: i64 = adopted - self.last_offset_ms;
                let small: bool = -NETWORK_ADOPTION_CAP_MS <= delta && delta
                    <= NETWORK_ADOPTION_CAP_MS;
                let cooled: bool = saturating_sub(local_ms, self.last_network_adopted_at)
                    >= NETWORK_ADOPTION_COOLDOWN_MS;
                self.pending_network = None;
                if agrees && small && cooled {
                    self.network_offset_ms = Some(adopted);
                    self.network_fresh_until = saturating_add(local_ms, NETWORK_FRESH_MS);
                    self.last_network_adopted_at = local_ms;
                } else {
                    self.network_offset_ms = None;
                    self.network_fresh_until = NEVER_MS;
                }
                return ;
            }
        }
        self.pending_network = Some((source_id, clamped, local_ms));
    }

    /// An exchange of four time stamps with a contact: `t1` sent here, `t2` received there,
    /// `t3` answered there, `t4` received here.
    pub fn on_peer_exchange(&mut self, peer: [u8; 32], t1: i64, t2: i64, t3: i64, t4: i64) -> (r:
        Result<i64, ClockError>)
        requires
            old(self).wf(),
        ensures
            final(self).wf(),
            r == (if !old(self)@.trusted.contains(peer) {
                Err::<i64, ClockError>(ClockError::UntrustedPeer)
            } else if t2 > t3 || !(0 <= round_trip(t1, t2, t3, t4) <= MAX_RTT_MS) {
                Err(ClockError::RttTooLarge)
            } else {
                Ok(exchange_correction(t1, t2, t3, t4) as i64)
            }),
            r is Ok <==> old(self)@.trusted.contains(peer) && t2 <= t3 && 0 <= round_trip(t1, t2, t3, t4)
                <= 5_000,
            final(self)@ == (match r {
                Ok(offset) => ClockState {
                    samples: with_sample(
                        old(self)@.samples,
                        PeerSample { peer, offset_ms: offset, at_local_ms: t4 },
                    ),
                    ..old(self)@
                },
                Err(_) => old(self)@,
            }),
    {
        if !self.is_trusted(&peer) {
            return Err(ClockError::UntrustedPeer);
        }
        let rtt: i64 = saturating_sub(saturating_sub(t4, t1), saturating_sub(t3, t2));
        if t2 > t3 {
            return Err(ClockError::RttTooLarge);
        }
        if rtt < 0 || rtt > MAX_RTT_MS {
            return Err(ClockError::RttTooLarge);
        }
        let sum: i64 = saturating_add(saturating_sub(t2, t1), saturating_sub(t3, t4));
        let clamped: i64 = clamp(halve(sum), -MAX_CORRECTION_MS, MAX_CORRECTION_MS);
        let sample = PeerSample { peer, offset_ms: clamped, at_local_ms: t4 };
        let mut i: usize = 0;
        while i < self.peers.len()
            invariant
                i <= self.peers@.len(),
                self@ == old(self)@,
                self.wf(),
                sample == (PeerSample { peer, offset_ms: clamped, at_local_ms: t4 }),
                is_correction(clamped as int),
                old(self)@.trusted.contains(peer),
                t2 <= t3 && 0 <= round_trip(t1, t2, t3, t4) <= MAX_RTT_MS,
                clamped == exchange_correction(t1, t2, t3, t4),
                forall|k: int| 0 <= k < i ==> (#[trigger] self.peers@[k]).peer != peer,
            decreases self.peers@.len() - i,
        {
            if same_bytes(&self.peers[i].peer, &peer) {
                proof {
                    let c = choose|c: int|
                        0 <= c < self.peers@.len() && (#[trigger] self.peers@[c]).peer == sample.peer;
                    assert(self.peers@[i as int].peer == sample.peer);
                    assert(c == i);
                }
                self.peers.set(i, sample);
                return Ok(clamped);
            }
            i = i + 1;
        }
        self.peers.push(sample);
        Ok(clamped)
    }

    /// The time to judge by when the local clock reads `local_ms`. It never lies below the
    /// high water mark, and while the local clock is set back it stays on that mark.
    pub fn now(&mut self, local_ms: i64) -> (r: i64)
        requires
            old(self).wf(),
        ensures
            final(self).wf(),
            final(self)@ == old(self)@.after_now(local_ms),
            r == old(self)@.told(local_ms),
    {
        proof {
            lemma_offset_bounded(self@, ClockState::plausible(local_ms) as i64);
        }
        let plausible: i64 = clamp(local_ms, 0, MAX_PLAUSIBLE_LOCAL_MS);
        let offset: i64 = self.effective_offset(plausible);
        if plausible < saturating_sub(self.local_high_water_ms, ROLLBACK_SLACK_MS) {
            self.rollback_detected = true;
        }
        let first: bool = self.local_high_water_ms == NEVER_MS;
        let jump: i64 = saturating_sub(plausible, self.local_high_water_ms);
        let trusted: bool = (first && plausible < MAX_PLAUSIBLE_LOCAL_MS) || (!first && jump
            <= MAX_TRUSTED_ADVANCE_MS);
        if plausible > self.local_high_water_ms && trusted {
            self.local_high_water_ms = plausible;
            self.rollback_detected = false;
        }
        let sum: i64 = plausible + offset;
        let internal: i64 = if sum < 0 {
            0
        } else {
            sum
        };
        let high: i64 = self.internal_high_water_ms as i64;
        if offset != self.last_offset_ms {
            let drop: bool = high - internal > SIGNIFICANT_DROP_MS;
            if trusted && !(self.rollback_detected && drop) {
                self.last_offset_ms = offset;
                self.internal_high_water_ms = internal as u64;
            }
        } else if trusted && internal > high {
            self.internal_high_water_ms = internal as u64;
        }
        let mark: i64 = self.internal_high_water_ms as i64;
        if self.rollback_detected {
            return mark;
        }
        let raw: i64 = saturating_add(local_ms, offset);
        if raw < mark {
            mark
        } else {
            raw
        }
    }
}

/// The offset in force is never further from zero than a correction may be.
pub proof fn lemma_offset_bounded(state: ClockState, local_ms: i64)
    requires
        state.valid(),
    ensures
        is_correction(state.offset(local_ms) as int),
{
    if !state.network_in_force(local_ms) {
        let cut = sat_i64(local_ms - SAMPLE_FRESH_MS);
        let fresh = fresh_offsets(state.samples, cut);
        let s = state.recent_offsets(local_ms);
        if has_quorum(s) {
            let (x, y) = choose|x: int, y: int| #[trigger]
                is_run(s, x, y) && y - x >= PEER_QUORUM;
            lemma_peak_exists(s, x, y);
            let p = peak(s);
            let k = p.0 + (p.1 - p.0) / 2;
            lemma_sort_members(fresh, k);
            lemma_fresh_from_samples(state.samples, cut);
        }
    }
}


/// The time told is never negative and never lies below the high water mark it leaves behind.
pub proof fn law_told_at_least_high_water(state: ClockState, local_ms: i64)
    requires
        state.valid(),
    ensures
        state.told(local_ms) >= state.after_now(local_ms).internal_high_water_ms,
        state.after_now(local_ms).internal_high_water_ms >= 0,
{
    lemma_offset_bounded(state, ClockState::plausible(local_ms) as i64);
}

/// The high water mark falls only when a changed offset is taken over, and while the local
/// clock is set back it then falls by an hour at most.
pub proof fn law_high_water_falls_only_with_the_offset(state: ClockState, local_ms: i64)
    requires
        state.valid(),
        state.after_now(local_ms).internal_high_water_ms < state.internal_high_water_ms,
    ensures
        state.after_now(local_ms).last_offset_ms != state.last_offset_ms,
        state.rolled_back(local_ms) ==> state.internal_high_water_ms - state.after_now(
            local_ms,
        ).internal_high_water_ms <= SIGNIFICANT_DROP_MS,
{
}

/// A reading that jumps impossibly far ahead leaves both marks and the offset as they were.
pub proof fn law_unbelievable_reading_moves_no_mark(state: ClockState, local_ms: i64)
    requires
        state.valid(),
        !state.believes(local_ms),
    ensures
        state.after_now(local_ms).internal_high_water_ms == state.internal_high_water_ms,
        state.after_now(local_ms).local_high_water_ms == state.local_high_water_ms,
        state.after_now(local_ms).last_offset_ms == state.last_offset_ms,
{
}

/// As long as the offset stays, two readings in a row never tell a falling time: whatever the
/// second one is, once the first was believable and plausible.
pub proof fn law_clock_never_runs_back(state: ClockState, first_ms: i64, second_ms: i64)
    requires
        state.valid(),
        0 <= first_ms <= MAX_PLAUSIBLE_LOCAL_MS,
        state.believes(first_ms),
        state.offset(first_ms) == state.last_offset_ms,
        state.after_now(first_ms).offset(ClockState::plausible(second_ms) as i64)
            == state.last_offset_ms,
    ensures
        state.told(first_ms) <= state.after_now(first_ms).told(second_ms),
{
    lemma_offset_bounded(state, first_ms);
}

/// The clock after readings of one network source, each a pair of local and network time.
pub open spec fn after_readings(state: ClockState, source_id: u8, readings: Seq<(i64, i64)>) -> ClockState
    decreases readings.len(),
{
    if readings.len() == 0 {
        state
    } else {
        after_readings(state, source_id, readings.drop_last()).after_network_sync(
            source_id,
            readings.last().0,
            readings.last().1,
        )
    }
}

/// However often one source alone is read, it moves no offset.
pub proof fn law_one_source_never_calibrates(
    state: ClockState,
    source_id: u8,
    readings: Seq<(i64, i64)>,
)
    requires
        state.pending_network matches Some(p) ==> p.0 == source_id,
    ensures
        after_readings(state, source_id, readings).network_offset_ms == state.network_offset_ms,
        after_readings(state, source_id, readings).network_fresh_until == state.network_fresh_until,
        after_readings(state, source_id, readings).pending_network matches Some(p) ==> p.0 == source_id,
    decreases readings.len(),
{
    if readings.len() > 0 {
        law_one_source_never_calibrates(state, source_id, readings.drop_last());
    }
}

/// A network calibration changes the offset in force by two minutes at most, and comes ten
/// minutes after the one before at the earliest.
pub proof fn law_network_calibration_is_limited(
    state: ClockState,
    source_id: u8,
    local_ms: i64,
    network_ms: i64,
)
    requires
        state.valid(),
        state.after_network_sync(source_id, local_ms, network_ms).network_offset_ms is Some,
        state.pairs(source_id, local_ms),
    ensures
        distance(
            state.after_network_sync(source_id, local_ms, network_ms).network_offset_ms->0
                - state.last_offset_ms,
        ) <= NETWORK_ADOPTION_CAP_MS,
        local_ms - state.last_network_adopted_at >= NETWORK_ADOPTION_COOLDOWN_MS,
        is_correction(
            state.after_network_sync(source_id, local_ms, network_ms).network_offset_ms->0 as int,
        ),
{
}

/// Two sources that disagree are both dropped.
pub proof fn law_disagreeing_sources_are_dropped(
    state: ClockState,
    source_id: u8,
    local_ms: i64,
    network_ms: i64,
)
    requires
        state.pairs(source_id, local_ms),
        distance((state.waiting(local_ms)->0).1 - network_correction(local_ms, network_ms))
            > CROSS_CHECK_TOLERANCE_MS,
    ensures
        state.after_network_sync(source_id, local_ms, network_ms).network_offset_ms is None,
        state.after_network_sync(source_id, local_ms, network_ms).pending_network is None,
{
}

/// What the contacts agree on rests on three recent samples or more, and the offset taken from
/// it is one that a recent sample reported.
pub proof fn law_quorum_needed(state: ClockState, local_ms: i64)
    requires
        state.valid(),
    ensures
        state.cluster(local_ms) matches Some(c) ==> {
            &&& c.len() >= PEER_QUORUM
            &&& fresh_offsets(state.samples, sat_i64(local_ms - SAMPLE_FRESH_MS)).len() >= PEER_QUORUM
            &&& exists|i: int|
                0 <= i < state.samples.len() && #[trigger] state.samples[i].offset_ms
                    == c[c.len() as int / 2] && state.samples[i].at_local_ms >= sat_i64(
                    local_ms - SAMPLE_FRESH_MS,
                )
        },
        state.samples.len() < PEER_QUORUM ==> state.cluster(local_ms) is None,
{
    let cut = sat_i64(local_ms - SAMPLE_FRESH_MS);
    let fresh = fresh_offsets(state.samples, cut);
    let s = state.recent_offsets(local_ms);
    lemma_fresh_from_samples(state.samples, cut);
    if has_quorum(s) {
        let (x, y) = choose|x: int, y: int| #[trigger] is_run(s, x, y) && y - x >= PEER_QUORUM;
        lemma_peak_exists(s, x, y);
        let p = peak(s);
        lemma_sort_members(fresh, p.0 + (p.1 - p.0) / 2);
    }
}

/// A contact that lost its trust has no sample left, and the others keep theirs.
pub proof fn law_distrusted_peer_is_forgotten(samples: Seq<PeerSample>, peer: [u8; 32])
    ensures
        forall|i: int| 0 <= i < without(samples, peer).len() ==> (#[trigger] without(samples, peer)[i]).peer
            != peer,
        forall|i: int|
            0 <= i < samples.len() && samples[i].peer != peer ==> without(samples, peer).contains(
                #[trigger] samples[i],
            ),
{
    broadcast use vstd::seq_lib::group_filter_ensures;

}

impl Default for InternalClock {
    fn default() -> (r: InternalClock)
        ensures
            r.wf(),
            r@ == ClockState::initial(),
    {
        InternalClock::new()
    }
}

impl InternalClock {
    /// Whether the local clock was found to have been set back.
    pub fn rollback_detected(&self) -> (r: bool)
        ensures
            r == self@.rollback_detected,
    {
        self.rollback_detected
    }
}

/// No more members pass a filter than stand where it lets any pass.
proof fn lemma_filter_len_split(s: Seq<i64>, keep: spec_fn(i64) -> bool, m: int)
    requires
        0 <= m <= s.len(),
    ensures
        (forall|i: int| m <= i < s.len() ==> !keep(#[trigger] s[i])) ==> s.filter(keep).len() <= m,
        (forall|i: int| 0 <= i < m ==> !keep(#[trigger] s[i])) ==> s.filter(keep).len() <= s.len() - m,
{
    let (a, b) = (s.take(m), s.skip(m));
    assert(a + b =~= s);
    Seq::filter_distributes_over_add(a, b, keep);
    a.lemma_filter_len(keep);
    b.lemma_filter_len(keep);
    if forall|i: int| m <= i < s.len() ==> !keep(#[trigger] s[i]) {
        assert forall|i: int| 0 <= i < b.len() implies !keep(#[trigger] b[i]) by {
            assert(b[i] == s[m + i]);
        }
        lemma_filter_none(b, keep);
    }
    if forall|i: int| 0 <= i < m ==> !keep(#[trigger] s[i]) {
        assert forall|i: int| 0 <= i < a.len() implies !keep(#[trigger] a[i]) by {
            assert(a[i] == s[i]);
        }
        lemma_filter_none(a, keep);
    }
}

/// A filter that no member passes leaves nothing.
proof fn lemma_filter_none(s: Seq<i64>, keep: spec_fn(i64) -> bool)
    requires
        forall|i: int| 0 <= i < s.len() ==> !keep(#[trigger] s[i]),
    ensures
        s.filter(keep).len() == 0,
    decreases s.len(),
{
    reveal(Seq::filter);
    if s.len() > 0 {
        let front = s.drop_last();
        assert forall|i: int| 0 <= i < front.len() implies !keep(#[trigger] front[i]) by {
            assert(front[i] == s[i]);
        }
        lemma_filter_none(front, keep);
        assert(!keep(s[s.len() - 1]));
    }
}

/// The recent offsets are in ascending order.
proof fn lemma_recent_sorted(state: ClockState, local_ms: i64)
    ensures
        forall|i: int, j: int|
            #![trigger state.recent_offsets(local_ms)[i], state.recent_offsets(local_ms)[j]]
            0 <= i <= j < state.recent_offsets(local_ms).len() ==> state.recent_offsets(local_ms)[i]
                <= state.recent_offsets(local_ms)[j],
{
    let fresh = fresh_offsets(state.samples, sat_i64(local_ms - SAMPLE_FRESH_MS));
    fresh.lemma_sort_by_ensures(at_most());
    let s = state.recent_offsets(local_ms);
    assert forall|i: int, j: int| #![trigger s[i], s[j]] 0 <= i <= j < s.len() implies s[i] <= s[j] by {
        if i < j {
            assert(at_most()(s[i], s[j]));
        }
    }
}

/// Without a network calibration the offset in force is the median of what the contacts agree on: it is
/// one of theirs, at most half of them lie below it, and fewer than half of them above it.
pub proof fn law_contacts_offset_is_the_median(state: ClockState, local_ms: i64, c: Seq<i64>)
    requires
        state.valid(),
        state.network_offset_ms is None || local_ms > state.network_fresh_until,
        state.cluster(local_ms) == Some(c),
    ensures
        c.contains(state.offset(local_ms)),
        c.filter(|x: i64| x < state.offset(local_ms)).len() <= c.len() / 2,
        c.filter(|x: i64| x > state.offset(local_ms)).len() < (c.len() + 1) / 2,
{
    let o = state.offset(local_ms);
    let s = state.recent_offsets(local_ms);
    law_quorum_needed(state, local_ms);
    let (x, y) = choose|x: int, y: int| #[trigger] is_run(s, x, y) && y - x >= PEER_QUORUM;
    lemma_peak_exists(s, x, y);
    lemma_recent_sorted(state, local_ms);
    let m = c.len() as int / 2;
    assert(c[m] == o);
    assert forall|i: int| m <= i < c.len() implies !(#[trigger] c[i] < o) by {
        assert(s[peak(s).0 + m] <= s[peak(s).0 + i]);
    }
    assert forall|i: int| 0 <= i < m + 1 implies !(#[trigger] c[i] > o) by {
        assert(s[peak(s).0 + i] <= s[peak(s).0 + m]);
    }
    lemma_filter_len_split(c, |x: i64| x < o, m);
    lemma_filter_len_split(c, |x: i64| x > o, m + 1);
}

/// What the contacts agree on are the offsets of a stretch of those they reported, in ascending order,
/// that follow each other within a minute each. No such stretch is longer; there is an agreement if and
/// only if some stretch has three members.
pub proof fn law_agreement_is_the_longest_stretch(state: ClockState, local_ms: i64, a: int, b: int)
    requires
        state.valid(),
        0 <= a < b <= state.recent_offsets(local_ms).len(),
        forall|k: int|
            a < k < b ==> #[trigger] state.recent_offsets(local_ms)[k] - state.recent_offsets(local_ms)[k
                - 1] <= 60_000,
    ensures
        b - a >= 3 ==> state.cluster(local_ms) is Some,
        state.cluster(local_ms) matches Some(c) ==> {
            &&& b - a <= c.len()
            &&& c.len() >= 3
            &&& exists|x: int|
                0 <= x <= state.recent_offsets(local_ms).len() - c.len() && c
                    == #[trigger] state.recent_offsets(local_ms).subrange(x, x + c.len())
            &&& forall|k: int| 0 < k < c.len() ==> 0 <= #[trigger] c[k] - c[k - 1] <= 60_000
        },
{
    let s = state.recent_offsets(local_ms);
    assert forall|k: int| a < k < b implies #[trigger] close_to_previous(s, k) by {
        assert(s[k] - s[k - 1] <= 60_000);
    }
    assert(is_run(s, a, b));
    lemma_recent_sorted(state, local_ms);
    if has_quorum(s) {
        let (x, y) = choose|x: int, y: int| #[trigger] is_run(s, x, y) && y - x >= PEER_QUORUM;
        lemma_peak_exists(s, x, y);
        lemma_peak_exists(s, a, b);
        let p = peak(s);
        let c = s.subrange(p.0, p.1);
        assert(c == s.subrange(p.0, p.0 + c.len()));
        assert forall|k: int| 0 < k < c.len() implies 0 <= #[trigger] c[k] - c[k - 1] <= 60_000 by {
            assert(close_to_previous(s, p.0 + k));
            assert(s[p.0 + k - 1] <= s[p.0 + k]);
        }
    }
}

/// The offsets that count are those of all samples of the last half hour, each once, in ascending order.
pub proof fn law_every_recent_sample_counts(state: ClockState, local_ms: i64)
    requires
        local_ms - 1_800_000 >= i64::MIN,
    ensures
        state.recent_offsets(local_ms).to_multiset() == state.samples.filter(
            |p: PeerSample| p.at_local_ms >= local_ms - 1_800_000,
        ).map_values(|p: PeerSample| p.offset_ms).to_multiset(),
        forall|i: int, j: int|
            #![trigger state.recent_offsets(local_ms)[i], state.recent_offsets(local_ms)[j]]
            0 <= i <= j < state.recent_offsets(local_ms).len() ==> state.recent_offsets(local_ms)[i]
                <= state.recent_offsets(local_ms)[j],
{
    let cut = sat_i64(local_ms - SAMPLE_FRESH_MS);
    let keep = |p: PeerSample| p.at_local_ms >= local_ms - 1_800_000;
    lemma_fresh_is_a_filter(state.samples, cut);
    assert(keep =~= (|p: PeerSample| p.at_local_ms >= cut));
    fresh_offsets(state.samples, cut).lemma_sort_by_ensures(at_most());
    lemma_recent_sorted(state, local_ms);
}

/// The fresh offsets are what is left of the samples when the old ones are gone.
proof fn lemma_fresh_is_a_filter(samples: Seq<PeerSample>, cut: i64)
    ensures
        fresh_offsets(samples, cut) == samples.filter(
            |p: PeerSample| p.at_local_ms >= cut,
        ).map_values(|p: PeerSample| p.offset_ms),
    decreases samples.len(),
{
    reveal(Seq::filter);
    if samples.len() > 0 {
        let front = samples.drop_last();
        lemma_fresh_is_a_filter(front, cut);
        let keep = |p: PeerSample| p.at_local_ms >= cut;
        let of = |p: PeerSample| p.offset_ms;
        let (f, g) = (front.filter(keep), samples.filter(keep));
        if keep(samples.last()) {
            assert(g == f.push(samples.last()));
            assert(g.map_values(of) =~= f.map_values(of).push(samples.last().offset_ms));
        }
    } else {
        assert(fresh_offsets(samples, cut) =~= samples.filter(
            |p: PeerSample| p.at_local_ms >= cut,
        ).map_values(|p: PeerSample| p.offset_ms));
    }
}

/// A network calibration goes before what the contacts say, as long as it is fresh; without either the
/// local clock is taken as it is.
pub proof fn law_network_goes_before_contacts(state: ClockState, local_ms: i64)
    ensures
        state.network_offset_ms is Some && local_ms <= state.network_fresh_until ==> state.offset(local_ms)
            == state.network_offset_ms->0 && state.source(local_ms) == Source::Network,
        !(state.network_offset_ms is Some && local_ms <= state.network_fresh_until) ==> (state.source(
            local_ms,
        ) == Source::Peers <==> state.cluster(local_ms) is Some),
        !(state.network_offset_ms is Some && local_ms <= state.network_fresh_until) && state.cluster(
            local_ms,
        ) is None ==> state.offset(local_ms) == 0 && state.source(local_ms) == Source::Unsynced,
{
}

/// Two sources that agree calibrate the clock: where a second source reads, within five minutes of the
/// first, within five seconds of what the first asked for, and the mean lies within two minutes of the
/// offset in use, ten minutes after the last calibration or later, the mean is in force for six hours. In
/// all other cases a pair of readings ends with no calibration in force.
#[verifier::rlimit(40)]
pub proof fn law_two_sources_calibrate(
    state: ClockState,
    source_id: u8,
    local_ms: i64,
    network_ms: i64,
    first: (u8, i64, i64),
)
    requires
        state.valid(),
        state.pending_network == Some(first),
        first.0 != source_id,
        0 <= local_ms <= 4_102_444_800_000,
        0 <= first.2 <= local_ms,
        local_ms - first.2 <= 300_000,
        -86_400_000 <= network_ms - local_ms <= 86_400_000,
        state.last_network_adopted_at == NEVER_MS || 0 <= state.last_network_adopted_at
            <= 4_102_444_800_000,
    ensures
        ({
            let now = state.after_network_sync(source_id, local_ms, network_ms);
            let asked = network_ms - local_ms;
            &&& now.pending_network is None
            &&& now.network_offset_ms matches Some(o) ==> {
                &&& -1 <= 2 * o - (first.1 + asked) <= 1
                &&& -5_000 <= first.1 - asked <= 5_000
                &&& -120_000 <= o - state.last_offset_ms <= 120_000
                &&& state.last_network_adopted_at == NEVER_MS || local_ms - state.last_network_adopted_at
                    >= 600_000
                &&& now.network_fresh_until == local_ms + 21_600_000
                &&& now.last_network_adopted_at == local_ms
            }
            &&& -5_000 <= first.1 - asked <= 5_000 && -240_000 <= first.1 + asked - 2
                * state.last_offset_ms <= 240_000 && (state.last_network_adopted_at == NEVER_MS || local_ms
                - state.last_network_adopted_at >= 600_000) ==> now.network_offset_ms is Some
            &&& now.network_offset_ms is None ==> !now.network_in_force(local_ms)
            &&& now.samples == state.samples && now.trusted == state.trusted
                && now.internal_high_water_ms == state.internal_high_water_ms
        }),
{
}

/// A reading without a partner waits, and changes nothing else: there is none, the one before came from
/// the same source, or it waited for more than five minutes.
pub proof fn law_single_reading_waits(
    state: ClockState,
    source_id: u8,
    local_ms: i64,
    network_ms: i64,
)
    requires
        0 <= local_ms <= 4_102_444_800_000,
        -86_400_000 <= network_ms - local_ms <= 86_400_000,
        state.pending_network matches Some(p) ==> p.0 == source_id || (0 <= p.2 && local_ms - p.2
            > 300_000),
    ensures
        state.after_network_sync(source_id, local_ms, network_ms) == (ClockState {
            pending_network: Some((source_id, (network_ms - local_ms) as i64, local_ms)),
            ..state
        }),
{
}

/// What the clock tells: the local time and the offset in force, but never less than the high water mark,
/// and exactly that mark while the local clock counts as set back.
pub proof fn law_time_that_is_told(state: ClockState, local_ms: i64)
    requires
        state.valid(),
        0 <= local_ms <= 4_102_444_800_000,
    ensures
        ({
            let (now, o) = (state.after_now(local_ms), state.offset(local_ms));
            &&& !now.rollback_detected && local_ms + o >= now.internal_high_water_ms ==> state.told(local_ms)
                == local_ms + o
            &&& now.rollback_detected || local_ms + o < now.internal_high_water_ms ==> state.told(local_ms)
                == now.internal_high_water_ms
        }),
{
    lemma_offset_bounded(state, local_ms);
}

/// How the marks move with a reading that is no impossible jump ahead, as long as the offset is the one in
/// use: the mark of the local clock and that of the internal clock rise to what was read, and never fall.
/// The local clock counts as set back when it lies more than a minute below its mark, until it passes it.
pub proof fn law_marks_rise_with_the_clock(state: ClockState, local_ms: i64)
    requires
        state.valid(),
        0 <= local_ms < 4_102_444_800_000,
        state.local_high_water_ms == NEVER_MS || local_ms - state.local_high_water_ms <= 604_800_000,
        state.offset(local_ms) == state.last_offset_ms,
    ensures
        ({
            let (now, t) = (state.after_now(local_ms), local_ms + state.offset(local_ms));
            &&& now.local_high_water_ms == if local_ms > state.local_high_water_ms {
                local_ms
            } else {
                state.local_high_water_ms
            }
            &&& now.internal_high_water_ms == if t > state.internal_high_water_ms {
                t
            } else {
                state.internal_high_water_ms
            }
            &&& now.last_offset_ms == state.last_offset_ms
            &&& local_ms > state.local_high_water_ms ==> !now.rollback_detected
            &&& local_ms <= state.local_high_water_ms ==> now.rollback_detected == (state.rollback_detected
                || local_ms < state.local_high_water_ms - 60_000)
        }),
{
    lemma_offset_bounded(state, local_ms);
}

/// A changed offset moves the internal clock at once, unless the local clock counts as set back and the
/// internal clock would fall by more than an hour; then nothing of it is taken over.
#[verifier::rlimit(40)]
pub proof fn law_changed_offset_moves_the_clock(state: ClockState, local_ms: i64)
    requires
        state.valid(),
        0 <= local_ms < 4_102_444_800_000,
        state.local_high_water_ms == NEVER_MS || local_ms - state.local_high_water_ms <= 604_800_000,
        state.offset(local_ms) != state.last_offset_ms,
        local_ms + state.offset(local_ms) >= 0,
    ensures
        ({
            let (now, t) = (state.after_now(local_ms), local_ms + state.offset(local_ms));
            if now.rollback_detected && state.internal_high_water_ms - t > 3_600_000 {
                now.internal_high_water_ms == state.internal_high_water_ms && now.last_offset_ms
                    == state.last_offset_ms
            } else {
                now.internal_high_water_ms == t && now.last_offset_ms == state.offset(local_ms)
            }
        }),
{
    lemma_offset_bounded(state, local_ms);
}

/// What an exchange measures: a message that took `there`, an answer that took `back`, and a contact whose
/// clock is `ahead` of ours. The round trip is what the two took together, and the correction is off by half
/// of their difference at most.
#[verifier::rlimit(40)]
pub proof fn law_exchange_measures_the_difference(
    t1: i64,
    ahead: int,
    there: int,
    work: int,
    back: int,
)
    requires
        0 <= t1 <= 4_102_444_800_000,
        0 <= there <= 5_000,
        0 <= back <= 5_000,
        0 <= work <= 86_400_000,
        -86_390_000 <= ahead <= 86_390_000,
    ensures
        ({
            let t2 = (t1 + there + ahead) as i64;
            let t3 = (t2 + work) as i64;
            let t4 = (t3 + back - ahead) as i64;
            let o = exchange_correction(t1, t2, t3, t4);
            &&& round_trip(t1, t2, t3, t4) == there + back
            &&& -1 <= 2 * (o - ahead) - (there - back) <= 1
        }),
{
}

/// Of each contact the last sample counts, and those of the others stay as they are.
pub proof fn law_last_sample_counts(samples: Seq<PeerSample>, s: PeerSample, other: PeerSample)
    requires
        forall|i: int, j: int|
            #![trigger samples[i], samples[j]]
            0 <= i < j < samples.len() ==> samples[i].peer != samples[j].peer,
    ensures
        with_sample(samples, s).contains(s),
        other.peer == s.peer && with_sample(samples, s).contains(other) ==> other == s,
        other.peer != s.peer ==> (with_sample(samples, s).contains(other) <==> samples.contains(other)),
{
    let after = with_sample(samples, s);
    if exists|i: int| 0 <= i < samples.len() && (#[trigger] samples[i]).peer == s.peer {
        let k = choose|i: int| 0 <= i < samples.len() && (#[trigger] samples[i]).peer == s.peer;
        assert(after[k] == s);
        if after.contains(other) {
            let i = choose|i: int| 0 <= i < after.len() && after[i] == other;
            if i != k {
                assert(samples[i] == other);
                if i < k {
                    assert(samples[i].peer != samples[k].peer);
                } else {
                    assert(samples[k].peer != samples[i].peer);
                }
            }
        }
        if samples.contains(other) && other.peer != s.peer {
            let i = choose|i: int| 0 <= i < samples.len() && samples[i] == other;
            assert(after[i] == other);
        }
    } else {
        lemma_push_contains(samples, s, other);
        lemma_push_contains(samples, s, s);
        if samples.contains(other) && other.peer == s.peer {
            let i = choose|i: int| 0 <= i < samples.len() && samples[i] == other;
            assert(samples[i].peer == s.peer);
        }
    }
}

/// Of two agreements of the same length the one with the lower offsets counts.
pub proof fn law_equal_agreements_take_the_lower(state: ClockState, local_ms: i64, a: int, b: int)
    requires
        state.valid(),
        0 <= a < b <= state.recent_offsets(local_ms).len(),
        forall|k: int|
            a < k < b ==> #[trigger] state.recent_offsets(local_ms)[k] - state.recent_offsets(local_ms)[k
                - 1] <= 60_000,
        b - a >= 3,
    ensures
        state.cluster(local_ms) matches Some(c) ==> (b - a == c.len() ==> c[0] <= state.recent_offsets(
            local_ms,
        )[a]),
{
    let s = state.recent_offsets(local_ms);
    assert forall|k: int| a < k < b implies #[trigger] close_to_previous(s, k) by {
        assert(s[k] - s[k - 1] <= 60_000);
    }
    assert(is_run(s, a, b));
    lemma_recent_sorted(state, local_ms);
    lemma_peak_exists(s, a, b);
    let p = peak(s);
    assert(is_peak(s, p.0, p.1));
    assert(s.subrange(p.0, p.1)[0] == s[p.0]);
}

/// No calibration asks for more than a day, and within a day it asks for what it measured.
pub proof fn law_corrections_are_limited(local_ms: i64, network_ms: i64, t1: i64, t2: i64, t3: i64, t4: i64)
    ensures
        -86_400_000 <= network_correction(local_ms, network_ms) <= 86_400_000,
        -86_400_000 <= exchange_correction(t1, t2, t3, t4) <= 86_400_000,
        -86_400_000 <= network_ms - local_ms <= 86_400_000 ==> network_correction(local_ms, network_ms)
            == network_ms - local_ms,
        network_ms - local_ms > 86_400_000 ==> network_correction(local_ms, network_ms) == 86_400_000,
        network_ms - local_ms < -86_400_000 ==> network_correction(local_ms, network_ms) == -86_400_000,
{
}

/// Which readings are believed: a first one before the year 2100, and after that none that lies more than a
/// week ahead of the highest so far. What lies outside the plausible range counts as its end.
pub proof fn law_impossible_jump_is_not_believed(state: ClockState, local_ms: i64)
    requires
        state.valid(),
    ensures
        state.local_high_water_ms == NEVER_MS ==> (state.believes(local_ms) <==> local_ms < 4_102_444_800_000),
        state.local_high_water_ms != NEVER_MS && 0 <= local_ms <= 4_102_444_800_000 ==> (state.believes(
            local_ms,
        ) <==> local_ms <= state.local_high_water_ms + 604_800_000),
        local_ms < 0 ==> ClockState::plausible(local_ms) == 0,
        0 <= local_ms <= 4_102_444_800_000 ==> ClockState::plausible(local_ms) == local_ms,
        local_ms > 4_102_444_800_000 ==> ClockState::plausible(local_ms) == 4_102_444_800_000,
{
}

/// A new clock tells the local time as it is.
pub proof fn law_new_clock_tells_local_time(local_ms: i64)
    requires
        0 <= local_ms < 4_102_444_800_000,
    ensures
        ClockState::initial().valid(),
        ClockState::initial().told(local_ms) == local_ms,
        ClockState::initial().offset(local_ms) == 0,
        ClockState::initial().source(local_ms) == Source::Unsynced,
        ClockState::initial().after_now(local_ms).internal_high_water_ms == local_ms,
        !ClockState::initial().after_now(local_ms).rollback_detected,
        forall|peer: [u8; 32]| !#[trigger] ClockState::initial().trusted.contains(peer),
{
    let state = ClockState::initial();
    let s = state.recent_offsets(local_ms);
    state.samples.lemma_filter_len(|p: PeerSample| true);
    assert(fresh_offsets(state.samples, sat_i64(local_ms - SAMPLE_FRESH_MS)).len() == 0);
    if state.cluster(local_ms) is Some {
        law_quorum_needed(state, local_ms);
        let (x, y) = choose|x: int, y: int| #[trigger] is_run(s, x, y) && y - x >= PEER_QUORUM;
        assert(is_run(s, x, y));
        lemma_sort_members(fresh_offsets(state.samples, sat_i64(local_ms - SAMPLE_FRESH_MS)), 0);
    }
}

/// What a contact said is gone with the trust in them, and what others said stays.
pub proof fn law_distrust_drops_one_contact(samples: Seq<PeerSample>, peer: [u8; 32], s: PeerSample)
    ensures
        without(samples, peer).contains(s) <==> samples.contains(s) && s.peer != peer,
{
    lemma_filter_keeps(samples, |x: PeerSample| x.peer != peer, s);
}

} // verus!
