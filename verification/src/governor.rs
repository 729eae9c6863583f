//! The budget for strangers: how much of a node's capacity goes to relaying for people it does
//! not know, and how that is shared out.
//!
//! Shares are counted in billionths, loads in millionths, tokens in parts of which sixty
//! thousand make one message.
use vstd::prelude::*;
use crate::arith::{bounded, same_bytes, saturating_sub};
use crate::identity::NodeId;

verus! {

/// The whole capacity.
pub const WHOLE: u64 = 1_000_000_000;

/// The share of strangers on a charged and idle node: fifteen percent.
pub const STRANGER_SHARE_FULL: u64 = 150_000_000;

/// The share that always remains: three percent.
pub const STRANGER_SHARE_FLOOR: u64 = 30_000_000;

/// Battery percentage below which the share begins to fall.
pub const BATTERY_CURVE_START: u8 = 40;

/// Battery percentage at which it has reached the floor.
pub const BATTERY_CURVE_END: u8 = 5;

/// Load above which the share begins to fall.
pub const LOAD_CURVE_START: u32 = 600_000;

/// Load at which it has reached the floor.
pub const LOAD_CURVE_END: u32 = 1_000_000;

/// Messages per minute that every stranger is given, however many there are.
pub const FLOOR_PER_SENDER: u32 = 6;

/// The parts of a token, which are also the milliseconds of a minute.
pub const TOKEN: u64 = 60_000;

/// Most parts that a sender can ever have.
pub const MOST_PARTS: u64 = 257_698_037_700_000;

/// What lies between the floor and the full share at `n` steps out of `d` along a curve that
/// starts and ends level: `3t^2 - 2t^3` for `t = n / d`.
pub open spec fn curve(n: int, d: int) -> int {
    (STRANGER_SHARE_FULL - STRANGER_SHARE_FLOOR) * (n * n * (3 * d - 2 * n)) / (d * d * d)
}

/// The share that the battery allows.
pub open spec fn battery_share_of(percent: Option<u8>, charging: bool) -> int {
    match percent {
        None => STRANGER_SHARE_FULL as int,
        Some(p) => if charging || p >= BATTERY_CURVE_START {
            STRANGER_SHARE_FULL as int
        } else if p <= BATTERY_CURVE_END {
            STRANGER_SHARE_FLOOR as int
        } else {
            STRANGER_SHARE_FLOOR + curve(p - BATTERY_CURVE_END, 35)
        },
    }
}

/// The share that a load allows.
pub open spec fn load_share_of(load: u32) -> int {
    if load <= LOAD_CURVE_START {
        STRANGER_SHARE_FULL as int
    } else if load >= LOAD_CURVE_END {
        STRANGER_SHARE_FLOOR as int
    } else {
        STRANGER_SHARE_FLOOR + curve(LOAD_CURVE_END - load, 400_000)
    }
}

/// The load that a reading stands for. One that is no number counts as full load: a broken meter
/// must not look like an idle node.
pub open spec fn load_of(reading: Option<u32>) -> u32 {
    match reading {
        Some(l) => if l > LOAD_CURVE_END {
            LOAD_CURVE_END
        } else {
            l
        },
        None => LOAD_CURVE_END,
    }
}

/// The smaller of two.
pub open spec fn lesser(a: int, b: int) -> int {
    if a < b {
        a
    } else {
        b
    }
}

/// The larger of two.
pub open spec fn larger(a: int, b: int) -> int {
    if a > b {
        a
    } else {
        b
    }
}

/// Where the battery stands on its curve of 35 steps.
pub open spec fn battery_point(percent: Option<u8>, charging: bool) -> int {
    match percent {
        None => 35,
        Some(p) => if charging || p >= BATTERY_CURVE_START {
            35
        } else if p <= BATTERY_CURVE_END {
            0
        } else {
            p - BATTERY_CURVE_END
        },
    }
}

/// Where a load stands on its curve of 400000 steps.
pub open spec fn load_point(load: u32) -> int {
    if load <= LOAD_CURVE_START {
        400_000
    } else if load >= LOAD_CURVE_END {
        0
    } else {
        LOAD_CURVE_END - load
    }
}

/// The share at `n` steps out of `d`, in parts of which `1_000_000_000 * d^3` make the whole.
pub open spec fn share_parts(n: int, d: int) -> int {
    STRANGER_SHARE_FLOOR * (d * d * d) + (STRANGER_SHARE_FULL - STRANGER_SHARE_FLOOR) * (n * n * (3 * d
        - 2 * n))
}

/// The part of a capacity that the share at `n` steps out of `d` makes, rounded to the nearest whole
/// number.
pub open spec fn budget_of(capacity: u32, n: int, d: int) -> int {
    (capacity * share_parts(n, d) + 500_000_000 * (d * d * d)) / (1_000_000_000 * (d * d * d))
}

/// What one of `n` senders may send per minute.
pub open spec fn cap_of(budget: int, n: nat) -> int {
    if n == 0 {
        larger(budget, FLOOR_PER_SENDER as int)
    } else {
        larger(budget / (n as int), FLOOR_PER_SENDER as int)
    }
}

/// The curve along `n` steps out of 35.
fn curve_35(n: u64) -> (r: u64)
    requires
        n <= 35,
    ensures
        r == curve(n as int, 35),
        r <= STRANGER_SHARE_FULL - STRANGER_SHARE_FLOOR,
{
    assert(n * n <= 1225) by (nonlinear_arith)
        requires
            n <= 35,
    ;
    let square: u64 = n * n;
    let factor: u64 = 105 - 2 * n;
    assert(square * factor <= 42875) by (nonlinear_arith)
        requires
            square == n * n,
            factor == 105 - 2 * n,
            n <= 35,
    ;
    let cube: u64 = square * factor;
    assert(120_000_000 * cube <= 120_000_000 * 42875);
    let r: u64 = 120_000_000 * cube / 42875;
    r
}

/// The curve along `n` steps out of 400000.
fn curve_400000(n: u64) -> (r: u64)
    requires
        n <= 400_000,
    ensures
        r == curve(n as int, 400_000),
        r <= STRANGER_SHARE_FULL - STRANGER_SHARE_FLOOR,
{
    let wide: u128 = n as u128;
    assert(wide * wide <= 160_000_000_000) by (nonlinear_arith)
        requires
            wide <= 400_000,
    ;
    let square: u128 = wide * wide;
    let factor: u128 = 1_200_000 - 2 * wide;
    assert(square * factor <= 64_000_000_000_000_000) by (nonlinear_arith)
        requires
            square == wide * wide,
            factor == 1_200_000 - 2 * wide,
            wide <= 400_000,
    ;
    let cube: u128 = square * factor;
    assert(120_000_000 * cube <= 120_000_000 * 64_000_000_000_000_000);
    let r: u128 = 120_000_000 * cube / 64_000_000_000_000_000;
    r as u64
}

/// The budget at `n` steps out of `d`, for a curve whose cube is `cube`.
fn rounded_budget(capacity: u32, n: u64, d: u64, cube: u64) -> (r: u32)
    requires
        n <= d,
        0 < d <= 400_000,
        cube == d * d * d,
    ensures
        r == budget_of(capacity, n as int, d as int),
{
    let (wide, most, whole): (u128, u128, u128) = (n as u128, d as u128, cube as u128);
    proof {
        lemma_cubic_rises(n as int, d as int, d as int);
        assert(0 <= n * n <= 160_000_000_000) by (nonlinear_arith)
            requires
                0 <= n <= 400_000,
        ;
        assert(0 <= n * n * (3 * d - 2 * n)) by (nonlinear_arith)
            requires
                0 <= n <= d,
        ;
        assert(d * d * (3 * d - 2 * d) == cube) by (nonlinear_arith)
            requires
                cube == d * d * d,
        ;
        assert(0 < cube <= 64_000_000_000_000_000) by (nonlinear_arith)
            requires
                cube == d * d * d,
                0 < d <= 400_000,
        ;
    }
    let square: u128 = wide * wide;
    let factor: u128 = 3 * most - 2 * wide;
    let bend: u128 = square * factor;
    assert(bend <= whole);
    let parts: u128 = 30_000_000 * whole + 120_000_000 * bend;
    assert(parts == share_parts(n as int, d as int));
    assert(parts <= 150_000_000 * whole);
    let c: u128 = capacity as u128;
    assert(c * parts <= c * (150_000_000 * whole)) by (nonlinear_arith)
        requires
            parts <= 150_000_000 * whole,
            c >= 0,
    ;
    assert(c * (150_000_000 * whole) <= 0xffff_ffff * (150_000_000 * whole)) by (nonlinear_arith)
        requires
            c <= 0xffff_ffff,
            whole >= 0,
    ;
    let up: u128 = c * parts + 500_000_000 * whole;
    let down: u128 = 1_000_000_000 * whole;
    let rounded: u128 = up / down;
    assert(rounded <= 0xffff_ffff) by (nonlinear_arith)
        requires
            rounded == up / down,
            up <= 0xffff_ffff * (150_000_000 * whole) + 500_000_000 * whole,
            down == 1_000_000_000 * whole,
            whole > 0,
    ;
    rounded as u32
}

/// A stranger's tokens, for each direction.
#[derive(Debug, Clone, Copy)]
pub struct SenderQuota {
    pub peer: NodeId,
    pub send_tokens: u64,
    pub recv_tokens: u64,
    pub last_refill_ms: i64,
}

impl SenderQuota {
    /// The time since the last refill; a clock that runs back counts as standing still.
    pub open spec fn elapsed(self, now_ms: i64) -> int {
        larger(now_ms - self.last_refill_ms, 0)
    }

    /// The tokens after a refill at `now_ms` when the price allows `cap` messages per minute:
    /// what flowed in since, and never more than a minute's worth.
    pub open spec fn refilled(self, cap: int, now_ms: i64) -> SenderQuota {
        SenderQuota {
            send_tokens: lesser(self.send_tokens + self.elapsed(now_ms) * cap, cap * TOKEN) as u64,
            recv_tokens: lesser(self.recv_tokens + self.elapsed(now_ms) * cap, cap * TOKEN) as u64,
            last_refill_ms: if now_ms > self.last_refill_ms {
                now_ms
            } else {
                self.last_refill_ms
            },
            ..self
        }
    }

    /// The tokens of a direction.
    pub open spec fn tokens(self, send: bool) -> u64 {
        if send {
            self.send_tokens
        } else {
            self.recv_tokens
        }
    }

    /// One token less in a direction.
    pub open spec fn spent(self, send: bool) -> SenderQuota {
        if send {
            SenderQuota { send_tokens: (self.send_tokens - TOKEN) as u64, ..self }
        } else {
            SenderQuota { recv_tokens: (self.recv_tokens - TOKEN) as u64, ..self }
        }
    }

    fn refill(&mut self, cap: u32, now_ms: i64)
        requires
            old(self).send_tokens <= MOST_PARTS,
            old(self).recv_tokens <= MOST_PARTS,
        ensures
            *final(self) == old(self).refilled(cap as int, now_ms),
            final(self).send_tokens <= MOST_PARTS,
            final(self).recv_tokens <= MOST_PARTS,
    {
        let full: u64 = cap as u64 * TOKEN;
        let passed: i64 = saturating_sub(now_ms, self.last_refill_ms);
        let ghost elapsed = self.elapsed(now_ms);
        let ms: u64 = if passed <= 0 {
            0
        } else if passed > 60_000 {
            60_000
        } else {
            passed as u64
        };
        assert(ms * cap <= 60_000 * cap) by (nonlinear_arith)
            requires
                ms <= 60_000,
        ;
        let gain: u64 = ms * cap as u64;
        proof {
            if elapsed > 60_000 {
                assert(elapsed * cap >= 60_000 * cap) by (nonlinear_arith)
                    requires
                        elapsed > 60_000,
                        cap >= 0,
                ;
            } else {
                assert(ms == elapsed);
            }
        }
        let send: u64 = self.send_tokens + gain;
        let recv: u64 = self.recv_tokens + gain;
        self.send_tokens = if send < full {
            send
        } else {
            full
        };
        self.recv_tokens = if recv < full {
            recv
        } else {
            full
        };
        if now_ms > self.last_refill_ms {
            self.last_refill_ms = now_ms;
        }
    }
}

/// What the governor knows.
pub struct GovernorState {
    pub capacity_per_min: u32,
    pub battery_percent: Option<u8>,
    pub charging: bool,
    pub load: u32,
    pub senders: Seq<SenderQuota>,
}

/// Every stranger stands in the list once, with tokens within bounds.
pub open spec fn quotas_valid(s: Seq<SenderQuota>) -> bool {
    &&& forall|i: int|
        0 <= i < s.len() ==> (#[trigger] s[i]).send_tokens <= MOST_PARTS && s[i].recv_tokens
            <= MOST_PARTS
    &&& forall|i: int, j: int|
        #![trigger s[i], s[j]]
        0 <= i < j < s.len() ==> s[i].peer != s[j].peer
}

/// The stranger stands at position `i`.
pub open spec fn registered_at(s: Seq<SenderQuota>, peer: NodeId, i: int) -> bool {
    0 <= i < s.len() && s[i].peer == peer
}

/// The stranger is known.
pub open spec fn registered(s: Seq<SenderQuota>, peer: NodeId) -> bool {
    exists|i: int| #[trigger] registered_at(s, peer, i)
}

/// The list without a stranger.
pub open spec fn without_sender(s: Seq<SenderQuota>, peer: NodeId) -> Seq<SenderQuota> {
    if registered(s, peer) {
        s.remove(choose|i: int| #[trigger] registered_at(s, peer, i))
    } else {
        s
    }
}

impl GovernorState {
    /// The share of strangers: what the battery and the load both allow.
    pub open spec fn share(self) -> int {
        lesser(battery_share_of(self.battery_percent, self.charging), load_share_of(self.load))
    }

    /// The battery stands lower on its curve than the load does on its own.
    pub open spec fn battery_decides(self) -> bool {
        battery_point(self.battery_percent, self.charging) * 400_000 < load_point(self.load) * 35
    }

    /// The messages per minute for all strangers together: the share of the capacity, rounded once.
    pub open spec fn budget(self) -> int {
        if self.battery_decides() {
            budget_of(self.capacity_per_min, battery_point(self.battery_percent, self.charging), 35)
        } else {
            budget_of(self.capacity_per_min, load_point(self.load), 400_000)
        }
    }

    /// The messages per minute for each stranger.
    pub open spec fn cap(self) -> int {
        cap_of(self.budget(), self.senders.len())
    }

    /// The strangers' tokens after a refill.
    pub open spec fn refilled(self, now_ms: i64) -> Seq<SenderQuota> {
        self.senders.map_values(|q: SenderQuota| q.refilled(self.cap(), now_ms))
    }

    /// A message of a stranger is let through.
    pub open spec fn allows(self, peer: NodeId, now_ms: i64, send: bool) -> bool {
        exists|i: int| #[trigger]
            registered_at(self.senders, peer, i) && self.refilled(now_ms)[i].tokens(send) >= TOKEN
    }

    /// The governor after a stranger asked to send or to receive a message.
    pub open spec fn after_request(self, peer: NodeId, now_ms: i64, send: bool) -> GovernorState {
        let all = self.refilled(now_ms);
        GovernorState {
            senders: if self.allows(peer, now_ms, send) {
                let i = choose|i: int| #[trigger] registered_at(self.senders, peer, i);
                all.update(i, all[i].spent(send))
            } else {
                all
            },
            ..self
        }
    }
}

/// Shares out what a node can do for strangers.
#[derive(Debug)]
pub struct RelayGovernor {
    capacity_per_min: u32,
    battery_percent: Option<u8>,
    charging: bool,
    load: u32,
    senders: Vec<SenderQuota>,
}

impl View for RelayGovernor {
    type V = GovernorState;

    closed spec fn view(&self) -> GovernorState {
        GovernorState {
            capacity_per_min: self.capacity_per_min,
            battery_percent: self.battery_percent,
            charging: self.charging,
            load: self.load,
            senders: self.senders@,
        }
    }
}

impl RelayGovernor {
    /// The invariant of the governor.
    pub open spec fn wf(self) -> bool {
        quotas_valid(self@.senders)
    }

    /// A governor for a node that can relay so many messages per minute.
    pub fn new(capacity_per_min: u32) -> (r: RelayGovernor)
        ensures
            r.wf(),
            r@ == (GovernorState {
                capacity_per_min,
                battery_percent: Some(100),
                charging: false,
                load: 0,
                senders: Seq::empty(),
            }),
    {
        RelayGovernor {
            capacity_per_min,
            battery_percent: Some(100),
            charging: false,
            load: 0,
            senders: Vec::new(),
        }
    }

    /// Takes the state of the battery; an unknown one counts as full.
    pub fn set_battery(&mut self, percent: Option<u8>, charging: bool)
        ensures
            final(self)@ == (GovernorState { battery_percent: percent, charging, ..old(self)@ }),
    {
        self.battery_percent = percent;
        self.charging = charging;
    }

    /// Takes the load in millionths, nothing if it is no number.
    pub fn set_load(&mut self, reading: Option<u32>)
        ensures
            final(self)@ == (GovernorState { load: load_of(reading), ..old(self)@ }),
    {
        self.load = match reading {
            Some(l) => if l > LOAD_CURVE_END {
                LOAD_CURVE_END
            } else {
                l
            },
            None => LOAD_CURVE_END,
        };
    }

    /// The share of strangers, in billionths.
    pub fn share(&self) -> (r: u64)
        ensures
            r == self@.share(),
            STRANGER_SHARE_FLOOR <= r <= STRANGER_SHARE_FULL,
    {
        let battery: u64 = self.battery_share();
        let load: u64 = self.load_share();
        if battery < load {
            battery
        } else {
            load
        }
    }

    fn battery_share(&self) -> (r: u64)
        ensures
            r == battery_share_of(self@.battery_percent, self@.charging),
            STRANGER_SHARE_FLOOR <= r <= STRANGER_SHARE_FULL,
    {
        match self.battery_percent {
            None => STRANGER_SHARE_FULL,
            Some(p) => if self.charging || p >= BATTERY_CURVE_START {
                STRANGER_SHARE_FULL
            } else if p <= BATTERY_CURVE_END {
                STRANGER_SHARE_FLOOR
            } else {
                STRANGER_SHARE_FLOOR + curve_35((p - BATTERY_CURVE_END) as u64)
            },
        }
    }

    fn load_share(&self) -> (r: u64)
        ensures
            r == load_share_of(self@.load),
            STRANGER_SHARE_FLOOR <= r <= STRANGER_SHARE_FULL,
    {
        if self.load <= LOAD_CURVE_START {
            STRANGER_SHARE_FULL
        } else if self.load >= LOAD_CURVE_END {
            STRANGER_SHARE_FLOOR
        } else {
            STRANGER_SHARE_FLOOR + curve_400000((LOAD_CURVE_END - self.load) as u64)
        }
    }

    /// The messages per minute for all strangers together.
    pub fn budget_per_min(&self) -> (r: u32)
        ensures
            r == self@.budget(),
    {
        let battery: u64 = match self.battery_percent {
            None => 35,
            Some(p) => if self.charging || p >= BATTERY_CURVE_START {
                35
            } else if p <= BATTERY_CURVE_END {
                0
            } else {
                (p - BATTERY_CURVE_END) as u64
            },
        };
        let load: u64 = if self.load <= LOAD_CURVE_START {
            400_000
        } else if self.load >= LOAD_CURVE_END {
            0
        } else {
            (LOAD_CURVE_END - self.load) as u64
        };
        if battery * 400_000 < load * 35 {
            rounded_budget(self.capacity_per_min, battery, 35, 42_875)
        } else {
            rounded_budget(self.capacity_per_min, load, 400_000, 64_000_000_000_000_000)
        }
    }

    /// The messages per minute for each stranger. The more there are the less each has, but never
    /// less than the floor.
    pub fn per_sender_cap(&self) -> (r: u32)
        ensures
            r == self@.cap(),
            r >= FLOOR_PER_SENDER,
    {
        let n: usize = self.senders.len();
        let budget: u32 = self.budget_per_min();
        if n == 0 {
            return if budget > FLOOR_PER_SENDER {
                budget
            } else {
                FLOOR_PER_SENDER
            };
        }
        let each: u64 = budget as u64 / n as u64;
        proof {
            assert(each <= budget) by (nonlinear_arith)
                requires
                    each == budget as u64 / n as u64,
                    n > 0,
            ;
        }
        if each > FLOOR_PER_SENDER as u64 {
            each as u32
        } else {
            FLOOR_PER_SENDER
        }
    }

    pub fn connected_strangers(&self) -> (r: usize)
        ensures
            r == self@.senders.len(),
    {
        self.senders.len()
    }

    fn find(&self, peer: &NodeId) -> (r: Option<usize>)
        ensures
            match r {
                Some(i) => registered_at(self@.senders, *peer, i as int),
                None => !registered(self@.senders, *peer),
            },
    {
        let mut i: usize = 0;
        while i < self.senders.len()
            invariant
                i <= self.senders@.len(),
                forall|k: int| 0 <= k < i ==> !#[trigger] registered_at(self@.senders, *peer, k),
            decreases self.senders@.len() - i,
        {
            if same_bytes(&self.senders[i].peer, peer) {
                assert(registered_at(self@.senders, *peer, i as int));
                return Some(i);
            }
            i = i + 1;
        }
        None
    }

    /// Takes a stranger in, with a minute's worth of tokens at the price of the moment. One that is
    /// known already keeps what it has.
    pub fn register_sender(&mut self, peer: NodeId, now_ms: i64)
        requires
            old(self).wf(),
        ensures
            final(self).wf(),
            final(self)@ == if registered(old(self)@.senders, peer) {
                old(self)@
            } else {
                GovernorState {
                    senders: old(self)@.senders.push(
                        SenderQuota {
                            peer,
                            send_tokens: (old(self)@.cap() * TOKEN) as u64,
                            recv_tokens: (old(self)@.cap() * TOKEN) as u64,
                            last_refill_ms: now_ms,
                        },
                    ),
                    ..old(self)@
                }
            },
    {
        let cap: u32 = self.per_sender_cap();
        if self.find(&peer).is_some() {
            return ;
        }
        let full: u64 = cap as u64 * TOKEN;
        let ghost before = self.senders@;
        self.senders.push(
            SenderQuota { peer, send_tokens: full, recv_tokens: full, last_refill_ms: now_ms },
        );
        proof {
            let after = self.senders@;
            assert forall|i: int, j: int| #![trigger after[i], after[j]]
                0 <= i < j < after.len() implies after[i].peer != after[j].peer by {
                if j < before.len() {
                    assert(before[i].peer != before[j].peer);
                } else {
                    assert(!registered_at(before, peer, i));
                }
            }
        }
    }

    /// Lets a stranger go.
    pub fn drop_sender(&mut self, peer: &NodeId)
        requires
            old(self).wf(),
        ensures
            final(self).wf(),
            !registered(final(self)@.senders, *peer),
            final(self)@ == (GovernorState {
                senders: without_sender(old(self)@.senders, *peer),
                ..old(self)@
            }),
    {
        let ghost before = self.senders@;
        if let Some(k) = self.find(peer) {
            let _gone = self.senders.remove(k);
            proof {
                let c = choose|c: int| #[trigger] registered_at(before, *peer, c);
                assert(registered_at(before, *peer, c));
                assert(before[c].peer == before[k as int].peer);
                let after = self.senders@;
                assert forall|i: int| #[trigger] registered_at(after, *peer, i) implies false by {
                    let m = if i < k { i } else { i + 1 };
                    assert(after[i] == before[m]);
                    assert(before[m].peer == before[k as int].peer);
                }
                assert forall|i: int, j: int| #![trigger after[i], after[j]]
                    0 <= i < j < after.len() implies after[i].peer != after[j].peer by {
                    let a = if i < k { i } else { i + 1 };
                    let b = if j < k { j } else { j + 1 };
                    assert(after[i] == before[a] && after[j] == before[b]);
                }
            }
        }
    }

    /// Refills every stranger's tokens at the price of the moment. A price that has fallen takes
    /// effect at once.
    fn refill_all(&mut self, now_ms: i64)
        requires
            old(self).wf(),
        ensures
            final(self).wf(),
            final(self)@ == (GovernorState { senders: old(self)@.refilled(now_ms), ..old(self)@ }),
    {
        let cap: u32 = self.per_sender_cap();
        let ghost before = self@;
        let mut i: usize = 0;
        while i < self.senders.len()
            invariant
                i <= self.senders@.len(),
                before == old(self)@,
                cap == before.cap(),
                self.wf(),
                self@ == (GovernorState { senders: self@.senders, ..before }),
                self.senders@.len() == before.senders.len(),
                forall|k: int|
                    0 <= k < i ==> self.senders@[k] == before.senders[k].refilled(cap as int, now_ms),
                forall|k: int| i <= k < self.senders@.len() ==> self.senders@[k] == before.senders[k],
                forall|k: int|
                    0 <= k < self.senders@.len() ==> self.senders@[k].peer == before.senders[k].peer,
                quotas_valid(before.senders),
            decreases self.senders@.len() - i,
        {
            let mut q: SenderQuota = self.senders[i];
            q.refill(cap, now_ms);
            self.senders.set(i, q);
            proof {
                let after = self.senders@;
                assert forall|a: int, b: int| #![trigger after[a], after[b]]
                    0 <= a < b < after.len() implies after[a].peer != after[b].peer by {
                    assert(before.senders[a].peer != before.senders[b].peer);
                }
            }
            i = i + 1;
        }
        assert(self.senders@ =~= before.refilled(now_ms));
    }

    fn take_token(&mut self, peer: &NodeId, now_ms: i64, send: bool) -> (r: bool)
        requires
            old(self).wf(),
        ensures
            final(self).wf(),
            r == old(self)@.allows(*peer, now_ms, send),
            final(self)@ == old(self)@.after_request(*peer, now_ms, send),
    {
        let ghost before = self@;
        self.refill_all(now_ms);
        let ghost all = self.senders@;
        proof {
            assert forall|i: int| #[trigger] registered_at(all, *peer, i) == registered_at(
                before.senders,
                *peer,
                i,
            ) by {}
        }
        match self.find(peer) {
            None => {
                assert forall|i: int| !#[trigger] registered_at(before.senders, *peer, i) by {
                    assert(!registered_at(all, *peer, i));
                }
                false
            },
            Some(k) => {
                proof {
                    assert(registered_at(before.senders, *peer, k as int));
                    let c = choose|c: int| #[trigger] registered_at(before.senders, *peer, c);
                    assert(registered_at(before.senders, *peer, c));
                    assert(before.senders[c].peer == before.senders[k as int].peer);
                    assert forall|i: int| #[trigger] registered_at(before.senders, *peer, i) implies i
                        == k by {
                        assert(before.senders[i].peer == before.senders[k as int].peer);
                    }
                }
                let mut q: SenderQuota = self.senders[k];
                let tokens: u64 = if send {
                    q.send_tokens
                } else {
                    q.recv_tokens
                };
                if tokens >= TOKEN {
                    if send {
                        q.send_tokens = q.send_tokens - TOKEN;
                    } else {
                        q.recv_tokens = q.recv_tokens - TOKEN;
                    }
                    self.senders.set(k, q);
                    proof {
                        let after = self.senders@;
                        assert forall|a: int, b: int| #![trigger after[a], after[b]]
                            0 <= a < b < after.len() implies after[a].peer != after[b].peer by {
                            assert(all[a].peer != all[b].peer);
                        }
                    }
                    true
                } else {
                    false
                }
            },
        }
    }

    /// Whether a stranger may send a message now.
    pub fn allow_send(&mut self, peer: &NodeId, now_ms: i64) -> (r: bool)
        requires
            old(self).wf(),
        ensures
            final(self).wf(),
            r == old(self)@.allows(*peer, now_ms, true),
            final(self)@ == old(self)@.after_request(*peer, now_ms, true),
    {
        self.take_token(peer, now_ms, true)
    }

    /// Whether a stranger may be handed a message now.
    pub fn allow_recv(&mut self, peer: &NodeId, now_ms: i64) -> (r: bool)
        requires
            old(self).wf(),
        ensures
            final(self).wf(),
            r == old(self)@.allows(*peer, now_ms, false),
            final(self)@ == old(self)@.after_request(*peer, now_ms, false),
    {
        self.take_token(peer, now_ms, false)
    }
}


/// The curve rises from nothing to all of the difference.
proof fn lemma_curve_rises(a: int, b: int, d: int)
    requires
        0 <= a <= b <= d,
        0 < d,
    ensures
        0 <= curve(a, d) <= curve(b, d) <= STRANGER_SHARE_FULL - STRANGER_SHARE_FLOOR,
{
    let fa = a * a * (3 * d - 2 * a);
    let fb = b * b * (3 * d - 2 * b);
    let cube = d * d * d;
    assert(0 <= fa) by (nonlinear_arith)
        requires
            fa == a * a * (3 * d - 2 * a),
            0 <= a <= d,
    ;
    lemma_cubic_rises(a, b, d);
    lemma_cubic_rises(b, d, d);
    assert(d * d * (3 * d - 2 * d) == cube) by (nonlinear_arith)
        requires
            cube == d * d * d,
    ;
    assert(cube > 0) by (nonlinear_arith)
        requires
            cube == d * d * d,
            d > 0,
    ;
    assert(0 <= 120_000_000 * fa / cube <= 120_000_000 * fb / cube <= 120_000_000) by (nonlinear_arith)
        requires
            0 <= fa <= fb <= cube,
            cube > 0,
    ;
}

/// `x^2 (3d - 2x)` rises up to `d`.
proof fn lemma_cubic_rises(a: int, b: int, d: int)
    requires
        0 <= a <= b <= d,
    ensures
        a * a * (3 * d - 2 * a) <= b * b * (3 * d - 2 * b),
{
    let rest = 3 * d * (a + b) - 2 * (a * a + a * b + b * b);
    assert(b * b * (3 * d - 2 * b) - a * a * (3 * d - 2 * a) == (b - a) * rest) by (nonlinear_arith)
        requires
            rest == 3 * d * (a + b) - 2 * (a * a + a * b + b * b),
    ;
    assert(a * a <= d * a) by (nonlinear_arith)
        requires
            0 <= a <= d,
    ;
    assert(b * b <= d * b) by (nonlinear_arith)
        requires
            0 <= b <= d,
    ;
    assert(a * b <= d * b) by (nonlinear_arith)
        requires
            0 <= a <= d,
            0 <= b,
    ;
    assert(a * b <= d * a) by (nonlinear_arith)
        requires
            0 <= b <= d,
            0 <= a,
    ;
    assert(3 * d * (a + b) == 3 * (d * a) + 3 * (d * b)) by (nonlinear_arith);
    assert((b - a) * rest >= 0) by (nonlinear_arith)
        requires
            rest >= 0,
            b >= a,
    ;
}

/// The share lies between the floor and the full share, whatever the battery and the load are.
pub proof fn law_share_between_floor_and_full(state: GovernorState)
    ensures
        STRANGER_SHARE_FLOOR <= state.share() <= STRANGER_SHARE_FULL,
{
    if let Some(p) = state.battery_percent {
        if 5 < p < 40 {
            lemma_curve_rises(p - 5, 35, 35);
        }
    }
    if LOAD_CURVE_START < state.load < LOAD_CURVE_END {
        lemma_curve_rises(LOAD_CURVE_END - state.load, 400_000, 400_000);
    }
}

/// The budget is the share of the capacity: the point of the curve that it is taken from is the one
/// that the share, in whole billionths, is taken from.
pub proof fn law_budget_follows_the_share(state: GovernorState)
    ensures
        state.share() == STRANGER_SHARE_FLOOR + if state.battery_decides() {
            curve(battery_point(state.battery_percent, state.charging), 35)
        } else {
            curve(load_point(state.load), 400_000)
        },
{
    let b = battery_point(state.battery_percent, state.charging);
    let l = load_point(state.load);
    assert(curve(35, 35) == 120_000_000) by (nonlinear_arith);
    assert(curve(0, 35) == 0) by (nonlinear_arith);
    assert(curve(400_000, 400_000) == 120_000_000) by (nonlinear_arith);
    assert(curve(0, 400_000) == 0) by (nonlinear_arith);
    lemma_curve_scales(b, 35, 400_000);
    lemma_curve_scales(l, 400_000, 35);
    let (x, y, d) = (b * 400_000, l * 35, 14_000_000int);
    if x < y {
        lemma_curve_rises(x, y, d);
    } else {
        lemma_curve_rises(y, x, d);
    }
}

/// A curve of more steps passes through the same points.
proof fn lemma_curve_scales(n: int, d: int, k: int)
    requires
        0 <= n <= d,
        0 < d,
        0 < k,
    ensures
        curve(n * k, d * k) == curve(n, d),
{
    let up = 120_000_000 * (n * n * (3 * d - 2 * n));
    let down = d * d * d;
    let cube = k * k * k;
    let (m, e) = (n * k, d * k);
    assert(m * m * (3 * e - 2 * m) == (n * n * (3 * d - 2 * n)) * cube) by (nonlinear_arith)
        requires
            m == n * k,
            e == d * k,
            cube == k * k * k,
    ;
    assert(e * e * e == down * cube) by (nonlinear_arith)
        requires
            e == d * k,
            down == d * d * d,
            cube == k * k * k,
    ;
    assert(120_000_000 * ((n * n * (3 * d - 2 * n)) * cube) == up * cube) by (nonlinear_arith)
        requires
            up == 120_000_000 * (n * n * (3 * d - 2 * n)),
    ;
    assert(down > 0) by (nonlinear_arith)
        requires
            down == d * d * d,
            d > 0,
    ;
    assert(cube > 0) by (nonlinear_arith)
        requires
            cube == k * k * k,
            k > 0,
    ;
    assert(up >= 0) by (nonlinear_arith)
        requires
            up == 120_000_000 * (n * n * (3 * d - 2 * n)),
            0 <= n <= d,
    ;
    vstd::arithmetic::div_mod::lemma_div_denominator(up * cube, cube, down);
    vstd::arithmetic::div_mod::lemma_div_by_multiple(up, cube);
    assert(cube * down == down * cube) by (nonlinear_arith);
}

/// A battery that runs down never raises the share.
pub proof fn law_battery_share_falls(p: u8, q: u8, charging: bool)
    requires
        p <= q,
    ensures
        battery_share_of(Some(p), charging) <= battery_share_of(Some(q), charging),
{
    let a = bounded(p - 5, 0, 35);
    let b = bounded(q - 5, 0, 35);
    lemma_curve_rises(a, b, 35);
}

/// One percent of battery changes the share by less than one percent of the capacity: there is no
/// cliff.
pub proof fn law_battery_curve_has_no_cliff(p: u8, charging: bool)
    requires
        p < 255,
    ensures
        battery_share_of(Some((p + 1) as u8), charging) - battery_share_of(Some(p), charging)
            < 10_000_000,
{
    if 5 <= p < 40 && !charging {
        let n = p - 5;
        let low = n * n * (105 - 2 * n);
        let high = (n + 1) * (n + 1) * (105 - 2 * (n + 1));
        assert(high - low <= 1837) by (nonlinear_arith)
            requires
                low == n * n * (105 - 2 * n),
                high == (n + 1) * (n + 1) * (105 - 2 * (n + 1)),
                0 <= n < 35,
        ;
        assert(curve(n, 35) == 120_000_000 * low / 42875);
        assert(curve(n + 1, 35) == 120_000_000 * high / 42875);
        if n == 0 {
            assert(low == 0) by (nonlinear_arith)
                requires
                    low == n * n * (105 - 2 * n),
                    n == 0,
            ;
        }
        if n == 34 {
            assert(high == 42875) by (nonlinear_arith)
                requires
                    high == (n + 1) * (n + 1) * (105 - 2 * (n + 1)),
                    n == 34,
            ;
        }
    }
}

/// A load that grows never raises the share.
pub proof fn law_load_share_falls(l: u32, m: u32)
    requires
        l <= m,
    ensures
        load_share_of(m) <= load_share_of(l),
{
    let a = bounded(LOAD_CURVE_END - m, 0, 400_000);
    let b = bounded(LOAD_CURVE_END - l, 0, 400_000);
    lemma_curve_rises(a, b, 400_000);
}

/// Everyone gets through: however many strangers there are, each has the floor.
pub proof fn law_everyone_gets_the_floor(budget: int, n: nat)
    ensures
        cap_of(budget, n) >= FLOOR_PER_SENDER,
{
}

/// Sending and receiving are paid for apart: a request in one direction leaves the other with
/// what the refill gave it.
pub proof fn law_directions_are_independent(
    state: GovernorState,
    peer: NodeId,
    now_ms: i64,
    send: bool,
    i: int,
)
    requires
        0 <= i < state.senders.len(),
    ensures
        state.after_request(peer, now_ms, send).senders[i].tokens(!send) == state.refilled(
            now_ms,
        )[i].tokens(!send),
{
}

/// A lower price holds at once: after a request nobody has more than a minute's worth of it.
pub proof fn law_lower_price_holds_at_once(
    state: GovernorState,
    peer: NodeId,
    now_ms: i64,
    send: bool,
    i: int,
)
    requires
        quotas_valid(state.senders),
        0 <= i < state.senders.len(),
        0 <= state.cap() <= u32::MAX,
    ensures
        state.after_request(peer, now_ms, send).senders[i].send_tokens <= state.cap() * TOKEN,
        state.after_request(peer, now_ms, send).senders[i].recv_tokens <= state.cap() * TOKEN,
{
    let q = state.senders[i];
    let r = state.refilled(now_ms)[i];
    let cap = state.cap();
    assert(q.elapsed(now_ms) * cap >= 0) by (nonlinear_arith)
        requires
            q.elapsed(now_ms) >= 0,
            cap >= 0,
    ;
    assert(r == q.refilled(cap, now_ms));
    assert(0 <= cap * TOKEN <= u64::MAX);
    if state.allows(peer, now_ms, send) {
        let c = choose|c: int| #[trigger] registered_at(state.senders, peer, c);
        let w = choose|w: int| #[trigger]
            registered_at(state.senders, peer, w) && state.refilled(now_ms)[w].tokens(send) >= TOKEN;
        assert(registered_at(state.senders, peer, w));
        assert(registered_at(state.senders, peer, c));
        assert(state.senders[c].peer == state.senders[w].peer);
        assert(c == w);
    }
}

/// Who has not been taken in is not let through.
pub proof fn law_unknown_stranger_is_refused(
    state: GovernorState,
    peer: NodeId,
    now_ms: i64,
    send: bool,
)
    requires
        !registered(state.senders, peer),
    ensures
        !state.allows(peer, now_ms, send),
{
}

/// What the battery allows: a full share of 15 % on the mains, without a battery and from a charge of 40 %
/// on, 3 % up to a charge of 5 %, and between them the curve `3t^2 - 2t^3`, in whole billionths.
#[verifier::rlimit(40)]
pub proof fn law_battery_share_in_numbers(p: u8)
    ensures
        battery_share_of(None, false) == 150_000_000,
        battery_share_of(Some(p), true) == 150_000_000,
        p >= 40 ==> battery_share_of(Some(p), false) == 150_000_000,
        p <= 5 ==> battery_share_of(Some(p), false) == 30_000_000,
        5 < p < 40 ==> {
            let t = p - 5;
            let rise = (battery_share_of(Some(p), false) - 30_000_000) * 42_875;
            rise <= 120_000_000 * (3 * 35 * (t * t) - 2 * (t * t * t)) < rise + 42_875
        },
{
    if 5 < p < 40 {
        let t = p - 5;
        let up = 120_000_000 * (t * t * (3 * 35 - 2 * t));
        assert(up == 120_000_000 * (3 * 35 * (t * t) - 2 * (t * t * t))) by (nonlinear_arith)
            requires
                up == 120_000_000 * (t * t * (3 * 35 - 2 * t)),
        ;
        assert(35int * 35 * 35 == 42_875);
        assert(curve(t, 35) == up / 42_875);
    }
}

/// What the load allows: a full share of 15 % up to a load of 60 %, 3 % at full load, and between them the
/// curve `3t^2 - 2t^3`, in whole billionths.
#[verifier::rlimit(40)]
pub proof fn law_load_share_in_numbers(load: u32)
    ensures
        load <= 600_000 ==> load_share_of(load) == 150_000_000,
        load >= 1_000_000 ==> load_share_of(load) == 30_000_000,
        600_000 < load < 1_000_000 ==> {
            let t = 1_000_000 - load;
            let rise = (load_share_of(load) - 30_000_000) * 64_000_000_000_000_000;
            rise <= 120_000_000 * (3 * 400_000 * (t * t) - 2 * (t * t * t)) < rise
                + 64_000_000_000_000_000
        },
{
    if 600_000 < load < 1_000_000 {
        let t = 1_000_000 - load;
        let up = 120_000_000 * (t * t * (3 * 400_000 - 2 * t));
        assert(up == 120_000_000 * (3 * 400_000 * (t * t) - 2 * (t * t * t))) by (nonlinear_arith)
            requires
                up == 120_000_000 * (t * t * (3 * 400_000 - 2 * t)),
        ;
        assert(400_000int * 400_000 * 400_000 == 64_000_000_000_000_000);
        assert(curve(t, 400_000) == up / 64_000_000_000_000_000);
    }
}

/// The share is what both the battery and the load allow, and no less.
pub proof fn law_share_is_the_lower_of_two(state: GovernorState)
    ensures
        state.share() <= battery_share_of(state.battery_percent, state.charging),
        state.share() <= load_share_of(state.load),
        state.share() == battery_share_of(state.battery_percent, state.charging) || state.share()
            == load_share_of(state.load),
{
}

/// A reading of the load is taken as it is, up to full load; one that is no number is full load.
pub proof fn law_reading_is_the_load(load: u32)
    ensures
        load <= 1_000_000 ==> load_of(Some(load)) == load,
        load > 1_000_000 ==> load_of(Some(load)) == 1_000_000,
        load_of(None) == 1_000_000,
{
}

/// The budget is the share of the capacity, to the nearest message: it is off by half a message at most,
/// and by what the share loses in whole billionths.
pub proof fn law_budget_is_the_share_of_the_capacity(state: GovernorState)
    ensures
        state.capacity_per_min * state.share() < 1_000_000_000 * state.budget() + 500_000_000,
        1_000_000_000 * state.budget() <= state.capacity_per_min * (state.share() + 1) + 500_000_000,
{
    law_budget_follows_the_share(state);
    if state.battery_decides() {
        lemma_budget_near(state.capacity_per_min, battery_point(state.battery_percent, state.charging), 35);
    } else {
        lemma_budget_near(state.capacity_per_min, load_point(state.load), 400_000);
    }
}

/// A point's budget against its share.
#[verifier::rlimit(40)]
proof fn lemma_budget_near(capacity: u32, n: int, d: int)
    requires
        0 < d,
    ensures
        capacity * (STRANGER_SHARE_FLOOR + curve(n, d)) < 1_000_000_000 * budget_of(capacity, n, d)
            + 500_000_000,
        1_000_000_000 * budget_of(capacity, n, d) <= capacity * (STRANGER_SHARE_FLOOR + curve(n, d) + 1)
            + 500_000_000,
{
    let cube = d * d * d;
    assert(cube > 0) by (nonlinear_arith)
        requires
            cube == d * d * d,
            d > 0,
    ;
    let bend = 120_000_000 * (n * n * (3 * d - 2 * n));
    let s = bend / cube;
    let c = capacity as int;
    assert(s * cube <= bend < (s + 1) * cube) by (nonlinear_arith)
        requires
            s == bend / cube,
            cube > 0,
    ;
    let parts = share_parts(n, d);
    let share = 30_000_000 + s;
    assert(share * cube <= parts < (share + 1) * cube) by (nonlinear_arith)
        requires
            s * cube <= bend < (s + 1) * cube,
            parts == 30_000_000 * cube + bend,
            share == 30_000_000 + s,
    ;
    let up = c * parts + 500_000_000 * cube;
    let down = 1_000_000_000 * cube;
    let b = budget_of(capacity, n, d);
    assert(b == up / down);
    assert(b * down <= up < (b + 1) * down) by (nonlinear_arith)
        requires
            b == up / down,
            down > 0,
    ;
    assert(c * (share * cube) <= c * parts <= c * ((share + 1) * cube)) by (nonlinear_arith)
        requires
            c >= 0,
            share * cube <= parts < (share + 1) * cube,
    ;
    assert(c * share < 1_000_000_000 * b + 500_000_000) by (nonlinear_arith)
        requires
            c * (share * cube) <= c * parts,
            c * parts + 500_000_000 * cube < (b + 1) * (1_000_000_000 * cube),
            cube > 0,
    ;
    assert(1_000_000_000 * b <= c * (share + 1) + 500_000_000) by (nonlinear_arith)
        requires
            c * parts <= c * ((share + 1) * cube),
            b * (1_000_000_000 * cube) <= c * parts + 500_000_000 * cube,
            cube > 0,
    ;
}

/// The budget is split evenly, in whole messages, but nobody gets fewer than six a minute.
pub proof fn law_budget_is_split_evenly(budget: int, n: nat)
    requires
        0 <= budget,
        0 < n,
    ensures
        cap_of(budget, n) >= 6,
        cap_of(budget, n) > 6 ==> n * cap_of(budget, n) <= budget,
        budget < n * (cap_of(budget, n) + 1),
        cap_of(budget, 0) == if budget >= 6 {
            budget
        } else {
            6
        },
{
    let q = budget / (n as int);
    assert(n * q <= budget < n * (q + 1)) by (nonlinear_arith)
        requires
            q == budget / (n as int),
            n > 0,
    ;
    let c = cap_of(budget, n);
    assert(n * (q + 1) <= n * (c + 1)) by (nonlinear_arith)
        requires
            q <= c,
            n > 0,
    ;
}

/// What flows in: in each direction a millisecond brings as many parts as the price allows messages a
/// minute, 60000 parts make a message, and no more than a minute's worth is kept. A clock that runs back
/// brings nothing.
#[verifier::rlimit(40)]
pub proof fn law_tokens_flow_in(q: SenderQuota, cap: int, now_ms: i64, send: bool)
    requires
        6 <= cap <= u32::MAX,
        q.send_tokens <= MOST_PARTS,
        q.recv_tokens <= MOST_PARTS,
    ensures
        ({
            let (before, after) = (q.tokens(send), q.refilled(cap, now_ms).tokens(send));
            let sum = before + if now_ms >= q.last_refill_ms {
                (now_ms - q.last_refill_ms) * cap
            } else {
                0
            };
            &&& sum <= 60_000 * cap ==> after == sum
            &&& sum > 60_000 * cap ==> after == 60_000 * cap
        }),
        q.refilled(cap, now_ms).peer == q.peer,
        now_ms >= q.last_refill_ms ==> q.refilled(cap, now_ms).last_refill_ms == now_ms,
        now_ms < q.last_refill_ms ==> q.refilled(cap, now_ms).last_refill_ms == q.last_refill_ms,
        q.tokens(true) == q.send_tokens && q.tokens(false) == q.recv_tokens,
{
    let e = q.elapsed(now_ms);
    assert(e * cap >= 0) by (nonlinear_arith)
        requires
            e >= 0,
            cap >= 6,
    ;
    assert(0 * cap == 0) by (nonlinear_arith);
}

/// A request is granted if and only if the stranger is known and has a message's worth of tokens left after
/// what flowed in. It then costs that stranger one message's worth in that direction, and nobody else
/// anything.
pub proof fn law_request_costs_one_message(
    state: GovernorState,
    peer: NodeId,
    now_ms: i64,
    send: bool,
    i: int,
)
    requires
        quotas_valid(state.senders),
        0 <= i < state.senders.len(),
        state.senders[i].peer == peer,
    ensures
        ({
            let have = state.senders[i].refilled(state.cap(), now_ms);
            let after = state.after_request(peer, now_ms, send).senders;
            &&& state.allows(peer, now_ms, send) <==> have.tokens(send) >= 60_000
            &&& after.len() == state.senders.len()
            &&& after[i].peer == peer
            &&& after[i].tokens(!send) == have.tokens(!send)
            &&& have.tokens(send) >= 60_000 ==> after[i].tokens(send) == have.tokens(send) - 60_000
            &&& have.tokens(send) < 60_000 ==> after[i] == have
            &&& forall|j: int|
                0 <= j < after.len() && j != i ==> #[trigger] after[j] == state.senders[j].refilled(
                    state.cap(),
                    now_ms,
                )
        }),
{
    assert(registered_at(state.senders, peer, i));
    assert forall|j: int| #[trigger] registered_at(state.senders, peer, j) implies j == i by {
        if j < i {
            assert(state.senders[j].peer != state.senders[i].peer);
        } else if i < j {
            assert(state.senders[i].peer != state.senders[j].peer);
        }
    }
    assert(state.refilled(now_ms)[i] == state.senders[i].refilled(state.cap(), now_ms));
}

/// One who is let go is gone, and everyone else stays as they were.
pub proof fn law_only_that_stranger_goes(s: Seq<SenderQuota>, peer: NodeId, q: SenderQuota)
    requires
        quotas_valid(s),
    ensures
        without_sender(s, peer).contains(q) <==> s.contains(q) && q.peer != peer,
{
    if registered(s, peer) {
        let k = choose|i: int| #[trigger] registered_at(s, peer, i);
        let after = s.remove(k);
        if after.contains(q) {
            let i = choose|i: int| 0 <= i < after.len() && after[i] == q;
            let m = if i < k { i } else { i + 1 };
            assert(s[m] == q);
            assert(s[k].peer == peer);
        }
        if s.contains(q) && q.peer != peer {
            let m = choose|m: int| 0 <= m < s.len() && s[m] == q;
            let i = if m < k { m } else { m - 1 };
            assert(after[i] == q);
        }
    } else if s.contains(q) {
        let i = choose|i: int| 0 <= i < s.len() && s[i] == q;
        assert(!registered_at(s, peer, i));
    }
}

} // verus!
