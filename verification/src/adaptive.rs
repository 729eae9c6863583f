//! The load policy: three tiers, chosen by the size of groups and the rate of messages.
//!
//! A tier only affects how messages travel. Rising is immediate and may skip a tier; falling
//! goes one tier at a time, each after a run of quiet samples.
use vstd::arithmetic::power2::{lemma2_to64, lemma_pow2_adds, lemma_pow2_pos, pow2};
use vstd::prelude::*;
use crate::single::{
    finite, four_times, greater, is_greater, law_finite_numbers_are_bounded, parts, quadruple, quantity,
    Parts, Quantity,
};

verus! {

/// Group size above which the load is medium.
pub const DEFAULT_GROUP_MEDIUM: u32 = 50;

/// Messages per second above which the load is medium: the bits of the single-precision number
/// twenty.
pub const DEFAULT_RATE_MEDIUM: u32 = 0x41a0_0000;

/// Quiet samples in a row before the tier falls.
pub const DEFAULT_DEMOTE_SAMPLES: u32 = 5;

#[derive(Debug, Clone, Copy, PartialEq, Eq, PartialOrd, Ord, Structural)]
pub enum Tier {
    Light,
    Medium,
    Heavy,
}

impl Tier {
    /// The place of the tier, lightest first.
    pub open spec fn rank(self) -> int {
        match self {
            Tier::Light => 0,
            Tier::Medium => 1,
            Tier::Heavy => 2,
        }
    }

    /// The next lighter tier.
    pub open spec fn lighter(self) -> Tier {
        match self {
            Tier::Heavy => Tier::Medium,
            _ => Tier::Light,
        }
    }

    /// The tier's name.
    pub fn as_str(self) -> (r: &'static str)
        ensures
            r@ == match self {
                Tier::Light => "轻载"@,
                Tier::Medium => "中载"@,
                Tier::Heavy => "重载"@,
            },
    {
        match self {
            Tier::Light => "轻载",
            Tier::Medium => "中载",
            Tier::Heavy => "重载",
        }
    }

    fn level(self) -> (r: u8)
        ensures
            r == self.rank(),
    {
        match self {
            Tier::Light => 0,
            Tier::Medium => 1,
            Tier::Heavy => 2,
        }
    }
}

/// Where the tiers begin. Rates are the bits of single-precision numbers.
#[derive(Debug, Clone, Copy, PartialEq)]
pub struct Thresholds {
    pub group_medium: u32,
    pub rate_medium: u32,
    /// Quiet samples in a row before the tier falls.
    pub demote_samples: u32,
}

impl Thresholds {
    /// Where the tiers begin unless they are set otherwise.
    pub open spec fn standard() -> Thresholds {
        Thresholds {
            group_medium: DEFAULT_GROUP_MEDIUM,
            rate_medium: DEFAULT_RATE_MEDIUM,
            demote_samples: DEFAULT_DEMOTE_SAMPLES,
        }
    }
}

impl Default for Thresholds {
    fn default() -> (r: Thresholds)
        ensures
            r == Thresholds::standard(),
    {
        Thresholds {
            group_medium: DEFAULT_GROUP_MEDIUM,
            rate_medium: DEFAULT_RATE_MEDIUM,
            demote_samples: DEFAULT_DEMOTE_SAMPLES,
        }
    }
}

/// One sample of the load. The rate is the bits of a single-precision number.
#[derive(Debug, Clone, Copy)]
pub struct Metrics {
    pub group_size: u32,
    pub msg_rate: u32,
}

/// The rate that a sample stands for. One that is not finite counts as endless: a broken meter
/// must not look like a quiet line.
pub open spec fn sampled_rate(bits: u32) -> Quantity {
    if finite(bits) {
        quantity(bits)
    } else {
        Quantity::PosInfinity
    }
}

/// The tier that a sample asks for: the middle one above either threshold, the highest one above
/// four times either.
pub open spec fn demanded_tier(t: Thresholds, m: Metrics) -> Tier {
    let rate = sampled_rate(m.msg_rate);
    let four_groups = if 4 * t.group_medium > u32::MAX {
        u32::MAX as int
    } else {
        4 * t.group_medium
    };
    if m.group_size > four_groups || greater(rate, quadruple(quantity(t.rate_medium))) {
        Tier::Heavy
    } else if m.group_size > t.group_medium || greater(rate, quantity(t.rate_medium)) {
        Tier::Medium
    } else {
        Tier::Light
    }
}

/// Chooses the tier from sample to sample.
#[derive(Debug)]
pub struct PolicyEngine {
    pub thresholds: Thresholds,
    /// A tier that the user has fixed. Samples are then ignored.
    pub locked: Option<Tier>,
    current: Tier,
    below_count: u32,
}

/// The state that the engine's choices depend on.
pub struct PolicyState {
    pub thresholds: Thresholds,
    pub locked: Option<Tier>,
    /// The tier that the samples led to.
    pub tier: Tier,
    /// The quiet samples in a row so far.
    pub quiet: u32,
}

impl View for PolicyEngine {
    type V = PolicyState;

    closed spec fn view(&self) -> PolicyState {
        PolicyState {
            thresholds: self.thresholds,
            locked: self.locked,
            tier: self.current,
            quiet: self.below_count,
        }
    }
}

impl PolicyEngine {
    /// The invariant of the engine.
    pub open spec fn wf(self) -> bool {
        self@.quiet < u32::MAX
    }

    /// The thresholds that samples are held against.
    pub fn thresholds(&self) -> (r: &Thresholds)
        ensures
            *r == self@.thresholds,
    {
        &self.thresholds
    }

    /// The tier that the user has fixed, if there is one.
    pub fn locked(&self) -> (r: Option<Tier>)
        ensures
            r == self@.locked,
    {
        self.locked
    }

    /// Fixes a tier, or leaves the choice to the samples again.
    pub fn lock_to(&mut self, tier: Option<Tier>)
        ensures
            final(self)@ == (PolicyState { locked: tier, ..old(self)@ }),
    {
        self.locked = tier;
    }

    pub fn new(thresholds: Thresholds) -> (r: PolicyEngine)
        ensures
            r.wf(),
            r@ == (PolicyState { thresholds, locked: None, tier: Tier::Light, quiet: 0 }),
    {
        PolicyEngine { thresholds, locked: None, current: Tier::Light, below_count: 0 }
    }

    /// The tier in force.
    pub fn current(&self) -> (r: Tier)
        ensures
            r == match self@.locked {
                Some(t) => t,
                None => self@.tier,
            },
    {
        match self.locked {
            Some(t) => t,
            None => self.current,
        }
    }

    fn demanded(&self, m: Metrics) -> (r: Tier)
        ensures
            r == demanded_tier(self@.thresholds, m),
    {
        let medium: Parts = parts(self.thresholds.rate_medium);
        let rate: Parts = match parts(m.msg_rate) {
            Parts::Finite { negative, m, a } => Parts::Finite { negative, m, a },
            _ => Parts::Infinite { negative: false },
        };
        let groups: u32 = self.thresholds.group_medium;
        let four_groups: u32 = if groups > u32::MAX / 4 {
            u32::MAX
        } else {
            4 * groups
        };
        if m.group_size > four_groups || is_greater(rate, four_times(medium)) {
            Tier::Heavy
        } else if m.group_size > groups || is_greater(rate, medium) {
            Tier::Medium
        } else {
            Tier::Light
        }
    }

    /// Takes a sample and says which tier holds from now on.
    pub fn observe(&mut self, m: Metrics) -> (r: Tier)
        requires
            old(self).wf(),
        ensures
            final(self).wf(),
            match old(self)@.locked {
                Some(t) => r == t && final(self)@ == old(self)@,
                None => {
                    let next = next_tier(
                        old(self)@.tier,
                        old(self)@.quiet,
                        demanded_tier(old(self)@.thresholds, m),
                        old(self)@.thresholds.demote_samples,
                    );
                    &&& r == next.0
                    &&& final(self)@ == (PolicyState {
                        tier: next.0,
                        quiet: next.1,
                        ..old(self)@
                    })
                },
            },
    {
        if self.locked.is_some() {
            return self.current();
        }
        let want: Tier = self.demanded(m);
        if want.level() > self.current.level() {
            self.current = want;
            self.below_count = 0;
        } else if want.level() < self.current.level() {
            self.below_count = self.below_count + 1;
            if self.below_count >= self.thresholds.demote_samples {
                self.current = match self.current {
                    Tier::Heavy => Tier::Medium,
                    Tier::Medium => Tier::Light,
                    Tier::Light => Tier::Light,
                };
                self.below_count = 0;
            }
        } else {
            self.below_count = 0;
        }
        self.current
    }
}

/// The tier and the count of quiet samples after a sample that asks for `want`.
pub open spec fn next_tier(tier: Tier, quiet: u32, want: Tier, demote_samples: u32) -> (Tier, u32) {
    if want.rank() > tier.rank() {
        (want, 0)
    } else if want.rank() == tier.rank() {
        (tier, 0)
    } else if quiet + 1 >= demote_samples {
        (tier.lighter(), 0)
    } else {
        (tier, (quiet + 1) as u32)
    }
}

/// The tier rises at once to what is asked for, and falls by one at most.
pub proof fn law_rise_at_once_fall_by_one(tier: Tier, quiet: u32, want: Tier, demote_samples: u32)
    ensures
        next_tier(tier, quiet, want, demote_samples).0.rank() >= want.rank(),
        next_tier(tier, quiet, want, demote_samples).0.rank() >= tier.rank() - 1,
        want.rank() > tier.rank() ==> next_tier(tier, quiet, want, demote_samples).0 == want,
{
}

/// The tier and the count of quiet samples after a number of samples.
pub open spec fn tier_after(start: (Tier, u32), wants: Seq<Tier>, demote_samples: u32) -> (Tier, u32)
    decreases wants.len(),
{
    if wants.len() == 0 {
        start
    } else {
        let before = tier_after(start, wants.drop_last(), demote_samples);
        next_tier(before.0, before.1, wants.last(), demote_samples)
    }
}

/// A short lull does not change the tier: it falls only after as many quiet samples in a row as
/// the thresholds ask for.
pub proof fn law_short_lull_keeps_the_tier(tier: Tier, wants: Seq<Tier>, demote_samples: u32)
    requires
        wants.len() < demote_samples,
        forall|i: int| 0 <= i < wants.len() ==> (#[trigger] wants[i]).rank() < tier.rank(),
    ensures
        tier_after((tier, 0), wants, demote_samples) == (tier, wants.len() as u32),
    decreases wants.len(),
{
    if wants.len() > 0 {
        let front = wants.drop_last();
        assert forall|i: int| 0 <= i < front.len() implies (#[trigger] front[i]).rank() < tier.rank() by {
            assert(wants[i].rank() < tier.rank());
        }
        law_short_lull_keeps_the_tier(tier, front, demote_samples);
        assert(wants[wants.len() - 1].rank() < tier.rank());
    }
}

/// A long enough lull brings the tier down by one.
pub proof fn law_long_lull_lowers_the_tier(tier: Tier, wants: Seq<Tier>, demote_samples: u32)
    requires
        wants.len() == demote_samples,
        demote_samples > 0,
        forall|i: int| 0 <= i < wants.len() ==> (#[trigger] wants[i]).rank() < tier.rank(),
    ensures
        tier_after((tier, 0), wants, demote_samples) == (tier.lighter(), 0u32),
{
    let front = wants.drop_last();
    assert forall|i: int| 0 <= i < front.len() implies (#[trigger] front[i]).rank() < tier.rank() by {
        assert(wants[i].rank() < tier.rank());
    }
    law_short_lull_keeps_the_tier(tier, front, demote_samples);
    assert(wants[wants.len() - 1].rank() < tier.rank());
}

/// A rate that is not a number asks for the highest tier, as long as four times the threshold is
/// in range.
pub proof fn law_broken_meter_means_heavy(t: Thresholds, m: Metrics)
    requires
        !finite(m.msg_rate),
        quadruple(quantity(t.rate_medium)) is Finite,
    ensures
        demanded_tier(t, m) == Tier::Heavy,
{
}

/// A sample asks for the highest tier if and only if its group has more than four times as many
/// members as the threshold, or its rate is more than four times the threshold; it asks for the lowest
/// one if and only if neither is above its threshold. A threshold below zero has no lowest tier of its
/// own: four times it lies below it.
pub proof fn law_tiers_begin_at_the_thresholds(t: Thresholds, m: Metrics, rate: int, limit: int)
    requires
        quantity(m.msg_rate) == Quantity::Finite(rate),
        quantity(t.rate_medium) == Quantity::Finite(limit),
    ensures
        demanded_tier(t, m) == Tier::Heavy <==> m.group_size > 4 * t.group_medium || rate > 4 * limit,
        demanded_tier(t, m) == Tier::Light <==> m.group_size <= t.group_medium && rate <= limit && rate <= 4
            * limit,
        demanded_tier(t, m) == Tier::Medium <==> m.group_size <= 4 * t.group_medium && rate <= 4 * limit
            && (m.group_size > t.group_medium || rate > limit),
{
    assert(finite(m.msg_rate));
    law_finite_numbers_are_bounded(m.msg_rate);
    lemma_pow2_pos(277);
}

/// As long as the rate stays below its threshold the size of the group decides alone, whatever the
/// thresholds are.
pub proof fn law_group_decides_at_a_quiet_rate(t: Thresholds, m: Metrics, rate: int, limit: int)
    requires
        quantity(m.msg_rate) == Quantity::Finite(rate),
        quantity(t.rate_medium) == Quantity::Finite(limit),
        rate <= limit,
        0 <= limit,
    ensures
        (demanded_tier(t, m) == Tier::Heavy) == (m.group_size > 4 * t.group_medium),
        (demanded_tier(t, m) == Tier::Medium) == (t.group_medium < m.group_size <= 4 * t.group_medium),
        (demanded_tier(t, m) == Tier::Light) == (m.group_size <= t.group_medium),
{
    assert(finite(m.msg_rate));
}

/// More load never asks for a lighter tier.
pub proof fn law_more_load_asks_for_no_less(t: Thresholds, m: Metrics, n: Metrics)
    requires
        m.group_size <= n.group_size,
        finite(m.msg_rate),
        finite(n.msg_rate),
        quantity(m.msg_rate)->Finite_0 <= quantity(n.msg_rate)->Finite_0,
    ensures
        demanded_tier(t, m).rank() <= demanded_tier(t, n).rank(),
{
}

/// What a sample does to the tier: what it asks for counts at once when it is more; when it is as much,
/// the lull is over; when it is less, the tier goes down by one as soon as enough samples in a row asked
/// for less, and the lull goes on until then.
pub proof fn law_tier_goes_up_at_once_and_down_after_a_lull(
    tier: Tier,
    quiet: u32,
    want: Tier,
    demote_samples: u32,
)
    requires
        quiet < u32::MAX,
    ensures
        ({
            let (next, lull) = next_tier(tier, quiet, want, demote_samples);
            &&& want.rank() >= tier.rank() ==> next == want && lull == 0
            &&& want.rank() < tier.rank() && quiet + 1 < demote_samples ==> next == tier && lull == quiet
                + 1
            &&& want.rank() < tier.rank() && quiet + 1 >= demote_samples ==> next.rank() == tier.rank()
                - 1 && lull == 0
        }),
        Tier::Light.rank() < Tier::Medium.rank() < Tier::Heavy.rank(),
{
}

/// Unless they are set otherwise, the middle tier begins above a group of fifty or twenty messages a second,
/// and five quiet samples lower a tier. A rate counts in units of the smallest number, of which `2^149` make
/// one.
#[verifier::rlimit(40)]
pub proof fn law_standard_thresholds(m: Metrics, rate: int)
    requires
        quantity(m.msg_rate) == Quantity::Finite(rate),
    ensures
        Thresholds::standard().demote_samples == 5,
        demanded_tier(Thresholds::standard(), m) == Tier::Light <==> m.group_size <= 50 && rate <= 20
            * pow2(149),
        demanded_tier(Thresholds::standard(), m) == Tier::Heavy <==> m.group_size > 200 || rate > 80
            * pow2(149),
{
    let t = Thresholds::standard();
    let limit = 20 * pow2(149);
    let p = pow2(130);
    lemma2_to64();
    lemma_pow2_adds(19, 130);
    lemma_pow2_pos(149);
    assert(0xa0_0000 * p == 20 * (0x8_0000 * p)) by (nonlinear_arith);
    assert(quantity(t.rate_medium) == Quantity::Finite(limit as int));
    law_tiers_begin_at_the_thresholds(t, m, rate, limit as int);
}

} // verus!
