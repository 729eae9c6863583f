//! The load tiers.
use dc_core::adaptive::{Metrics, PolicyEngine, Thresholds, Tier};

fn engine() -> PolicyEngine {
    PolicyEngine::new(Thresholds::default())
}

#[test]
fn light_by_default() {
    let mut e = engine();
    assert_eq!(e.observe(Metrics { group_size: 10, msg_rate: f32::to_bits(1.0) }), Tier::Light);
}

#[test]
fn promotes_on_group_size_or_rate() {
    let mut e = engine();
    assert_eq!(e.observe(Metrics { group_size: 60, msg_rate: f32::to_bits(1.0) }), Tier::Medium);
    let mut e2 = engine();
    assert_eq!(e2.observe(Metrics { group_size: 10, msg_rate: f32::to_bits(25.0) }), Tier::Medium);
}

#[test]
fn promotes_to_heavy_at_4x() {
    let mut e = engine();
    assert_eq!(e.observe(Metrics { group_size: 201, msg_rate: f32::to_bits(1.0) }), Tier::Heavy);
    let mut e2 = engine();
    assert_eq!(e2.observe(Metrics { group_size: 10, msg_rate: f32::to_bits(100.0) }), Tier::Heavy);
}

#[test]
fn demotion_requires_sustained_low_per_level() {
    let mut e = engine();
    assert_eq!(e.observe(Metrics { group_size: 201, msg_rate: f32::to_bits(1.0) }), Tier::Heavy);
    for _ in 0..4 {
        assert_eq!(e.observe(Metrics { group_size: 10, msg_rate: f32::to_bits(1.0) }), Tier::Heavy);
    }
    assert_eq!(e.observe(Metrics { group_size: 10, msg_rate: f32::to_bits(1.0) }), Tier::Medium);
    for _ in 0..4 {
        assert_eq!(e.observe(Metrics { group_size: 10, msg_rate: f32::to_bits(1.0) }), Tier::Medium);
    }
    assert_eq!(e.observe(Metrics { group_size: 10, msg_rate: f32::to_bits(1.0) }), Tier::Light);
}

#[test]
fn bounce_does_not_flicker() {
    let mut e = engine();
    e.observe(Metrics { group_size: 60, msg_rate: f32::to_bits(1.0) });
    e.observe(Metrics { group_size: 10, msg_rate: f32::to_bits(1.0) });
    assert_eq!(e.observe(Metrics { group_size: 60, msg_rate: f32::to_bits(1.0) }), Tier::Medium);
}

#[test]
fn manual_lock_overrides_metrics() {
    let mut e = engine();
    e.locked = Some(Tier::Heavy);
    assert_eq!(e.observe(Metrics { group_size: 1, msg_rate: f32::to_bits(0.0) }), Tier::Heavy);
    e.locked = Some(Tier::Light);
    assert_eq!(e.observe(Metrics { group_size: 999, msg_rate: f32::to_bits(999.0) }), Tier::Light);
}

#[test]
fn a_fixed_tier_can_be_freed_again() {
    let mut e = PolicyEngine::new(Thresholds::default());
    assert_eq!(e.locked(), None);
    e.lock_to(Some(Tier::Heavy));
    assert_eq!(e.locked(), Some(Tier::Heavy));
    assert_eq!(e.current(), Tier::Heavy);
    e.lock_to(None);
    assert_eq!(e.current(), Tier::Light);
    assert_eq!(e.thresholds().group_medium, Thresholds::default().group_medium);
}
