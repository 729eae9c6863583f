//! The share of a node's capacity that strangers get.
use dc_core::governor::{RelayGovernor, STRANGER_SHARE_FLOOR, STRANGER_SHARE_FULL};

#[test]
fn full_share_is_15_percent() {
    let g = RelayGovernor::new(120);
    assert_eq!(g.share(), STRANGER_SHARE_FULL);
    assert_eq!(g.budget_per_min(), 18);
}

#[test]
fn battery_curve_is_continuous_and_lands_on_floor() {
    let mut g = RelayGovernor::new(120);
    let mut prev = g.share();
    let mut prev_batt = 100u8;
    for b in (1..=100).rev() {
        g.set_battery(Some(b), false);
        let share = g.share();
        assert!(prev.abs_diff(share) < 10_000_000);
        assert!((STRANGER_SHARE_FLOOR..=STRANGER_SHARE_FULL).contains(&share));
        assert!(share <= prev);
        prev = share;
        prev_batt = b;
    }
    assert_eq!(prev_batt, 1);
    assert_eq!(g.share(), STRANGER_SHARE_FLOOR);
}

#[test]
fn curve_midpoint_is_between_floor_and_full() {
    let mut g = RelayGovernor::new(120);
    g.set_battery(Some(20), false);
    let share = g.share();
    assert!(share > STRANGER_SHARE_FLOOR && share < STRANGER_SHARE_FULL);
    assert_eq!(g.budget_per_min(), (120.0 * share as f64 / 1e9).round() as u32);
}

#[test]
fn charging_low_battery_stays_full() {
    let mut g = RelayGovernor::new(120);
    g.set_battery(Some(10), true);
    assert_eq!(g.share(), STRANGER_SHARE_FULL);
}

#[test]
fn full_load_lands_on_floor() {
    let mut g = RelayGovernor::new(120);
    g.set_battery(Some(100), false);
    g.set_load(Some(1_000_000));
    assert_eq!(g.share(), STRANGER_SHARE_FLOOR);
    g.set_load(Some(500_000));
    assert_eq!(g.share(), STRANGER_SHARE_FULL);
}

#[test]
fn per_sender_cap_degrades_to_floor_as_crowd_grows() {
    let mut g = RelayGovernor::new(120);
    assert_eq!(g.per_sender_cap(), 18);
    for i in 0..6u8 {
        g.register_sender([i; 32], 1000);
    }
    assert_eq!(g.per_sender_cap(), 6);
    for i in 6..20u8 {
        g.register_sender([i; 32], 1000);
    }
    assert_eq!(g.per_sender_cap(), 6);
}

#[test]
fn send_tokens_refill_per_minute_and_block_bursts() {
    let mut g = RelayGovernor::new(40);
    g.register_sender([1; 32], 0);
    for _ in 0..6 {
        assert!(g.allow_send(&[1; 32], 1_000));
    }
    assert!(!g.allow_send(&[1; 32], 1_000));
    for _ in 0..6 {
        assert!(g.allow_send(&[1; 32], 61_000));
    }
    assert!(!g.allow_send(&[1; 32], 61_000));
}

#[test]
fn send_and_recv_are_independent_buckets() {
    let mut g = RelayGovernor::new(40);
    g.register_sender([1; 32], 0);
    for _ in 0..6 {
        assert!(g.allow_send(&[1; 32], 1_000));
    }
    assert!(!g.allow_send(&[1; 32], 1_000));
    assert!(g.allow_recv(&[1; 32], 1_000));
}

#[test]
fn degradation_clamps_existing_tokens_immediately() {
    let mut g = RelayGovernor::new(40);
    g.register_sender([1; 32], 0);
    for _ in 0..6 {
        assert!(g.allow_send(&[1; 32], 1_000));
    }
    g.set_battery(Some(2), false);
    assert!(!g.allow_send(&[1; 32], 1_100));
}

#[test]
fn the_budget_is_rounded_once() {
    let mut g = RelayGovernor::new(1_000_000_000);
    g.set_battery(Some(20), false);
    assert_eq!(g.share(), 77_230_320);
    assert_eq!(g.budget_per_min(), 77_230_321);
    g.set_battery(Some(100), false);
    assert_eq!(g.budget_per_min(), 150_000_000);
    g.set_load(Some(1_000_000));
    assert_eq!(g.budget_per_min(), 30_000_000);
    // Half of the curve on either side gives the same: nine percent.
    g.set_load(Some(800_000));
    assert_eq!(g.budget_per_min(), 90_000_000);
    let mut most = RelayGovernor::new(u32::MAX);
    most.set_load(Some(0));
    assert_eq!(most.budget_per_min(), 644_245_094);
}
