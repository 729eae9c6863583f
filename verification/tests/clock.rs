//! The internal clock.
use dc_core::clock::{
    ClockError, InternalClock, Source, MAX_CORRECTION_MS, MAX_PLAUSIBLE_LOCAL_MS, NETWORK_FRESH_MS,
};

#[test]
fn peer_exchange_offset_math() {
    let mut c = InternalClock::new();
    c.trust_peer([1; 32]);
    let off = c.on_peer_exchange([1; 32], 0, 5_100, 5_200, 300).unwrap();
    assert_eq!(off, 5_000);
}

#[test]
fn absurd_rtt_rejected() {
    let mut c = InternalClock::new();
    c.trust_peer([1; 32]);
    assert_eq!(c.on_peer_exchange([1; 32], 0, 100, 200, 60_000), Err(ClockError::RttTooLarge));
    c.trust_peer([1; 32]);
    assert_eq!(c.on_peer_exchange([1; 32], 0, 200, 100, 300), Err(ClockError::RttTooLarge));
}

#[test]
fn quorum_required_before_peer_offset_applies() {
    let mut c = InternalClock::new();
    let t = 1_000_000i64;
    c.trust_peer([1; 32]);
    c.on_peer_exchange([1; 32], t, t + 5_000, t + 5_300, t + 300).unwrap();
    c.trust_peer([2; 32]);
    c.on_peer_exchange([2; 32], t, t + 5_000, t + 5_300, t + 300).unwrap();
    assert_eq!(c.source(t + 1_000), Source::Unsynced);
    assert_eq!(c.now(t + 1_000), t + 1_000);
    c.trust_peer([3; 32]);
    c.on_peer_exchange([3; 32], t, t + 5_000, t + 5_300, t + 300).unwrap();
    assert_eq!(c.source(t + 2_000), Source::Peers);
    assert!((c.now(t + 2_000) - (t + 2_000 + 5_000)).abs() <= 1);
}

#[test]
fn poison_peer_cannot_shift_clock() {
    let mut c = InternalClock::new();
    let t = 1_700_000_000_000i64;
    for p in 1..=3u8 {
        c.trust_peer([p; 32]);
        c.on_peer_exchange([p; 32], t, t + 5_000, t + 5_300, t + 300).unwrap();
    }
    c.trust_peer([9; 32]);
    c.on_peer_exchange([9; 32], t, t + MAX_CORRECTION_MS, t + MAX_CORRECTION_MS + 100, t + 400).unwrap();
    assert!((c.now(t + 1_000) - (t + 1_000 + 5_000)).abs() <= 1);
}

#[test]
fn two_poison_clusters_mean_no_quorum() {
    let mut c = InternalClock::new();
    let t = 1_700_000_000_000i64;
    for p in 1..=2u8 {
        c.trust_peer([p; 32]);
        c.on_peer_exchange([p; 32], t, t + 5_000, t + 5_300, t + 300).unwrap();
    }
    for p in 10..=12u8 {
        c.trust_peer([p; 32]);
        c.on_peer_exchange([p; 32], t, t + 86_400_000, t + 86_400_100, t + 300).unwrap();
    }
    assert!(c.source(t + 1_000) == Source::Peers);
}

#[test]
fn single_network_source_never_accepted() {
    let mut c = InternalClock::new();
    let t = 1_700_000_000_000i64;
    c.on_network_sync(1, t, t + 60_000);
    assert_eq!(c.source(t + 1_000), Source::Unsynced);
    assert_eq!(c.now(t + 1_000), t + 1_000);
    c.on_network_sync(2, t + 1_500, t + 1_500 + 60_000);
    assert_eq!(c.source(t + 2_000), Source::Network);
    assert_eq!(c.now(t + 2_000), t + 2_000 + 60_000);
}

#[test]
fn large_network_shift_requires_peer_quorum() {
    let mut c = InternalClock::new();
    let t = 1_700_000_000_000i64;
    c.on_network_sync(1, t, t - 20 * 60_000);
    c.on_network_sync(2, t, t - 20 * 60_000);
    assert_eq!(c.source(t + 1_000), Source::Unsynced);
    assert_eq!(c.now(t + 1_000), t + 1_000);
}

#[test]
fn conflicting_network_sources_both_rejected() {
    let mut c = InternalClock::new();
    let t = 1_700_000_000_000i64;
    c.on_network_sync(1, t, t + 3_600_000);
    c.on_network_sync(2, t, t + 86_400_000);
    assert_eq!(c.source(t + 1_000), Source::Unsynced);
    assert_eq!(c.now(t + 1_000), t + 1_000);
}

#[test]
fn network_overrides_peers_when_fresh() {
    let mut c = InternalClock::new();
    let t = 1_700_000_000_000i64;
    c.trust_peer([1; 32]);
    c.on_peer_exchange([1; 32], t, t + 60_000, t + 60_100, t + 300).unwrap();
    c.trust_peer([2; 32]);
    c.on_peer_exchange([2; 32], t, t + 60_000, t + 60_100, t + 300).unwrap();
    c.trust_peer([3; 32]);
    c.on_peer_exchange([3; 32], t, t + 60_000, t + 60_100, t + 300).unwrap();
    assert_eq!(c.source(t + 400), Source::Peers);
    c.on_network_sync(1, t + 500, t + 500 + 60_000);
    c.on_network_sync(2, t + 550, t + 550 + 60_000);
    assert_eq!(c.source(t + 600), Source::Network);
    assert_eq!(c.now(t + 600), t + 600 + 60_000);
}

#[test]
fn network_staleness_falls_back_to_peers() {
    let mut c = InternalClock::new();
    let t = 1_700_000_000_000i64;
    c.on_network_sync(1, t, t + 1_000);
    c.on_network_sync(2, t, t + 1_000);
    let late = t + NETWORK_FRESH_MS + 1_000;
    for p in 1..=3u8 {
        c.trust_peer([p; 32]);
        c.on_peer_exchange([p; 32], late - 400, late - 300, late - 200, late - 100).unwrap();
    }
    assert_eq!(c.source(late), Source::Peers);
}

#[test]
fn high_water_never_goes_backwards() {
    let mut c = InternalClock::new();
    c.restore_high_water(5_000_000);
    assert_eq!(c.now(100), 5_000_000);
    assert_eq!(c.now(200), 5_000_000);
    assert!(c.now(6_000_000) > 5_000_000);
}

#[test]
fn network_offset_is_clamped() {
    let mut c = InternalClock::new();
    let t = 1_700_000_000_000i64;
    for p in 1..=3u8 {
        c.trust_peer([p; 32]);
        c.on_peer_exchange(
            [p; 32],
            t,
            t + MAX_CORRECTION_MS + 100,
            t + MAX_CORRECTION_MS + 150,
            t + 250,
        )
        .unwrap();
    }
    assert_eq!(c.now(t + 1_000), t + 1_000 + MAX_CORRECTION_MS);
}

#[test]
fn red_a1_poison_local_ms_never_pins_high_water() {
    let t = 1_700_000_000_000i64;
    let mut c = InternalClock::new();
    assert_eq!(c.now(t), t);
    let poisoned = c.now(i64::MAX);
    assert_eq!(poisoned, i64::MAX);
    assert!(c.high_water_ms() <= MAX_PLAUSIBLE_LOCAL_MS as u64);
    assert_eq!(c.now(t + 1_000), t + 1_000);
    assert_eq!(c.high_water_ms(), (t + 1_000) as u64);
    let mut c2 = InternalClock::new();
    let _ = c2.now(i64::MAX);
    assert_eq!(c2.high_water_ms(), 0);
    assert_eq!(c2.now(t + 2_000), t + 2_000);
    let mut c3 = InternalClock::new();
    let _ = c3.now(MAX_PLAUSIBLE_LOCAL_MS);
    assert_eq!(c3.high_water_ms(), 0);
}

#[test]
fn red_a2_offset_change_during_rollback_keeps_high_water() {
    let t = 1_700_000_000_000i64;
    let mut c = InternalClock::new();
    assert_eq!(c.now(t), t);
    c.on_network_sync(1, t + 60_000, t + 60_000 - 120_000);
    c.on_network_sync(2, t + 60_000, t + 60_000 - 120_000);
    let rolled = t - 3_600_000;
    assert_eq!(c.now(rolled), t);
    assert!(c.high_water_ms() >= t as u64);
    let mut c2 = InternalClock::new();
    c2.trust_peer([1; 32]);
    c2.trust_peer([2; 32]);
    c2.trust_peer([3; 32]);
    for p in 1..=3u8 {
        c2.on_peer_exchange(
            [p; 32],
            t,
            t + MAX_CORRECTION_MS + 100,
            t + MAX_CORRECTION_MS + 150,
            t + 250,
        )
        .unwrap();
    }
    assert_eq!(c2.now(t + 1_000), t + 1_000 + MAX_CORRECTION_MS);
    assert_eq!(c2.high_water_ms(), (t + 1_000 + MAX_CORRECTION_MS) as u64);
    let later = t + NETWORK_FRESH_MS + 31 * 60_000;
    assert_eq!(c2.now(later), later);
    assert_eq!(c2.high_water_ms(), later as u64);
}

#[test]
fn red_a3_stale_pending_slot_expires_and_fresh_pair_adopts() {
    let t = 1_700_000_000_000i64;
    let mut c = InternalClock::new();
    c.on_network_sync(1, t, t + 120_000);
    c.on_network_sync(2, t + 200_000, t + 200_000);
    assert_eq!(c.now(t + 201_000), t + 201_000);
    c.on_network_sync(1, t + 201_000, t + 201_000 + 120_000);
    c.on_network_sync(2, t + 501_002, t + 501_002);
    c.on_network_sync(1, t + 501_003, t + 501_003);
    assert_eq!(c.source(t + 502_000), Source::Network);
    assert_eq!(c.now(t + 502_000), t + 502_000);
}

#[test]
fn red_a10_peak_cluster_extreme_inputs_no_panic() {
    let mut c = InternalClock::new();
    c.trust_peer([1; 32]);
    c.trust_peer([2; 32]);
    c.trust_peer([3; 32]);
    let t = 1_700_000_000_000i64;
    for p in 1..=3u8 {
        c.on_peer_exchange([p; 32], t, t + 5_000, t + 5_100, t + 300).unwrap();
    }
    let _ = c.source(i64::MIN);
    let _ = c.source(i64::MAX);
    let _ = c.now(i64::MIN);
    let v = c.now(i64::MIN);
    assert!((0..=MAX_CORRECTION_MS).contains(&v));
}

#[test]
fn a_new_clock_saw_no_rollback() {
    let mut c = InternalClock::default();
    assert!(!c.rollback_detected());
    c.now(1_700_000_000_000);
    c.now(1_600_000_000_000);
    assert_eq!(c.rollback_detected(), c.rollback_detected);
    assert!(c.rollback_detected());
}
