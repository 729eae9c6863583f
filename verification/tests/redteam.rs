//! Hostile input against the parts of the core.
use dc_core::adaptive::{Metrics, PolicyEngine, Tier};
use dc_core::clock::{InternalClock, Source};
use dc_core::envelope::{frame, unframe, Dedup, Envelope, PayloadKind};
use dc_core::governor::{RelayGovernor, STRANGER_SHARE_FLOOR};
use dc_core::identity::Identity;
use dc_core::mailbox::{derive_mailbox_secret, verify_inbound, BucketWrite, NonceCache};
use dc_core::nodekey::{NodeKeyAnnouncement, NodeKeyRing, DEFAULT_OVERLAP_MS};
use dc_core::queue::Db;
use dc_core::relay::{RelayGuard, RelayTicket, MAX_TICKET_TTL_MS};
use dc_core::retry::RetryPolicy;

const NOW: u64 = 1_700_000_000_000;

fn env_from(sender: [u8; 32], i: u8) -> Envelope {
    Envelope {
        msg_id: [i; 16],
        sender,
        recipient: Some([9; 32]),
        group: None,
        kind: PayloadKind::Text,
        body: vec![b'A' + (i % 20), 1, 2, 3, 4],
        sent_at_ms: NOW,
        ttl_hops: 6,
        sig: None,
    }
}

fn identity(seed: u8) -> Identity {
    Identity::from_seed([seed; 32])
}

#[test]
fn red1_nonce_cache_fifo_eviction_replay() {
    let secret = derive_mailbox_secret(b"redteam-r1", &[7; 32], 1);
    let mut nonces = NonceCache::new(4);
    let mut writes = Vec::new();
    for i in 0..6u8 {
        writes.push(BucketWrite::seal(env_from([1; 32], i), &secret, 1, NOW, [i; 16]));
    }
    for w in &writes {
        verify_inbound(w, &secret, &mut nonces, NOW).unwrap();
    }
    assert!(verify_inbound(&writes[0], &secret, &mut nonces, NOW).is_err());
}

#[test]
fn red2_relay_guard_multi_origin_eviction_replay() {
    let challenge = [0xAA; 32];
    let victim = identity(0x01);
    let dest = identity(0x02);
    let mut live = RelayTicket::new(
        &dest.node_id(),
        &victim.node_id(),
        NOW,
        NOW + 30 * 60_000,
        [1; 16],
        challenge,
    );
    live.sign(&victim).unwrap();
    let mut guard = RelayGuard::new(8);
    assert!(guard.accept(&live, NOW, challenge));
    assert!(!guard.accept(&live, NOW, challenge));
    for i in 0..8u8 {
        let origin = identity(0x80 + i);
        let mut t = RelayTicket::new(
            &dest.node_id(),
            &origin.node_id(),
            NOW,
            NOW + MAX_TICKET_TTL_MS - i as u64,
            [0x20 + i; 16],
            challenge,
        );
        t.sign(&origin).unwrap();
        if i < 7 {
            assert!(guard.accept(&t, NOW, challenge));
        } else {
            assert!(!guard.accept(&t, NOW, challenge));
        }
    }
    assert!(!guard.accept(&live, NOW + 1_000, challenge));
}

#[test]
fn red3_future_issued_ticket_rejected_at_verify() {
    let challenge = [0xBB; 32];
    let dest = identity(0x03);
    let mut guard = RelayGuard::new(8);
    let century_ms = 100u64 * 365 * 24 * 3600 * 1000;
    for i in 0..8u8 {
        let origin = identity(0x90 + i);
        let mut t = RelayTicket::new(
            &dest.node_id(),
            &origin.node_id(),
            NOW + century_ms,
            NOW + century_ms + 3_600_000,
            [0x40 + i; 16],
            challenge,
        );
        t.sign(&origin).unwrap();
        assert!(t.verify(NOW, challenge).is_err());
        assert!(!guard.accept(&t, NOW, challenge));
    }
    let honest = identity(0x04);
    let mut legit = RelayTicket::new(
        &dest.node_id(),
        &honest.node_id(),
        NOW,
        NOW + 3_600_000,
        [0x50; 16],
        challenge,
    );
    legit.sign(&honest).unwrap();
    assert!(guard.accept(&legit, NOW, challenge));
}

#[test]
fn red4_clock_restore_high_water_wrap_negative() {
    let mut c = InternalClock::new();
    c.restore_high_water(u64::MAX);
    let _ = c.now(10_000_000);
    let pinned = c.now(9_000_000);
    assert!(pinned > 0);
    assert!(c.high_water_ms() < u64::MAX);
}

#[test]
fn red5_clock_network_sync_overflow_panic() {
    let mut c = InternalClock::new();
    c.on_network_sync(1, -3_000_000_000_000, i64::MAX);
    assert_eq!(c.source(0), Source::Unsynced);
}

#[test]
fn red6_clock_backward_shift_revives_old_writes() {
    let secret = derive_mailbox_secret(b"redteam-r6", &[7; 32], 1);
    let old_ts = NOW - 20 * 60_000;
    let old_write = BucketWrite::seal(env_from([1; 32], 7), &secret, 1, old_ts, [0x61; 16]);
    assert!(old_write.verify(&secret, NOW).is_err());
    let mut c = InternalClock::new();
    c.on_network_sync(1, NOW as i64, NOW as i64 - 20 * 60_000);
    c.on_network_sync(2, NOW as i64, NOW as i64 - 20 * 60_000);
    let poisoned_now = c.now(NOW as i64) as u64;
    assert!(old_write.verify(&secret, poisoned_now).is_err());
    let mut nonces = NonceCache::new(100);
    assert!(verify_inbound(&old_write, &secret, &mut nonces, poisoned_now).is_err());
}

#[test]
fn red7_queue_seen_ms_negative_prune_replay() {
    let mut db = Db::new();
    let id = [0x71u8; 16];
    assert!(db.record_seen(&id, u64::MAX));
    db.prune_seen(0);
    assert!(!db.record_seen(&id, 0));
}

#[test]
fn red8_queue_fail_reschedule_u64_overflow_panic() {
    let mut db = Db::new();
    db.enqueue(&env_from([1; 32], 1));
    let policy = RetryPolicy::default();
    let _ = db.fail_and_reschedule(&[0x81u8; 16], &policy, u64::MAX);
    let mut db2 = Db::new();
    let id = [0x82u8; 16];
    let mut e = env_from([1; 32], 2);
    e.msg_id = id;
    db2.enqueue(&e);
    let r2 = db2.fail_and_reschedule(&id, &policy, u64::MAX);
    assert!(r2.is_ok());
}

#[test]
fn red9_queue_sent_at_priority_inversion() {
    let mut db = Db::new();
    let mut evil = env_from([1; 32], 2);
    evil.sent_at_ms = u64::MAX;
    let mut legit = env_from([1; 32], 1);
    legit.sent_at_ms = NOW;
    db.enqueue(&evil);
    db.enqueue(&legit);
    let rows = db.pending(2).unwrap();
    assert_eq!(rows[0].msg_id, [1; 16]);
}

#[test]
fn red10_nodekey_ring_unbounded_growth() {
    let peer = identity(0x0A);
    let mut ring = NodeKeyRing::new();
    for s in 1..=600u64 {
        let node = Identity::from_seed([(s % 251) as u8 + 1; 32]).node_id();
        let mut ann = NodeKeyAnnouncement::new(&peer.node_id(), &node, s, NOW, DEFAULT_OVERLAP_MS);
        ann.sign(&peer).unwrap();
        ring.upsert(&ann, NOW).unwrap();
    }
    assert!(ring.state().len() <= 64);
}

#[test]
fn red11_nan_metrics_bypass_load_governance() {
    let mut g = RelayGovernor::new(120);
    g.set_load(None);
    assert!(g.share() <= STRANGER_SHARE_FLOOR);
    let mut e = PolicyEngine::new(Default::default());
    let tier = e.observe(Metrics { group_size: 0, msg_rate: f32::NAN.to_bits() });
    assert_eq!(tier, Tier::Heavy);
}

#[test]
fn green1_relay_ticket_window_shapes_rejected() {
    let origin = identity(0x0B);
    let dest = identity(0x0C);
    let mk = |issued: u64, expiry: u64, nonce: [u8; 16]| {
        let mut t = RelayTicket::new(&dest.node_id(), &origin.node_id(), issued, expiry, nonce, [1; 32]);
        t.sign(&origin).unwrap();
        t
    };
    assert!(mk(NOW, NOW + MAX_TICKET_TTL_MS + 1, [1; 16]).verify(NOW, [1; 32]).is_err());
    assert!(mk(0, 3_600_000, [2; 16]).verify(NOW, [1; 32]).is_err());
    assert!(mk(NOW + 3_600_000, NOW + 3_600_000, [3; 16]).verify(NOW, [1; 32]).is_err());
    assert!(mk(NOW, NOW + 3_600_000, [4; 16]).verify(NOW, [1; 32]).is_ok());
}

#[test]
fn green2_relay_guard_zero_capacity_bounded() {
    let origin = identity(0x0D);
    let dest = identity(0x0E);
    let mk = |nonce: [u8; 16]| {
        let mut t = RelayTicket::new(&dest.node_id(), &origin.node_id(), NOW, NOW + 3_600_000, nonce, [1; 32]);
        t.sign(&origin).unwrap();
        t
    };
    let mut guard = RelayGuard::new(0);
    assert!(guard.accept(&mk([1; 16]), NOW, [1; 32]));
    assert!(!guard.accept(&mk([2; 16]), NOW, [1; 32]));
    assert!(!guard.accept(&mk([1; 16]), NOW, [1; 32]));
}

#[test]
fn green3_governor_unregistered_sender_denied() {
    let mut g = RelayGovernor::new(120);
    let stranger = [0x0Fu8; 32];
    assert!(!g.allow_send(&stranger, 1000));
    assert!(!g.allow_recv(&stranger, 1000));
}

#[test]
fn green5_nodekey_serial_u64max_monotonic() {
    let peer = identity(0x10);
    let node_new = identity(0x11).node_id();
    let mut a = NodeKeyAnnouncement::new(&peer.node_id(), &node_new, u64::MAX, NOW, DEFAULT_OVERLAP_MS);
    a.sign(&peer).unwrap();
    let mut ring = NodeKeyRing::new();
    ring.upsert(&a, NOW).unwrap();
    let node_low = identity(0x12).node_id();
    let mut low = NodeKeyAnnouncement::new(&peer.node_id(), &node_low, 1, NOW, DEFAULT_OVERLAP_MS);
    low.sign(&peer).unwrap();
    ring.upsert(&low, NOW).unwrap();
    assert_eq!(ring.current(&peer.node_id(), NOW + 1000), Some(&node_new));
    assert!(!ring.accepts(&peer.node_id(), &node_low, NOW + 1000));
}

#[test]
fn green6_dedup_zero_capacity_still_dedups() {
    let mut d = Dedup::new(0);
    assert!(d.check_and_insert([1; 16]));
    assert!(!d.check_and_insert([1; 16]));
    assert!(d.check_and_insert([2; 16]));
    assert_eq!(d.len(), 1);
}

#[test]
fn green8_bad_mac_does_not_pollute_nonce_cache() {
    let secret = derive_mailbox_secret(b"redteam-g8", &[7; 32], 1);
    let mut nonces = NonceCache::new(1000);
    let w = BucketWrite::seal(env_from([1; 32], 1), &secret, 1, NOW, [5; 16]);
    for i in 0..1000u16 {
        let mut bad = w.clone();
        bad.mac = [(i % 256) as u8; 32];
        assert!(verify_inbound(&bad, &secret, &mut nonces, NOW).is_err());
    }
    assert!(verify_inbound(&w, &secret, &mut nonces, NOW).is_ok());
}

#[test]
fn green4_envelope_extreme_fields_survive() {
    let e = Envelope {
        msg_id: [u8::MAX; 16],
        sender: [u8::MAX; 32],
        recipient: None,
        group: Some([7; 32]),
        kind: PayloadKind::GroupMgmt,
        body: vec![0xAB; 65_536],
        sent_at_ms: u64::MAX,
        ttl_hops: 255,
        sig: None,
    };
    assert!(e.check_shape().is_ok());
    let payload = e.signing_payload();
    let f = frame(&payload);
    assert!(unframe(&f[..4 + 10]).unwrap().is_none());
    let (read, consumed) = unframe(&f).unwrap().unwrap();
    assert_eq!(consumed, f.len());
    assert_eq!(read, payload.as_slice());
}
