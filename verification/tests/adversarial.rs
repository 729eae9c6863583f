//! Writers and readers that do not keep to the rules.
use std::sync::{Arc, Mutex};

use dc_core::clock::{InternalClock, Source};
use dc_core::envelope::{Envelope, PayloadKind};
use dc_core::ffi::{seal_bucket_read, AcceptedWrites, BucketStorageHandle, MailboxManagerHandle};
use dc_core::identity::Identity;
use dc_core::mailbox::{derive_mailbox_secret, BucketWrite, NonceCache};
use dc_core::maildrop::{MailboxError, MailboxManager, WRITES_PER_MINUTE};
use dc_core::nodekey::{NodeKeyAnnouncement, NodeKeyRing, DEFAULT_OVERLAP_MS};
use dc_core::queue::Db;
use dc_core::relay::{RelayGuard, RelayTicket};
use dc_core::retry::RetryPolicy;

const NOW: u64 = 1_700_000_000_000;

fn hex32(bytes: &[u8]) -> String {
    bytes.iter().map(|b| format!("{b:02x}")).collect()
}

fn mk_env(sender: [u8; 32], msg_id: [u8; 16], body: Vec<u8>, ts: u64) -> Envelope {
    Envelope {
        msg_id,
        sender,
        recipient: Some([9; 32]),
        group: None,
        kind: PayloadKind::Text,
        body,
        sent_at_ms: ts,
        ttl_hops: 6,
        sig: None,
    }
}

fn seal(sender: [u8; 32], msg_id: [u8; 16], secret: &[u8; 32], ts: u64, nonce: [u8; 16]) -> BucketWrite {
    BucketWrite::seal(mk_env(sender, msg_id, vec![7; 64], ts), secret, 1, ts, nonce)
}

#[test]
fn red_a1_ffi_local_ms_cast_pins_clock_at_i64max_forever() {
    let mut h = MailboxManagerHandle::new(1024);
    let mut accepted = AcceptedWrites::new();
    let secret = derive_mailbox_secret(b"adv-a1", &[0xA1; 32], 1);
    let shex = hex32(&secret);
    let w0 = seal([1; 32], [1; 16], &secret, NOW, [1; 16]);
    let r0 = h.submit(&w0, &shex, NOW, &mut accepted);
    assert!(matches!(&r0, Ok(s) if s == "accepted"));
    let poison_local = i64::MAX as u64;
    let _ = h.submit(&w0, &shex, poison_local, &mut accepted);
    let w1 = seal([1; 32], [2; 16], &secret, NOW + 1_000, [2; 16]);
    let r1 = h.submit(&w1, &shex, NOW + 1_000, &mut accepted);
    assert!(matches!(&r1, Ok(s) if s == "accepted"));
    let w2 = seal([1; 32], [3; 16], &secret, NOW + 2_000, [3; 16]);
    let r2 = h.submit(&w2, &shex, NOW + 2_000, &mut accepted);
    assert!(matches!(&r2, Ok(s) if s == "accepted"));
    let evil_ts = (i64::MAX - 1_000) as u64;
    let we = seal([1; 32], [4; 16], &secret, evil_ts, [4; 16]);
    let re = h.submit(&we, &shex, poison_local, &mut accepted);
    assert!(matches!(&re, Ok(s) if s == "accepted"));
}

#[test]
fn red_a2_offset_change_deflates_rollback_high_water_pin() {
    let t0 = 1_700_000_000_000i64;
    let mut c = InternalClock::new();
    assert_eq!(c.now(t0), t0);
    c.on_network_sync(1, t0 + 60_000, t0 + 60_000 - 120_000);
    c.on_network_sync(2, t0 + 60_000, t0 + 60_000 - 120_000);
    assert_eq!(c.source(t0 + 61_000), Source::Network);
    let rolled = t0 - 365 * 86_400_000;
    let out = c.now(rolled);
    assert!(out >= t0);
    assert!(c.high_water_ms() >= t0 as u64);
    let out2 = c.now(rolled + 1_000);
    assert!(out2 >= t0);
}

#[test]
fn red_a3_network_pending_slot_desync_hijacks_dual_source() {
    let t = 1_700_000_000_000i64;
    let mut honest = InternalClock::new();
    honest.on_network_sync(1, t, t);
    honest.on_network_sync(2, t + 1_000, t + 1_000);
    assert_eq!(honest.now(t + 2_000), t + 2_000);
    let mut c = InternalClock::new();
    c.on_network_sync(1, t, t);
    c.on_network_sync(3, t, t + 120_000);
    c.on_network_sync(2, t + 1_000, t + 1_000);
    c.on_network_sync(4, t + 1_000, t + 1_000 + 120_000);
    assert_eq!(c.now(t + 2_000), t + 2_000);
    c.on_network_sync(1, t + 601_000, t + 601_000);
    c.on_network_sync(3, t + 601_000, t + 601_000 + 240_000);
    c.on_network_sync(2, t + 601_001, t + 601_001);
    c.on_network_sync(4, t + 601_001, t + 601_001 + 240_000);
    assert_eq!(c.now(t + 602_000), t + 602_000);
}

#[test]
fn red_a4_enqueue_full_same_msg_id_swaps_undelivered_content() {
    let mut db = Db::new();
    let bob = [0xB0; 32];
    let mallory = [0xE5; 32];
    let x = [0x42; 16];
    let first = Envelope {
        msg_id: x, sender: [1; 32], recipient: Some(bob), group: None,
        kind: PayloadKind::Text, body: vec![1], sent_at_ms: 1000, ttl_hops: 6,
        sig: None,
    };
    let second = Envelope {
        msg_id: x, sender: [2; 32], recipient: Some(mallory), group: None,
        kind: PayloadKind::Text, body: vec![2, 2, 2], sent_at_ms: 2000, ttl_hops: 6,
        sig: None,
    };
    db.enqueue_full(&first);
    db.enqueue_full(&second);
    let rows = db.pending(10).unwrap();
    assert_eq!(rows.len(), 1);
    let due = db.due_envelopes(5000, 10).unwrap();
    assert_eq!(due.len(), 1);
    assert_eq!(due[0].body, vec![1]);
    assert_eq!(due[0].recipient, Some(bob));
}

#[test]
fn red_a5_sender_field_spoofing_defeats_per_pair_rate_limit() {
    let secret = derive_mailbox_secret(b"adv-a5", &[0xA5; 32], 1);
    let mut ctrl = MailboxManager::new(4096);
    for i in 0..WRITES_PER_MINUTE {
        ctrl.submit_write(&seal([7; 32], [i as u8; 16], &secret, NOW, [i as u8; 16]), &secret, NOW)
            .unwrap();
    }
    assert_eq!(ctrl.submit_write(&seal([7; 32], [99; 16], &secret, NOW, [99; 16]), &secret, NOW), Err(MailboxError::RateLimited));
    let mut mgr = MailboxManager::new(4096);
    let mut accepted = 0u32;
    for i in 0..100u32 {
        let mut sender = [0u8; 32];
        sender[0] = (i >> 8) as u8;
        sender[1] = i as u8;
        sender[2] = 0x5A;
        let mut msg_id = [0u8; 16];
        msg_id[0] = (i >> 8) as u8;
        msg_id[1] = i as u8;
        msg_id[2] = 0x5A;
        let w = seal(sender, msg_id, &secret, NOW, msg_id);
        if mgr.submit_write(&w, &secret, NOW).is_ok() {
            accepted += 1;
        }
    }
    assert!(accepted <= WRITES_PER_MINUTE);
}

#[test]
fn red_a6_shared_nonce_ledger_fails_closed_across_buckets() {
    let s_evil = derive_mailbox_secret(b"adv-a6-evil", &[0xE1; 32], 1);
    let s_honest = derive_mailbox_secret(b"adv-a6-honest", &[0x03; 32], 1);
    let mut mgr = MailboxManager::new(4096);
    let mut accepted = 0u32;
    for i in 0..4096u32 {
        let mut sender = [0u8; 32];
        sender[0] = (i >> 8) as u8;
        sender[1] = i as u8;
        sender[2] = 0xEE;
        let mut id = [0u8; 16];
        id[0] = (i >> 8) as u8;
        id[1] = i as u8;
        id[2] = 0xEE;
        let w = seal(sender, id, &s_evil, NOW, id);
        if mgr.submit_write(&w, &s_evil, NOW).is_ok() {
            accepted += 1;
        }
    }
    assert_eq!(accepted, WRITES_PER_MINUTE);
    assert_eq!(mgr.nonce_cache_len(), 4096);
    let honest_w = seal([0x33; 32], [0x33; 16], &s_honest, NOW, [0x33; 16]);
    let honest_out = mgr.submit_write(&honest_w, &s_honest, NOW);
    assert_eq!(honest_out, Ok(()));
    let mut over = [0u8; 16];
    over[0] = 0xFF;
    assert_eq!(mgr.submit_write(&seal([0xEE; 32], over, &s_evil, NOW, over), &s_evil, NOW), Err(MailboxError::ReplayRejected));
    let later = NOW + 61_000;
    let honest_w2 = seal([0x33; 32], [0x34; 16], &s_honest, later, [0x34; 16]);
    assert_eq!(mgr.submit_write(&honest_w2, &s_honest, later), Ok(()));
    let evil_w2 = seal([0xEE; 32], [0x35; 16], &s_evil, later, [0x35; 16]);
    assert_eq!(mgr.submit_write(&evil_w2, &s_evil, later), Err(MailboxError::ReplayRejected));
}

#[test]
fn red_a7_nonce_cache_hard_cap_has_no_upper_bound() {
    let mut ok = NonceCache::new(4096);
    for i in 0..5000u32 {
        let mut id = [0u8; 16];
        id[0] = (i >> 8) as u8;
        id[1] = i as u8;
        ok.check_and_insert(&id, NOW, NOW);
    }
    assert_eq!(ok.len(), 4096);
    let mut bomb = NonceCache::new(u32::MAX as usize);
    let mut accepted = 0u32;
    for i in 0..10_000u32 {
        let mut id = [0u8; 16];
        id[0] = (i >> 8) as u8;
        id[1] = i as u8;
        id[2] = 0xB0;
        if bomb.check_and_insert(&id, NOW, NOW) {
            accepted += 1;
        }
    }
    assert!(accepted < 10_000);
}

#[test]
fn red_a8_nonce_cache_expiry_add_overflow_panic() {
    let mut c = NonceCache::new(100);
    let id1 = [0x11; 16];
    let id2 = [0x22; 16];
    assert!(c.check_and_insert(&id1, u64::MAX, 0));
    assert!(c.check_and_insert(&id2, u64::MAX, 0));
}

#[test]
fn red_a9_store_write_ingests_unverified_writes_served_by_read_path() {
    let mut st = BucketStorageHandle::new();
    let accepted = AcceptedWrites::new();
    let bucket = [0xA9; 32];
    let secret = derive_mailbox_secret(b"adv-a9", &bucket, 1);
    let w = seal([1; 32], [9; 16], &secret, NOW, [9; 16]);
    let mut bad = w.clone();
    bad.mac[0] ^= 1;
    let stored = st.store_write(&hex32(&bucket), &bad, &accepted);
    assert!(stored.is_err());
    let read = seal_bucket_read(&hex32(&bucket), &hex32(&secret), 1, 0).unwrap();
    let list = st.read_bucket(&read, &hex32(&secret), 0).unwrap();
    assert!(list.is_empty());
}

#[test]
fn red_a10_ffi_local_ms_i64min_overflows_peak_cluster_and_poisons_handle() {
    let mut h = MailboxManagerHandle::new(1024);
    let mut accepted = AcceptedWrites::new();
    let secret = derive_mailbox_secret(b"adv-a10", &[0xAA; 32], 1);
    let shex = hex32(&secret);
    let w = seal([1; 32], [1; 16], &secret, NOW, [1; 16]);
    let mut c = InternalClock::new();
    assert!(c.now(i64::MIN) >= 0);
    let _ = h.submit(&w, &shex, 0x8000_0000_0000_0000, &mut accepted);
    let _ = h.submit(&w, &shex, NOW, &mut accepted);
}

#[test]
fn green_g3_relay_ticket_extreme_signed_fields_all_rejected() {
    let origin = Identity::from_seed([0x21; 32]);
    let dest = Identity::from_seed([0x22; 32]);
    let mk = |issued: u64, expiry: u64| {
        let mut t = RelayTicket::new(&dest.node_id(), &origin.node_id(), issued, expiry, [9; 16], [1; 32]);
        t.sign(&origin).unwrap();
        t
    };
    let cases: [(u64, u64, &str); 6] = [
        (u64::MAX, u64::MAX, "issued=expiry=u64::MAX"),
        (0, u64::MAX, "远古签发 + expiry=u64::MAX"),
        (NOW, u64::MAX, "expiry=u64::MAX（溢出点试探）"),
        (NOW + 600_000, NOW + 600_000 + 3_600_000, "未来 10min 签发（>2min 偏移容差）"),
        (NOW, NOW - 200_000, "已过期 3.3min（>2min 容差）"),
        (u64::MAX - 7_200_000, u64::MAX, "TTL 恰 2h 但 issued 在未来"),
    ];
    for (issued, expiry, _tag) in cases {
        let t = mk(issued, expiry);
        assert!(t.verify(NOW, [1; 32]).is_err());
        let mut g = RelayGuard::new(64);
        assert!(!g.accept(&t, NOW, [1; 32]));
    }
    let ok = mk(NOW, NOW + 3_600_000);
    assert!(ok.verify(NOW, [1; 32]).is_ok());
    let mut g = RelayGuard::new(64);
    assert!(g.accept(&ok, NOW, [1; 32]));
}

#[test]
fn green_g4_nodekey_ring_poisoned_restore_entries_rejected() {
    let peer = Identity::from_seed([0x31; 32]);
    let node1 = Identity::from_seed([0x32; 32]).node_id();
    let mut good = NodeKeyAnnouncement::new(&peer.node_id(), &node1, 1, NOW, DEFAULT_OVERLAP_MS);
    good.sign(&peer).unwrap();
    let mut forged = good.clone();
    forged.serial = 2;
    forged.node_key = [7; 32];
    forged.sig = vec![0u8; 64];
    let mut zero = good.clone();
    zero.serial = 0;
    let mut badlen = good.clone();
    badlen.sig = vec![1u8; 63];
    let mut inverted = good.clone();
    inverted.serial = 3;
    inverted.not_before_ms = NOW + 1000;
    inverted.not_after_ms = NOW;
    inverted.sig = peer.sign(&inverted.signing_payload()).to_bytes().to_vec();
    let mut ring = NodeKeyRing::new();
    ring.upsert(&good, NOW).unwrap();
    for e in [&forged, &zero, &badlen, &inverted] {
        assert!(ring.upsert(e, NOW).is_err());
    }
    assert_eq!(ring.current(&peer.node_id(), NOW), Some(&node1));
    let mut ring2 = NodeKeyRing::new();
    assert!(ring2.restore(vec![forged.clone(), good.clone()], NOW).is_err());
    assert_eq!(ring2.current(&peer.node_id(), NOW), None);
}

#[test]
fn green_g5_retry_queue_extreme_delays_no_panic() {
    let pmax = RetryPolicy { max_attempts: u32::MAX, base_delay_ms: u64::MAX, max_delay_ms: u64::MAX };
    assert_eq!(pmax.next_delay_ms(1).unwrap(), u64::MAX);
    let pzero = RetryPolicy { max_attempts: 10, base_delay_ms: 0, max_delay_ms: 0 };
    assert_eq!(pzero.next_delay_ms(1).unwrap(), 0);
    assert!(pmax.next_delay_ms(0).is_err());
    assert!(pzero.next_delay_ms(10).is_err());
    let mut db = Db::new();
    let mut e = mk_env([1; 32], [5; 16], vec![1], 1000);
    e.recipient = None;
    db.enqueue(&e);
    assert!(db.fail_and_reschedule(&[5; 16], &pmax, 0).is_ok());
    assert!(db.due(0, 10).unwrap().is_empty());
    assert_eq!(db.due(u64::MAX, 10).unwrap().len(), 1);
}

#[test]
fn green_g8_clock_extreme_inputs_bounded() {
    let mut c = InternalClock::new();
    c.trust_peer([1; 32]);
    let combos: [(i64, i64, i64, i64); 4] = [
        (i64::MIN, i64::MAX, i64::MAX, i64::MAX),
        (0, i64::MAX, i64::MAX, i64::MIN),
        (i64::MIN, 0, 1, i64::MIN),
        (i64::MAX, i64::MAX, i64::MIN, i64::MAX),
    ];
    for (t1, t2, t3, t4) in combos {
        let r = c.on_peer_exchange([1; 32], t1, t2, t3, t4);
        let _ = r;
        if let Ok(off) = r {
            assert!(off.abs() <= 24 * 60 * 60 * 1000);
        }
    }
    assert_eq!(c.now(-1), 0);
    assert!(c.now(i64::MAX) > 0);
    let _ = c.source(i64::MAX);
    assert_eq!(c.source(i64::MAX), Source::Unsynced);
    let hw = c.high_water_ms();
    let again = c.now(i64::MAX - 60_000);
    assert!(again as u64 >= hw);
}

#[test]
fn green_g1_concurrent_submit_no_double_accept() {
    let h = Arc::new(Mutex::new((MailboxManagerHandle::new(4096), AcceptedWrites::new())));
    let one = |g: u32| {
        let mut pair = [0u8; 32];
        pair[0] = (g >> 8) as u8;
        pair[1] = g as u8;
        pair[2] = 0x11;
        let secret = derive_mailbox_secret(b"adv-g1", &pair, 1);
        let mut id = [0u8; 16];
        id[0] = (g >> 8) as u8;
        id[1] = g as u8;
        id[2] = 0x11;
        let w = seal(pair, id, &secret, NOW, id);
        let mut held = h.lock().unwrap();
        let (handle, accepted) = &mut *held;
        handle.submit(&w, &hex32(&secret), NOW, accepted).is_ok()
    };
    let total = (0..1000u32).filter(|g| one(*g)).count();
    assert_eq!(total, 1000);
    let replay_ok = (0..1000u32).filter(|g| one(*g)).count();
    assert_eq!(replay_ok, 0);
}
