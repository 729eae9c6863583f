//! What holds of the library as a whole, on chosen values.
use dc_core::arith::{clamp, halve, saturating_add, saturating_sub};
use dc_core::base64::{b64, unb64, Base64Fault};
use dc_core::bytes::{push_be, read_be32};
use dc_core::clock::{ClockError, InternalClock, Source};
use dc_core::delivery::DeliveryManager;
use dc_core::envelope::{Envelope, PayloadKind};
use dc_core::governor::{RelayGovernor, STRANGER_SHARE_FLOOR};
use dc_core::identity::{format_fingerprint, identity_fingerprint, safety_groups, Identity};
use dc_core::mailbox::{derive_mailbox_secret, MailboxRead, NonceCache};
use dc_core::maildrop::{announcement_write, InMemoryBucketStorage};
use dc_core::nodekey::{NodeKeyAnnouncement, NodeKeyRing, DEFAULT_OVERLAP_MS};
use dc_core::queue::{clamp_ms, Db};
use dc_core::relay::{verify_forward_credential, RelayTicket};
use dc_core::retry::RetryPolicy;
use dc_core::single::{four_times, is_greater, parts};
use dc_core::text::{contains_text, hex, unhex};
use dc_core::timeline::order_of;
use dc_core::CoreError;

const NOW: u64 = 1_700_000_000_000;

fn envelope(id: u8, sent_at_ms: u64) -> Envelope {
    Envelope {
        msg_id: [id; 16],
        sender: Identity::from_seed([1; 32]).node_id(),
        recipient: Some([9; 32]),
        group: None,
        kind: PayloadKind::Text,
        body: vec![id],
        sent_at_ms,
        ttl_hops: 6,
        sig: None,
    }
}

#[test]
fn bits_are_compared_as_the_numbers_they_stand_for() {
    let samples = [
        0.0f32,
        -0.0,
        f32::MIN_POSITIVE,
        f32::from_bits(1),
        f32::from_bits(0x007f_ffff),
        1.0,
        1.5,
        -1.0,
        19.99,
        20.0,
        20.000002,
        80.0,
        -80.0,
        1e30,
        f32::MAX,
        f32::MAX / 2.0,
        f32::MAX / 4.0,
        f32::MIN,
        f32::INFINITY,
        f32::NEG_INFINITY,
        f32::NAN,
    ];
    for x in samples {
        for y in samples {
            let (a, b) = (parts(x.to_bits()), parts(y.to_bits()));
            assert_eq!(is_greater(a, b), x > y);
            assert_eq!(is_greater(a, four_times(b)), x > y * 4.0);
        }
    }
}

#[test]
fn numbers_come_back_from_their_bytes() {
    let mut v = Vec::new();
    push_be(&mut v, 0x0102_0304, 4);
    assert_eq!(v, [1, 2, 3, 4]);
    assert_eq!(read_be32(&v), 0x0102_0304);
    push_be(&mut v, u64::MAX, 8);
    assert_eq!(v[4..], [255; 8]);
}

#[test]
fn digits_come_back_as_bytes() {
    let all: Vec<u8> = (0..=255).collect();
    let digits = hex(&all);
    assert_eq!(&digits[..8], "00010203");
    assert_eq!(unhex(&digits.chars().collect::<Vec<_>>()), Some(all.clone()));
    assert_eq!(unhex(&['0']), None);
    for n in 0..all.len() {
        assert_eq!(unb64(&b64(&all[..n])).unwrap(), all[..n]);
    }
    assert_eq!(unb64(b"A"), Err(Base64Fault::Length));
    assert_eq!(unb64(b"AA=="), Err(Base64Fault::Digit));
    assert!(contains_text("mailbox mac mismatch", "mac"));
    assert!(!contains_text("mac", "mailbox"));
}

#[test]
fn arithmetic_stops_at_the_ends() {
    assert_eq!(saturating_add(i64::MAX, 1), i64::MAX);
    assert_eq!(saturating_sub(i64::MIN, 1), i64::MIN);
    assert_eq!(saturating_sub(5, 7), -2);
    assert_eq!((halve(-3), halve(3)), (-1, 1));
    assert_eq!((clamp(-9, -5, 5), clamp(9, -5, 5), clamp(2, -5, 5)), (-5, 5, 2));
    assert_eq!(clamp_ms(7), 7);
    assert_eq!(clamp_ms(u64::MAX), i64::MAX);
    assert!(clamp_ms(i64::MAX as u64) <= clamp_ms(i64::MAX as u64 + 1));
}

#[test]
fn places_are_by_time_and_keep_their_order() {
    assert_eq!(order_of(&vec![30, 10, 20, 10, -5]), vec![4, 1, 3, 2, 0]);
    assert!(order_of(&vec![]).is_empty());
}

#[test]
fn delays_follow_the_formula() {
    let p = RetryPolicy { max_attempts: 5, base_delay_ms: 100, max_delay_ms: 1_000 };
    assert_eq!(p.delay_with(1, 12345).unwrap(), 100);
    assert_eq!(p.delay_with(2, 0).unwrap(), 100);
    assert_eq!(p.delay_with(2, 100).unwrap(), 200);
    assert_eq!(p.delay_with(2, 101).unwrap(), 100);
    assert_eq!(p.delay_with(3, 300).unwrap(), 400);
    assert_eq!(p.delay_with(4, 700).unwrap(), 800);
    assert_eq!(p.delay_with(0, 0).unwrap_err().message(), "配置错误: attempt starts at 1");
    let done = p.delay_with(5, 0).unwrap_err();
    assert_eq!(done.message(), "配置错误: attempts exhausted, no next delay");
    let steep = RetryPolicy { max_attempts: 9, base_delay_ms: 600, max_delay_ms: 1_000 };
    assert_eq!(steep.delay_with(7, 400).unwrap(), 1_000);
    assert_eq!(steep.delay_with(7, 401).unwrap(), 600);
}

#[test]
fn a_peer_that_lost_trust_no_longer_counts() {
    let mut c = InternalClock::new();
    let t = 1_700_000_000_000i64;
    for peer in 1..=3u8 {
        c.trust_peer([peer; 32]);
        let (t2, t3) = (t + 30_000, t + 30_000);
        assert_eq!(c.on_peer_exchange([peer; 32], t, t2, t3, t), Ok(30_000));
    }
    assert_eq!(c.source(t), Source::Peers);
    assert_eq!(c.now(t), t + 30_000);
    c.distrust_peer(&[2; 32]);
    assert!(!c.is_trusted(&[2; 32]));
    assert_eq!(c.source(t), Source::Unsynced);
    let refused = c.on_peer_exchange([2; 32], t, t, t, t);
    assert!(matches!(refused, Err(ClockError::UntrustedPeer)));
}

#[test]
fn strangers_share_follows_battery_and_load() {
    let mut g = RelayGovernor::new(1_000);
    g.set_battery(Some(19), false);
    // Two fifths of the way up an S-shaped curve: 0.4 * 0.4 * (3 - 2 * 0.4) of the difference.
    assert_eq!(g.share(), 30_000_000 + 42_240_000);
    g.set_battery(None, false);
    g.set_load(Some(700_000));
    assert_eq!(g.share(), 131_250_000);
    assert_eq!(g.budget_per_min(), 131);
    g.set_battery(Some(5), false);
    assert_eq!(g.share(), STRANGER_SHARE_FLOOR);
    g.register_sender([1; 32], 0);
    assert_eq!(g.connected_strangers(), 1);
    g.drop_sender(&[1; 32]);
    assert_eq!(g.connected_strangers(), 0);
}

#[test]
fn the_first_groups_are_a_prefix() {
    let fp = identity_fingerprint(&[7; 32]);
    let whole = format_fingerprint(&fp);
    assert_eq!(whole.len(), 256 + 31);
    for n in 0..=32 {
        let part = safety_groups(&fp, n);
        assert!(whole.starts_with(&part));
        assert_eq!(part.split(' ').filter(|s| !s.is_empty()).count(), n);
    }
    assert_eq!(safety_groups(&fp, 99), whole);
}

#[test]
fn a_read_request_is_bound_to_all_its_fields() {
    let secret = derive_mailbox_secret(b"hs", &[3; 32], 1);
    let read = MailboxRead::seal_read_serial([3; 32], &secret, 2, 7, [5; 16]);
    assert!(read.verify(&secret));
    assert!(!read.verify(&[0; 32]));
    for changed in [
        MailboxRead { bucket: [4; 32], ..read },
        MailboxRead { serial: 1, ..read },
        MailboxRead { nonce: [6; 16], ..read },
        MailboxRead { cursor: 8, ..read },
    ] {
        assert!(!changed.verify(&secret));
    }
}

#[test]
fn a_ledger_line_lives_until_its_time_is_over() {
    let mut ledger = NonceCache::new(8);
    assert!(ledger.is_empty());
    assert!(ledger.check_and_insert(&[1; 16], NOW, NOW));
    assert_eq!(ledger.export_state(), vec![([1u8; 16], NOW + 420_000)]);
    assert!(!ledger.check_and_insert(&[1; 16], NOW, NOW + 539_999));
    assert_eq!(ledger.len(), 1);
    assert!(ledger.check_and_insert(&[2; 16], NOW + 540_000, NOW + 540_000));
    assert_eq!(ledger.len(), 1);
    let mut next = NonceCache::new(8);
    next.import_state(&ledger.export_state());
    assert_eq!(next.export_state(), ledger.export_state());
    assert!(!next.check_and_insert(&[2; 16], NOW + 540_000, NOW + 540_000));
}

#[test]
fn an_announcement_travels_in_an_envelope_of_its_own() {
    let alice = Identity::from_seed([4; 32]);
    let mut ann = NodeKeyAnnouncement::new(&alice.node_id(), &[8; 32], 3, NOW, DEFAULT_OVERLAP_MS);
    ann.sign(&alice).unwrap();
    let secret = [6u8; 32];
    let w = announcement_write(&ann, b"bytes", &secret, NOW, [1; 16], [2; 16]).unwrap();
    assert_eq!((w.serial, w.ts_ms, w.nonce), (1, NOW, [2; 16]));
    assert_eq!(w.envelope.kind, PayloadKind::SessionMgmt);
    assert_eq!(w.envelope.body, b"bytes");
    assert_eq!((w.envelope.sender, w.envelope.ttl_hops), (alice.node_id(), 6));
    assert_eq!((w.envelope.recipient, w.envelope.group), (None, None));
    w.verify(&secret, NOW).unwrap();
    ann.serial = 4;
    assert!(announcement_write(&ann, b"bytes", &secret, NOW, [1; 16], [2; 16]).is_err());
    let storage = InMemoryBucketStorage::default();
    assert_eq!(storage.count(&[0; 32]), 0);
}

#[test]
fn the_newest_announcement_is_the_current_one() {
    let alice = Identity::from_seed([4; 32]);
    let sign = |key: u8, serial: u64, at: u64| {
        let id = alice.node_id();
        let mut a = NodeKeyAnnouncement::new(&id, &[key; 32], serial, at, DEFAULT_OVERLAP_MS);
        a.sign(&alice).unwrap();
        a
    };
    let mut ring = NodeKeyRing::new();
    ring.upsert(&sign(2, 2, NOW), NOW).unwrap();
    ring.upsert(&sign(1, 1, NOW), NOW).unwrap();
    assert_eq!(ring.current(&alice.node_id(), NOW), Some(&[2; 32]));
    ring.upsert(&sign(3, 3, NOW), NOW).unwrap();
    assert_eq!(ring.current(&alice.node_id(), NOW), Some(&[3; 32]));
    assert!(ring.accepts(&alice.node_id(), &[2; 32], NOW));
    let state = ring.state();
    let mut restored = NodeKeyRing::new();
    restored.restore(state.clone(), NOW).unwrap();
    assert_eq!(restored.state(), state);
}

#[test]
fn only_signed_envelopes_are_passed_on() {
    let alice = Identity::from_seed([1; 32]);
    let mut e = envelope(1, NOW);
    assert!(matches!(verify_forward_credential(&e), Err(CoreError::Crypto(_))));
    e.sign(&alice).unwrap();
    assert!(verify_forward_credential(&e).is_ok());
    e.body.push(0);
    assert!(verify_forward_credential(&e).is_err());
}

#[test]
fn tickets_are_told_apart_by_every_field() {
    let base = RelayTicket::new(&[1; 32], &[2; 32], NOW, NOW + 1000, [3; 16], [4; 32]);
    let mut seen = vec![base.fingerprint()];
    for other in [
        RelayTicket::new(&[9; 32], &[2; 32], NOW, NOW + 1000, [3; 16], [4; 32]),
        RelayTicket::new(&[1; 32], &[9; 32], NOW, NOW + 1000, [3; 16], [4; 32]),
        RelayTicket::new(&[1; 32], &[2; 32], NOW + 1, NOW + 1000, [3; 16], [4; 32]),
        RelayTicket::new(&[1; 32], &[2; 32], NOW, NOW + 1001, [3; 16], [4; 32]),
        RelayTicket::new(&[1; 32], &[2; 32], NOW, NOW + 1000, [9; 16], [4; 32]),
        RelayTicket::new(&[1; 32], &[2; 32], NOW, NOW + 1000, [3; 16], [9; 32]),
    ] {
        assert!(!seen.contains(&other.fingerprint()));
        seen.push(other.fingerprint());
    }
}

#[test]
fn a_round_accounts_for_every_message() {
    let answer = |e: &Envelope| -> Result<bool, String> {
        match e.msg_id[0] {
            1 => Ok(true),
            2 => Ok(false),
            _ => Err("down".to_string()),
        }
    };
    let policy = RetryPolicy { max_attempts: 3, base_delay_ms: 10, max_delay_ms: 20 };
    let mut dm = DeliveryManager::with_policy(Db::new(), Some(answer), policy, 16);
    for id in 1..=3u8 {
        dm.db_mut().enqueue_full(&envelope(id, 1000));
    }
    let r = dm.tick(2000).unwrap();
    assert_eq!((r.attempted, r.sent, r.unreachable, r.errored, r.dead), (3, 1, 1, 1, 0));
    assert_eq!(dm.db().stats(), (2, 0, 0));
    assert_eq!(dm.db().row(&[2; 16]).unwrap().attempts, 1);
    dm.tick(3000).unwrap();
    let last = dm.tick(4000).unwrap();
    assert_eq!((last.attempted, last.sent, last.dead), (2, 0, 2));
    assert_eq!(dm.db().stats(), (0, 2, 0));
    assert_eq!(dm.policy().max_attempts, 3);
}

#[test]
fn only_the_dead_come_back_to_life() {
    let mut db = Db::new();
    db.enqueue_full(&envelope(1, 1000));
    db.mark_sent(&[1; 16]);
    db.revive(&[1; 16]);
    assert_eq!(db.stats(), (0, 0, 0));
    let policy = RetryPolicy { max_attempts: 2, base_delay_ms: 10, max_delay_ms: 10 };
    db.enqueue_full(&envelope(2, 1000));
    assert!(!db.fail_and_reschedule(&[2; 16], &policy, 2000).unwrap());
    assert_eq!(db.due_envelopes(2009, 9).unwrap().len(), 0);
    assert_eq!(db.due_envelopes(2010, 9).unwrap()[0], envelope(2, 1000));
    assert!(db.fail_and_reschedule(&[2; 16], &policy, 3000).unwrap());
    assert_eq!(db.dead_list(9).unwrap(), vec![[2; 16]]);
    db.revive(&[2; 16]);
    assert_eq!(db.due_envelopes(0, 9).unwrap()[0], envelope(2, 1000));
    assert!(db.fail_and_reschedule(&[3; 16], &policy, 1).is_err());
}

#[test]
fn a_message_is_taken_once() {
    let mut db = Db::new();
    assert!(db.record_seen(&[1; 16], 1000));
    assert!(!db.record_seen(&[1; 16], 1000));
    assert_eq!(db.prune_seen(1000), 0);
    assert!(!db.record_seen(&[1; 16], 2000));
    assert_eq!(db.prune_seen(1001), 1);
    assert!(db.record_seen(&[1; 16], 2000));
}
