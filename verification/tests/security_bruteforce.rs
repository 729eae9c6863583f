//! Random input against the core, again and again.
use std::collections::HashSet;

use dc_core::adaptive::{Metrics, PolicyEngine, Thresholds, Tier};
use dc_core::entropy::EntropyHarvester;
use dc_core::envelope::{frame, unframe, Dedup, Envelope, PayloadKind};
use dc_core::identity::{verify, Identity};
use dc_core::mailbox::{self, BucketWrite};
use dc_core::nodekey::{NodeKeyAnnouncement, NodeKeyRing};
use dc_core::queue::Db;

struct XorShift(u64);
impl XorShift {
    fn new() -> Self {
        let mut seed = [0u8; 8];
        getrandom::fill(&mut seed).unwrap();
        XorShift(u64::from_be_bytes(seed) | 1)
    }
    fn next(&mut self) -> u64 {
        let mut x = self.0;
        x ^= x << 13;
        x ^= x >> 7;
        x ^= x << 17;
        self.0 = x;
        x
    }
    fn bytes(&mut self, n: usize) -> Vec<u8> {
        (0..n).map(|_| self.next() as u8).collect()
    }
    fn below(&mut self, n: u64) -> u64 {
        self.next() % n
    }
}

fn sample_envelope(sender: &Identity, i: u8) -> Envelope {
    Envelope {
        msg_id: [i; 16],
        sender: sender.node_id(),
        recipient: Some([9; 32]),
        group: None,
        kind: PayloadKind::Text,
        body: vec![b'A' + (i % 20), 1, 2, 3, 4],
        sent_at_ms: 1_000_000,
        ttl_hops: 6,
        sig: None,
    }
}

fn evil_ann_signing_payload_hack() -> Vec<u8> {
    b"attacker-chosen-payload".to_vec()
}

fn place(t: Tier) -> i32 {
    match t {
        Tier::Light => 0,
        Tier::Medium => 1,
        Tier::Heavy => 2,
    }
}

#[test]
fn forged_announcements_are_all_refused() {
    let mut rng = XorShift::new();
    let alice = Identity::generate().unwrap();
    let mallory = Identity::generate().unwrap();
    let node_v2 = Identity::generate().unwrap();
    let mut ann = NodeKeyAnnouncement::new(&alice.node_id(), &node_v2.node_id(), 2, 1000, 86_400_000);
    ann.sign(&alice).unwrap();
    let mut forged = 0u32;
    for _ in 0..2_000 {
        let mut a = ann.clone();
        a.sig = rng.bytes(64).try_into().unwrap_or([0u8; 64]).to_vec();
        if a.verify().is_err() {
            forged += 1;
        }
    }
    assert_eq!(forged, 2_000);
    let mut ring = NodeKeyRing::new();
    ring.upsert(&ann, 1000).unwrap();
    let mut evil_ann = NodeKeyAnnouncement::new(&alice.node_id(), &mallory.node_id(), 3, 2000, 86_400_000);
    evil_ann.sign(&mallory).unwrap_err();
    evil_ann.sig = mallory.sign(&evil_ann_signing_payload_hack()).to_bytes().to_vec();
    assert!(ring.upsert(&evil_ann, 2000).is_err());
    let mut ann_old = NodeKeyAnnouncement::new(&alice.node_id(), &mallory.node_id(), 1, 3000, 86_400_000);
    ann_old.sign(&alice).unwrap();
    ring.upsert(&ann_old, 3000).unwrap();
    assert_ne!(ring.current(&alice.node_id(), 3000), Some(&mallory.node_id()));
}

fn signatures_of_other_messages_fail(tries: u32) {
    let mut rng = XorShift::new();
    let alice = Identity::generate().unwrap();
    let bob = Identity::generate().unwrap();
    let msg = b"brute force target";
    let mut sig_fails = 0u32;
    for _ in 0..tries {
        let forged_sig = alice.sign(&rng.bytes(32));
        let tampered = Envelope {
            msg_id: [u8::MAX; 16],
            ..sample_envelope(&bob, 6)
        };
        let _ = tampered;
        if verify(&alice.public(), msg, &forged_sig).is_err()
            && verify(&alice.public(), &rng.bytes(64), &forged_sig).is_err()
        {
            sig_fails += 1;
        }
    }
    assert_eq!(sig_fails, tries);
}

#[test]
fn signatures_of_other_messages_first_batch() {
    signatures_of_other_messages_fail(500);
}

#[test]
fn signatures_of_other_messages_second_batch() {
    signatures_of_other_messages_fail(500);
}

#[test]
fn signatures_of_other_messages_third_batch() {
    signatures_of_other_messages_fail(500);
}

#[test]
fn signatures_of_other_messages_fourth_batch() {
    signatures_of_other_messages_fail(500);
}

#[test]
fn signatures_of_other_messages_fifth_batch() {
    signatures_of_other_messages_fail(500);
}

#[test]
fn signatures_of_other_messages_sixth_batch() {
    signatures_of_other_messages_fail(500);
}

#[test]
fn signatures_of_other_messages_seventh_batch() {
    signatures_of_other_messages_fail(500);
}

#[test]
fn signatures_of_other_messages_eighth_batch() {
    signatures_of_other_messages_fail(500);
}

#[test]
fn signatures_of_other_messages_ninth_batch() {
    signatures_of_other_messages_fail(500);
}

#[test]
fn signatures_of_other_messages_tenth_batch() {
    signatures_of_other_messages_fail(500);
}

#[test]
fn adversarial_bruteforce_suite() {
    let mut rng = XorShift::new();
    let alice = Identity::generate().unwrap();
    let bob = Identity::generate().unwrap();
    let mallory = Identity::generate().unwrap();
    let mut rejected = 0u32;
    for _ in 0..20_000 {
        let n = rng.below(200) as usize;
        let buf = rng.bytes(n);
        match unframe(&buf) {
            Ok(Some(_)) => {}
            Ok(None) => {}
            Err(_) => rejected += 1,
        }
    }
    let mut evil = u32::MAX.to_be_bytes().to_vec();
    evil.extend_from_slice(&rng.bytes(32));
    assert!(unframe(&evil).is_err());
    let good = frame(b"x");
    assert!(unframe(&good).is_ok());
    let secret = mailbox::derive_mailbox_secret(b"real-handshake-secret", &[7; 32], 1);
    let wrong = mailbox::derive_mailbox_secret(b"mallory-guess", &[7; 32], 1);
    let mut forgeries_rejected = 0u32;
    let forgeries = 3_000;
    for i in 0..forgeries {
        let mut body = rng.bytes(32);
        body[0] = i as u8;
        let env = Envelope { body, ..sample_envelope(&mallory, 2) };
        let w = BucketWrite::seal(env, &wrong, 1, 1_000_000, [(i % 255) as u8; 16]);
        if w.verify(&secret, 1_000_000).is_err() {
            forgeries_rejected += 1;
        }
    }
    assert_eq!(forgeries_rejected, forgeries);
    let mut env3 = sample_envelope(&alice, 3);
    env3.body = vec![0xAA; 200];
    let mut w = BucketWrite::seal(env3, &secret, 1, 1_000_000, [9; 16]);
    assert!(w.verify(&secret, 1_000_000).is_ok());
    let mut flips_rejected = 0u32;
    let mut total_flips = 0u32;
    for byte_pos in 0..w.envelope.body.len() {
        for bit in 0..8 {
            let original = w.envelope.body[byte_pos];
            w.envelope.body[byte_pos] = original ^ (1 << bit);
            total_flips += 1;
            if w.verify(&secret, 1_000_000).is_err() {
                flips_rejected += 1;
            }
            w.envelope.body[byte_pos] = original;
        }
    }
    assert_eq!(flips_rejected, total_flips);
    let mut db = Db::new();
    let mut dedup = Dedup::new(10_000);
    let env4 = sample_envelope(&alice, 4);
    let w4 = BucketWrite::seal(env4.clone(), &secret, 1, 1_000_000, [1; 16]);
    assert!(w4.verify(&secret, 1_000_000).is_ok());
    assert!(dedup.check_and_insert(env4.msg_id));
    assert!(!dedup.check_and_insert(env4.msg_id));
    assert!(db.record_seen(&env4.msg_id, 0));
    assert!(!db.record_seen(&env4.msg_id, 0));
    let w5 = BucketWrite::seal(sample_envelope(&alice, 5), &secret, 1, 1_000_000, [2; 16]);
    let edge = mailbox::REPLAY_WINDOW_MS;
    assert!(w5.verify(&secret, 1_000_000 + edge).is_ok());
    assert!(w5.verify(&secret, 1_000_000 - edge).is_ok());
    assert!(w5.verify(&secret, 1_000_000 + edge + 1).is_err());
    assert!(w5.verify(&secret, 1_000_000 - edge - 1).is_err());
    let alice_id = alice.node_id();
    let bob_id = bob.node_id();
    let mut db = Db::new();
    for t in 0..4u8 {
        for i in 0..1_000u16 {
            let id: [u8; 16] = [t, (i >> 8) as u8, i as u8, 0, 0, 0, 0, 0, 0, 0, 0, 0, 0, 0, 0, 0];
            let env = Envelope {
                msg_id: id,
                sender: alice_id,
                recipient: Some(bob_id),
                group: None,
                kind: PayloadKind::Text,
                body: vec![t, i as u8],
                sent_at_ms: 1,
                ttl_hops: 6,
                sig: None,
            };
            db.enqueue(&env);
            db.record_seen(&id, 1);
        }
    }
    let (pending, _dead, seen) = db.stats();
    assert_eq!(pending, 4_000);
    assert_eq!(seen, 4_000);
    let mut engine = PolicyEngine::new(Thresholds::default());
    let mut prev = Tier::Light;
    for _ in 0..10_000 {
        let tier = engine.observe(Metrics {
            group_size: rng.below(1_000) as u32,
            msg_rate: (rng.below(500) as f32).to_bits(),
        });
        assert!(tier >= prev || place(prev) - place(tier) == 1);
        prev = tier;
    }
    let mut h = EntropyHarvester::new().unwrap();
    let mut seen = HashSet::new();
    for _ in 0..100_000 {
        let mut b = [0u8; 8];
        h.draw(&mut b).unwrap();
        assert!(seen.insert(b));
    }
}
