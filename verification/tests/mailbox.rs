//! Writes into a bucket and the ledger of messages.
use dc_core::envelope::{Envelope, MsgId, PayloadKind};
use dc_core::identity::Identity;
use dc_core::mailbox::{
    derive_mailbox_secret, generate_bucket_address, verify_inbound, BucketWrite, NonceCache,
    REPLAY_WINDOW_MS,
};

fn sample_envelope(sender: &Identity) -> Envelope {
    Envelope {
        msg_id: [1; 16],
        sender: sender.node_id(),
        recipient: Some([9; 32]),
        group: None,
        kind: PayloadKind::Text,
        body: vec![7; 64],
        sent_at_ms: 0,
        ttl_hops: 6,
        sig: None,
    }
}

#[test]
fn seal_verify_roundtrip() {
    let sender = Identity::generate().unwrap();
    let bucket = generate_bucket_address().unwrap();
    let secret = derive_mailbox_secret(b"handshake-abc", &bucket, 1);
    let w = BucketWrite::seal(sample_envelope(&sender), &secret, 1, 1000, [2; 16]);
    w.verify(&secret, 1000 + REPLAY_WINDOW_MS - 1).unwrap();
    w.verify(&secret, 1000).unwrap();
}

#[test]
fn wrong_key_or_tamper_rejected() {
    let sender = Identity::generate().unwrap();
    let bucket = generate_bucket_address().unwrap();
    let secret = derive_mailbox_secret(b"hs", &bucket, 1);
    let mut w = BucketWrite::seal(sample_envelope(&sender), &secret, 1, 1000, [3; 16]);
    let other = derive_mailbox_secret(b"hs", &bucket, 2);
    assert!(w.verify(&other, 1000).is_err());
    w.envelope.body.push(1);
    assert!(w.verify(&secret, 1000).is_err());
    let mut w2 = BucketWrite::seal(sample_envelope(&sender), &secret, 1, 1000, [4; 16]);
    w2.serial = 9;
    assert!(w2.verify(&secret, 1000).is_err());
}

#[test]
fn replay_window_enforced() {
    let sender = Identity::generate().unwrap();
    let bucket = generate_bucket_address().unwrap();
    let secret = derive_mailbox_secret(b"hs", &bucket, 1);
    let ts = 10_000_000u64;
    let w = BucketWrite::seal(sample_envelope(&sender), &secret, 1, ts, [5; 16]);
    w.verify(&secret, ts).unwrap();
    assert!(w.verify(&secret, ts + REPLAY_WINDOW_MS + 1).is_err());
    assert!(w.verify(&secret, ts - REPLAY_WINDOW_MS - 1).is_err());
}

#[test]
fn nonce_cache_detects_replay_across_serial_space() {
    let mut c = NonceCache::new(1000);
    let id: MsgId = [9; 16];
    assert!(c.check_and_insert(&id, 1000, 1000));
    assert!(!c.check_and_insert(&id, 1000, 1000));
    assert!(!c.check_and_insert(&id, 2000, 2000));
    let id2: MsgId = [8; 16];
    assert!(c.check_and_insert(&id2, 1000, 1000));
}

#[test]
fn mac_binds_every_envelope_field() {
    let sender = Identity::generate().unwrap();
    let bucket = generate_bucket_address().unwrap();
    let secret = derive_mailbox_secret(b"hs", &bucket, 1);
    let mut e = sample_envelope(&sender);
    e.group = Some([4; 32]);
    let w = BucketWrite::seal(e.clone(), &secret, 1, 1000, [1; 16]);
    w.verify(&secret, 1000).unwrap();
    let mut w2 = w.clone();
    w2.envelope.kind = PayloadKind::SessionMgmt;
    assert!(w2.verify(&secret, 1000).is_err());
    let mut w3 = w.clone();
    w3.envelope.sent_at_ms += 1;
    assert!(w3.verify(&secret, 1000).is_err());
    let mut w4 = w.clone();
    w4.envelope.ttl_hops -= 1;
    assert!(w4.verify(&secret, 1000).is_err());
    let mut w5 = w.clone();
    w5.envelope.group = None;
    assert!(w5.verify(&secret, 1000).is_err());
}

#[test]
fn derive_binds_bucket_and_serial() {
    let b1 = generate_bucket_address().unwrap();
    let b2 = generate_bucket_address().unwrap();
    assert_ne!(b1, b2);
    assert_ne!(derive_mailbox_secret(b"k", &b1, 1), derive_mailbox_secret(b"k", &b2, 1));
    assert_ne!(derive_mailbox_secret(b"k", &b1, 1), derive_mailbox_secret(b"k", &b1, 2));
    assert_ne!(derive_mailbox_secret(b"k", &b1, 1), derive_mailbox_secret(b"j", &b1, 1));
}

#[test]
fn verify_inbound_enforces_order_and_replay() {
    let sender = Identity::generate().unwrap();
    let bucket = generate_bucket_address().unwrap();
    let secret = derive_mailbox_secret(b"hs", &bucket, 1);
    let w = BucketWrite::seal(sample_envelope(&sender), &secret, 1, 1000, [3; 16]);
    let mut nonces = NonceCache::new(100);
    verify_inbound(&w, &secret, &mut nonces, 1000).unwrap();
    assert!(verify_inbound(&w, &secret, &mut nonces, 1000).is_err());
    let mut bad = w.clone();
    bad.envelope.body.push(1);
    bad.nonce = [9; 16];
    assert!(verify_inbound(&bad, &secret, &mut nonces, 1000).is_err());
}

#[test]
fn the_hash_covers_the_signature() {
    let sender = Identity::from_seed([3; 32]);
    let secret = [4u8; 32];
    let plain = BucketWrite::seal(sample_envelope(&sender), &secret, 1, 1000, [3; 16]);
    let mut marked = plain.clone();
    marked.envelope.sig = Some(vec![0; 64]);
    assert_ne!(plain.mac_input(), marked.mac_input());
    assert!(marked.verify(&secret, 1000).is_err());
    let mut env = sample_envelope(&sender);
    env.sign(&sender).unwrap();
    let signed = BucketWrite::seal(env, &secret, 1, 1000, [3; 16]);
    signed.verify(&secret, 1000).unwrap();
    assert_eq!(signed.mac_input().len(), plain.mac_input().len() + 72);
    let mut stripped = signed.clone();
    stripped.envelope.sig = None;
    assert!(stripped.verify(&secret, 1000).is_err());
    let mut longer = signed.clone();
    longer.envelope.sig.as_mut().unwrap().push(0);
    assert!(longer.verify(&secret, 1000).is_err());
}

#[test]
fn a_line_is_kept_beyond_the_window() {
    let mut c = NonceCache::new(8);
    let (id, ts) = ([7u8; 16], 1_000_000u64);
    let end = ts + REPLAY_WINDOW_MS + 2 * 120_000;
    assert!(c.check_and_insert(&id, ts, ts));
    assert!(!c.check_and_insert(&id, ts, ts + REPLAY_WINDOW_MS + 1));
    assert!(!c.check_and_insert(&id, ts, end - 1));
    assert!(c.check_and_insert(&id, ts, end));
}
