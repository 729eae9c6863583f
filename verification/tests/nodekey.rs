//! Announcements of node keys.
use ciborium::value::Value;
use dc_core::envelope::{Envelope, PayloadKind};
use dc_core::identity::Identity;
use dc_core::mailbox::{derive_mailbox_secret, generate_bucket_address, BucketWrite};
use dc_core::maildrop::{distribute_announcement, InMemoryBucketStorage};
use dc_core::nodekey::{
    AnnouncementDispatcher, NodeKeyAnnouncement, NodeKeyRing, DEFAULT_OVERLAP_MS,
};

/// Bytes as an encoded list of numbers.
fn numbers(bytes: &[u8]) -> Value {
    Value::Array(bytes.iter().map(|b| Value::from(*b)).collect())
}

/// The encoded form of an announcement.
fn encode(a: &NodeKeyAnnouncement) -> Vec<u8> {
    let fields = vec![
        ("identity", numbers(&a.identity)),
        ("node_key", numbers(&a.node_key)),
        ("serial", Value::from(a.serial)),
        ("not_before_ms", Value::from(a.not_before_ms)),
        ("not_after_ms", Value::from(a.not_after_ms)),
        ("sig", numbers(&a.sig)),
    ];
    let map = fields.into_iter().map(|(k, v)| (Value::from(k), v)).collect();
    let mut out = Vec::new();
    ciborium::ser::into_writer(&Value::Map(map), &mut out).unwrap();
    out
}

fn bytes_of(v: &Value) -> Vec<u8> {
    v.as_array()
        .unwrap()
        .iter()
        .map(|n| u8::try_from(n.as_integer().unwrap()).unwrap())
        .collect()
}

/// Reads the encoded form of an announcement.
fn decode(bytes: &[u8]) -> NodeKeyAnnouncement {
    let value: Value = ciborium::de::from_reader(bytes).unwrap();
    let map = value.as_map().unwrap();
    let field = |name: &str| {
        map.iter().find(|(k, _)| k.as_text() == Some(name)).map(|(_, v)| v.clone()).unwrap()
    };
    let number = |name: &str| u64::try_from(field(name).as_integer().unwrap()).unwrap();
    NodeKeyAnnouncement {
        identity: bytes_of(&field("identity")).try_into().unwrap(),
        node_key: bytes_of(&field("node_key")).try_into().unwrap(),
        serial: number("serial"),
        not_before_ms: number("not_before_ms"),
        not_after_ms: number("not_after_ms"),
        sig: bytes_of(&field("sig")),
    }
}

fn make_ann(serial: u64, now: u64) -> (Identity, NodeKeyAnnouncement) {
    let id = Identity::generate().unwrap();
    let node = Identity::generate().unwrap();
    let mut ann = NodeKeyAnnouncement::new(&id.node_id(), &node.node_id(), serial, now, DEFAULT_OVERLAP_MS);
    ann.sign(&id).unwrap();
    (id, ann)
}

#[test]
fn nodekey_sign_verify_roundtrip() {
    let (_, ann) = make_ann(1, 1000);
    ann.verify().unwrap();
}

#[test]
fn tamper_rejected() {
    let (_, mut ann) = make_ann(1, 1000);
    ann.node_key = [9; 32];
    assert!(ann.verify().is_err());
    let (_, mut ann2) = make_ann(1, 1000);
    ann2.not_after_ms = ann2.not_before_ms;
    assert!(ann2.verify().is_err());
    let (_, mut ann3) = make_ann(0, 1000);
    ann3.serial = 0;
    assert!(ann3.verify().is_err());
}

#[test]
fn ring_picks_highest_serial_and_overlaps() {
    let mut ring = NodeKeyRing::new();
    let (id, ann1) = make_ann(1, 1000);
    let node1 = ann1.node_key;
    let node_key2 = Identity::generate().unwrap().node_id();
    let mut ann2 = NodeKeyAnnouncement::new(&id.node_id(), &node_key2, 2, 2000, DEFAULT_OVERLAP_MS);
    ann2.sign(&id).unwrap();
    ring.upsert(&ann1, 1500).unwrap();
    assert_eq!(ring.current(&id.node_id(), 1500), Some(&node1));
    ring.upsert(&ann2, 2500).unwrap();
    assert_eq!(ring.current(&id.node_id(), 2500), Some(&node_key2));
    assert!(ring.accepts(&id.node_id(), &node1, 2500));
    ring.upsert(&ann1, 2600).unwrap();
    assert_eq!(ring.current(&id.node_id(), 2600), Some(&node_key2));
    assert!(!ring.accepts(&id.node_id(), &node1, 2000 + DEFAULT_OVERLAP_MS + 1));
}

#[test]
fn expired_announcement_rejected() {
    let (_, ann) = make_ann(1, 1000);
    let mut ring = NodeKeyRing::new();
    assert!(ring.upsert(&ann, 1000 + DEFAULT_OVERLAP_MS + 1).is_err());
}

#[test]
fn rotate_distribute_peer_upsert_current_end_to_end() {
    let alice = Identity::generate().unwrap();
    let mut dispatcher = AnnouncementDispatcher::new();
    let t0 = 10_000_000u64;
    let k1 = Identity::generate().unwrap().node_id();
    let ann = dispatcher.rotate(&alice, &k1, t0).unwrap();
    assert_eq!(ann.serial, 1);
    let bucket = generate_bucket_address().unwrap();
    let secret = derive_mailbox_secret(b"sp2", &bucket, 1);
    let mut storage = InMemoryBucketStorage::default();
    distribute_announcement(&ann, &encode(&ann), &secret, &mut storage, &bucket, t0).unwrap();
    let writes = storage.fetch_after(&bucket, 0);
    assert_eq!(writes.len(), 1);
    assert_eq!(writes[0].envelope.kind, PayloadKind::SessionMgmt);
    writes[0].verify(&secret, t0).unwrap();
    let received = decode(&writes[0].envelope.body);
    assert_eq!(received, ann);
    let mut peer_ring = NodeKeyRing::new();
    peer_ring.upsert(&received, t0).unwrap();
    assert_eq!(peer_ring.current(&alice.node_id(), t0), Some(&k1));
    assert_eq!(dispatcher.current_key(&alice.node_id(), t0), Some(&k1));
}

#[test]
fn distributed_rotation_keeps_old_key_acceptable_in_overlap() {
    let alice = Identity::generate().unwrap();
    let mut dispatcher = AnnouncementDispatcher::new();
    let bucket = generate_bucket_address().unwrap();
    let secret = derive_mailbox_secret(b"sp2-overlap", &bucket, 1);
    let mut storage = InMemoryBucketStorage::default();
    let mut peer_ring = NodeKeyRing::new();
    let t0 = 10_000_000u64;
    let k1 = Identity::generate().unwrap().node_id();
    let ann1 = dispatcher.rotate(&alice, &k1, t0).unwrap();
    distribute_announcement(&ann1, &encode(&ann1), &secret, &mut storage, &bucket, t0).unwrap();
    let t1 = t0 + 1000;
    let k2 = Identity::generate().unwrap().node_id();
    let ann2 = dispatcher.rotate(&alice, &k2, t1).unwrap();
    assert_eq!(ann2.serial, 2);
    distribute_announcement(&ann2, &encode(&ann2), &secret, &mut storage, &bucket, t1).unwrap();
    for w in storage.fetch_after(&bucket, 0) {
        peer_ring
            .upsert(&decode(&w.envelope.body), t1)
            .unwrap();
    }
    assert_eq!(peer_ring.current(&alice.node_id(), t1), Some(&k2));
    assert!(peer_ring.accepts(&alice.node_id(), &k1, t1));
    assert!(!peer_ring.accepts(&alice.node_id(), &k1, ann1.not_after_ms + 1));
    assert!(dispatcher.ring().accepts(&alice.node_id(), &k1, t1));
    assert_eq!(dispatcher.current_key(&alice.node_id(), t1), Some(&k2));
}

#[test]
fn forged_announcement_rejected_at_dispatch_and_upsert() {
    let alice = Identity::generate().unwrap();
    let mallory = Identity::generate().unwrap();
    let t0 = 10_000_000u64;
    let mut forged =
        NodeKeyAnnouncement::new(&alice.node_id(), &[7; 32], 1, t0, DEFAULT_OVERLAP_MS);
    forged.sig = mallory.sign(&forged.signing_payload()).to_bytes().to_vec();
    let bucket = generate_bucket_address().unwrap();
    let secret = derive_mailbox_secret(b"sp2-forge", &bucket, 1);
    let mut storage = InMemoryBucketStorage::default();
    assert!(distribute_announcement(&forged, &encode(&forged), &secret, &mut storage, &bucket, t0).is_err());
    assert_eq!(storage.count(&bucket), 0);
    let mut msg_id = [0u8; 16];
    getrandom::fill(&mut msg_id).unwrap();
    let env = Envelope {
        msg_id,
        sender: mallory.node_id(),
        recipient: None,
        group: None,
        kind: PayloadKind::SessionMgmt,
        body: encode(&forged),
        sent_at_ms: t0,
        ttl_hops: 6,
        sig: None,
    };
    let w = BucketWrite::seal(env, &secret, 1, t0, [3; 16]);
    w.verify(&secret, t0).unwrap();
    storage.store(&bucket, &w);
    let relayed = decode(&storage.fetch_after(&bucket, 0)[0].envelope.body);
    let mut peer_ring = NodeKeyRing::new();
    assert!(peer_ring.upsert(&relayed, t0).is_err());
    assert_eq!(peer_ring.current(&alice.node_id(), t0), None);
}

#[test]
fn three_consecutive_rotations_serial_increments_current_latest() {
    let alice = Identity::generate().unwrap();
    let mut dispatcher = AnnouncementDispatcher::new();
    let bucket = generate_bucket_address().unwrap();
    let secret = derive_mailbox_secret(b"sp2-three", &bucket, 1);
    let mut storage = InMemoryBucketStorage::default();
    let mut peer_ring = NodeKeyRing::new();
    let t0 = 10_000_000u64;
    let mut prev: Option<NodeKeyAnnouncement> = None;
    for i in 1..=3u64 {
        let now = t0 + (i - 1) * 1000;
        let k = Identity::generate().unwrap().node_id();
        let ann = dispatcher.rotate(&alice, &k, now).unwrap();
        assert_eq!(ann.serial, i);
        distribute_announcement(&ann, &encode(&ann), &secret, &mut storage, &bucket, now).unwrap();
        let w = &storage.fetch_after(&bucket, i - 1)[0];
        peer_ring
            .upsert(&decode(&w.envelope.body), now)
            .unwrap();
        assert_eq!(peer_ring.current(&alice.node_id(), now), Some(&k));
        assert_eq!(dispatcher.current_key(&alice.node_id(), now), Some(&k));
        if let Some(old) = &prev {
            assert!(peer_ring.accepts(&alice.node_id(), &old.node_key, now));
        }
        prev = Some(ann);
    }
    assert_eq!(storage.count(&bucket), 3);
}

#[test]
fn a_ring_comes_through_a_restart() {
    let (alice, bob) = (Identity::from_seed([1; 32]), Identity::from_seed([2; 32]));
    let mut ring = NodeKeyRing::new();
    for (who, serial) in [(&alice, 1u64), (&bob, 5), (&alice, 2), (&alice, 3)] {
        let key = [serial as u8; 32];
        let mut ann = NodeKeyAnnouncement::new(&who.node_id(), &key, serial, 1000, DEFAULT_OVERLAP_MS);
        ann.sign(who).unwrap();
        ring.upsert(&ann, 1000).unwrap();
    }
    let mut again = NodeKeyRing::new();
    again.restore(ring.state(), 2000).unwrap();
    assert_eq!(again.state(), ring.state());
    assert_eq!(again.current(&alice.node_id(), 2000), Some(&[3; 32]));
    assert!(again.accepts(&alice.node_id(), &[1; 32], 2000));
    assert_eq!(again.current(&bob.node_id(), 2000), Some(&[5; 32]));
    let mut late = NodeKeyRing::new();
    assert!(late.restore(ring.state(), 1000 + DEFAULT_OVERLAP_MS).is_err());
}

#[test]
fn a_default_ring_and_dispatcher_are_empty() {
    assert!(NodeKeyRing::default().state().is_empty());
    let mut d = AnnouncementDispatcher::default();
    assert_eq!(d.rotate(&Identity::from_seed([1; 32]), &[2; 32], 1000).unwrap().serial, 1);
}
