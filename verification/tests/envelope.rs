//! Envelopes, frames and the memory of seen messages.
use ciborium::value::Value;
use dc_core::envelope::{frame, unframe, Dedup, Envelope, PayloadKind, MAX_FRAME_SIZE};
use dc_core::identity::Identity;

/// Bytes as an encoded list of numbers.
fn numbers(bytes: &[u8]) -> Value {
    Value::Array(bytes.iter().map(|b| Value::from(*b)).collect())
}

/// The encoded form of an envelope without a signature.
fn encode(e: &Envelope) -> Vec<u8> {
    let key = |k: &Option<[u8; 32]>| match k {
        Some(k) => numbers(k),
        None => Value::Null,
    };
    let fields = vec![
        ("msg_id", numbers(&e.msg_id)),
        ("sender", numbers(&e.sender)),
        ("recipient", key(&e.recipient)),
        ("group", key(&e.group)),
        ("kind", Value::from(format!("{:?}", e.kind))),
        ("body", numbers(&e.body)),
        ("sent_at_ms", Value::from(e.sent_at_ms)),
        ("ttl_hops", Value::from(e.ttl_hops)),
    ];
    let map = fields.into_iter().map(|(k, v)| (Value::from(k), v)).collect();
    let mut out = Vec::new();
    ciborium::ser::into_writer(&Value::Map(map), &mut out).unwrap();
    out
}

fn bytes_of(v: &Value) -> Vec<u8> {
    v.as_array()
        .unwrap()
        .iter()
        .map(|n| u8::try_from(n.as_integer().unwrap()).unwrap())
        .collect()
}

fn key_of(v: &Value) -> Option<[u8; 32]> {
    if v.is_null() {
        None
    } else {
        Some(bytes_of(v).try_into().unwrap())
    }
}

/// Reads the encoded form of a text envelope without a signature.
fn decode(bytes: &[u8]) -> Envelope {
    let value: Value = ciborium::de::from_reader(bytes).unwrap();
    let map = value.as_map().unwrap();
    let field = |name: &str| {
        map.iter().find(|(k, _)| k.as_text() == Some(name)).map(|(_, v)| v.clone()).unwrap()
    };
    assert_eq!(field("kind").as_text(), Some("Text"));
    Envelope {
        msg_id: bytes_of(&field("msg_id")).try_into().unwrap(),
        sender: bytes_of(&field("sender")).try_into().unwrap(),
        recipient: key_of(&field("recipient")),
        group: key_of(&field("group")),
        kind: PayloadKind::Text,
        body: bytes_of(&field("body")),
        sent_at_ms: u64::try_from(field("sent_at_ms").as_integer().unwrap()).unwrap(),
        ttl_hops: u8::try_from(field("ttl_hops").as_integer().unwrap()).unwrap(),
        sig: None,
    }
}

fn sample() -> Envelope {
    let id = Identity::generate().unwrap();
    Envelope {
        msg_id: [7u8; 16],
        sender: id.node_id(),
        recipient: Some([9u8; 32]),
        group: None,
        kind: PayloadKind::Text,
        body: vec![1, 2, 3, 4, 5],
        sent_at_ms: 1_724_000_000_000,
        ttl_hops: 6,
        sig: None,
    }
}

#[test]
fn sig_binds_every_field_and_wrong_signer_rejected() {
    let alice = Identity::from_seed([1u8; 32]);
    let mut e = sample();
    e.sender = alice.node_id();
    e.sign(&alice).unwrap();
    e.verify_sender_sig().unwrap();
    let expect_reject = |e: &Envelope| {
        assert!(e.verify_sender_sig().is_err());
    };
    let mut e1 = e.clone();
    e1.body[0] ^= 1;
    expect_reject(&e1);
    let mut e2 = e.clone();
    e2.msg_id = [8; 16];
    expect_reject(&e2);
    let mut e3 = e.clone();
    e3.ttl_hops -= 1;
    expect_reject(&e3);
    let mut e4 = e.clone();
    e4.kind = PayloadKind::SessionMgmt;
    expect_reject(&e4);
    let mut e5 = e.clone();
    e5.recipient = None;
    expect_reject(&e5);
    let mut e6 = e.clone();
    e6.sent_at_ms += 1;
    expect_reject(&e6);
    let mut e7 = e.clone();
    e7.group = Some([4; 32]);
    expect_reject(&e7);
    let mallory = Identity::from_seed([2u8; 32]);
    let mut forged = sample();
    forged.sender = alice.node_id();
    assert!(forged.sign(&mallory).is_err());
    assert!(forged.sig.is_none());
    forged.sig = Some(mallory.sign(&forged.signing_payload()).to_bytes().to_vec());
    expect_reject(&forged);
}

#[test]
fn missing_or_malformed_sig_degradation_is_explicit() {
    let mut e = sample();
    let sender = Identity::from_seed([5u8; 32]);
    e.sender = sender.node_id();
    assert!(!e.is_sender_signed());
    let err = e.verify_sender_sig().unwrap_err().message();
    assert!(err.contains("missing"));
    e.sig = Some(vec![0u8; 63]);
    assert!(e.verify_sender_sig().is_err());
    e.sig = Some(Vec::new());
    assert!(e.verify_sender_sig().is_err());
    e.sign(&sender).unwrap();
    e.verify_sender_sig().unwrap();
}

#[test]
fn frame_roundtrip_partial_feed() {
    let e = sample();
    let f = frame(&encode(&e));
    assert!(unframe(&f[..f.len() - 1]).unwrap().is_none());
    assert!(unframe(&f[..3]).unwrap().is_none());
    let (payload, consumed) = unframe(&f).unwrap().unwrap();
    assert_eq!(consumed, f.len());
    assert_eq!(decode(payload), e);
}

#[test]
fn frame_back_to_back() {
    let e = sample();
    let f1 = frame(&encode(&e));
    let f2 = frame(&encode(&e));
    let mut both = f1.clone();
    both.extend_from_slice(&f2);
    let (p1, c1) = unframe(&both).unwrap().unwrap();
    let (p2, c2) = unframe(&both[c1..]).unwrap().unwrap();
    assert_eq!(decode(p1), e);
    assert_eq!(decode(p2), e);
    assert_eq!(c1 + c2, both.len());
}

#[test]
fn unframe_rejects_oversized_declared_length() {
    let mut head = u32::MAX.to_be_bytes().to_vec();
    head.extend_from_slice(b"junk");
    assert!(unframe(&head).is_err());
    let mut head = (MAX_FRAME_SIZE as u32 + 1).to_be_bytes().to_vec();
    head.extend_from_slice(&[0u8; 16]);
    assert!(unframe(&head).is_err());
}

#[test]
fn dedup_insert_once_and_evict_fifo() {
    let mut d = Dedup::new(3);
    assert!(d.check_and_insert([1; 16]));
    assert!(!d.check_and_insert([1; 16]));
    assert!(d.check_and_insert([2; 16]));
    assert!(d.check_and_insert([3; 16]));
    assert!(d.check_and_insert([4; 16]));
    assert_eq!(d.len(), 3);
    assert!(d.check_and_insert([1; 16]));
}

#[test]
fn the_default_set_remembers_nothing() {
    let mut d = Dedup::default();
    assert!(d.check_and_insert([1; 16]));
    assert!(d.check_and_insert([1; 16]));
    assert!(d.is_empty());
}
