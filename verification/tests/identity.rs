//! Identities, signatures and fingerprints.
use dc_core::identity::{
    fingerprint1024, format_fingerprint, identity_fingerprint, safety_groups, verify, Identity,
};

#[test]
fn node_id_is_public_key() {
    let id = Identity::generate().unwrap();
    assert_eq!(id.node_id().len(), 32);
    let id2 = Identity::from_seed(id.clone_seed());
    assert_eq!(id.node_id(), id2.node_id());
}

#[test]
fn identity_sign_verify_roundtrip() {
    let id = Identity::generate().unwrap();
    let msg = b"hello decentralized world";
    let sig = id.sign(msg);
    verify(&id.public(), msg, &sig).unwrap();
    let bad = b"hello decentralized worlD";
    assert!(verify(&id.public(), bad, &sig).is_err());
}

#[test]
fn fingerprint_is_1024bit_and_deterministic() {
    let id = Identity::generate().unwrap();
    let f1 = identity_fingerprint(&id.node_id());
    let f2 = identity_fingerprint(&id.node_id());
    assert_eq!(f1.len(), 128);
    assert_eq!(f1, f2);
    let other = identity_fingerprint(&Identity::generate().unwrap().node_id());
    assert_ne!(f1, other);
}

#[test]
fn fingerprint_domain_separated() {
    let a = fingerprint1024(&[b"identity", &[1u8; 32]]);
    let b = fingerprint1024(&[&[1u8; 32], b"identity"]);
    assert_ne!(a, b);
}

#[test]
fn format_groups() {
    let fp = [0xabu8; 128];
    let s = format_fingerprint(&fp);
    assert_eq!(s.len(), 128 * 2 + 31);
    assert!(s.starts_with("abababab abababab"));
    let sg = safety_groups(&fp, 4);
    assert_eq!(sg, "abababab abababab abababab abababab");
}
