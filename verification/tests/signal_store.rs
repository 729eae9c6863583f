//! What a device keeps for its sessions.
use dc_core::identity::Identity;
use dc_core::signal_store::{key_table, KeyTable, SignalStore};
use dc_core::vault::key_statement;
use dc_core::CoreError;

fn identity() -> Vec<u8> {
    Identity::generate().unwrap().node_id().to_vec()
}

#[test]
fn tofu_pin_and_identity_change() {
    let mut alice = SignalStore::new();
    let bik = identity();
    assert!(alice.is_trusted_identity("b", 1, &bik));
    alice.save_identity("b", 1, &bik).unwrap();
    assert!(alice.is_trusted_identity("b", 1, &bik));
    let bik2 = identity();
    assert!(!alice.is_trusted_identity("b", 1, &bik2));
}

#[test]
fn prekey_ids_advance() {
    let mut bob = SignalStore::new();
    let id1 = bob.next_prekey_id("pre_keys").unwrap();
    bob.save_key(KeyTable::PreKeys, id1, &[1]);
    let id2 = bob.next_prekey_id("pre_keys").unwrap();
    bob.save_key(KeyTable::PreKeys, id2, &[2]);
    assert!(id2 > id1);
    assert_eq!(bob.get_key(KeyTable::PreKeys, id1), Some(&vec![1]));
}

#[test]
fn signal_store_file_store_requires_key() {
    assert!(key_statement("signal store", false, None).is_err());
}

#[test]
fn a_changed_identity_is_refused_until_it_is_confirmed() {
    let mut s = SignalStore::new();
    s.save_identity("b", 1, &[1]).unwrap();
    s.save_identity("b", 1, &[1]).unwrap();
    let refused = s.save_identity("b", 1, &[2]).unwrap_err();
    assert!(matches!(&refused, CoreError::IdentityChanged(name) if name == "b"));
    assert_eq!(s.get_identity("b", 1), Some(&vec![1]));
    assert!(!s.upsert_identity_confirmed("b", 1, &[1]));
    assert!(s.upsert_identity_confirmed("b", 1, &[2]));
    assert_eq!(s.get_identity("b", 1), Some(&vec![2]));
    assert_eq!(s.get_identity("b", 2), None);
    assert!(!s.upsert_identity_confirmed("b", 2, &[3]));
    assert!(s.is_trusted_identity("c", 1, &[9]));
    assert!(!s.is_trusted_identity("b", 2, &[9]));
}

#[test]
fn numbers_begin_again_when_they_are_used_up() {
    let mut s = SignalStore::new();
    assert_eq!(s.next_prekey_id("kyber_pre_keys").unwrap(), 1);
    s.save_key(KeyTable::KyberPreKeys, 41, &[0]);
    assert_eq!(s.next_prekey_id("kyber_pre_keys").unwrap(), 42);
    assert_eq!(s.next_prekey_id("signed_pre_keys").unwrap(), 1);
    s.save_key(KeyTable::KyberPreKeys, u32::MAX, &[0]);
    assert_eq!(s.next_prekey_id("kyber_pre_keys").unwrap(), 1);
}

#[test]
fn unknown_tables_are_refused() {
    let s = SignalStore::new();
    assert!(s.next_prekey_id("sessions").unwrap_err().message().contains("unknown prekey table"));
    assert_eq!(key_table("signed_pre_keys").unwrap(), KeyTable::SignedPreKeys);
}

#[test]
fn used_keys_and_sessions_are_kept_apart() {
    let mut s = SignalStore::new();
    s.save_key(KeyTable::PreKeys, 1, &[1]);
    s.save_key(KeyTable::KyberPreKeys, 1, &[2]);
    s.remove_key(KeyTable::KyberPreKeys, 1);
    assert_eq!(s.get_key(KeyTable::KyberPreKeys, 1), None);
    assert_eq!(s.get_key(KeyTable::PreKeys, 1), Some(&vec![1]));
    assert_eq!(s.load_session("b", 1), None);
    s.store_session("b", 1, &[7]);
    s.store_session("b", 1, &[8]);
    assert_eq!(s.load_session("b", 1), Some(&vec![8]));
}

#[test]
fn the_device_is_set_up_once() {
    let mut s = SignalStore::new();
    assert_eq!(s.local_identity(), None);
    s.save_local_identity(&[1, 2, 3], 77);
    assert_eq!(s.local_identity(), Some((vec![1, 2, 3], 77)));
}
