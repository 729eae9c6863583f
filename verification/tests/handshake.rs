//! The handshake between two contacts.
use dc_core::handshake::{
    first_message_mac, one_time_key, readable_type, sas_code, type_byte, verify_first_message_mac,
    CiphertextType,
};
use dc_core::mailbox::derive_mailbox_secret;

#[test]
fn first_message_token_mac() {
    let token = [7u8; 48];
    let bucket = [9u8; 32];
    let ct = b"prekey-signal-message-bytes";
    let mac = first_message_mac(&token, &bucket, ct);
    verify_first_message_mac(&token, &bucket, ct, &mac).unwrap();
    let wrong_token = [8u8; 48];
    assert!(verify_first_message_mac(&wrong_token, &bucket, ct, &mac).is_err());
    let mut tampered = ct.to_vec();
    tampered[0] ^= 1;
    assert!(verify_first_message_mac(&token, &bucket, &tampered, &mac).is_err());
}

#[test]
fn first_message_mac_is_a_keyed_hash_of_tag_and_message() {
    let (token, bucket, ct) = ([1u8; 48], [2u8; 32], b"hello");
    let key = derive_mailbox_secret(&token, &bucket, 0);
    let mut input = b"dc-first-msg-v1".to_vec();
    input.extend_from_slice(ct);
    assert_eq!(first_message_mac(&token, &bucket, ct), *blake3::keyed_hash(&key, &input).as_bytes());
    let err = verify_first_message_mac(&token, &bucket, ct, &[0; 32]).unwrap_err();
    assert!(err.message().contains("first-message token mac mismatch"));
}

#[test]
fn the_code_has_six_digits_of_a_hash() {
    let full = "05060 12345 99999".to_owned();
    let mut input = b"dc-sas6-v1".to_vec();
    input.extend_from_slice(full.as_bytes());
    let hash = blake3::hash(&input);
    let four: [u8; 4] = hash.as_bytes()[..4].try_into().unwrap();
    let expected = format!("{:06}", u32::from_be_bytes(four) % 1_000_000);
    let (same, six) = sas_code(full.clone());
    assert_eq!(same, full);
    assert_eq!(six, expected);
    assert_eq!(six.len(), 6);
    assert_ne!(sas_code("05060 12345 99998".to_owned()).1, six);
}

#[test]
fn kinds_have_their_bytes() {
    assert_eq!(type_byte(CiphertextType::Whisper), 2);
    assert_eq!(type_byte(CiphertextType::PreKey), 3);
    assert_eq!(type_byte(CiphertextType::SenderKey), 7);
    assert_eq!(type_byte(CiphertextType::Plaintext), 8);
    assert_eq!(readable_type(2).unwrap(), CiphertextType::Whisper);
    assert_eq!(readable_type(3).unwrap(), CiphertextType::PreKey);
    let err = readable_type(7).unwrap_err();
    assert!(err.message().contains("unsupported ciphertext type 7"));
    assert!(readable_type(255).unwrap_err().message().contains("type 255"));
}

#[test]
fn a_one_time_key_needs_number_and_key() {
    assert_eq!(one_time_key(Some(3), Some(vec![1])), Some((3, vec![1])));
    assert_eq!(one_time_key(None, Some(vec![1])), None);
    assert_eq!(one_time_key(Some(3), None), None);
}
