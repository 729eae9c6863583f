//! Contacts and chats.
use dc_core::contacts::ContactStore;
use dc_core::vault::key_statement;

#[test]
fn upsert_list_verify_delete() {
    let mut s = ContactStore::new();
    s.upsert("bob", &[1u8; 32], &[2u8; 32], false, "", 10).unwrap();
    s.upsert("alice", &[3u8; 32], &[4u8; 32], true, "备注", 20).unwrap();
    let all = s.list();
    assert_eq!(all.len(), 2);
    s.upsert("bob", &[5u8; 32], &[6u8; 32], true, "", 30).unwrap();
    assert_eq!(s.list().len(), 2);
    let bob = s.list().into_iter().find(|c| c.name == "bob").unwrap();
    assert_eq!(bob.identity, vec![5u8; 32]);
    assert!(bob.verified);
    s.delete("alice");
    assert_eq!(s.list().len(), 1);
}

#[test]
fn rejects_wrong_sizes() {
    let mut s = ContactStore::new();
    assert!(s.upsert("x", &[0u8; 31], &[0u8; 32], false, "", 0).is_err());
    assert!(s.upsert("x", &[0u8; 32], &[0u8; 33], false, "", 0).is_err());
}

#[test]
fn contacts_file_store_requires_key() {
    assert!(key_statement("contact store", false, None).is_err());
}

#[test]
fn size_faults_are_told_apart() {
    let mut s = ContactStore::new();
    let identity = s.upsert("x", &[0u8; 31], &[0u8; 33], false, "", 0).unwrap_err();
    assert!(identity.message().contains("contact identity must be 32 or 33 bytes"));
    let bucket = s.upsert("x", &[0u8; 32], &[0u8; 33], false, "", 0).unwrap_err();
    assert!(bucket.message().contains("contact bucket must be 32 bytes"));
    assert!(s.list().is_empty());
}

#[test]
fn adding_again_keeps_the_first_time_and_place() {
    let mut s = ContactStore::new();
    s.upsert("late", &[1; 32], &[1; 32], false, "", 20).unwrap();
    s.upsert("early", &[2; 32], &[2; 32], false, "", 10).unwrap();
    s.upsert("same time", &[3; 32], &[3; 32], false, "", 20).unwrap();
    s.upsert("early", &[4; 32], &[4; 32], false, "again", 99).unwrap();
    let all = s.list();
    let names: Vec<&str> = all.iter().map(|c| c.name.as_str()).collect();
    assert_eq!(names, vec!["early", "late", "same time"]);
    assert_eq!(all[0].added_ms, 10);
    assert_eq!(all[0].note, "again");
}

#[test]
fn verification_is_noted_for_the_named_contact_only() {
    let mut s = ContactStore::new();
    s.upsert("a", &[1; 32], &[1; 32], false, "", 1).unwrap();
    s.upsert("b", &[2; 32], &[2; 32], false, "", 2).unwrap();
    s.set_verified("b", true);
    s.set_verified("nobody", true);
    let all = s.list();
    assert!(!all[0].verified && all[1].verified);
}

#[test]
fn chats_are_shown_by_time_and_cut_at_the_front() {
    let mut s = ContactStore::new();
    s.append_message("bob", true, "second", 20);
    s.append_message("bob", false, "first", 10);
    s.append_message("eve", false, "other", 15);
    s.append_message("bob", false, "third", 20);
    let texts = |limit: i32| -> Vec<String> {
        s.messages("bob", limit).into_iter().map(|m| m.text).collect()
    };
    assert_eq!(texts(10), vec!["first", "second", "third"]);
    assert_eq!(texts(2), vec!["second", "third"]);
    assert_eq!(texts(0), Vec::<String>::new());
    assert_eq!(texts(-1), vec!["first", "second", "third"]);
}

#[test]
fn each_chat_shows_its_newest_line() {
    let mut s = ContactStore::new();
    s.append_message("bob", true, "old", 10);
    s.append_message("eve", false, "eve", 15);
    s.append_message("bob", false, "new", 20);
    s.append_message("bob", false, "older", 5);
    let lines = s.last_messages();
    let shown: Vec<(&str, &str)> =
        lines.iter().map(|m| (m.peer.as_str(), m.text.as_str())).collect();
    assert_eq!(shown, vec![("bob", "new"), ("eve", "eve")]);
}

#[test]
fn an_identity_of_33_bytes_comes_back_unchanged() {
    let mut s = ContactStore::new();
    let mut typed = vec![5u8];
    typed.extend(1..=32u8);
    s.upsert("typed", &typed, &[1; 32], false, "", 1).unwrap();
    s.upsert("plain", &[7; 32], &[2; 32], false, "", 2).unwrap();
    assert!(s.upsert("long", &[7; 34], &[2; 32], false, "", 3).is_err());
    let all = s.list();
    assert_eq!(all.len(), 2);
    assert_eq!(all[0].identity, typed);
    assert_eq!(all[1].identity, vec![7; 32]);
}
