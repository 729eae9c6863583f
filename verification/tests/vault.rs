//! How encrypted stores are opened.
use dc_core::vault::key_statement;

#[test]
fn a_store_on_disk_needs_a_key() {
    let refused = key_statement("database", false, None).unwrap_err();
    assert!(refused
        .message()
        .contains("refusing to create unencrypted database: key required (strict mode)"));
    assert_eq!(key_statement("database", true, None).unwrap(), None);
}

#[test]
fn quotes_in_a_key_are_doubled() {
    assert_eq!(
        key_statement("database", false, Some("a'b''c")).unwrap().unwrap(),
        "PRAGMA key = 'a''b''''c';"
    );
    assert_eq!(
        key_statement("database", true, Some("x';DROP")).unwrap().unwrap(),
        "PRAGMA key = 'x'';DROP';"
    );
}
