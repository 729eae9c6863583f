//! Relay tickets and the guard that lets them pass once.
use dc_core::identity::Identity;
use dc_core::relay::{RelayGuard, RelayTicket, MAX_TICKET_TTL_MS};

fn ticket(now: u64, challenge: [u8; 32], nonce: [u8; 16]) -> (Identity, RelayTicket) {
    let origin = Identity::generate().unwrap();
    let dest = Identity::generate().unwrap();
    let mut t = RelayTicket::new(
        &dest.node_id(),
        &origin.node_id(),
        now,
        now + 3_600_000,
        nonce,
        challenge,
    );
    t.sign(&origin).unwrap();
    (origin, t)
}

#[test]
fn sign_verify_and_accept() {
    let (_, t) = ticket(1000, [1; 32], [2; 16]);
    t.verify(1000, [1; 32]).unwrap();
    let mut guard = RelayGuard::new(1000);
    assert!(guard.accept(&t, 1000, [1; 32]));
}

#[test]
fn challenge_binding_rejects_stale_ticket() {
    let (_, t) = ticket(1000, [1; 32], [3; 16]);
    assert!(t.verify(2000, [9; 32]).is_err());
    let mut guard = RelayGuard::new(1000);
    assert!(!guard.accept(&t, 2000, [9; 32]));
}

#[test]
fn replay_same_ticket_rejected() {
    let (_, t) = ticket(1000, [1; 32], [4; 16]);
    let mut guard = RelayGuard::new(1000);
    assert!(guard.accept(&t, 1000, [1; 32]));
    assert!(!guard.accept(&t, 5000, [1; 32]));
    assert!(!guard.accept(&t, 500_000, [1; 32]));
}

#[test]
fn cache_flood_cannot_evict_live_ticket() {
    let (_, live) = ticket(1000, [1; 32], [4; 16]);
    let dest = Identity::generate().unwrap();
    let mut guard = RelayGuard::new(8);
    assert!(guard.accept(&live, 1000, [1; 32]));
    for i in 0..64u8 {
        let origin = Identity::generate().unwrap();
        let mut junk = RelayTicket::new(
            &dest.node_id(),
            &origin.node_id(),
            1000,
            1000 + 3_600_000,
            [i; 16],
            [1; 32],
        );
        junk.sign(&origin).unwrap();
        let _ = guard.accept(&junk, 1000 + i as u64, [1; 32]);
    }
    assert!(!guard.accept(&live, 1000 + 64, [1; 32]));
}

#[test]
fn new_challenge_requires_new_signature() {
    let (_, mut t) = ticket(1000, [1; 32], [5; 16]);
    t.challenge_hash = [5; 32];
    assert!(t.verify(1000, [5; 32]).is_err());
    let (_, mut t2) = ticket(1000, [1; 32], [7; 16]);
    t2.nonce = [8; 16];
    assert!(t2.verify(1000, [1; 32]).is_err());
}

#[test]
fn expired_ticket_rejected_with_skew_tolerance() {
    let (_, t) = ticket(1000, [1; 32], [9; 16]);
    let skew = 2 * 60 * 1000;
    assert!(t.verify(1000 + 3_600_000, [1; 32]).is_ok());
    assert!(t.verify(1000 + 3_600_000 + skew, [1; 32]).is_ok());
    assert!(t.verify(1000 + 3_600_000 + skew + 1, [1; 32]).is_err());
}

#[test]
fn ttl_cap_enforced() {
    let origin = Identity::generate().unwrap();
    let dest = Identity::generate().unwrap();
    let mut t = RelayTicket::new(
        &dest.node_id(),
        &origin.node_id(),
        1000,
        1000 + MAX_TICKET_TTL_MS + 1,
        [1; 16],
        [1; 32],
    );
    t.sign(&origin).unwrap();
    assert!(t.verify(1000, [1; 32]).is_err());
}

#[test]
fn wrong_signer_rejected() {
    let origin = Identity::generate().unwrap();
    let mallory = Identity::generate().unwrap();
    let dest = Identity::generate().unwrap();
    let mut t = RelayTicket::new(
        &dest.node_id(),
        &origin.node_id(),
        10_000,
        10_000 + 3_600_000,
        [9; 16],
        [1; 32],
    );
    t.sig = mallory.sign(&t.signing_payload()).to_bytes().to_vec();
    assert!(t.verify(10_000, [1; 32]).is_err());
}
