//! What the core does with what strangers and restarts bring.
use dc_core::delivery::DeliveryManager;
use dc_core::envelope::{Envelope, PayloadKind};
use dc_core::handshake::{first_message_mac, verify_first_message_mac};
use dc_core::identity::Identity;
use dc_core::mailbox::{
    derive_mailbox_secret, generate_bucket_address, BucketWrite, MailboxRead, NonceCache,
};
use dc_core::maildrop::{InMemoryBucketStorage, MailboxError, MailboxManager};
use dc_core::node::{check_payload, parse_naddr};
use dc_core::queue::Db;
use dc_core::retry::RetryPolicy;
use dc_core::vault::key_statement;

const NOW: u64 = 1_700_000_000_000;

fn env(msg_id: [u8; 16], sender: [u8; 32], body: Vec<u8>) -> Envelope {
    Envelope {
        msg_id,
        sender,
        recipient: Some([9; 32]),
        group: None,
        kind: PayloadKind::Text,
        body,
        sent_at_ms: NOW,
        ttl_hops: 6,
        sig: None,
    }
}

#[test]
fn red3_mailbox_replay_ledger_dies_with_process() {
    let secret = Box::leak(Box::new([7u8; 32]));
    let sender = Identity::from_seed([9; 32]);
    let w = BucketWrite::seal(
        env([3; 16], sender.node_id(), vec![0xAB; 64]),
        secret,
        1,
        NOW,
        [5; 16],
    );
    let mut proc1 = MailboxManager::new(4096);
    proc1.submit_write(&w, secret, NOW).unwrap();
    assert_eq!(proc1.submit_write(&w, secret, NOW), Err(MailboxError::ReplayRejected));
    drop(proc1);
    let mut proc2 = MailboxManager::new(4096);
    assert_eq!(proc2.submit_write(&w, secret, NOW), Ok(()));
    let mut db = Db::new();
    assert!(db.record_seen(&[3; 16], NOW));
    let mut db2 = Db::new();
    assert!(db2.record_seen(&[3; 16], NOW));
}

#[test]
fn red4_read_ledger_global_fifo_cross_pair_eviction() {
    let bucket_b = generate_bucket_address().unwrap();
    let bucket_a = generate_bucket_address().unwrap();
    let secret_b = derive_mailbox_secret(b"red2-b", &bucket_b, 1);
    let secret_a = derive_mailbox_secret(b"red2-a", &bucket_a, 1);
    let mut mgr = MailboxManager::new(4096);
    let mut st = InMemoryBucketStorage::default();
    let sender = Identity::from_seed([8; 32]);
    let wb = BucketWrite::seal(env([4; 16], sender.node_id(), vec![1; 32]), &secret_b, 1, NOW, [1; 16]);
    st.store(&bucket_b, &wb);
    let read_b = MailboxRead::seal_read(bucket_b, &secret_b, 0, [0xB1; 16]);
    assert_eq!(mgr.read_bucket(&read_b, &secret_b, &st).unwrap().len(), 1);
    assert_eq!(mgr.read_bucket(&read_b, &secret_b, &st), Err(MailboxError::ReplayRejected));
    for i in 0..16384u32 {
        let mut n = [0u8; 16];
        n[0] = (i >> 8) as u8;
        n[1] = i as u8;
        n[2] = 0xAA;
        let r = MailboxRead::seal_read(bucket_a, &secret_a, 0, n);
        assert!(mgr.read_bucket(&r, &secret_a, &st).is_ok());
    }
    // The flood fills its own pair's ledger only: the replay is still refused.
    assert_eq!(mgr.read_bucket(&read_b, &secret_b, &st), Err(MailboxError::ReplayRejected));
}

#[test]
fn red5_sent_rows_retained_forever_and_revive_has_no_state_guard() {
    let send = |_: &Envelope| -> Result<bool, String> { Ok(true) };
    let mut dm = DeliveryManager::new(Db::new(), send);
    for i in 0..64u8 {
        dm.db_mut().enqueue_full(&env([i; 16], [1; 32], vec![i; 512]));
    }
    for _ in 0..4 {
        assert_eq!(dm.tick(NOW).unwrap().sent, 16);
    }
    assert_eq!(dm.db().stats(), (0, 0, 0));
    // Only what was given up comes back: a delivered message is not sent again.
    dm.db_mut().revive(&[7; 16]);
    assert_eq!(dm.db().due_envelopes(NOW + 1, 10).unwrap().len(), 0);
    // Sent messages do not stay for ever either.
    assert_eq!(dm.db().outbox().len(), 64);
    dm.cleanup(NOW + 8 * 24 * 3_600_000);
    assert_eq!(dm.db().outbox().len(), 0);
}

#[test]
fn red6_inbox_seen_ledger_is_uncapped() {
    let mut db = Db::new();
    let flood = 30_000u32;
    let mut taken = 0u32;
    for i in 0..flood {
        let mut id = [0u8; 16];
        id[0] = (i >> 8) as u8;
        id[1] = i as u8;
        if db.record_seen(&id, NOW + i as u64) {
            taken += 1;
        }
    }
    // A full ledger takes no more and forgets nothing.
    assert_eq!(taken, 16_384);
    assert_eq!(db.stats().2, 16_384);
    assert!(!db.record_seen(&[0; 16], NOW + 30_000));
    let mut nc = NonceCache::new(30_000);
    let mut accepted = 0u32;
    for i in 0..flood {
        let mut id = [0u8; 16];
        id[0] = (i >> 8) as u8;
        id[1] = i as u8;
        if nc.check_and_insert(&id, NOW, NOW) {
            accepted += 1;
        }
    }
    assert_eq!(accepted, 4096);
}

#[test]
fn red7_first_message_mac_has_no_single_use_or_context_binding() {
    let token = [0x5Au8; 48];
    let bucket = [0x3Cu8; 32];
    let ct = b"prekey-signal-message-bytes";
    let mac = first_message_mac(&token, &bucket, ct);
    for _ in 0..1000 {
        verify_first_message_mac(&token, &bucket, ct, &mac)
            .unwrap();
    }
    let mac2 = first_message_mac(&token, &bucket, ct);
    assert_eq!(mac, mac2);
}

#[test]
fn green2_envelope_structural_gate() {
    let id = Identity::from_seed([1; 32]);
    let mut e = env([1; 16], id.node_id(), vec![1]);
    e.group = Some([2; 32]);
    e.recipient = Some([3; 32]);
    assert!(e.check_shape().is_err());
    e.recipient = None;
    e.ttl_hops = 0;
    assert!(e.check_shape().is_err());
}

#[test]
fn green3_mailbox_gate_error_classes_are_distinct() {
    let secret = Box::leak(Box::new(derive_mailbox_secret(b"g3", &[3; 32], 1)));
    let sender = Identity::from_seed([2; 32]);
    let mut mgr = MailboxManager::new(4096);
    let w = BucketWrite::seal(env([9; 16], sender.node_id(), vec![1; 32]), secret, 1, NOW, [9; 16]);
    mgr.submit_write(&w, secret, NOW).unwrap();
    assert_eq!(mgr.submit_write(&w, secret, NOW), Err(MailboxError::ReplayRejected));
    let mut tampered = w.clone();
    tampered.envelope.body.push(1);
    assert_eq!(mgr.submit_write(&tampered, secret, NOW), Err(MailboxError::MacMismatch));
    let late = BucketWrite::seal(env([8; 16], sender.node_id(), vec![2; 32]), secret, 1, NOW - 6 * 60_000, [8; 16]);
    assert_eq!(mgr.submit_write(&late, secret, NOW), Err(MailboxError::WindowExceeded));
}

#[test]
fn green4_delivery_survives_extreme_clock() {
    let send = |_: &Envelope| -> Result<bool, String> { Ok(true) };
    let mut dm = DeliveryManager::with_policy(Db::new(), Some(send), RetryPolicy::default(), 4);
    let mut e = env([1; 16], [1; 32], vec![1]);
    e.sent_at_ms = u64::MAX;
    dm.db_mut().enqueue_full(&e);
    let rep = dm.tick(u64::MAX).unwrap();
    assert_eq!(rep.sent, 1);
    assert_eq!(dm.db().stats(), (0, 0, 0));
}

#[test]
fn green1_all_file_stores_refuse_unencrypted() {
    assert!(key_statement("database", false, None).is_err());
    assert!(key_statement("signal store", false, None).is_err());
    assert!(key_statement("contact store", false, None).is_err());
}

#[test]
fn green5_node_send_rejects_malformed_input() {
    assert!(parse_naddr("garbage").is_err());
    assert!(check_payload(0).is_err());
    assert!(check_payload(256 * 1024 + 1).is_err());
    assert!(check_payload(256 * 1024).is_ok());
}
