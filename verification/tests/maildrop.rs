//! The mailbox service.
use dc_core::envelope::{Envelope, PayloadKind};
use dc_core::identity::Identity;
use dc_core::mailbox::{
    derive_mailbox_secret, generate_bucket_address, BucketWrite, MailboxRead, REPLAY_WINDOW_MS,
};
use dc_core::maildrop::{
    classify_gate, InMemoryBucketStorage, MailboxError, MailboxManager, WRITES_PER_MINUTE,
};
use dc_core::CoreError;

fn sealed_write(sender: &Identity, secret: &[u8; 32], byte: u8, ts_ms: u64) -> BucketWrite {
    let env = Envelope {
        msg_id: [byte; 16],
        sender: sender.node_id(),
        recipient: Some([9; 32]),
        group: None,
        kind: PayloadKind::Text,
        body: vec![7; 64],
        sent_at_ms: ts_ms,
        ttl_hops: 6,
        sig: None,
    };
    BucketWrite::seal(env, secret, 1, ts_ms, [byte; 16])
}

fn fresh_manager() -> MailboxManager {
    MailboxManager::new(4096)
}

#[test]
fn submit_write_accepts_fresh_write() {
    let sender = Identity::generate().unwrap();
    let bucket = generate_bucket_address().unwrap();
    let secret = derive_mailbox_secret(b"hs", &bucket, 1);
    let mut mgr = fresh_manager();
    let ts = 1_000_000u64;
    let w = sealed_write(&sender, &secret, 1, ts);
    mgr.submit_write(&w, &secret, ts).unwrap();
    assert_eq!(mgr.nonce_cache_len(), 1);
    assert_eq!(mgr.tracked_senders(), 1);
}

#[test]
fn submit_write_rejects_replay() {
    let sender = Identity::generate().unwrap();
    let bucket = generate_bucket_address().unwrap();
    let secret = derive_mailbox_secret(b"hs", &bucket, 1);
    let mut mgr = fresh_manager();
    let ts = 1_000_000u64;
    let w = sealed_write(&sender, &secret, 7, ts);
    mgr.submit_write(&w, &secret, ts).unwrap();
    assert_eq!(mgr.submit_write(&w, &secret, ts), Err(MailboxError::ReplayRejected));
    assert_eq!(mgr.submit_write(&w, &secret, ts + 1000), Err(MailboxError::ReplayRejected));
}

#[test]
fn submit_write_rate_limited_after_thirty_per_minute() {
    let sender = Identity::generate().unwrap();
    let bucket = generate_bucket_address().unwrap();
    let secret = derive_mailbox_secret(b"hs", &bucket, 1);
    let mut mgr = fresh_manager();
    let t0 = 10_000_000u64;
    for i in 0..WRITES_PER_MINUTE {
        let w = sealed_write(&sender, &secret, (i as u8) + 1, t0);
        mgr.submit_write(&w, &secret, t0).unwrap();
    }
    let w31 = sealed_write(&sender, &secret, 40, t0);
    assert_eq!(mgr.submit_write(&w31, &secret, t0), Err(MailboxError::RateLimited));
    let t1 = t0 + 61_000;
    mgr.submit_write(&sealed_write(&sender, &secret, 41, t1), &secret, t1).unwrap();
}

#[test]
fn submit_write_rejects_mac_mismatch() {
    let sender = Identity::generate().unwrap();
    let bucket = generate_bucket_address().unwrap();
    let secret = derive_mailbox_secret(b"hs", &bucket, 1);
    let mut mgr = fresh_manager();
    let ts = 1_000_000u64;
    let w = sealed_write(&sender, &secret, 7, ts);
    let wrong = derive_mailbox_secret(b"other-secret", &bucket, 1);
    assert_eq!(mgr.submit_write(&w, &wrong, ts), Err(MailboxError::MacMismatch));
    let mut tampered = w.clone();
    tampered.envelope.body.push(1);
    assert_eq!(mgr.submit_write(&tampered, &secret, ts), Err(MailboxError::MacMismatch));
    mgr.submit_write(&w, &secret, ts).unwrap();
}

#[test]
fn submit_write_rejects_outside_window() {
    let sender = Identity::generate().unwrap();
    let bucket = generate_bucket_address().unwrap();
    let secret = derive_mailbox_secret(b"hs", &bucket, 1);
    let mut mgr = fresh_manager();
    let ts = 10_000_000u64;
    let w = sealed_write(&sender, &secret, 7, ts);
    let future = ts + REPLAY_WINDOW_MS + 1;
    assert_eq!(mgr.submit_write(&w, &secret, future), Err(MailboxError::WindowExceeded));
    let past = ts.saturating_sub(REPLAY_WINDOW_MS + 1);
    assert_eq!(mgr.submit_write(&w, &secret, past), Err(MailboxError::WindowExceeded));
    mgr.submit_write(&w, &secret, ts).unwrap();
}

#[test]
fn pairs_have_independent_buckets() {
    let a = Identity::generate().unwrap();
    let b = Identity::generate().unwrap();
    let secret_a = derive_mailbox_secret(b"hs-a", &generate_bucket_address().unwrap(), 1);
    let secret_b = derive_mailbox_secret(b"hs-b", &generate_bucket_address().unwrap(), 1);
    let mut mgr = fresh_manager();
    let t0 = 10_000_000u64;
    for i in 0..WRITES_PER_MINUTE {
        let w = sealed_write(&a, &secret_a, (i as u8) + 1, t0);
        mgr.submit_write(&w, &secret_a, t0).unwrap();
    }
    let late = sealed_write(&a, &secret_a, 99, t0);
    assert_eq!(mgr.submit_write(&late, &secret_a, t0), Err(MailboxError::RateLimited));
    // Another name for the sender does not help.
    let renamed = sealed_write(&b, &secret_a, 97, t0);
    assert_eq!(mgr.submit_write(&renamed, &secret_a, t0), Err(MailboxError::RateLimited));
    mgr.submit_write(&sealed_write(&b, &secret_b, 50, t0), &secret_b, t0).unwrap();
    for i in 1..WRITES_PER_MINUTE {
        let w = sealed_write(&b, &secret_b, 60 + (i as u8), t0);
        mgr.submit_write(&w, &secret_b, t0).unwrap();
    }
    let late = sealed_write(&b, &secret_b, 98, t0);
    assert_eq!(mgr.submit_write(&late, &secret_b, t0), Err(MailboxError::RateLimited));
    assert_eq!(mgr.tracked_senders(), 2);
    assert_eq!(mgr.nonce_cache_len(), 63);
    // Half a minute gives half of the budget back.
    let t1 = t0 + 30_000;
    for i in 0..15u8 {
        mgr.submit_write(&sealed_write(&a, &secret_a, 100 + i, t1), &secret_a, t1).unwrap();
    }
    let late = sealed_write(&a, &secret_a, 120, t1);
    assert_eq!(mgr.submit_write(&late, &secret_a, t1), Err(MailboxError::RateLimited));
}

#[test]
fn one_id_may_be_used_by_two_pairs() {
    let a = Identity::generate().unwrap();
    let one = derive_mailbox_secret(b"hs-1", &[1; 32], 1);
    let two = derive_mailbox_secret(b"hs-2", &[2; 32], 1);
    let mut mgr = fresh_manager();
    let t0 = 10_000_000u64;
    mgr.submit_write(&sealed_write(&a, &one, 1, t0), &one, t0).unwrap();
    mgr.submit_write(&sealed_write(&a, &two, 1, t0), &two, t0).unwrap();
    let again = sealed_write(&a, &two, 1, t0);
    assert_eq!(mgr.submit_write(&again, &two, t0), Err(MailboxError::ReplayRejected));
}

#[test]
fn refusals_have_their_words() {
    assert_eq!(MailboxError::MacMismatch.message(), "信箱写入验签失败（钥匙不符或内容被篡改）");
    assert_eq!(MailboxError::WindowExceeded.message(), "信箱写入时间戳超出重放窗口");
    assert_eq!(MailboxError::ReplayRejected.message(), "重放的信箱写入被拒绝");
    assert_eq!(MailboxError::RateLimited.message(), "发送方写入超过限速（≤30 封/分钟/对）");
}

#[test]
fn entrance_errors_are_sorted_by_their_words() {
    let class = |text: &str| classify_gate(CoreError::Crypto(text.to_string()));
    assert_eq!(class("replayed write"), MailboxError::ReplayRejected);
    assert_eq!(class("mailbox write outside replay window"), MailboxError::WindowExceeded);
    assert_eq!(class("mailbox mac mismatch"), MailboxError::MacMismatch);
    assert_eq!(class("something else"), MailboxError::MacMismatch);
    assert_eq!(classify_gate(CoreError::Db("replayed write".to_string())), MailboxError::MacMismatch);
}

#[test]
fn a_read_passes_once_and_goes_on_from_its_cursor() {
    let a = Identity::generate().unwrap();
    let bucket = [4u8; 32];
    let secret = derive_mailbox_secret(b"hs", &bucket, 1);
    let mut storage = InMemoryBucketStorage::new();
    for i in 1..=3u8 {
        assert_eq!(storage.store(&bucket, &sealed_write(&a, &secret, i, 1000)), i as u64);
    }
    assert_eq!(storage.store(&[5; 32], &sealed_write(&a, &secret, 9, 1000)), 1);
    assert_eq!((storage.count(&bucket), storage.count(&[5; 32]), storage.count(&[6; 32])), (3, 1, 0));
    let mut mgr = fresh_manager();
    let read = MailboxRead::seal_read(bucket, &secret, 1, [7; 16]);
    let got = mgr.read_bucket(&read, &secret, &storage).unwrap();
    assert_eq!(got.iter().map(|w| w.envelope.msg_id).collect::<Vec<_>>(), [[2; 16], [3; 16]]);
    assert_eq!(mgr.read_bucket(&read, &secret, &storage), Err(MailboxError::ReplayRejected));
    let mut forged = MailboxRead::seal_read(bucket, &secret, 1, [8; 16]);
    forged.cursor = 0;
    assert_eq!(mgr.read_bucket(&forged, &secret, &storage), Err(MailboxError::MacMismatch));
    // A flood of another pair brings the request no second chance.
    let other = derive_mailbox_secret(b"other", &[5; 32], 1);
    for i in 0..1_000u32 {
        let mut nonce = [0u8; 16];
        nonce[..4].copy_from_slice(&i.to_be_bytes());
        let r = MailboxRead::seal_read([5; 32], &other, 1, nonce);
        assert!(mgr.read_bucket(&r, &other, &storage).is_ok());
    }
    assert_eq!(mgr.read_bucket(&read, &secret, &storage), Err(MailboxError::ReplayRejected));
}
