//! The core as an interface sees it.
use std::cell::RefCell;
use std::rc::Rc;

use ciborium::value::Value;
use dc_core::envelope::{Envelope, PayloadKind};
use dc_core::ffi::{
    first_message_mac, hex_decode_16, hex_decode_32, map_err, node_id_from_naddr, seal_bucket_read,
    verify_first_message_mac, AcceptedWrites, AnnouncementDispatcherHandle, BucketStorageHandle,
    ChatMessage, Contact, ContactStore,
    CoreInfo, DcError, DeliveryManagerHandle, MailboxManagerHandle, SasCode, TickReportRecord,
    ACCEPTED_CAP,
};
use dc_core::handshake::sas_code;
use dc_core::identity::Identity;
use dc_core::mailbox::{derive_mailbox_secret, generate_bucket_address, BucketWrite};
use dc_core::maildrop::WRITES_PER_MINUTE;
use dc_core::nodekey::{NodeKeyAnnouncement, NodeKeyRing, DEFAULT_OVERLAP_MS};
use dc_core::queue::Db;
use dc_core::retry::RetryPolicy;
use dc_core::signal_backend::build_probe;
use dc_core::CoreError;

/// Bytes as an encoded list of numbers.
fn numbers(bytes: &[u8]) -> Value {
    Value::Array(bytes.iter().map(|b| Value::from(*b)).collect())
}

/// The encoded form of an announcement.
fn encode(a: &NodeKeyAnnouncement) -> Vec<u8> {
    let fields = vec![
        ("identity", numbers(&a.identity)),
        ("node_key", numbers(&a.node_key)),
        ("serial", Value::from(a.serial)),
        ("not_before_ms", Value::from(a.not_before_ms)),
        ("not_after_ms", Value::from(a.not_after_ms)),
        ("sig", numbers(&a.sig)),
    ];
    let map = fields.into_iter().map(|(k, v)| (Value::from(k), v)).collect();
    let mut out = Vec::new();
    ciborium::ser::into_writer(&Value::Map(map), &mut out).unwrap();
    out
}

fn bytes_of(v: &Value) -> Vec<u8> {
    v.as_array()
        .unwrap()
        .iter()
        .map(|n| u8::try_from(n.as_integer().unwrap()).unwrap())
        .collect()
}

/// Reads the encoded form of an announcement.
fn decode(bytes: &[u8]) -> NodeKeyAnnouncement {
    let value: Value = ciborium::de::from_reader(bytes).unwrap();
    let map = value.as_map().unwrap();
    let field = |name: &str| {
        map.iter().find(|(k, _)| k.as_text() == Some(name)).map(|(_, v)| v.clone()).unwrap()
    };
    let number = |name: &str| u64::try_from(field(name).as_integer().unwrap()).unwrap();
    NodeKeyAnnouncement {
        identity: bytes_of(&field("identity")).try_into().unwrap(),
        node_key: bytes_of(&field("node_key")).try_into().unwrap(),
        serial: number("serial"),
        not_before_ms: number("not_before_ms"),
        not_after_ms: number("not_after_ms"),
        sig: bytes_of(&field("sig")),
    }
}

fn hex32(bytes: &[u8; 32]) -> String {
    bytes.iter().map(|b| format!("{b:02x}")).collect()
}

fn hex16(id: &[u8; 16]) -> String {
    id.iter().map(|b| format!("{b:02x}")).collect()
}

fn sealed_write(sender: &Identity, secret: &[u8; 32], byte: u8, ts_ms: u64) -> BucketWrite {
    let env = Envelope {
        msg_id: [byte; 16],
        sender: sender.node_id(),
        recipient: Some([9; 32]),
        group: None,
        kind: PayloadKind::Text,
        body: vec![7; 64],
        sent_at_ms: ts_ms,
        ttl_hops: 6,
        sig: None,
    };
    BucketWrite::seal(env, secret, 1, ts_ms, [byte; 16])
}

#[test]
fn submit_accepts_fresh_write_via_json_and_rejects_replay() {
    let sender = Identity::generate().unwrap();
    let bucket = generate_bucket_address().unwrap();
    let secret = derive_mailbox_secret(b"ffi", &bucket, 1);
    let mut h = MailboxManagerHandle::new(1024);
    let mut accepted = AcceptedWrites::new();
    let ts = 1_000_000u64;
    let w = sealed_write(&sender, &secret, 1, ts);
    assert_eq!(
        h.submit(&w, &hex32(&secret), ts, &mut accepted).unwrap(),
        "accepted"
    );
    let err = h.submit(&w, &hex32(&secret), ts, &mut accepted).unwrap_err();
    assert!(err.message().contains("重放"));
}

#[test]
fn submit_rejects_malformed_json_and_hex() {
    let mut h = MailboxManagerHandle::new(1024);
    let mut accepted = AcceptedWrites::new();
    let w = sealed_write(&Identity::from_seed([1; 32]), &[0; 32], 1, 0);
    for bad in ["ab".repeat(31), "zz".repeat(32)] {
        let err = h.submit(&w, &bad, 0, &mut accepted).unwrap_err();
        assert!(err.message().contains("secret_hex"));
        assert!(!accepted.was_accepted(&w));
    }
}

#[test]
fn submit_surfaces_rate_limit_error_text() {
    let sender = Identity::generate().unwrap();
    let bucket = generate_bucket_address().unwrap();
    let secret = derive_mailbox_secret(b"ffi", &bucket, 1);
    let mut h = MailboxManagerHandle::new(1024);
    let mut accepted = AcceptedWrites::new();
    let ts = 2_000_000u64;
    for i in 0..WRITES_PER_MINUTE {
        let w = sealed_write(&sender, &secret, (i as u8) + 1, ts);
        h.submit(&w, &hex32(&secret), ts, &mut accepted).unwrap();
    }
    let w = sealed_write(&sender, &secret, 99, ts);
    let err = h.submit(&w, &hex32(&secret), ts, &mut accepted).unwrap_err();
    assert!(err.message().contains("限速"));
}

#[test]
fn read_bucket_via_ffi_returns_writes_after_cursor() {
    let sender = Identity::generate().unwrap();
    let bucket = generate_bucket_address().unwrap();
    let secret = derive_mailbox_secret(b"ffi-read", &bucket, 1);
    let ts = 3_000_000u64;
    let mut gate = MailboxManagerHandle::new(1024);
    let mut accepted = AcceptedWrites::new();
    let mut st = BucketStorageHandle::new();
    for i in 1..=3u8 {
        let w = sealed_write(&sender, &secret, i, ts);
        assert_eq!(
            gate.submit(&w, &hex32(&secret), ts, &mut accepted).unwrap(),
            "accepted"
        );
        assert_eq!(
            st.store_write(&hex32(&bucket), &w, &accepted).unwrap(),
            i as u64
        );
    }
    assert_eq!(st.count(&hex32(&bucket)).unwrap(), 3);
    let read = seal_bucket_read(&hex32(&bucket), &hex32(&secret), 1, 0).unwrap();
    let all = st.read_bucket(&read, &hex32(&secret), 0).unwrap();
    assert_eq!(all.len(), 3);
    let read = seal_bucket_read(&hex32(&bucket), &hex32(&secret), 1, 2).unwrap();
    let tail = st.read_bucket(&read, &hex32(&secret), 2).unwrap();
    assert_eq!(tail.len(), 1);
    assert_eq!(tail[0].envelope.msg_id, [3; 16]);
    let read = seal_bucket_read(&hex32(&bucket), &hex32(&secret), 1, 3).unwrap();
    assert!(st.read_bucket(&read, &hex32(&secret), 3).unwrap().is_empty());
    let empty_bucket = generate_bucket_address().unwrap();
    let read = seal_bucket_read(&hex32(&empty_bucket), &hex32(&secret), 1, 0).unwrap();
    assert!(st.read_bucket(&read, &hex32(&secret), 0).unwrap().is_empty());
}

#[test]
fn read_bucket_via_ffi_rejects_replay_and_cursor_mismatch() {
    let sender = Identity::generate().unwrap();
    let bucket = generate_bucket_address().unwrap();
    let secret = derive_mailbox_secret(b"ffi-read", &bucket, 1);
    let ts = 3_000_000u64;
    let mut gate = MailboxManagerHandle::new(1024);
    let mut accepted = AcceptedWrites::new();
    let mut st = BucketStorageHandle::new();
    let w = sealed_write(&sender, &secret, 1, ts);
    gate.submit(&w, &hex32(&secret), ts, &mut accepted).unwrap();
    st.store_write(&hex32(&bucket), &w, &accepted).unwrap();
    let wrong = derive_mailbox_secret(b"attacker", &bucket, 1);
    let forged = seal_bucket_read(&hex32(&bucket), &hex32(&wrong), 1, 0).unwrap();
    assert!(st.read_bucket(&forged, &hex32(&secret), 0).is_err());
    let read = seal_bucket_read(&hex32(&bucket), &hex32(&secret), 1, 0).unwrap();
    assert!(st.read_bucket(&read, &hex32(&secret), 2).is_err());
    st.read_bucket(&read, &hex32(&secret), 0).unwrap();
    let err = st.read_bucket(&read, &hex32(&secret), 0).unwrap_err();
    assert!(err.message().contains("重放"));
    assert!(seal_bucket_read(&"zz".repeat(32), &hex32(&secret), 1, 0).is_err());
}

#[test]
fn store_write_requires_gate_acceptance() {
    let sender = Identity::generate().unwrap();
    let bucket = generate_bucket_address().unwrap();
    let secret = derive_mailbox_secret(b"ffi-a9", &bucket, 1);
    let ts = 4_000_000u64;
    let mut gate = MailboxManagerHandle::new(1024);
    let mut accepted = AcceptedWrites::new();
    let mut st = BucketStorageHandle::new();
    let w = sealed_write(&sender, &secret, 1, ts);
    assert!(st.store_write(&hex32(&bucket), &w, &accepted).is_err());
    assert_eq!(st.count(&hex32(&bucket)).unwrap(), 0);
    gate.submit(&w, &hex32(&secret), ts, &mut accepted).unwrap();
    assert_eq!(st.store_write(&hex32(&bucket), &w, &accepted).unwrap(), 1);
    let mut bad = w.clone();
    bad.mac[0] ^= 1;
    assert!(st.store_write(&hex32(&bucket), &bad, &accepted).is_err());
    assert_eq!(st.count(&hex32(&bucket)).unwrap(), 1);
    assert_eq!(st.store_write(&hex32(&bucket), &w, &accepted).unwrap(), 2);
}

fn fresh_seed() -> ([u8; 32], Identity) {
    let mut seed = [0u8; 32];
    getrandom::fill(&mut seed).unwrap();
    (seed, Identity::from_seed(seed))
}

#[test]
fn dispatcher_ffi_rotate_distribute_current_end_to_end() {
    let t0 = 10_000_000u64;
    let (seed, alice) = fresh_seed();
    let mut h = AnnouncementDispatcherHandle::new();
    let mut st = BucketStorageHandle::new();
    let k1 = Identity::generate().unwrap().node_id();
    let ann = h.rotate(&hex32(&seed), &hex32(&k1), t0).unwrap();
    assert_eq!(ann.serial, 1);
    assert_eq!(ann.identity, alice.node_id());
    ann.verify().unwrap();
    let bucket = generate_bucket_address().unwrap();
    let secret = derive_mailbox_secret(b"ffi-sp2", &bucket, 1);
    let to_bytes = |a: &NodeKeyAnnouncement| -> Result<Vec<u8>, CoreError> { Ok(encode(a)) };
    let seq = h
        .distribute(
            &hex32(&seed),
            &hex32(&k1),
            &hex32(&bucket),
            &hex32(&secret),
            &to_bytes,
            &mut st,
            t0,
        )
        .unwrap();
    assert_eq!(seq, 1);
    let read = seal_bucket_read(&hex32(&bucket), &hex32(&secret), 1, 0).unwrap();
    let writes = st.read_bucket(&read, &hex32(&secret), 0).unwrap();
    assert_eq!(writes.len(), 1);
    assert_eq!(writes[0].envelope.kind, PayloadKind::SessionMgmt);
    writes[0].verify(&secret, t0).unwrap();
    let got = decode(&writes[0].envelope.body);
    let mut ring = NodeKeyRing::new();
    ring.upsert(&got, t0).unwrap();
    assert_eq!(ring.current(&alice.node_id(), t0), Some(&k1));
    assert_eq!(h.current_key(&hex32(&alice.node_id()), t0).unwrap(), Some(hex32(&k1)));
    assert_eq!(h.current_key(&hex32(&[0u8; 32]), t0).unwrap(), None);
}

#[test]
fn dispatcher_ffi_distribute_signed_fans_out_same_serial() {
    let t0 = 10_000_000u64;
    let (seed, alice) = fresh_seed();
    let k1 = Identity::generate().unwrap().node_id();
    let mut h = AnnouncementDispatcherHandle::new();
    let mut st = BucketStorageHandle::new();
    let ann = h.rotate(&hex32(&seed), &hex32(&k1), t0).unwrap();
    let bytes = encode(&ann);
    let b1 = generate_bucket_address().unwrap();
    let b2 = generate_bucket_address().unwrap();
    let s1 = derive_mailbox_secret(b"ffi-fan", &b1, 1);
    let s2 = derive_mailbox_secret(b"ffi-fan", &b2, 1);
    assert_eq!(
        h.distribute_signed(&ann, &bytes, &hex32(&b1), &hex32(&s1), &mut st, t0).unwrap(),
        1
    );
    assert_eq!(
        h.distribute_signed(&ann, &bytes, &hex32(&b2), &hex32(&s2), &mut st, t0).unwrap(),
        1
    );
    for (b, s) in [(&b1, &s1), (&b2, &s2)] {
        let read = seal_bucket_read(&hex32(b), &hex32(s), 1, 0).unwrap();
        let writes = st.read_bucket(&read, &hex32(s), 0).unwrap();
        assert_eq!(writes.len(), 1);
        let got = decode(&writes[0].envelope.body);
        assert_eq!(got.serial, 1);
        assert_eq!(got.node_key, k1);
        let mut ring = NodeKeyRing::new();
        ring.upsert(&got, t0).unwrap();
        assert_eq!(ring.current(&alice.node_id(), t0), Some(&k1));
    }
}

#[test]
fn dispatcher_ffi_rejects_bad_hex_and_forged_announcement() {
    let mut h = AnnouncementDispatcherHandle::new();
    let mut st = BucketStorageHandle::new();
    let t0 = 10_000_000u64;
    assert!(h.rotate(&"zz".repeat(32), &hex32(&[0; 32]), t0).is_err());
    assert!(h.rotate(&hex32(&[0; 32]), &"ab".repeat(31), t0).is_err());
    let (_seed, alice) = fresh_seed();
    let k1 = Identity::generate().unwrap().node_id();
    let mut ann = NodeKeyAnnouncement::new(&alice.node_id(), &k1, 1, t0, DEFAULT_OVERLAP_MS);
    ann.sign(&alice).unwrap();
    ann.node_key = [9; 32];
    let bucket = generate_bucket_address().unwrap();
    let secret = derive_mailbox_secret(b"ffi-forge", &bucket, 1);
    assert!(h
        .distribute_signed(&ann, &encode(&ann), &hex32(&bucket), &hex32(&secret), &mut st, t0)
        .is_err());
    assert_eq!(st.count(&hex32(&bucket)).unwrap(), 0);
}

type Callback = Box<dyn Fn(&Envelope) -> Result<bool, String>>;

fn callback(fail: bool, delivered: Rc<RefCell<Vec<Envelope>>>) -> Callback {
    Box::new(move |e: &Envelope| {
        if fail {
            return Ok(false);
        }
        delivered.borrow_mut().push(e.clone());
        Ok(true)
    })
}

fn queued(msg_id: [u8; 16], sent_at: u64) -> Envelope {
    Envelope {
        msg_id,
        sender: Identity::generate().unwrap().node_id(),
        recipient: Some([9; 32]),
        group: None,
        kind: PayloadKind::Text,
        body: vec![1, 2, 3],
        sent_at_ms: sent_at,
        ttl_hops: 6,
        sig: None,
    }
}

fn handle(fail: bool, delivered: Rc<RefCell<Vec<Envelope>>>) -> DeliveryManagerHandle<Callback> {
    DeliveryManagerHandle::new(Db::new(), callback(fail, delivered))
}

#[test]
fn ffi_enqueue_tick_delivers_via_callback() {
    let delivered = Rc::new(RefCell::new(Vec::new()));
    let mut h = handle(false, delivered.clone());
    h.enqueue(&queued([1; 16], 1000));
    h.enqueue(&queued([2; 16], 2000));
    let rep = h.tick(3000).unwrap();
    assert_eq!((rep.attempted, rep.sent), (2, 2));
    let out = delivered.borrow();
    assert_eq!(out.len(), 2);
    assert_eq!(out[0].msg_id, [1; 16]);
    assert_eq!(out[0].body, vec![1, 2, 3]);
    assert_eq!(h.stats(), vec![0, 0, 0]);
}

#[test]
fn ffi_offline_waits_then_dead_then_revive() {
    let mut h = handle(true, Rc::new(RefCell::new(Vec::new())));
    h.enqueue(&queued([3; 16], 1000));
    let step = RetryPolicy::default().max_delay_ms + 1;
    let mut last = TickReportRecord::default();
    for i in 1..=8u64 {
        last = h.tick(i * step).unwrap();
        if i < 8 {
            assert_eq!(last.dead, 0);
        }
    }
    assert_eq!(last.dead, 1);
    assert_eq!(h.stats(), vec![0, 1, 0]);
    assert_eq!(h.dead_letters(10).unwrap(), vec![hex16(&[3; 16])]);
    h.revive(&hex16(&[3; 16])).unwrap();
    h.set_callback(callback(false, Rc::new(RefCell::new(Vec::new()))));
    let rep = h.tick(100 * step).unwrap();
    assert_eq!((rep.attempted, rep.sent), (1, 1));
    assert_eq!(h.stats(), vec![0, 0, 0]);
}

#[test]
fn ffi_unreachable_stays_queued_and_cleanup_runs() {
    let mut h = handle(true, Rc::new(RefCell::new(Vec::new())));
    h.enqueue(&queued([4; 16], 1000));
    let rep = h.tick(1000).unwrap();
    assert_eq!((rep.attempted, rep.unreachable, rep.sent), (1, 1, 0));
    assert_eq!(h.stats(), vec![1, 0, 0]);
    h.clear_callback();
    assert_eq!(h.tick(99_999).unwrap(), TickReportRecord::default());
    let c = h.cleanup(1_000_000);
    assert_eq!((c.pruned_seen, c.pruned_dead), (0, 0));
    assert!(h.revive(&"zz".repeat(16)).is_err());
    assert!(h.revive(&"ab".repeat(8)).is_err());
    assert!(h.dead_letters(10).unwrap().is_empty());
}

#[test]
fn hexadecimal_arguments_may_have_space_around_them() {
    let key = [0xA5u8; 32];
    assert_eq!(hex_decode_32(&hex32(&key)), Some(key));
    assert_eq!(hex_decode_32(&format!(" \t{}\n", hex32(&key))), Some(key));
    assert_eq!(hex_decode_32(&hex32(&key).to_uppercase()), Some(key));
    assert_eq!(hex_decode_32(&"a5".repeat(33)), None);
    assert_eq!(hex_decode_32(&"g5".repeat(32)), None);
    assert_eq!(hex_decode_16(&"0f".repeat(16)), Some([15; 16]));
    assert_eq!(hex_decode_16(&"0f".repeat(15)), None);
}

#[test]
fn the_oldest_accepted_write_is_forgotten_first() {
    let mut accepted = AcceptedWrites::new();
    let sender = Identity::from_seed([1; 32]);
    let (first, second) = (sealed_write(&sender, &[2; 32], 1, 5), sealed_write(&sender, &[2; 32], 2, 5));
    accepted.register(&first);
    accepted.register(&first);
    assert!(accepted.was_accepted(&first));
    assert!(!accepted.was_accepted(&second));
    assert_eq!(ACCEPTED_CAP, 65_536);
}

#[test]
fn errors_keep_their_words() {
    let plain = map_err(CoreError::Db("locked".to_string()));
    assert_eq!(plain.message(), "数据库错误: locked");
    let changed = map_err(CoreError::IdentityChanged("bob".to_string()));
    assert!(matches!(&changed, DcError::RemoteIdentityChanged { name } if name == "bob"));
    assert_eq!(changed.message(), "对方身份已变更（bob 已绑定不同的长期身份钥），需重新带外验证");
    for (error, words) in [
        (CoreError::Entropy("x".to_string()), "熵源错误: x"),
        (CoreError::Crypto("x".to_string()), "密码学错误: x"),
        (CoreError::Cbor("x".to_string()), "CBOR 编解码错误: x"),
        (CoreError::Io("x".to_string()), "IO 错误: x"),
        (CoreError::Config("x".to_string()), "配置错误: x"),
    ] {
        assert_eq!(error.message(), words);
        assert_eq!(map_err(error).message(), words);
    }
}

#[test]
fn the_first_message_is_bound_to_its_arguments() {
    let (token, bucket, text) = (vec![1u8; 48], vec![2u8; 32], b"hello".to_vec());
    let mac = first_message_mac(token.clone(), bucket.clone(), text.clone()).unwrap();
    assert_eq!(mac.len(), 32);
    let check = |t: &Vec<u8>, b: &Vec<u8>, c: &Vec<u8>, m: &Vec<u8>| {
        verify_first_message_mac(t.clone(), b.clone(), c.clone(), m.clone())
    };
    assert!(check(&token, &bucket, &text, &mac).unwrap());
    assert!(!check(&token, &bucket, &b"hellp".to_vec(), &mac).unwrap());
    assert!(!check(&token, &vec![3u8; 32], &text, &mac).unwrap());
    assert!(!check(&vec![9u8; 48], &bucket, &text, &mac).unwrap());
    let short = first_message_mac(token.clone(), vec![2u8; 31], text.clone()).unwrap_err();
    assert_eq!(short.message(), "bucket must be 32 bytes");
    let short = check(&token, &bucket, &text, &vec![0u8; 31]).unwrap_err();
    assert_eq!(short.message(), "mac must be 32 bytes");
}

#[test]
fn ledgers_live_on_over_a_restart() {
    let secret = derive_mailbox_secret(b"ffi-restart", &[5; 32], 1);
    let ts = 5_000_000u64;
    let mut accepted = AcceptedWrites::new();
    let w = sealed_write(&Identity::from_seed([8; 32]), &secret, 1, ts);
    let mut before = MailboxManagerHandle::new(64);
    before.submit(&w, &hex32(&secret), ts, &mut accepted).unwrap();
    let kept = before.export_ledger();
    assert_eq!(kept.len(), 1);
    assert_eq!(kept[0].lines, vec![([1u8; 16], ts + 300_000 + 120_000)]);
    let mut after = MailboxManagerHandle::new(64);
    after.import_ledger(&kept);
    assert_eq!(after.export_ledger(), kept);
    let err = after.submit(&w, &hex32(&secret), ts, &mut accepted).unwrap_err();
    assert!(err.message().contains("重放"));
}

#[test]
fn the_library_says_what_it_is() {
    let info = CoreInfo::new();
    assert_eq!(info.version(), "0.1.0");
    assert_eq!(info.license(), "AGPL-3.0-or-later");
    assert!(!build_probe().is_empty());
    let code = SasCode::of("12345 67890".to_string());
    let (full, six) = sas_code("12345 67890".to_string());
    assert_eq!((code.full, code.six), (full, six));
    assert!(node_id_from_naddr("garbage").is_err());
}

#[test]
fn contacts_keep_their_link_and_node() {
    let mut s = ContactStore::new();
    s.upsert_contact("bob", &[1; 32], &[2; 32], false, "n", &[7; 3], "aa", "dc://node?x", 10).unwrap();
    s.upsert_contact("eve", &[3; 32], &[4; 32], true, "", &[], "", "", 5).unwrap();
    s.set_verified("bob", true);
    let all = s.list_contacts();
    assert_eq!(all[0].name, "eve");
    assert_eq!(
        all[1],
        Contact {
            name: "bob".to_string(),
            identity: vec![1; 32],
            bucket: vec![2; 32],
            verified: true,
            note: "n".to_string(),
            added_ms: 10,
            link_secret: vec![7; 3],
            node_id: "aa".to_string(),
            node_naddr: "dc://node?x".to_string(),
        }
    );
    let err = s.upsert_contact("x", &[0; 34], &[0; 32], false, "", &[], "", "", 0).unwrap_err();
    assert_eq!(err.message(), "配置错误: contact identity must be 32 or 33 bytes");
    let err = s.upsert_contact("x", &[0; 33], &[0; 33], false, "", &[], "", "", 0).unwrap_err();
    assert_eq!(err.message(), "配置错误: contact bucket must be 32 bytes");
    let mut typed = vec![5u8];
    typed.extend_from_slice(&[9; 32]);
    s.upsert_contact("zoe", &typed, &[0; 32], false, "", &[], "", "", 30).unwrap();
    assert_eq!(s.list_contacts().last().unwrap().identity, typed);
    s.delete_contact("zoe");
    s.delete_contact("eve");
    assert_eq!(s.list_contacts().len(), 1);
    s.append_message("bob", true, "one", 1);
    s.append_message("bob", false, "two", 2);
    let line = ChatMessage {
        peer: "bob".to_string(),
        outgoing: false,
        text: "two".to_string(),
        ts_ms: 2,
    };
    assert_eq!(s.last_messages(), vec![line.clone()]);
    assert_eq!(s.messages("bob", 1), vec![line]);
    assert_eq!(s.messages("bob", -1).len(), 2);
}

#[test]
fn an_altered_write_is_not_the_accepted_one() {
    let mut accepted = AcceptedWrites::new();
    let mut st = BucketStorageHandle::new();
    let sender = Identity::from_seed([1; 32]);
    let w = sealed_write(&sender, &[2; 32], 1, 5);
    accepted.register(&w);
    let alter = |change: &dyn Fn(&mut BucketWrite)| {
        let mut altered = w.clone();
        change(&mut altered);
        altered
    };
    let altered = [
        alter(&|w| w.envelope.body[0] ^= 1),
        alter(&|w| w.envelope.sig = Some(vec![0; 64])),
        alter(&|w| w.envelope.ttl_hops = 5),
        alter(&|w| w.serial = 2),
        alter(&|w| w.nonce[0] ^= 1),
        alter(&|w| w.ts_ms = 6),
        alter(&|w| w.mac[31] ^= 1),
    ];
    for bad in &altered {
        let err = st.store_write(&"05".repeat(32), bad, &accepted).unwrap_err();
        assert_eq!(err.message(), "写未经门禁验收：必须先经 submit() 放行后原样入库");
    }
    assert_eq!(st.store_write(&"05".repeat(32), &w, &accepted).unwrap(), 1);
}

#[test]
fn a_distribution_tells_why_it_failed() {
    let (seed, key) = (hex32(&[3; 32]), hex32(&[4; 32]));
    let mut h = AnnouncementDispatcherHandle::new();
    let mut st = BucketStorageHandle::new();
    let late = h.rotate(&seed, &key, u64::MAX).unwrap_err();
    assert!(late.message().starts_with("密码学错误: "));
    assert_eq!(h.rotate(&seed, "x", 5).unwrap_err().message(), "new_node_key_hex 必须是 64 个 hex 字符（32 字节）");
    assert_eq!(h.rotate(&seed, &key, 5).unwrap().serial, 1);
    let broken = |_: &NodeKeyAnnouncement| -> Result<Vec<u8>, CoreError> {
        Err(CoreError::Cbor("no".to_string()))
    };
    let err = h.distribute(&seed, &key, &key, &key, &broken, &mut st, 5).unwrap_err();
    assert_eq!(err.message(), "CBOR 编解码错误: no");
    let err = h.distribute(&seed, &key, &key, "y", &broken, &mut st, 5).unwrap_err();
    assert_eq!(err.message(), "secret_hex 必须是 64 个 hex 字符（32 字节）");
    assert_eq!(st.count(&key).unwrap(), 0);
    // The rotation before the failed encoding stands; the one without a key did not take place.
    let mut ann = h.rotate(&seed, &key, 6).unwrap();
    assert_eq!(ann.serial, 3);
    ann.node_key[0] ^= 1;
    let err = h.distribute_signed(&ann, b"ann", &key, &key, &mut st, 6).unwrap_err();
    assert!(err.message().starts_with("密码学错误: "));
    ann.node_key[0] ^= 1;
    assert_eq!(h.distribute_signed(&ann, b"ann", &key, &key, &mut st, 6).unwrap(), 1);
}

#[test]
fn two_requests_differ_in_their_nonce() {
    let key = hex32(&[4; 32]);
    let a = seal_bucket_read(&key, &key, 1, 0).unwrap();
    let b = seal_bucket_read(&key, &key, 1, 0).unwrap();
    assert_ne!(a.nonce, b.nonce);
    assert_ne!(a.nonce, [0; 16]);
}
