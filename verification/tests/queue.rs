//! The queue of outgoing messages.
use dc_core::envelope::{Envelope, MsgId, PayloadKind};
use dc_core::identity::{Identity, NodeId};
use dc_core::queue::{row_to_envelope, row_to_pending, Db, RowState, StoredRow};
use dc_core::retry::RetryPolicy;

fn env(msg_id: MsgId, recipient: Option<NodeId>) -> Envelope {
    let id = Identity::generate().unwrap();
    Envelope {
        msg_id,
        sender: id.node_id(),
        recipient,
        group: None,
        kind: PayloadKind::Text,
        body: vec![1, 2, 3],
        sent_at_ms: 1000,
        ttl_hops: 6,
        sig: None,
    }
}

#[test]
fn enqueue_pending_mark_sent() {
    let mut db = Db::new();
    let e1 = env([1; 16], Some([5; 32]));
    let e2 = env([2; 16], None);
    db.enqueue(&e1);
    db.enqueue(&e2);
    db.enqueue(&e1);
    assert_eq!(db.pending(10).unwrap().len(), 2);
    db.mark_sent(&[1; 16]);
    let left = db.pending(10).unwrap();
    assert_eq!(left.len(), 1);
    assert_eq!(left[0].msg_id, [2; 16]);
    assert_eq!(db.stats(), (1, 0, 0));
}

#[test]
fn dedup_persists() {
    let mut db = Db::new();
    assert!(db.record_seen(&[9; 16], 111));
    assert!(!db.record_seen(&[9; 16], 222));
    assert_eq!(db.stats().2, 1);
}

#[test]
fn order_by_created() {
    let mut db = Db::new();
    let mut late = env([1; 16], None);
    late.sent_at_ms = 5000;
    let mut early = env([2; 16], None);
    early.sent_at_ms = 1000;
    db.enqueue(&late);
    db.enqueue(&early);
    let rows = db.pending(2).unwrap();
    assert_eq!(rows[0].msg_id, [2; 16]);
}

#[test]
fn retry_schedule_due_dead_and_revive() {
    let mut db = Db::new();
    let policy = RetryPolicy {
        max_attempts: 3,
        base_delay_ms: 100,
        max_delay_ms: 400,
    };
    db.enqueue(&env([1; 16], None));
    assert_eq!(db.due(1000, 10).unwrap().len(), 1);
    assert!(!db.fail_and_reschedule(&[1; 16], &policy, 1000).unwrap());
    assert!(db.due(1000, 10).unwrap().is_empty());
    assert_eq!(db.due(2000, 10).unwrap().len(), 1);
    assert!(!db.fail_and_reschedule(&[1; 16], &policy, 2000).unwrap());
    assert!(db.fail_and_reschedule(&[1; 16], &policy, 3000).unwrap());
    assert_eq!(db.due(99_999, 10).unwrap().len(), 0);
    assert_eq!(db.stats(), (0, 1, 0));
    db.revive(&[1; 16]);
    assert_eq!(db.due(99_999, 10).unwrap().len(), 1);
    assert_eq!(db.stats(), (1, 0, 0));
}

#[test]
fn enqueue_full_and_due_envelopes_roundtrip() {
    let mut db = Db::new();
    let mut e = env([7; 16], Some([5; 32]));
    e.sender = Identity::generate().unwrap().node_id();
    e.sent_at_ms = 42_000;
    e.ttl_hops = 3;
    e.body = vec![9, 9, 9, 9];
    db.enqueue_full(&e);
    let got = db.due_envelopes(43_000, 10).unwrap();
    assert_eq!(got.len(), 1);
    assert_eq!(got[0], e);
}

#[test]
fn due_envelopes_falls_back_for_legacy_rows() {
    let mut db = Db::new();
    db.enqueue(&env([3; 16], None));
    let got = db.due_envelopes(10_000, 10).unwrap();
    assert_eq!(got.len(), 1);
    assert_eq!(got[0].msg_id, [3; 16]);
    assert_eq!(got[0].body, vec![1, 2, 3]);
    assert_eq!(got[0].sent_at_ms, 1000);
}

#[test]
fn prune_dead_and_dead_list() {
    let mut db = Db::new();
    let policy = RetryPolicy { max_attempts: 1, base_delay_ms: 1, max_delay_ms: 1 };
    db.enqueue(&env([1; 16], None));
    db.enqueue(&env([2; 16], None));
    db.fail_and_reschedule(&[1; 16], &policy, 1000).unwrap();
    db.fail_and_reschedule(&[2; 16], &policy, 1000).unwrap();
    assert_eq!(db.dead_list(10).unwrap().len(), 2);
    assert_eq!(db.prune_dead(1000), 0);
    assert_eq!(db.dead_list(10).unwrap().len(), 2);
    db.revive(&[1; 16]);
    assert_eq!(db.dead_list(10).unwrap(), vec![[2u8; 16]]);
    assert_eq!(db.prune_dead(5000), 1);
    assert!(db.dead_list(10).unwrap().is_empty());
    assert_eq!(db.stats(), (1, 0, 0));
}

#[test]
fn enqueue_full_same_msg_id_first_write_wins() {
    let mut db = Db::new();
    let bob = [0xB0; 32];
    let mallory = [0xE5; 32];
    let x = [0x42; 16];
    let first = Envelope {
        msg_id: x, sender: [1; 32], recipient: Some(bob), group: None,
        kind: PayloadKind::Text, body: vec![1], sent_at_ms: 1000, ttl_hops: 6,
        sig: None,
    };
    let second = Envelope {
        msg_id: x, sender: [2; 32], recipient: Some(mallory), group: None,
        kind: PayloadKind::Text, body: vec![2, 2, 2], sent_at_ms: 2000, ttl_hops: 6,
        sig: None,
    };
    db.enqueue_full(&first);
    db.enqueue_full(&second);
    assert_eq!(db.pending(10).unwrap().len(), 1);
    let due = db.due_envelopes(5000, 10).unwrap();
    assert_eq!(due.len(), 1);
    assert_eq!(due[0].body, vec![1]);
    assert_eq!(due[0].sender, [1; 32]);
    assert_eq!(due[0].recipient, Some(bob));
    assert_eq!(due[0].sent_at_ms, 1000);
    assert_eq!(due[0], first);
}

fn row(kind: i64, archive: Option<Result<Envelope, String>>) -> StoredRow {
    StoredRow {
        msg_id: vec![1; 16],
        recipient: Some(vec![2; 32]),
        group_id: None,
        kind,
        body: vec![7],
        state: RowState::Pending,
        attempts: 0,
        next_attempt_ms: 0,
        created_ms: 5,
        archive,
    }
}

#[test]
fn a_damaged_row_tells_its_fault() {
    let why = |r: &StoredRow| row_to_envelope(r).unwrap_err().message();
    assert_eq!(row_to_envelope(&row(1, None)).unwrap().kind, PayloadKind::Text);
    let unknown = "数据库错误: Conversion error from type Integer at index: 3, 数据库错误: 未知 PayloadKind: ";
    assert_eq!(why(&row(9, None)), format!("{unknown}9"));
    assert_eq!(why(&row(i64::MIN, None)), format!("{unknown}{}", i64::MIN));
    let kept = "数据库错误: Conversion error from type Blob at index: 6, CBOR 编解码错误: ";
    let unread = row(1, Some(Err("CBOR 编解码错误: bad".to_string())));
    assert_eq!(why(&unread), format!("{kept}bad"));
    let mut both = env([1; 16], Some([5; 32]));
    both.group = Some([6; 32]);
    assert_eq!(why(&row(1, Some(Ok(both)))), format!("{kept}envelope cannot be both unicast and group"));
    let mut short = row(1, None);
    short.recipient = Some(vec![2; 31]);
    let column = "数据库错误: Invalid column type Blob at index: 1, name: recipient";
    assert_eq!(why(&short), column);
    assert_eq!(row_to_pending(&short).unwrap_err().message(), column);
    let mut db = Db::new();
    db.restore_row(row(9, None));
    assert_eq!(db.due_envelopes(10, 5).unwrap_err().message(), format!("{unknown}9"));
}
