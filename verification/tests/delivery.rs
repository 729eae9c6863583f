//! Delivery from the queue to a channel.
use dc_core::delivery::{CleanupReport, DeliveryManager, TickReport};
use dc_core::envelope::{Envelope, MsgId, PayloadKind};
use dc_core::identity::Identity;
use dc_core::queue::Db;
use dc_core::retry::RetryPolicy;
use std::sync::atomic::{AtomicU32, Ordering};
use std::sync::{Arc, Mutex};

type SendFn = Box<dyn Fn(&Envelope) -> Result<bool, String> + Send>;

fn small_policy() -> RetryPolicy {
    RetryPolicy { max_attempts: 3, base_delay_ms: 100, max_delay_ms: 200 }
}

fn env(msg_id: MsgId, sent_at: u64) -> Envelope {
    let id = Identity::generate().unwrap();
    Envelope {
        msg_id,
        sender: id.node_id(),
        recipient: Some([9; 32]),
        group: None,
        kind: PayloadKind::Text,
        body: vec![1, 2, 3],
        sent_at_ms: sent_at,
        ttl_hops: 6,
        sig: None,
    }
}

fn enqueue(dm: &mut DeliveryManager<SendFn>, e: &Envelope) {
    dm.db_mut().enqueue_full(e);
}

fn stats(dm: &mut DeliveryManager<SendFn>) -> (u32, u32, u32) {
    dm.db_mut().stats()
}

#[test]
fn tick_sends_due_and_marks_sent() {
    let seen = Arc::new(Mutex::new(Vec::new()));
    let seen2 = seen.clone();
    let mut dm = DeliveryManager::<SendFn>::new(
        Db::new(),
        Box::new(move |e: &Envelope| {
            seen2.lock().unwrap().push(e.clone());
            Ok(true)
        }),
    );
    let e = env([1; 16], 1000);
    enqueue(&mut dm, &e);
    let r = dm.tick(2000).unwrap();
    assert_eq!(r, TickReport { attempted: 1, sent: 1, ..Default::default() });
    assert_eq!(stats(&mut dm), (0, 0, 0));
    assert_eq!(*seen.lock().unwrap(), vec![e]);
    assert_eq!(dm.tick(3000).unwrap(), TickReport::default());
}

#[test]
fn unreachable_reschedules_then_retries_after_delay() {
    let calls = Arc::new(AtomicU32::new(0));
    let send: SendFn = {
        let calls = calls.clone();
        Box::new(move |_| Ok(calls.fetch_add(1, Ordering::SeqCst) >= 1))
    };
    let mut dm = DeliveryManager::<SendFn>::with_policy(Db::new(), Some(send), small_policy(), 16);
    enqueue(&mut dm, &env([1; 16], 1000));
    let r = dm.tick(1000).unwrap();
    assert_eq!((r.attempted, r.sent, r.unreachable, r.dead), (1, 0, 1, 0));
    assert_eq!(stats(&mut dm), (1, 0, 0));
    assert_eq!(dm.tick(1099).unwrap().attempted, 0);
    let r = dm.tick(1200).unwrap();
    assert_eq!((r.attempted, r.sent), (1, 1));
    assert_eq!(calls.load(Ordering::SeqCst), 2);
    assert_eq!(stats(&mut dm), (0, 0, 0));
}

#[test]
fn channel_error_also_reschedules() {
    let mut dm = DeliveryManager::<SendFn>::with_policy(
        Db::new(),
        Some(Box::new(|_| Err("bt stack boom".into()))),
        small_policy(),
        16,
    );
    enqueue(&mut dm, &env([1; 16], 1000));
    let r = dm.tick(1000).unwrap();
    assert_eq!((r.errored, r.sent, r.dead), (1, 0, 0));
    assert_eq!(stats(&mut dm), (1, 0, 0));
    assert_eq!(dm.tick(1000 + small_policy().max_delay_ms).unwrap().attempted, 1);
}

#[test]
fn retries_exhaust_to_dead_then_revive_recovers() {
    let mut dm = DeliveryManager::<SendFn>::with_policy(
        Db::new(),
        Some(Box::new(|_| Ok(false))),
        small_policy(),
        16,
    );
    enqueue(&mut dm, &env([1; 16], 1000));
    let now = 1000;
    let r1 = dm.tick(now).unwrap();
    let r2 = dm.tick(now + small_policy().max_delay_ms).unwrap();
    let r3 = dm.tick(now + 2 * small_policy().max_delay_ms).unwrap();
    assert_eq!((r1.attempted, r2.attempted, r3.attempted), (1, 1, 1));
    assert_eq!((r1.dead, r2.dead), (0, 0));
    assert_eq!(r3.dead, 1);
    assert_eq!(stats(&mut dm), (0, 1, 0));
    assert_eq!(dm.tick(now + 99 * small_policy().max_delay_ms).unwrap().attempted, 0);
    dm.db_mut().revive(&[1; 16]);
    let r = dm.tick(now + 100 * small_policy().max_delay_ms).unwrap();
    assert_eq!(r.attempted, 1);
    assert_eq!(r.dead, 0);
    assert_eq!(stats(&mut dm), (1, 0, 0));
}

#[test]
fn offline_peer_keeps_message_queued_not_lost() {
    let mut dm = DeliveryManager::<SendFn>::with_policy(
        Db::new(),
        Some(Box::new(|_| Ok(false))),
        RetryPolicy { max_attempts: 1000, base_delay_ms: 10, max_delay_ms: 20 },
        16,
    );
    enqueue(&mut dm, &env([7; 16], 1000));
    let mut attempted_total = 0u32;
    for i in 0..50u64 {
        attempted_total += dm.tick(1000 + i * 20).unwrap().attempted;
    }
    assert!(attempted_total >= 1);
    assert_eq!(stats(&mut dm), (1, 0, 0));
    assert_eq!(dm.db_mut().due_envelopes(u64::MAX, 10).unwrap()[0].msg_id, [7; 16]);
    dm.set_send_fn(Box::new(|_| Ok(true)));
    assert_eq!(dm.tick(3000).unwrap().sent, 1);
    assert_eq!(stats(&mut dm), (0, 0, 0));
}

#[test]
fn no_send_fn_is_noop_then_wiring_works() {
    let mut dm = DeliveryManager::<SendFn>::with_policy(Db::new(), None, small_policy(), 16);
    enqueue(&mut dm, &env([1; 16], 1000));
    let r = dm.tick(5000).unwrap();
    assert_eq!(r, TickReport::default());
    assert_eq!(stats(&mut dm), (1, 0, 0));
    dm.set_send_fn(Box::new(|_| Ok(true)));
    assert_eq!(dm.tick(5000).unwrap().sent, 1);
    dm.clear_send_fn();
    assert_eq!(dm.tick(6000).unwrap(), TickReport::default());
}

#[test]
fn multiple_messages_processed_in_order() {
    let order = Arc::new(Mutex::new(Vec::new()));
    let mut dm = {
        let order = order.clone();
        DeliveryManager::<SendFn>::new(
            Db::new(),
            Box::new(move |e: &Envelope| {
                order.lock().unwrap().push(e.msg_id);
                Ok(true)
            }),
        )
    };
    enqueue(&mut dm, &env([3; 16], 3000));
    enqueue(&mut dm, &env([1; 16], 1000));
    enqueue(&mut dm, &env([2; 16], 2000));
    let r = dm.tick(4000).unwrap();
    assert_eq!(r.sent, 3);
    assert_eq!(*order.lock().unwrap(), vec![[1u8; 16], [2; 16], [3; 16]]);
}

#[test]
fn batch_limit_spreads_across_ticks() {
    let ok: SendFn = Box::new(|_| Ok(true));
    let mut dm = DeliveryManager::<SendFn>::with_policy(Db::new(), Some(ok), small_policy(), 2);
    for i in 0..5u8 {
        enqueue(&mut dm, &env([i; 16], 1000 + i as u64));
    }
    assert_eq!(dm.tick(5000).unwrap().attempted, 2);
    assert_eq!(dm.tick(5000).unwrap().attempted, 2);
    assert_eq!(dm.tick(5000).unwrap().attempted, 1);
    assert_eq!(stats(&mut dm), (0, 0, 0));
}

#[test]
fn cleanup_prunes_expired_seen_and_dead() {
    let mut dm = DeliveryManager::<SendFn>::with_policy(
        Db::new(),
        Some(Box::new(|_| Ok(false))),
        RetryPolicy { max_attempts: 1, base_delay_ms: 1, max_delay_ms: 1 },
        16,
    );
    let day = 24 * 60 * 60 * 1000;
    let now = 100 * day;
    {
        let q = dm.db_mut();
        q.record_seen(&[1; 16], now - 8 * day);
        q.record_seen(&[2; 16], now - day);
        q.enqueue_full(&env([3; 16], now - 40 * day));
        q.enqueue_full(&env([4; 16], now - 10 * day));
    }
    assert_eq!(dm.tick(now).unwrap().dead, 2);
    assert_eq!(stats(&mut dm), (0, 2, 2));
    let r = dm.cleanup(now);
    assert_eq!(r.pruned_seen, 1);
    assert_eq!(r.pruned_dead, 1);
    assert_eq!(stats(&mut dm), (0, 1, 1));
    assert_eq!(dm.cleanup(now), CleanupReport::default());
}

#[test]
fn legacy_enqueued_messages_still_delivered() {
    let got = Arc::new(Mutex::new(None::<Envelope>));
    let mut dm = {
        let got = got.clone();
        DeliveryManager::<SendFn>::new(
            Db::new(),
            Box::new(move |e: &Envelope| {
                *got.lock().unwrap() = Some(e.clone());
                Ok(true)
            }),
        )
    };
    dm.db_mut().enqueue(&env([5; 16], 1000));
    let r = dm.tick(2000).unwrap();
    assert_eq!(r.sent, 1);
    let out = got.lock().unwrap().clone().unwrap();
    assert_eq!(out.msg_id, [5; 16]);
    assert_eq!(out.body, vec![1, 2, 3]);
    assert_eq!(out.sent_at_ms, 1000);
}
