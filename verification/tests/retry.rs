//! The delays between attempts.
use dc_core::retry::RetryPolicy;

#[test]
fn delay_grows_exponentially_within_cap() {
    let p = RetryPolicy::default();
    for attempt in 1u32..7 {
        for _ in 0..32 {
            let d = p.next_delay_ms(attempt).unwrap();
            assert!(d >= p.base_delay_ms);
            let cap = p
                .base_delay_ms
                .saturating_mul(1u64 << (attempt - 1))
                .min(p.max_delay_ms);
            assert!(d <= cap);
        }
    }
    for _ in 0..16 {
        let d = p.next_delay_ms(7).unwrap();
        assert!(d >= p.base_delay_ms && d <= p.max_delay_ms);
    }
}

#[test]
fn jitter_avoids_synchronized_retries() {
    let p = RetryPolicy::default();
    let d1 = p.next_delay_ms(3).unwrap();
    let mut differs = false;
    for _ in 0..16 {
        if p.next_delay_ms(3).unwrap() != d1 {
            differs = true;
            break;
        }
    }
    assert!(differs);
}

#[test]
fn exhaustion_and_guards() {
    let p = RetryPolicy::default();
    assert!(!p.exhausted(0));
    assert!(!p.exhausted(7));
    assert!(p.exhausted(8));
    assert!(p.next_delay_ms(0).is_err());
    assert!(p.next_delay_ms(8).is_err());
}
