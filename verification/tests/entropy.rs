//! The entropy pool.
use dc_core::entropy::EntropyHarvester;

#[test]
fn draws_never_repeat() {
    let mut h = EntropyHarvester::new().unwrap();
    let mut prev = [1u8; 64];
    for _ in 0..64 {
        let mut next = [0u8; 64];
        h.draw(&mut next).unwrap();
        assert_ne!(next, prev);
        prev.copy_from_slice(&next);
    }
}

#[test]
fn token512_len_and_uniqueness() {
    let mut h = EntropyHarvester::new().unwrap();
    let a = h.token512().unwrap();
    let b = h.token512().unwrap();
    assert_eq!(a.len(), 64);
    assert_ne!(a, b);
}

#[test]
fn sensor_garbage_is_safe() {
    let mut h = EntropyHarvester::new().unwrap();
    let mut a = [0u8; 32];
    h.draw(&mut a).unwrap();
    h.mix(b"accelerometer jitter 0.0123,0.9981,...");
    let mut b = [0u8; 32];
    h.draw(&mut b).unwrap();
    assert_ne!(a, b);
}

#[test]
fn a_draw_is_the_output_stream_of_all_that_went_in() {
    let mut h = EntropyHarvester::seeded(&[7; 32]);
    h.mix(b"noise");
    let mut out = [0u8; 40];
    h.draw_with(&[9; 32], &mut out);
    let mut pool = blake3::Hasher::new();
    pool.update(b"dc-entropy-v1").update(&[7; 32]);
    pool.update(&5u64.to_be_bytes()).update(b"noise");
    pool.update(&32u64.to_be_bytes()).update(&[9; 32]);
    pool.update(&1u64.to_be_bytes());
    let mut expected = [0u8; 40];
    pool.finalize_xof().fill(&mut expected);
    assert_eq!(out, expected);
}
