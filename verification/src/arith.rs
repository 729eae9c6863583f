//! Saturating arithmetic on signed integers and comparison of byte arrays.
use vstd::prelude::*;

verus! {

/// `x` brought into the range of `i64`.
pub open spec fn sat_i64(x: int) -> i64 {
    if x > i64::MAX {
        i64::MAX
    } else if x < i64::MIN {
        i64::MIN
    } else {
        x as i64
    }
}

/// `x` brought into the range of `u64`.
pub open spec fn sat_u64(x: int) -> u64 {
    if x > u64::MAX {
        u64::MAX
    } else if x < 0 {
        0
    } else {
        x as u64
    }
}

/// `x` brought into `[lo, hi]`.
pub open spec fn bounded(x: int, lo: int, hi: int) -> int {
    if x < lo {
        lo
    } else if x > hi {
        hi
    } else {
        x
    }
}

/// Half of `x`, rounded towards zero.
pub open spec fn half(x: int) -> int {
    if x >= 0 {
        x / 2
    } else {
        -((-x) / 2)
    }
}

/// The distance of `x` from zero.
pub open spec fn distance(x: int) -> int {
    if x >= 0 {
        x
    } else {
        -x
    }
}

/// `a + b`, stopping at the ends of `i64`.
pub fn saturating_add(a: i64, b: i64) -> (r: i64)
    ensures
        r == sat_i64(a + b),
{
    let sum: i128 = a as i128 + b as i128;
    if sum > i64::MAX as i128 {
        i64::MAX
    } else if sum < i64::MIN as i128 {
        i64::MIN
    } else {
        sum as i64
    }
}

/// `a - b`, stopping at the ends of `i64`.
pub fn saturating_sub(a: i64, b: i64) -> (r: i64)
    ensures
        r == sat_i64(a - b),
{
    let difference: i128 = a as i128 - b as i128;
    if difference > i64::MAX as i128 {
        i64::MAX
    } else if difference < i64::MIN as i128 {
        i64::MIN
    } else {
        difference as i64
    }
}

/// `x` brought into `[lo, hi]`.
pub fn clamp(x: i64, lo: i64, hi: i64) -> (r: i64)
    requires
        lo <= hi,
    ensures
        r == bounded(x as int, lo as int, hi as int),
{
    if x < lo {
        lo
    } else if x > hi {
        hi
    } else {
        x
    }
}

/// Half of `x`, rounded towards zero.
pub fn halve(x: i64) -> (r: i64)
    ensures
        r == half(x as int),
{
    if x >= 0 {
        x / 2
    } else {
        let wide: i128 = -(x as i128);
        let h: i128 = wide / 2;
        (-h) as i64
    }
}

/// Whether two arrays hold the same bytes.
pub fn same_bytes<const N: usize>(a: &[u8; N], b: &[u8; N]) -> (r: bool)
    ensures
        r == (*a == *b),
{
    let mut i: usize = 0;
    while i < N
        invariant
            i <= N,
            forall|j: int| 0 <= j < i ==> a@[j] == b@[j],
        decreases N - i,
    {
        if a[i] != b[i] {
            assert(a@[i as int] != b@[i as int]);
            return false;
        }
        i = i + 1;
    }
    assert(a@ =~= b@);
    assert(*a =~= *b);
    true
}

/// Half of a number is rounded towards zero, alike on both sides of it.
pub proof fn law_half_goes_towards_zero(x: int)
    ensures
        half(-x) == -half(x),
        x >= 0 ==> 2 * half(x) <= x <= 2 * half(x) + 1,
{
}

/// A number within bounds stays, and one outside comes to the bound that it passed.
pub proof fn law_bounds_hold(x: int, lo: int, hi: int)
    requires
        lo <= hi,
    ensures
        lo <= bounded(x, lo, hi) <= hi,
        lo <= x <= hi ==> bounded(x, lo, hi) == x,
        x > hi ==> bounded(x, lo, hi) == hi,
        x < lo ==> bounded(x, lo, hi) == lo,
        sat_i64(x) == bounded(x, i64::MIN as int, i64::MAX as int),
        sat_u64(x) == bounded(x, 0, u64::MAX as int),
{
}

/// The distance from zero is the same on both sides.
pub proof fn law_distance_has_no_sign(x: int)
    ensures
        distance(-x) == distance(x),
        x >= 0 ==> distance(x) == x,
{
}

} // verus!
