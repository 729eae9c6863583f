//! Numbers of the IEEE 754 single-precision format, handled by their bits. Comparisons here are
//! exact: every finite number is a whole multiple of the smallest one.
use vstd::prelude::*;
use vstd::arithmetic::power2::{
    lemma2_to64, lemma_pow2_adds, lemma_pow2_pos, lemma_pow2_strictly_increases, lemma_pow2_unfold, pow2,
};
use vstd::bits::lemma_u64_shl_is_mul;

verus! {

/// What a number of the format stands for; finite ones in units of the smallest number.
pub enum Quantity {
    NotANumber,
    NegInfinity,
    Finite(int),
    PosInfinity,
}

/// The exponent bits.
pub open spec fn exponent_field(bits: u32) -> nat {
    ((bits / 0x80_0000) % 256) as nat
}

/// The fraction bits.
pub open spec fn fraction_field(bits: u32) -> nat {
    (bits % 0x80_0000) as nat
}

/// The sign bit.
pub open spec fn negative(bits: u32) -> bool {
    bits >= 0x8000_0000
}

/// Neither infinite nor no number at all.
pub open spec fn finite(bits: u32) -> bool {
    exponent_field(bits) != 255
}

/// The size of a finite number, in units of the smallest number.
pub open spec fn magnitude(bits: u32) -> nat {
    if exponent_field(bits) == 0 {
        fraction_field(bits)
    } else {
        (0x80_0000 + fraction_field(bits)) * pow2((exponent_field(bits) - 1) as nat)
    }
}

/// What bits stand for.
pub open spec fn quantity(bits: u32) -> Quantity {
    if finite(bits) {
        Quantity::Finite(
            if negative(bits) {
                -(magnitude(bits) as int)
            } else {
                magnitude(bits) as int
            },
        )
    } else if fraction_field(bits) != 0 {
        Quantity::NotANumber
    } else if negative(bits) {
        Quantity::NegInfinity
    } else {
        Quantity::PosInfinity
    }
}

/// Four times a quantity. It is infinite when it leaves the range of the format.
pub open spec fn quadruple(q: Quantity) -> Quantity {
    match q {
        Quantity::Finite(v) => if 4 * v >= pow2(277) {
            Quantity::PosInfinity
        } else if 4 * v <= -pow2(277) {
            Quantity::NegInfinity
        } else {
            Quantity::Finite(4 * v)
        },
        _ => q,
    }
}

/// `a > b`. Nothing compares with what is not a number.
pub open spec fn greater(a: Quantity, b: Quantity) -> bool {
    match (a, b) {
        (Quantity::NotANumber, _) => false,
        (_, Quantity::NotANumber) => false,
        (Quantity::NegInfinity, _) => false,
        (Quantity::PosInfinity, Quantity::PosInfinity) => false,
        (Quantity::PosInfinity, _) => true,
        (Quantity::Finite(_), Quantity::PosInfinity) => false,
        (Quantity::Finite(_), Quantity::NegInfinity) => true,
        (Quantity::Finite(x), Quantity::Finite(y)) => x > y,
    }
}

/// A quantity in a form to compute with: the sign, and `m` times two to the power of `a`.
#[derive(Clone, Copy)]
pub enum Parts {
    NotANumber,
    Infinite { negative: bool },
    Finite { negative: bool, m: u64, a: u32 },
}

impl Parts {
    /// The quantity in this form.
    pub open spec fn quantity(self) -> Quantity {
        match self {
            Parts::NotANumber => Quantity::NotANumber,
            Parts::Infinite { negative } => if negative {
                Quantity::NegInfinity
            } else {
                Quantity::PosInfinity
            },
            Parts::Finite { negative, m, a } => Quantity::Finite(
                if negative {
                    -((m * pow2(a as nat)) as int)
                } else {
                    (m * pow2(a as nat)) as int
                },
            ),
        }
    }

    /// The numbers are small enough to compute with.
    pub open spec fn bounded(self) -> bool {
        self matches Parts::Finite { negative, m, a } ==> m < 0x400_0000 && a <= 253
    }
}

/// Takes bits apart.
pub fn parts(bits: u32) -> (r: Parts)
    ensures
        r.quantity() == quantity(bits),
        r.bounded(),
        r matches Parts::Finite { negative, m, a } ==> m < 0x100_0000 && (a == 0 || m >= 0x80_0000),
{
    let exponent: u32 = (bits / 0x80_0000) % 256;
    let fraction: u32 = bits % 0x80_0000;
    let negative: bool = bits >= 0x8000_0000;
    proof {
        lemma2_to64();
    }
    if exponent == 255 {
        if fraction != 0 {
            Parts::NotANumber
        } else {
            Parts::Infinite { negative }
        }
    } else if exponent == 0 {
        assert(fraction * pow2(0) == fraction) by (nonlinear_arith)
            requires
                pow2(0) == 1,
        ;
        Parts::Finite { negative, m: fraction as u64, a: 0 }
    } else {
        Parts::Finite { negative, m: (fraction + 0x80_0000) as u64, a: exponent - 1 }
    }
}

/// `m1 * 2^a1 > m2 * 2^a2`.
fn larger(m1: u64, a1: u32, m2: u64, a2: u32) -> (r: bool)
    requires
        m1 < 0x400_0000,
        m2 < 0x400_0000,
    ensures
        r == (m1 * pow2(a1 as nat) > m2 * pow2(a2 as nat)),
{
    if a1 >= a2 {
        let d: u32 = a1 - a2;
        proof {
            lemma_pow2_adds(a2 as nat, d as nat);
            lemma_pow2_pos(a2 as nat);
            lemma_scale(m1 as int, m2 as int, pow2(d as nat) as int, pow2(a2 as nat) as int);
        }
        larger_shifted(m1, d, m2)
    } else {
        let d: u32 = a2 - a1;
        proof {
            lemma_pow2_adds(a1 as nat, d as nat);
            lemma_pow2_pos(a1 as nat);
            lemma_scale_right(m1 as int, m2 as int, pow2(d as nat) as int, pow2(a1 as nat) as int);
        }
        !at_most_shifted(m1, m2, d)
    }
}

/// Whether `m1 * 2^d > m2`.
fn larger_shifted(m1: u64, d: u32, m2: u64) -> (r: bool)
    requires
        m1 < 0x400_0000,
        m2 < 0x400_0000,
    ensures
        r == (m1 * pow2(d as nat) > m2),
{
    proof {
        lemma2_to64();
        lemma_pow2_pos(d as nat);
    }
    if d >= 32 {
        proof {
            if d > 32 {
                lemma_pow2_strictly_increases(32, d as nat);
            }
            assert(m1 * pow2(d as nat) >= pow2(d as nat) || m1 == 0) by (nonlinear_arith);
            assert(m1 == 0 ==> m1 * pow2(d as nat) == 0);
        }
        m1 > 0
    } else {
        proof {
            lemma_shift_fits(m1, d);
            lemma_u64_shl_is_mul(m1, d as u64);
        }
        (m1 << d as u64) > m2
    }
}

/// Whether `m1 <= m2 * 2^d`.
fn at_most_shifted(m1: u64, m2: u64, d: u32) -> (r: bool)
    requires
        m1 < 0x400_0000,
        m2 < 0x400_0000,
    ensures
        r == (m1 <= m2 * pow2(d as nat)),
{
    proof {
        lemma2_to64();
        lemma_pow2_pos(d as nat);
    }
    if d >= 32 {
        proof {
            if d > 32 {
                lemma_pow2_strictly_increases(32, d as nat);
            }
            assert(m2 * pow2(d as nat) >= pow2(d as nat) || m2 == 0) by (nonlinear_arith);
            assert(m2 == 0 ==> m2 * pow2(d as nat) == 0);
        }
        m2 > 0 || m1 == 0
    } else {
        proof {
            lemma_shift_fits(m2, d);
            lemma_u64_shl_is_mul(m2, d as u64);
        }
        m1 <= (m2 << d as u64)
    }
}

/// A small number shifted by less than 32 fits.
proof fn lemma_shift_fits(m: u64, d: u32)
    requires
        m < 0x400_0000,
        d < 32,
    ensures
        m * pow2(d as nat) <= u64::MAX,
{
    lemma2_to64();
    lemma_pow2_strictly_increases(d as nat, 32);
    assert(m * pow2(d as nat) <= 0x400_0000 * 0x1_0000_0000) by (nonlinear_arith)
        requires
            m < 0x400_0000,
            pow2(d as nat) < 0x1_0000_0000,
    ;
}

/// A common factor does not change a comparison.
proof fn lemma_scale(x: int, y: int, p: int, q: int)
    requires
        q > 0,
    ensures
        (x * (q * p) > y * q) == (x * p > y),
{
    assert((x * (q * p) > y * q) == (x * p > y)) by (nonlinear_arith)
        requires
            q > 0,
    ;
}

/// A common factor does not change a comparison.
proof fn lemma_scale_right(x: int, y: int, p: int, q: int)
    requires
        q > 0,
    ensures
        (x * q > y * (q * p)) == !(x <= y * p),
{
    assert((x * q > y * (q * p)) == !(x <= y * p)) by (nonlinear_arith)
        requires
            q > 0,
    ;
}


/// Whether `x > y`.
pub fn is_greater(x: Parts, y: Parts) -> (r: bool)
    requires
        x.bounded(),
        y.bounded(),
    ensures
        r == greater(x.quantity(), y.quantity()),
{
    match (x, y) {
        (Parts::NotANumber, _) => false,
        (_, Parts::NotANumber) => false,
        (Parts::Infinite { negative: n }, Parts::Infinite { negative: k }) => !n && k,
        (Parts::Infinite { negative: n }, Parts::Finite { .. }) => !n,
        (Parts::Finite { .. }, Parts::Infinite { negative: k }) => k,
        (
            Parts::Finite { negative: n, m: m1, a: a1 },
            Parts::Finite { negative: k, m: m2, a: a2 },
        ) => {
            proof {
                lemma_pow2_pos(a1 as nat);
                lemma_pow2_pos(a2 as nat);
                lemma_zero_product(m1, pow2(a1 as nat));
                lemma_zero_product(m2, pow2(a2 as nat));
            }
            if !n && !k {
                larger(m1, a1, m2, a2)
            } else if n && k {
                larger(m2, a2, m1, a1)
            } else if n {
                false
            } else {
                m1 > 0 || m2 > 0
            }
        },
    }
}

/// A product with a positive factor is zero only with the other factor.
proof fn lemma_zero_product(m: u64, p: nat)
    requires
        p > 0,
    ensures
        m * p >= 0,
        m * p == 0 <==> m == 0,
{
    assert(m * p >= 0 && (m * p == 0 <==> m == 0)) by (nonlinear_arith)
        requires
            p > 0,
    ;
}

/// Four times a number that was taken apart.
pub fn four_times(x: Parts) -> (r: Parts)
    requires
        x matches Parts::Finite { negative, m, a } ==> m < 0x100_0000 && (a == 0 || m >= 0x80_0000)
            && a <= 253,
    ensures
        r.quantity() == quadruple(x.quantity()),
        r.bounded(),
{
    match x {
        Parts::Finite { negative, m, a } => {
            proof {
                lemma_four_times(m, a);
                assert(4 * (m * pow2(a as nat)) == (4 * m) * pow2(a as nat)) by (nonlinear_arith);
                lemma_pow2_pos(277);
                lemma_pow2_pos(a as nat);
                lemma_zero_product(m, pow2(a as nat));
            }
            if a >= 252 {
                Parts::Infinite { negative }
            } else {
                Parts::Finite { negative, m: 4 * m, a }
            }
        },
        _ => x,
    }
}

/// Four times a number leaves the range of the format with the two highest exponents.
proof fn lemma_four_times(m: u64, a: u32)
    requires
        m < 0x100_0000,
        a == 0 || m >= 0x80_0000,
        a <= 253,
    ensures
        a >= 252 <==> 4 * (m * pow2(a as nat)) >= pow2(277),
{
    lemma2_to64();
    lemma_pow2_pos(a as nat);
    lemma_pow2_pos(252);
    lemma_pow2_adds(25, 252);
    lemma_pow2_adds(26, 251);
    if a >= 252 {
        if a > 252 {
            lemma_pow2_strictly_increases(252, a as nat);
        }
        assert(4 * (m * pow2(a as nat)) >= 0x200_0000 * pow2(252)) by (nonlinear_arith)
            requires
                m >= 0x80_0000,
                pow2(a as nat) >= pow2(252),
                pow2(252) > 0,
        ;
    } else {
        if a < 251 {
            lemma_pow2_strictly_increases(a as nat, 251);
        }
        assert(4 * (m * pow2(a as nat)) < 0x400_0000 * pow2(251)) by (nonlinear_arith)
            requires
                m < 0x100_0000,
                0 < pow2(a as nat) <= pow2(251),
        ;
    }
}

/// Four times a finite number is four times its value where that fits the format; what is infinite stays
/// so, and what is no number too.
pub proof fn law_quadruple_is_four_times(bits: u32)
    ensures
        quantity(bits) matches Quantity::Finite(v) ==> {
            &&& -pow2(277) < 4 * v < pow2(277) ==> quadruple(quantity(bits)) == Quantity::Finite(4 * v)
            &&& 4 * v >= pow2(277) ==> quadruple(quantity(bits)) == Quantity::PosInfinity
            &&& 4 * v <= -pow2(277) ==> quadruple(quantity(bits)) == Quantity::NegInfinity
        },
        !(quantity(bits) is Finite) ==> quadruple(quantity(bits)) == quantity(bits),
{
    lemma_pow2_pos(277);
}

/// The bits of a finite number without its sign: the fields, the size, and what the sign bit changes.
proof fn lemma_fields(bits: u32, e: nat, f: nat)
    requires
        e < 256,
        f < 0x80_0000,
        bits == e * 0x80_0000 + f || bits == 0x8000_0000 + e * 0x80_0000 + f,
    ensures
        exponent_field(bits) == e,
        fraction_field(bits) == f,
        negative(bits) <==> bits == 0x8000_0000 + e * 0x80_0000 + f,
{
}

/// The sign bit turns a number round. Bits from 0x7f80_0000 on, without the sign, are infinite or no number.
pub proof fn law_sign_turns_a_number_round(bits: u32)
    requires
        bits < 0x8000_0000,
    ensures
        bits < 0x7f80_0000 ==> quantity(bits) is Finite && quantity((bits + 0x8000_0000) as u32)
            == Quantity::Finite(-quantity(bits)->Finite_0),
        bits == 0x7f80_0000 ==> quantity(bits) == Quantity::PosInfinity && quantity(
            (bits + 0x8000_0000) as u32,
        ) == Quantity::NegInfinity,
        bits > 0x7f80_0000 ==> quantity(bits) == Quantity::NotANumber && quantity(
            (bits + 0x8000_0000) as u32,
        ) == Quantity::NotANumber,
{
    let (e, f) = ((bits / 0x80_0000) as nat, (bits % 0x80_0000) as nat);
    lemma_fields(bits, e, f);
    lemma_fields((bits + 0x8000_0000) as u32, e, f);
}

/// The smallest bits count up from zero, one each; the next bits up are the next number up.
#[verifier::rlimit(40)]
pub proof fn law_next_bits_are_the_next_number(bits: u32)
    requires
        bits < 0x7f7f_ffff,
    ensures
        bits < 0x100_0000 ==> quantity(bits) == Quantity::Finite(bits as int),
        quantity((bits + 1) as u32)->Finite_0 > quantity(bits)->Finite_0,
{
    let (e, f) = ((bits / 0x80_0000) as nat, (bits % 0x80_0000) as nat);
    lemma_fields(bits, e, f);
    lemma2_to64();
    let p = if e > 0 {
        pow2((e - 1) as nat)
    } else {
        1
    };
    lemma_pow2_pos((e - 1) as nat);
    if bits < 0x100_0000 && e > 0 {
        assert(e == 1 && p == 1);
        assert((0x80_0000 + f) * p == 0x80_0000 + f) by (nonlinear_arith)
            requires
                p == 1,
        ;
    }
    let next = (bits + 1) as u32;
    if f < 0x7f_ffff {
        lemma_fields(next, e, f + 1);
        assert((0x80_0000 + f + 1) * p > (0x80_0000 + f) * p) by (nonlinear_arith)
            requires
                p > 0,
        ;
    } else {
        lemma_fields(next, e + 1, 0);
        if e > 0 {
            lemma_pow2_unfold(e);
        }
        assert((0x80_0000 + 0) * (2 * p) > (0x80_0000 + 0x7f_ffff) * p) by (nonlinear_arith)
            requires
                p > 0,
        ;
    }
}

/// One more in the exponent of a normal number doubles it.
pub proof fn law_exponent_doubles(bits: u32)
    requires
        0x80_0000 <= bits < 0x7f00_0000,
    ensures
        quantity((bits + 0x80_0000) as u32) == Quantity::Finite(2 * quantity(bits)->Finite_0),
{
    let (e, f) = ((bits / 0x80_0000) as nat, (bits % 0x80_0000) as nat);
    lemma_fields(bits, e, f);
    lemma_fields((bits + 0x80_0000) as u32, e + 1, f);
    lemma_pow2_unfold(e);
    let p = pow2((e - 1) as nat);
    assert((0x80_0000 + f) * (2 * p) == 2 * ((0x80_0000 + f) * p)) by (nonlinear_arith);
}

/// Numbers compare by their values, and every number lies below the one infinity and above the other.
/// Nothing compares with what is not a number.
pub proof fn law_comparison_goes_by_value(a: u32, b: u32)
    ensures
        quantity(a) is Finite && quantity(b) is Finite ==> (greater(quantity(a), quantity(b)) <==> quantity(
            a,
        )->Finite_0 > quantity(b)->Finite_0),
        quantity(a) == Quantity::PosInfinity ==> (greater(quantity(a), quantity(b)) <==> quantity(b) is Finite
            || quantity(b) == Quantity::NegInfinity),
        quantity(b) == Quantity::NegInfinity ==> (greater(quantity(a), quantity(b)) <==> quantity(a) is Finite
            || quantity(a) == Quantity::PosInfinity),
        quantity(a) == Quantity::NotANumber || quantity(b) == Quantity::NotANumber ==> !greater(
            quantity(a),
            quantity(b),
        ),
        quantity(a) is Finite && quantity(b) == Quantity::PosInfinity ==> !greater(quantity(a), quantity(b)),
        quantity(a) == Quantity::NegInfinity && quantity(b) is Finite ==> !greater(quantity(a), quantity(b)),
{
}

/// Every finite number lies below `2^128`, which is `2^277` of the smallest number.
pub proof fn law_finite_numbers_are_bounded(bits: u32)
    requires
        finite(bits),
    ensures
        quantity(bits) is Finite,
        -pow2(277) < quantity(bits)->Finite_0 < pow2(277),
{
    let (e, f) = (exponent_field(bits), fraction_field(bits));
    lemma2_to64();
    lemma_pow2_pos(277);
    lemma_pow2_adds(24, 253);
    if e > 0 {
        let (p, top) = (pow2((e - 1) as nat), pow2(253));
        if e - 1 < 253 {
            lemma_pow2_strictly_increases((e - 1) as nat, 253);
        }
        lemma_pow2_pos((e - 1) as nat);
        assert((0x80_0000 + f) * p < 0x100_0000 * top) by (nonlinear_arith)
            requires
                f < 0x80_0000,
                0 < p <= top,
        ;
        assert(0 <= (0x80_0000 + f) * p) by (nonlinear_arith)
            requires
                f >= 0,
                p > 0,
        ;
    } else {
        lemma_pow2_strictly_increases(24, 277);
    }
}

} // verus!
