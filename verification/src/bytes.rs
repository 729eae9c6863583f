//! Byte strings: big-endian numbers, concatenation and fixed-size arrays.
use vstd::prelude::*;

verus! {

/// `x` as `n` bytes, most significant first.
pub open spec fn be_bytes(x: nat, n: nat) -> Seq<u8>
    decreases n,
{
    if n == 0 {
        Seq::empty()
    } else {
        be_bytes(x / 256, (n - 1) as nat).push((x % 256) as u8)
    }
}

/// The number that `s` holds, most significant byte first.
pub open spec fn be_value(s: Seq<u8>) -> nat
    decreases s.len(),
{
    if s.len() == 0 {
        0
    } else {
        be_value(s.drop_last()) * 256 + s.last() as nat
    }
}

/// `256` to the power of `n`.
pub open spec fn bytes_range(n: nat) -> nat
    decreases n,
{
    if n == 0 {
        1
    } else {
        256 * bytes_range((n - 1) as nat)
    }
}

/// A number of `n` bytes has `n` bytes.
pub broadcast proof fn lemma_be_bytes_len(x: nat, n: nat)
    ensures
        #[trigger] be_bytes(x, n).len() == n,
    decreases n,
{
    if n > 0 {
        lemma_be_bytes_len(x / 256, (n - 1) as nat);
    }
}

/// Writing a number and reading it back gives the number.
pub proof fn law_be_round_trip(x: nat, n: nat)
    requires
        x < bytes_range(n),
    ensures
        be_value(be_bytes(x, n)) == x,
    decreases n,
{
    if n > 0 {
        assert(x / 256 < bytes_range((n - 1) as nat));
        law_be_round_trip(x / 256, (n - 1) as nat);
        assert(be_bytes(x, n).drop_last() =~= be_bytes(x / 256, (n - 1) as nat));
    }
}

/// The ranges of the numbers that the library writes.
pub proof fn lemma_ranges()
    ensures
        bytes_range(2) == 0x1_0000,
        bytes_range(4) == 0x1_0000_0000,
        bytes_range(8) == 0x1_0000_0000_0000_0000,
{
    reveal_with_fuel(bytes_range, 9);
}

/// Appends `x` as `n` bytes, most significant first.
pub fn push_be(v: &mut Vec<u8>, x: u64, n: usize)
    ensures
        final(v)@ == old(v)@ + be_bytes(x as nat, n as nat),
    decreases n,
{
    if n > 0 {
        push_be(v, x / 256, n - 1);
        v.push((x % 256) as u8);
    }
}

/// The number in the first four bytes of `s`.
pub fn read_be32(s: &[u8]) -> (r: u32)
    requires
        s@.len() >= 4,
    ensures
        r == be_value(s@.take(4)),
{
    proof {
        reveal_with_fuel(be_value, 5);
        let t = s@.take(4);
        assert(t.drop_last().drop_last().drop_last().drop_last() =~= Seq::empty());
        assert(t.drop_last().drop_last().drop_last().last() == s@[0]);
        assert(t.drop_last().drop_last().last() == s@[1]);
        assert(t.drop_last().last() == s@[2]);
        assert(t.last() == s@[3]);
    }
    ((s[0] as u32 * 256 + s[1] as u32) * 256 + s[2] as u32) * 256 + s[3] as u32
}

/// Appends a byte string.
pub fn append(v: &mut Vec<u8>, s: &[u8])
    ensures
        final(v)@ == old(v)@ + s@,
{
    v.extend_from_slice(s);
    assert(v@ =~= old(v)@ + s@);
}

/// A copy of a byte string.
pub fn to_vec(s: &[u8]) -> (r: Vec<u8>)
    ensures
        r@ == s@,
{
    let mut v: Vec<u8> = Vec::new();
    append(&mut v, s);
    v
}

/// The first `N` bytes of `s`.
pub fn to_array<const N: usize>(s: &[u8]) -> (r: [u8; N])
    requires
        s@.len() >= N,
    ensures
        r@ == s@.take(N as int),
{
    let mut out: [u8; N] = [0; N];
    let mut i: usize = 0;
    while i < N
        invariant
            i <= N,
            s@.len() >= N,
            forall|k: int| 0 <= k < i ==> out@[k] == s@[k],
        decreases N - i,
    {
        out[i] = s[i];
        i = i + 1;
    }
    assert(out@ =~= s@.take(N as int));
    out
}

/// Whether two byte strings are equal.
pub fn same(a: &[u8], b: &[u8]) -> (r: bool)
    ensures
        r == (a@ == b@),
{
    if a.len() != b.len() {
        return false;
    }
    let mut i: usize = 0;
    while i < a.len()
        invariant
            i <= a@.len(),
            a@.len() == b@.len(),
            forall|k: int| 0 <= k < i ==> a@[k] == b@[k],
        decreases a@.len() - i,
    {
        if a[i] != b[i] {
            assert(a@[i as int] != b@[i as int]);
            return false;
        }
        i = i + 1;
    }
    assert(a@ =~= b@);
    true
}


/// It does not matter which of two concatenations is made first.
pub proof fn lemma_concat(a: Seq<u8>, b: Seq<u8>, c: Seq<u8>)
    ensures
        a + b + c == a + (b + c),
{
    assert(a + b + c =~= a + (b + c));
}

/// Two concatenations that agree and whose first parts are equally long have equal parts.
pub proof fn lemma_split(a: Seq<u8>, b: Seq<u8>, c: Seq<u8>, d: Seq<u8>)
    requires
        a + b == c + d,
        a.len() == c.len(),
    ensures
        a == c,
        b == d,
{
    assert((a + b).take(a.len() as int) =~= a);
    assert((c + d).take(c.len() as int) =~= c);
    assert((a + b).skip(a.len() as int) =~= b);
    assert((c + d).skip(c.len() as int) =~= d);
}

/// Two numbers that are written alike are equal.
pub proof fn law_be_injective(x: nat, y: nat, n: nat)
    requires
        x < bytes_range(n),
        y < bytes_range(n),
        be_bytes(x, n) == be_bytes(y, n),
    ensures
        x == y,
{
    law_be_round_trip(x, n);
    law_be_round_trip(y, n);
}


/// A number of `n` bytes lies in the range of `n` bytes.
pub proof fn lemma_be_value_bound(s: Seq<u8>)
    ensures
        be_value(s) < bytes_range(s.len()),
    decreases s.len(),
{
    if s.len() > 0 {
        lemma_be_value_bound(s.drop_last());
    }
}

/// More bytes have a larger range.
pub proof fn lemma_range_grows(a: nat, b: nat)
    requires
        a <= b,
    ensures
        1 <= bytes_range(a) <= bytes_range(b),
    decreases b,
{
    if a < b {
        lemma_range_grows(a, (b - 1) as nat);
    } else if a > 0 {
        lemma_range_grows((a - 1) as nat, (b - 1) as nat);
    }
}

/// The most significant byte comes first: what stands in front counts for as many places as follow it.
pub proof fn law_front_bytes_count_most(a: Seq<u8>, b: Seq<u8>, x: u8)
    ensures
        be_value(a + b) == be_value(a) * bytes_range(b.len()) + be_value(b),
        be_value(seq![x]) == x,
        bytes_range(0) == 1,
        bytes_range(1) == 256,
        bytes_range(b.len() + 1) == 256 * bytes_range(b.len()),
        be_bytes(x as nat, b.len()).len() == b.len(),
    decreases b.len(),
{
    broadcast use lemma_be_bytes_len;

    reveal_with_fuel(bytes_range, 2);
    reveal_with_fuel(be_value, 2);
    assert(be_value(seq![x]) == x) by {
        assert(seq![x].drop_last() =~= Seq::<u8>::empty());
        assert(be_value(Seq::<u8>::empty()) == 0);
        assert(seq![x].last() == x);
    }
    if b.len() > 0 {
        let front = b.drop_last();
        law_front_bytes_count_most(a, front, x);
        assert((a + b).drop_last() =~= a + front);
        let (v, r) = (be_value(a), bytes_range(front.len()));
        assert((v * r + be_value(front)) * 256 == v * (256 * r) + be_value(front) * 256) by (nonlinear_arith);
        assert((a + b).last() == b.last());
        assert(be_value(b) == be_value(front) * 256 + b.last());
        assert(bytes_range(b.len()) == 256 * r);
        assert(be_value(a + b) == be_value((a + b).drop_last()) * 256 + (a + b).last());
    } else {
        assert(a + b =~= a);
        let v = be_value(a);
        assert(v * 1 == v) by (nonlinear_arith);
    }
}

} // verus!
