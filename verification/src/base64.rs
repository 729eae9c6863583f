//! Base64 with the URL alphabet and without padding.
use vstd::prelude::*;

verus! {

/// The digit of a value below 64.
pub open spec fn digit64(n: int) -> u8 {
    if n < 26 {
        (65 + n) as u8
    } else if n < 52 {
        (71 + n) as u8
    } else if n < 62 {
        (n - 4) as u8
    } else if n == 62 {
        45
    } else {
        95
    }
}

/// What a digit stands for.
pub open spec fn value64(c: u8) -> Option<int> {
    if 65 <= c <= 90 {
        Some(c - 65)
    } else if 97 <= c <= 122 {
        Some(c - 71)
    } else if 48 <= c <= 57 {
        Some(c + 4)
    } else if c == 45 {
        Some(62)
    } else if c == 95 {
        Some(63)
    } else {
        None
    }
}

/// The digits of a byte string: four for every three bytes, two for a byte and three for two bytes
/// at the end.
pub open spec fn b64_digits(s: Seq<u8>) -> Seq<u8>
    decreases s.len(),
{
    if s.len() == 0 {
        Seq::empty()
    } else if s.len() == 1 {
        seq![digit64(s[0] as int / 4), digit64(s[0] as int % 4 * 16)]
    } else if s.len() == 2 {
        seq![
            digit64(s[0] as int / 4),
            digit64(s[0] as int % 4 * 16 + s[1] as int / 16),
            digit64(s[1] as int % 16 * 4),
        ]
    } else {
        seq![
            digit64(s[0] as int / 4),
            digit64(s[0] as int % 4 * 16 + s[1] as int / 16),
            digit64(s[1] as int % 16 * 4 + s[2] as int / 64),
            digit64(s[2] as int % 64),
        ] + b64_digits(s.skip(3))
    }
}

/// All of a text is digits.
pub open spec fn all_digits(s: Seq<u8>) -> bool {
    forall|i: int| 0 <= i < s.len() ==> value64(#[trigger] s[i]) is Some
}

/// Digits at the end of a text can stand alone, but for a single one.
pub open spec fn b64_length(s: Seq<u8>) -> bool {
    s.len() % 4 != 1
}

/// The bytes that digits stand for. Bits that fill no byte are dropped.
pub open spec fn b64_value(s: Seq<u8>) -> Seq<u8>
    decreases s.len(),
{
    if s.len() < 2 {
        Seq::empty()
    } else {
        let (a, b) = (value64(s[0])->0, value64(s[1])->0);
        let first = (a * 4 + b / 16) as u8;
        if s.len() == 2 {
            seq![first]
        } else {
            let c = value64(s[2])->0;
            let second = (b % 16 * 16 + c / 4) as u8;
            if s.len() == 3 {
                seq![first, second]
            } else {
                let third = (c % 4 * 64 + value64(s[3])->0) as u8;
                seq![first, second, third] + b64_value(s.skip(4))
            }
        }
    }
}

/// Why a text is no base64.
#[derive(Debug, Clone, Copy, PartialEq, Eq, Structural)]
pub enum Base64Fault {
    Length,
    Digit,
}

fn digit(n: u8) -> (r: u8)
    requires
        n < 64,
    ensures
        r == digit64(n as int),
{
    if n < 26 {
        65 + n
    } else if n < 52 {
        71 + n
    } else if n < 62 {
        n - 4
    } else if n == 62 {
        45
    } else {
        95
    }
}

fn value(c: u8) -> (r: Option<u8>)
    ensures
        match r {
            Some(v) => v < 64 && value64(c) == Some(v as int),
            None => value64(c) is None,
        },
{
    if 65 <= c && c <= 90 {
        Some(c - 65)
    } else if 97 <= c && c <= 122 {
        Some(c - 71)
    } else if 48 <= c && c <= 57 {
        Some(c + 4)
    } else if c == 45 {
        Some(62)
    } else if c == 95 {
        Some(63)
    } else {
        None
    }
}

/// The digits of a byte string.
pub fn b64(s: &[u8]) -> (r: Vec<u8>)
    ensures
        r@ == b64_digits(s@),
{
    let mut out: Vec<u8> = Vec::new();
    let mut i: usize = 0;
    assert(s@.skip(0) =~= s@);
    assert(out@ + b64_digits(s@) =~= b64_digits(s@));
    while s.len() - i >= 3
        invariant
            i <= s@.len(),
            out@ + b64_digits(s@.skip(i as int)) == b64_digits(s@),
        decreases s@.len() - i,
    {
        let (x, y, z): (u8, u8, u8) = (s[i], s[i + 1], s[i + 2]);
        let ghost before = out@;
        let ghost rest = s@.skip(i as int);
        out.push(digit(x / 4));
        out.push(digit(x % 4 * 16 + y / 16));
        out.push(digit(y % 16 * 4 + z / 64));
        out.push(digit(z % 64));
        proof {
            assert(rest.skip(3) =~= s@.skip(i + 3));
            assert(out@ + b64_digits(s@.skip(i + 3)) =~= before + b64_digits(rest));
        }
        i = i + 3;
    }
    let ghost before = out@;
    let ghost rest = s@.skip(i as int);
    if s.len() - i == 1 {
        let x: u8 = s[i];
        out.push(digit(x / 4));
        out.push(digit(x % 4 * 16));
    } else if s.len() - i == 2 {
        let (x, y): (u8, u8) = (s[i], s[i + 1]);
        out.push(digit(x / 4));
        out.push(digit(x % 4 * 16 + y / 16));
        out.push(digit(y % 16 * 4));
    }
    assert(out@ =~= before + b64_digits(rest));
    out
}

/// The bytes that digits stand for.
pub fn unb64(s: &[u8]) -> (r: Result<Vec<u8>, Base64Fault>)
    ensures
        match r {
            Ok(v) => b64_length(s@) && all_digits(s@) && v@ == b64_value(s@),
            Err(Base64Fault::Length) => !b64_length(s@),
            Err(Base64Fault::Digit) => b64_length(s@) && !all_digits(s@),
        },
{
    if s.len() % 4 == 1 {
        return Err(Base64Fault::Length);
    }
    let mut values: Vec<u8> = Vec::new();
    let mut k: usize = 0;
    while k < s.len()
        invariant
            k <= s@.len(),
            values@.len() == k,
            b64_length(s@),
            forall|j: int|
                0 <= j < k ==> (#[trigger] values@[j]) < 64 && value64(s@[j]) == Some(
                    values@[j] as int,
                ),
        decreases s@.len() - k,
    {
        match value(s[k]) {
            Some(v) => values.push(v),
            None => {
                return Err(Base64Fault::Digit);
            },
        }
        k = k + 1;
    }
    proof {
        assert forall|j: int| 0 <= j < s@.len() implies value64(#[trigger] s@[j]) is Some by {
            assert(values@[j] < 64);
        }
    }
    let mut out: Vec<u8> = Vec::new();
    let mut i: usize = 0;
    assert(s@.skip(0) =~= s@);
    assert(out@ + b64_value(s@) =~= b64_value(s@));
    while s.len() - i >= 4
        invariant
            i <= s@.len(),
            values@.len() == s@.len(),
            forall|j: int|
                0 <= j < s@.len() ==> (#[trigger] values@[j]) < 64 && value64(s@[j]) == Some(
                    values@[j] as int,
                ),
            out@ + b64_value(s@.skip(i as int)) == b64_value(s@),
        decreases s@.len() - i,
    {
        let (a, b, c, d): (u8, u8, u8, u8) = (values[i], values[i + 1], values[i + 2], values[i + 3]);
        let ghost before = out@;
        let ghost rest = s@.skip(i as int);
        out.push(a * 4 + b / 16);
        out.push(b % 16 * 16 + c / 4);
        out.push(c % 4 * 64 + d);
        proof {
            assert(rest.skip(4) =~= s@.skip(i + 4));
            assert(out@ + b64_value(s@.skip(i + 4)) =~= before + b64_value(rest));
        }
        i = i + 4;
    }
    let ghost before = out@;
    let ghost rest = s@.skip(i as int);
    if s.len() - i >= 2 {
        let (a, b): (u8, u8) = (values[i], values[i + 1]);
        out.push(a * 4 + b / 16);
        if s.len() - i == 3 {
            let c: u8 = values[i + 2];
            out.push(b % 16 * 16 + c / 4);
        }
    }
    assert(out@ =~= before + b64_value(rest));
    Ok(out)
}

/// A digit stands for the value that it was written for.
proof fn lemma_digit64(n: int)
    requires
        0 <= n < 64,
    ensures
        value64(digit64(n)) == Some(n),
{
}

/// Only letters, figures, the hyphen and the underscore are written.
pub proof fn lemma_only_digits(s: Seq<u8>)
    ensures
        all_digits(b64_digits(s)),
        b64_length(b64_digits(s)),
    decreases s.len(),
{
    let t = b64_digits(s);
    if s.len() >= 3 {
        lemma_only_digits(s.skip(3));
        let rest = b64_digits(s.skip(3));
        assert forall|i: int| 0 <= i < t.len() implies value64(#[trigger] t[i]) is Some by {
            if i >= 4 {
                assert(t[i] == rest[i - 4]);
            }
        }
    }
}

/// Reading what was written gives the bytes back.
pub proof fn law_base64_round_trip(s: Seq<u8>)
    ensures
        b64_length(b64_digits(s)),
        all_digits(b64_digits(s)),
        b64_value(b64_digits(s)) == s,
    decreases s.len(),
{
    lemma_only_digits(s);
    let t = b64_digits(s);
    if s.len() >= 3 {
        let rest = s.skip(3);
        law_base64_round_trip(rest);
        let (x, y, z) = (s[0] as int, s[1] as int, s[2] as int);
        lemma_digit64(x / 4);
        lemma_digit64(x % 4 * 16 + y / 16);
        lemma_digit64(y % 16 * 4 + z / 64);
        lemma_digit64(z % 64);
        assert(t.skip(4) =~= b64_digits(rest));
        assert(b64_value(t) =~= seq![s[0], s[1], s[2]] + rest);
        assert(seq![s[0], s[1], s[2]] + rest =~= s);
    } else if s.len() == 2 {
        let (x, y) = (s[0] as int, s[1] as int);
        lemma_digit64(x / 4);
        lemma_digit64(x % 4 * 16 + y / 16);
        lemma_digit64(y % 16 * 4);
        assert(b64_value(t) =~= s);
    } else if s.len() == 1 {
        let x = s[0] as int;
        lemma_digit64(x / 4);
        lemma_digit64(x % 4 * 16);
        assert(b64_value(t) =~= s);
    } else {
        assert(b64_value(t) =~= s);
    }
}

/// The digits in the order of their values: the alphabet that is safe in addresses.
#[verifier::rlimit(40)]
pub proof fn law_digits_are_the_alphabet(n: int, c: u8)
    requires
        0 <= n < 64,
    ensures
        digit64(n) as char == "ABCDEFGHIJKLMNOPQRSTUVWXYZabcdefghijklmnopqrstuvwxyz0123456789-_"@[n],
        value64(digit64(n)) == Some(n),
        value64(c) matches Some(v) ==> 0 <= v < 64 && digit64(v) == c,
{
    reveal_strlit("ABCDEFGHIJKLMNOPQRSTUVWXYZabcdefghijklmnopqrstuvwxyz0123456789-_");
}

/// Three bytes and the four digits they are written as are one number, in places of 256 and of 64.
#[verifier::rlimit(40)]
pub proof fn law_four_digits_are_three_bytes(s: Seq<u8>, rest: Seq<u8>)
    requires
        s.len() == 3,
    ensures
        ({
            let d = b64_digits(s + rest);
            &&& d.len() == 4 + b64_digits(rest).len()
            &&& d.skip(4) == b64_digits(rest)
            &&& 262_144 * value64(d[0])->0 + 4_096 * value64(d[1])->0 + 64 * value64(d[2])->0 + value64(
                d[3],
            )->0 == 65_536 * s[0] + 256 * s[1] + s[2]
        }),
{
    let all = s + rest;
    assert(all.skip(3) =~= rest);
    let d = b64_digits(all);
    assert(d.skip(4) =~= b64_digits(rest));
    assert(all[0] == s[0] && all[1] == s[1] && all[2] == s[2]);
}

/// A byte at the end is written as two digits and two bytes as three; the bits left over are zero.
pub proof fn law_last_bytes_are_filled_up(a: u8, b: u8)
    ensures
        ({
            let (one, two) = (b64_digits(seq![a]), b64_digits(seq![a, b]));
            &&& one.len() == 2
            &&& 64 * value64(one[0])->0 + value64(one[1])->0 == 16 * a
            &&& two.len() == 3
            &&& 4_096 * value64(two[0])->0 + 64 * value64(two[1])->0 + value64(two[2])->0 == 4 * (256 * a + b)
        }),
{
}

/// What digits stand for: three bytes of the same number for every four of them.
#[verifier::rlimit(40)]
pub proof fn law_three_bytes_of_four_digits(d: Seq<u8>, rest: Seq<u8>)
    requires
        d.len() == 4,
        all_digits(d),
    ensures
        ({
            let s = b64_value(d + rest);
            &&& s.len() == 3 + b64_value(rest).len()
            &&& s.skip(3) == b64_value(rest)
            &&& 65_536 * s[0] + 256 * s[1] + s[2] == 262_144 * value64(d[0])->0 + 4_096 * value64(d[1])->0
                + 64 * value64(d[2])->0 + value64(d[3])->0
        }),
{
    let all = d + rest;
    assert(all.skip(4) =~= rest);
    let s = b64_value(all);
    assert(s.skip(3) =~= b64_value(rest));
    assert(all[0] == d[0] && all[1] == d[1] && all[2] == d[2] && all[3] == d[3]);
    assert(value64(d[0]) is Some && value64(d[1]) is Some && value64(d[2]) is Some && value64(d[3]) is Some);
}

} // verus!
