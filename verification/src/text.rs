//! Text: hexadecimal digits, search and conversion between strings and characters.
use vstd::prelude::*;
use vstd::utf8::{decode_utf8, encode_utf8_decode_utf8, valid_utf8};
use crate::bytes::same;

verus! {

/// `String::push`: puts one character behind the text.
pub assume_specification[ String::push ](s: &mut String, c: char)
    ensures
        final(s)@ == old(s)@.push(c),
;

/// `String::from_utf8`: the text that bytes in UTF-8 stand for; nothing when they are no UTF-8.
#[verifier::external_body]
pub(crate) fn text_of_utf8(bytes: Vec<u8>) -> (r: Option<String>)
    ensures
        match r {
            Some(s) => valid_utf8(bytes@) && s@ == decode_utf8(bytes@),
            None => !valid_utf8(bytes@),
        },
{
    String::from_utf8(bytes).ok()
}

/// Whether two texts are equal.
pub fn same_text(a: &str, b: &str) -> (r: bool)
    ensures
        r == (a@ == b@),
{
    proof {
        encode_utf8_decode_utf8(a@);
        encode_utf8_decode_utf8(b@);
    }
    same(a.as_bytes(), b.as_bytes())
}

/// The characters with the numbers of some bytes.
pub open spec fn latin(s: Seq<u8>) -> Seq<char> {
    Seq::new(s.len(), |i: int| s[i] as char)
}

/// The characters with the numbers of some bytes.
pub fn latin_chars(s: &[u8]) -> (r: Vec<char>)
    ensures
        r@ == latin(s@),
{
    let mut out: Vec<char> = Vec::new();
    let mut i: usize = 0;
    while i < s.len()
        invariant
            i <= s@.len(),
            out@ == latin(s@).take(i as int),
        decreases s@.len() - i,
    {
        out.push(s[i] as char);
        assert(out@ =~= latin(s@).take(i + 1));
        i = i + 1;
    }
    assert(latin(s@).take(i as int) =~= latin(s@));
    out
}

/// The characters of a text.
pub fn chars_of(s: &str) -> (r: Vec<char>)
    ensures
        r@ == s@,
{
    let mut out: Vec<char> = Vec::new();
    for c in it: s.chars()
        invariant
            out@ == it.seq().take(it.index()),
            it.seq() == s@,
    {
        assert(it.seq().take(it.index() + 1) =~= it.seq().take(it.index()).push(it.seq()[it.index()]));
        out.push(c);
    }
    assert(s@.take(s@.len() as int) =~= s@);
    out
}

/// The text made of some characters.
pub fn string_of(v: &[char]) -> (r: String)
    ensures
        r@ == v@,
{
    let mut out = String::new();
    let mut i: usize = 0;
    while i < v.len()
        invariant
            i <= v@.len(),
            out@ == v@.take(i as int),
        decreases v@.len() - i,
    {
        assert(v@.take(i + 1) =~= v@.take(i as int).push(v@[i as int]));
        out.push(v[i]);
        i = i + 1;
    }
    assert(v@.take(i as int) =~= v@);
    out
}

/// The byte of a character of the ASCII range; a question mark stands for the others.
pub open spec fn ascii_byte(c: char) -> u8 {
    if '\0' <= c <= '\x7f' {
        c as u8
    } else {
        63
    }
}

/// A text of the ASCII range as bytes.
pub open spec fn ascii(s: Seq<char>) -> Seq<u8> {
    Seq::new(s.len(), |i: int| ascii_byte(s[i]))
}

/// A text of the ASCII range as bytes.
pub fn ascii_bytes(s: &str) -> (r: Vec<u8>)
    ensures
        r@ == ascii(s@),
{
    let v = chars_of(s);
    let mut out: Vec<u8> = Vec::new();
    let mut i: usize = 0;
    while i < v.len()
        invariant
            i <= v@.len(),
            v@ == s@,
            out@ == ascii(s@).take(i as int),
        decreases v@.len() - i,
    {
        let c: char = v[i];
        let b: u8 = if '\0' <= c && c <= '\x7f' {
            c as u8
        } else {
            63
        };
        out.push(b);
        assert(out@ =~= ascii(s@).take(i + 1));
        i = i + 1;
    }
    assert(ascii(s@).take(i as int) =~= ascii(s@));
    out
}

/// The lower-case hexadecimal digit of a value below 16.
pub open spec fn hex_digit(n: int) -> char {
    if n < 10 {
        (48 + n) as char
    } else {
        (87 + n) as char
    }
}

/// Two lower-case digits for each byte.
pub open spec fn hex_text(s: Seq<u8>) -> Seq<char>
    decreases s.len(),
{
    if s.len() == 0 {
        Seq::empty()
    } else {
        hex_text(s.drop_last()).push(hex_digit(s.last() as int / 16)).push(
            hex_digit(s.last() as int % 16),
        )
    }
}

/// What a hexadecimal digit of either case stands for.
pub open spec fn digit_value(c: char) -> Option<u8> {
    if '0' <= c <= '9' {
        Some((c as int - 48) as u8)
    } else if 'a' <= c <= 'f' {
        Some((c as int - 87) as u8)
    } else if 'A' <= c <= 'F' {
        Some((c as int - 55) as u8)
    } else {
        None
    }
}

/// The bytes that pairs of digits stand for, when there are whole pairs of digits only.
pub open spec fn unhex_bytes(s: Seq<char>) -> Option<Seq<u8>>
    decreases s.len(),
{
    if s.len() == 0 {
        Some(Seq::empty())
    } else if s.len() == 1 {
        None
    } else {
        match (
            unhex_bytes(s.take(s.len() - 2)),
            digit_value(s[s.len() - 2]),
            digit_value(s[s.len() - 1]),
        ) {
            (Some(front), Some(hi), Some(lo)) => Some(front.push((hi * 16 + lo) as u8)),
            _ => None,
        }
    }
}

fn digit_char(n: u8) -> (r: char)
    requires
        n < 16,
    ensures
        r == hex_digit(n as int),
{
    if n < 10 {
        (48 + n) as char
    } else {
        (87 + n) as char
    }
}

fn value_of_digit(c: char) -> (r: Option<u8>)
    ensures
        r == digit_value(c),
        r matches Some(v) ==> v < 16,
{
    if '0' <= c && c <= '9' {
        Some((c as u32 - 48) as u8)
    } else if 'a' <= c && c <= 'f' {
        Some((c as u32 - 87) as u8)
    } else if 'A' <= c && c <= 'F' {
        Some((c as u32 - 55) as u8)
    } else {
        None
    }
}

/// The digits of a byte string.
pub fn hex_chars(s: &[u8]) -> (r: Vec<char>)
    ensures
        r@ == hex_text(s@),
{
    let mut out: Vec<char> = Vec::new();
    let mut i: usize = 0;
    while i < s.len()
        invariant
            i <= s@.len(),
            out@ == hex_text(s@.take(i as int)),
        decreases s@.len() - i,
    {
        assert(s@.take(i + 1).drop_last() =~= s@.take(i as int));
        let b: u8 = s[i];
        out.push(digit_char(b / 16));
        out.push(digit_char(b % 16));
        i = i + 1;
    }
    assert(s@.take(i as int) =~= s@);
    out
}

/// A byte string in lower-case hexadecimal digits.
pub fn hex(s: &[u8]) -> (r: String)
    ensures
        r@ == hex_text(s@),
{
    string_of(hex_chars(s).as_slice())
}

/// The bytes that hexadecimal digits of either case stand for; nothing when a character is no
/// digit or the last digit stands alone.
pub fn unhex(s: &[char]) -> (r: Option<Vec<u8>>)
    ensures
        match r {
            Some(v) => unhex_bytes(s@) == Some(v@),
            None => unhex_bytes(s@) is None,
        },
{
    let mut out: Vec<u8> = Vec::new();
    if s.len() % 2 != 0 {
        proof {
            lemma_unhex_odd(s@);
        }
        return None;
    }
    let mut i: usize = 0;
    while i < s.len()
        invariant
            i <= s@.len(),
            i % 2 == 0,
            s@.len() % 2 == 0,
            unhex_bytes(s@.take(i as int)) == Some(out@),
        decreases s@.len() - i,
    {
        let hi: Option<u8> = value_of_digit(s[i]);
        let lo: Option<u8> = value_of_digit(s[i + 1]);
        proof {
            let t = s@.take(i + 2);
            assert(t.take(t.len() - 2) =~= s@.take(i as int));
            assert(t[t.len() - 2] == s@[i as int] && t[t.len() - 1] == s@[i + 1]);
        }
        if let (Some(h), Some(l)) = (hi, lo) {
            out.push(h * 16 + l);
        } else {
            proof {
                lemma_unhex_prefix(s@, i + 2);
            }
            return None;
        }
        i = i + 2;
    }
    assert(s@.take(i as int) =~= s@);
    Some(out)
}

/// An odd number of characters is never whole pairs.
proof fn lemma_unhex_odd(s: Seq<char>)
    requires
        s.len() % 2 != 0,
    ensures
        unhex_bytes(s) is None,
    decreases s.len(),
{
    if s.len() > 1 {
        lemma_unhex_odd(s.take(s.len() - 2));
    }
}

/// What spoils the beginning spoils the whole.
proof fn lemma_unhex_prefix(s: Seq<char>, n: int)
    requires
        0 <= n <= s.len(),
        n % 2 == 0,
        s.len() % 2 == 0,
        unhex_bytes(s.take(n)) is None,
    ensures
        unhex_bytes(s) is None,
    decreases s.len(),
{
    if n == s.len() {
        assert(s.take(n) =~= s);
    } else {
        let front = s.take(s.len() - 2);
        assert(front.take(n) =~= s.take(n));
        lemma_unhex_prefix(front, n);
    }
}

/// Digits of a value stand for the value.
proof fn lemma_digit_round_trip(n: int)
    requires
        0 <= n < 16,
    ensures
        digit_value(hex_digit(n)) == Some(n as u8),
{
}

/// There are two digits for each byte.
pub broadcast proof fn lemma_hex_len(s: Seq<u8>)
    ensures
        #[trigger] hex_text(s).len() == 2 * s.len(),
    decreases s.len(),
{
    if s.len() > 0 {
        lemma_hex_len(s.drop_last());
    }
}

/// Reading what was written in hexadecimal digits gives the bytes back.
pub proof fn law_hex_round_trip(s: Seq<u8>)
    ensures
        unhex_bytes(hex_text(s)) == Some(s),
    decreases s.len(),
{
    if s.len() > 0 {
        let t = hex_text(s);
        law_hex_round_trip(s.drop_last());
        lemma_hex_len(s.drop_last());
        assert(t.take(t.len() - 2) =~= hex_text(s.drop_last()));
        let b = s.last() as int;
        lemma_digit_round_trip(b / 16);
        lemma_digit_round_trip(b % 16);
        assert((b / 16) * 16 + b % 16 == b);
        assert(s.drop_last().push(s.last()) =~= s);
    }
}

/// `needle` stands in `hay`, from position `i` on.
pub open spec fn stands_at(hay: Seq<char>, needle: Seq<char>, i: int) -> bool {
    0 <= i && i + needle.len() <= hay.len() && hay.subrange(i, i + needle.len()) == needle
}

/// `needle` stands somewhere in `hay`.
pub open spec fn holds_text(hay: Seq<char>, needle: Seq<char>) -> bool {
    exists|i: int| #[trigger] stands_at(hay, needle, i)
}

/// Whether `needle` stands in `hay` from position `i` on.
pub fn text_at(hay: &[char], needle: &[char], i: usize) -> (r: bool)
    ensures
        r == stands_at(hay@, needle@, i as int),
{
    if i > hay.len() || hay.len() - i < needle.len() {
        return false;
    }
    let mut k: usize = 0;
    while k < needle.len()
        invariant
            k <= needle@.len(),
            i + needle@.len() <= hay@.len(),
            hay@.len() <= usize::MAX,
            forall|j: int| 0 <= j < k ==> hay@[i + j] == needle@[j],
        decreases needle@.len() - k,
    {
        if hay[i + k] != needle[k] {
            assert(hay@.subrange(i as int, i + needle@.len())[k as int] != needle@[k as int]);
            return false;
        }
        k = k + 1;
    }
    assert(hay@.subrange(i as int, i + needle@.len()) =~= needle@);
    true
}

/// Whether `needle` stands somewhere in `hay`.
pub fn contains_text(hay: &str, needle: &str) -> (r: bool)
    ensures
        r == holds_text(hay@, needle@),
{
    let h = chars_of(hay);
    let n = chars_of(needle);
    let mut i: usize = 0;
    while i <= h.len()
        invariant
            i <= h@.len() + 1,
            h@ == hay@,
            n@ == needle@,
            forall|j: int| 0 <= j < i ==> !#[trigger] stands_at(hay@, needle@, j),
        decreases h@.len() + 1 - i,
    {
        if text_at(h.as_slice(), n.as_slice(), i) {
            return true;
        }
        if i == h.len() {
            return false;
        }
        i = i + 1;
    }
    false
}

/// A number in decimal digits, without leading zeros.
pub open spec fn decimal(n: nat) -> Seq<char>
    decreases n,
{
    if n < 10 {
        seq![hex_digit(n as int)]
    } else {
        decimal(n / 10).push(hex_digit((n % 10) as int))
    }
}

/// Appends a number in decimal digits.
pub fn append_decimal(out: &mut String, n: u64)
    ensures
        final(out)@ == old(out)@ + decimal(n as nat),
    decreases n,
{
    if n < 10 {
        out.push(digit_char(n as u8));
    } else {
        append_decimal(out, n / 10);
        out.push(digit_char((n % 10) as u8));
    }
    assert(out@ =~= old(out)@ + decimal(n as nat));
}

/// A number in decimal digits, with a minus sign if it is negative.
pub open spec fn signed_decimal(n: int) -> Seq<char> {
    if n < 0 {
        seq!['-'] + decimal((-n) as nat)
    } else {
        decimal(n as nat)
    }
}

/// Appends a number in decimal digits, with a minus sign if it is negative.
pub fn append_signed(out: &mut String, n: i64)
    ensures
        final(out)@ == old(out)@ + signed_decimal(n as int),
{
    if n < 0 {
        let size: u64 = (-(n + 1)) as u64 + 1;
        out.push('-');
        append_decimal(out, size);
        assert(out@ =~= old(out)@ + signed_decimal(n as int));
    } else {
        append_decimal(out, n as u64);
    }
}

/// A character counts as white space: the property White_Space of Unicode.
pub open spec fn is_space(c: char) -> bool {
    ||| '\u{9}' <= c <= '\u{d}'
    ||| c == '\u{20}'
    ||| c == '\u{85}'
    ||| c == '\u{a0}'
    ||| c == '\u{1680}'
    ||| '\u{2000}' <= c <= '\u{200a}'
    ||| c == '\u{2028}'
    ||| c == '\u{2029}'
    ||| c == '\u{202f}'
    ||| c == '\u{205f}'
    ||| c == '\u{3000}'
}

/// A text without white space at its end.
pub open spec fn trimmed_end(s: Seq<char>) -> Seq<char>
    decreases s.len(),
{
    if s.len() > 0 && is_space(s.last()) {
        trimmed_end(s.drop_last())
    } else {
        s
    }
}

/// A text without white space at its beginning.
pub open spec fn trimmed_start(s: Seq<char>) -> Seq<char>
    decreases s.len(),
{
    if s.len() > 0 && is_space(s[0]) {
        trimmed_start(s.skip(1))
    } else {
        s
    }
}

/// A text without white space at either end.
pub open spec fn trimmed(s: Seq<char>) -> Seq<char> {
    trimmed_end(trimmed_start(s))
}

fn space(c: char) -> (r: bool)
    ensures
        r == is_space(c),
{
    ('\u{9}' <= c && c <= '\u{d}') || c == '\u{20}' || c == '\u{85}' || c == '\u{a0}' || c
        == '\u{1680}' || ('\u{2000}' <= c && c <= '\u{200a}') || c == '\u{2028}' || c == '\u{2029}'
        || c == '\u{202f}' || c == '\u{205f}' || c == '\u{3000}'
}

/// The characters of a text without the white space at either end.
pub fn trim(s: &str) -> (r: Vec<char>)
    ensures
        r@ == trimmed(s@),
{
    let v = chars_of(s);
    let mut a: usize = 0;
    assert(v@.skip(0) =~= v@);
    while a < v.len() && space(v[a])
        invariant
            a <= v@.len(),
            trimmed_start(v@.skip(a as int)) == trimmed_start(v@),
        decreases v@.len() - a,
    {
        proof {
            assert(v@.skip(a as int).skip(1) =~= v@.skip(a + 1));
        }
        a = a + 1;
    }
    let ghost body = v@.skip(a as int);
    let mut b: usize = v.len();
    assert(v@.subrange(a as int, b as int) =~= body);
    while b > a && space(v[b - 1])
        invariant
            a <= b <= v@.len(),
            trimmed_end(v@.subrange(a as int, b as int)) == trimmed_end(body),
        decreases b,
    {
        proof {
            let now = v@.subrange(a as int, b as int);
            assert(now.drop_last() =~= v@.subrange(a as int, b - 1));
            assert(now.last() == v@[b - 1]);
        }
        b = b - 1;
    }
    proof {
        let now = v@.subrange(a as int, b as int);
        if now.len() > 0 {
            assert(now.last() == v@[b - 1]);
        }
    }
    let mut out: Vec<char> = Vec::new();
    let mut i: usize = a;
    while i < b
        invariant
            a <= i <= b <= v@.len(),
            out@ == v@.subrange(a as int, i as int),
        decreases b - i,
    {
        out.push(v[i]);
        assert(out@ =~= v@.subrange(a as int, i + 1));
        i = i + 1;
    }
    out
}

/// The digits in the order of their values, in both cases; nothing else is a digit.
pub proof fn law_hex_digits_are_the_alphabet(n: int, c: char)
    requires
        0 <= n < 16,
    ensures
        hex_digit(n) == "0123456789abcdef"@[n],
        digit_value("0123456789abcdef"@[n]) == Some(n as u8),
        digit_value("0123456789ABCDEF"@[n]) == Some(n as u8),
        digit_value(c) matches Some(v) ==> v < 16 && (c == "0123456789abcdef"@[v as int] || c
            == "0123456789ABCDEF"@[v as int]),
{
    reveal_strlit("0123456789abcdef");
    reveal_strlit("0123456789ABCDEF");
}

/// Each byte is written as two digits, the high one first.
pub proof fn law_hex_has_two_digits_a_byte(s: Seq<u8>, i: int)
    requires
        0 <= i < s.len(),
    ensures
        hex_text(s).len() == 2 * s.len(),
        hex_text(s)[2 * i] == "0123456789abcdef"@[s[i] as int / 16],
        hex_text(s)[2 * i + 1] == "0123456789abcdef"@[s[i] as int % 16],
    decreases s.len(),
{
    broadcast use lemma_hex_len;

    reveal_strlit("0123456789abcdef");
    let front = s.drop_last();
    lemma_hex_len(front);
    if i < front.len() {
        law_hex_has_two_digits_a_byte(front, i);
    }
}

/// A text stands for bytes if and only if it is pairs of digits, and each pair gives a byte.
pub proof fn law_pairs_of_digits_are_bytes(s: Seq<char>, i: int)
    requires
        0 <= i < s.len() / 2,
    ensures
        unhex_bytes(s) is Some <==> s.len() % 2 == 0 && forall|k: int|
            0 <= k < s.len() ==> digit_value(#[trigger] s[k]) is Some,
        unhex_bytes(s) matches Some(b) ==> b.len() == s.len() / 2 && b[i] == 16 * digit_value(s[2 * i])->0
            + digit_value(s[2 * i + 1])->0,
{
    lemma_unhex(s);
}

/// What pairs of digits give, all of them.
proof fn lemma_unhex(s: Seq<char>)
    ensures
        unhex_bytes(s) is Some <==> s.len() % 2 == 0 && forall|k: int|
            0 <= k < s.len() ==> digit_value(#[trigger] s[k]) is Some,
        unhex_bytes(s) matches Some(b) ==> b.len() == s.len() / 2 && forall|i: int|
            0 <= i < b.len() ==> #[trigger] b[i] == 16 * digit_value(s[2 * i])->0 + digit_value(
                s[2 * i + 1],
            )->0,
    decreases s.len(),
{
    if s.len() >= 2 {
        let n = s.len() as int;
        let front = s.take(n - 2);
        lemma_unhex(front);
        if unhex_bytes(s) is Some {
            assert forall|k: int| 0 <= k < n implies digit_value(#[trigger] s[k]) is Some by {
                if k < n - 2 {
                    assert(front[k] == s[k]);
                }
            }
        }
        if s.len() % 2 == 0 && forall|k: int| 0 <= k < n ==> digit_value(#[trigger] s[k]) is Some {
            assert forall|k: int| 0 <= k < n - 2 implies digit_value(#[trigger] front[k]) is Some by {
                assert(front[k] == s[k]);
            }
        }
        assert(digit_value(s[n - 1]) matches Some(v) ==> v < 16);
        assert(digit_value(s[n - 2]) matches Some(v) ==> v < 16);
    }
}

/// A number in digits: a single digit below ten, and ten times the number in front of the last digit.
pub proof fn law_decimal_digits_count_by_tens(n: nat, d: int)
    requires
        0 <= d < 10,
    ensures
        decimal(d as nat) == seq!["0123456789"@[d]],
        n > 0 ==> decimal((10 * n + d) as nat) == decimal(n).push("0123456789"@[d]),
        decimal(n)[0] == '0' ==> n == 0,
        signed_decimal(n as int) == decimal(n),
        n > 0 ==> signed_decimal(-n) == seq!['-'] + decimal(n),
{
    reveal_strlit("0123456789");
    if n > 0 {
        assert((10 * n + d) / 10 == n);
        assert((10 * n + d) % 10 == d);
    }
    lemma_no_leading_zero(n);
}

/// No number but zero begins with a zero.
proof fn lemma_no_leading_zero(n: nat)
    ensures
        decimal(n).len() > 0,
        decimal(n)[0] == '0' ==> n == 0,
    decreases n,
{
    if n >= 10 {
        lemma_no_leading_zero(n / 10);
    }
}

/// A text holds another if and only if it is made of something, the other, and something.
pub proof fn law_holding_is_standing_somewhere(
    hay: Seq<char>,
    needle: Seq<char>,
    front: Seq<char>,
    back: Seq<char>,
)
    ensures
        holds_text(front + needle + back, needle),
        holds_text(hay, needle) ==> exists|a: Seq<char>, b: Seq<char>| hay == #[trigger] (a + needle + b),
{
    let all = front + needle + back;
    assert(all.subrange(front.len() as int, front.len() as int + needle.len()) =~= needle);
    assert(stands_at(all, needle, front.len() as int));
    if holds_text(hay, needle) {
        let i = choose|i: int| #[trigger] stands_at(hay, needle, i);
        let (a, b) = (hay.take(i), hay.skip(i + needle.len()));
        assert forall|k: int| i <= k < i + needle.len() implies hay[k] == needle[k - i] by {
            assert(hay.subrange(i, i + needle.len())[k - i] == hay[k]);
        }
        assert(hay =~= a + needle + b);
    }
}

/// Trimming takes white space off both ends, all of it and nothing else.
pub proof fn law_trimming_takes_white_space(s: Seq<char>)
    ensures
        ({
            let t = trimmed(s);
            &&& t.len() > 0 ==> !is_space(t[0]) && !is_space(t.last())
            &&& exists|a: Seq<char>, b: Seq<char>|
                {
                    &&& s == #[trigger] (a + t + b)
                    &&& forall|i: int| 0 <= i < a.len() ==> is_space(#[trigger] a[i])
                    &&& forall|i: int| 0 <= i < b.len() ==> is_space(#[trigger] b[i])
                }
        }),
{
    let m = trimmed_start(s);
    let t = trimmed(s);
    lemma_trimmed_start(s);
    lemma_trimmed_end(m);
    let a = s.take(s.len() - m.len());
    let b = m.skip(t.len() as int);
    assert(m =~= t + b);
    assert(s =~= a + m);
    assert(s =~= a + t + b);
    if t.len() > 0 {
        assert(t[0] == m[0]);
    }
}

/// What is gone at the beginning.
proof fn lemma_trimmed_start(s: Seq<char>)
    ensures
        trimmed_start(s).len() <= s.len(),
        trimmed_start(s) == s.skip(s.len() - trimmed_start(s).len()),
        forall|i: int| 0 <= i < s.len() - trimmed_start(s).len() ==> is_space(#[trigger] s[i]),
        trimmed_start(s).len() > 0 ==> !is_space(trimmed_start(s)[0]),
    decreases s.len(),
{
    if s.len() > 0 && is_space(s[0]) {
        let rest = s.skip(1);
        lemma_trimmed_start(rest);
        assert(trimmed_start(s) =~= s.skip(s.len() - trimmed_start(s).len()));
        assert forall|i: int| 0 <= i < s.len() - trimmed_start(s).len() implies is_space(
            #[trigger] s[i],
        ) by {
            if i > 0 {
                assert(rest[i - 1] == s[i]);
            }
        }
    } else {
        assert(s =~= s.skip(0));
    }
}

/// What is gone at the end.
proof fn lemma_trimmed_end(s: Seq<char>)
    ensures
        trimmed_end(s).len() <= s.len(),
        trimmed_end(s) == s.take(trimmed_end(s).len() as int),
        forall|i: int| trimmed_end(s).len() <= i < s.len() ==> is_space(#[trigger] s[i]),
        trimmed_end(s).len() > 0 ==> !is_space(trimmed_end(s).last()),
    decreases s.len(),
{
    if s.len() > 0 && is_space(s.last()) {
        let rest = s.drop_last();
        lemma_trimmed_end(rest);
        assert(trimmed_end(s) =~= s.take(trimmed_end(s).len() as int));
        assert forall|i: int| trimmed_end(s).len() <= i < s.len() implies is_space(#[trigger] s[i]) by {
            if i < rest.len() {
                assert(rest[i] == s[i]);
            }
        }
    } else {
        assert(s =~= s.take(s.len() as int));
    }
}

/// The characters of white space, by their numbers.
pub proof fn law_white_space_by_number(c: char)
    ensures
        is_space(c) <==> ({
            let n = c as u32;
            n == 9 || n == 10 || n == 11 || n == 12 || n == 13 || n == 32 || n == 133 || n == 160 || n
                == 5760 || (8192 <= n && n <= 8202) || n == 8232 || n == 8233 || n == 8239 || n == 8287 || n
                == 12288
        }),
{
}

/// A text of the ASCII range and its bytes hold the same numbers, one for one.
pub proof fn law_ascii_is_one_for_one(s: Seq<char>, i: int)
    requires
        0 <= i < s.len(),
        '\0' <= s[i] <= '\x7f',
    ensures
        ascii(s).len() == s.len(),
        ascii(s)[i] == s[i] as u8,
        latin(ascii(s))[i] == s[i],
{
}

} // verus!
