//! The handshake between two contacts: the code that both read out, the proof that the first
//! message comes from who scanned the code, and the kinds of ciphertext on the wire.
use vstd::prelude::*;
use vstd::utf8::encode_utf8;
use crate::bytes::{append, be_value, read_be32};
use crate::crypto::{
    absorb, absorbed, blake3_derived, blake3_hash, blake3_keyed, digest, hasher, keyed_hash,
};
use crate::identity::NodeId;
use crate::mailbox::{
    derive_mailbox_secret, law_secret_binds_bucket_and_serial, mailbox_secret, same_mac,
    secret_material,
};
use crate::text::{append_decimal, ascii, ascii_bytes, decimal, hex_digit};
use crate::CoreError;

verus! {

/// How many codes there are.
pub const SAS_CODES: u32 = 1_000_000;

/// What the short code is hashed from.
pub open spec fn sas_material(full: Seq<char>) -> Seq<u8> {
    ascii("dc-sas6-v1"@) + encode_utf8(full)
}

/// The number behind the short code of a safety number.
pub open spec fn sas_number(full: Seq<char>) -> nat {
    be_value(blake3_hash(sas_material(full)).take(4)) % 1_000_000
}

/// A number in six decimal digits, with leading zeros.
pub open spec fn six_digits(n: nat) -> Seq<char> {
    seq![
        hex_digit((n / 100_000 % 10) as int),
        hex_digit((n / 10_000 % 10) as int),
        hex_digit((n / 1_000 % 10) as int),
        hex_digit((n / 100 % 10) as int),
        hex_digit((n / 10 % 10) as int),
        hex_digit((n % 10) as int),
    ]
}

/// The decimal digit of a number below ten.
fn decimal_digit(n: u32) -> (r: char)
    requires
        n < 10,
    ensures
        r == hex_digit(n as int),
{
    (48 + n as u8) as char
}

/// The safety number of two identities, with its short code: six digits of a hash over it. Both
/// sides get the same safety number, so they get the same code.
pub fn sas_code(full: String) -> (r: (String, String))
    ensures
        r.0 == full,
        r.1@ == six_digits(sas_number(full@)),
{
    let mut h = hasher();
    absorb(&mut h, ascii_bytes("dc-sas6-v1").as_slice());
    absorb(&mut h, full.as_str().as_bytes());
    assert(absorbed(h) =~= sas_material(full@));
    let d: [u8; 32] = digest(&h);
    let n: u32 = read_be32(d.as_slice()) % SAS_CODES;
    let mut six = String::new();
    six.push(decimal_digit(n / 100_000 % 10));
    six.push(decimal_digit(n / 10_000 % 10));
    six.push(decimal_digit(n / 1_000 % 10));
    six.push(decimal_digit(n / 100 % 10));
    six.push(decimal_digit(n / 10 % 10));
    six.push(decimal_digit(n % 10));
    assert(six@ =~= six_digits(n as nat));
    (full, six)
}

/// Different numbers below a million have different codes.
pub proof fn law_six_digits_tell_numbers_apart(a: nat, b: nat)
    requires
        a < 1_000_000,
        b < 1_000_000,
        six_digits(a) == six_digits(b),
    ensures
        a == b,
{
    let (s, t) = (six_digits(a), six_digits(b));
    lemma_digit_injective((a / 100_000 % 10) as int, (b / 100_000 % 10) as int);
    lemma_digit_injective((a / 10_000 % 10) as int, (b / 10_000 % 10) as int);
    lemma_digit_injective((a / 1_000 % 10) as int, (b / 1_000 % 10) as int);
    lemma_digit_injective((a / 100 % 10) as int, (b / 100 % 10) as int);
    lemma_digit_injective((a / 10 % 10) as int, (b / 10 % 10) as int);
    lemma_digit_injective((a % 10) as int, (b % 10) as int);
    assert(s[0] == t[0] && s[1] == t[1] && s[2] == t[2]);
    assert(s[3] == t[3] && s[4] == t[4] && s[5] == t[5]);
    lemma_sum_of_digits(a);
    lemma_sum_of_digits(b);
}

/// A number below a million is the sum of its digits at their places.
proof fn lemma_sum_of_digits(n: nat)
    requires
        n < 1_000_000,
    ensures
        n == 100_000 * (n / 100_000 % 10) + 10_000 * (n / 10_000 % 10) + 1_000 * (n / 1_000 % 10)
            + 100 * (n / 100 % 10) + 10 * (n / 10 % 10) + n % 10,
{
    let n = n as int;
    vstd::arithmetic::div_mod::lemma_div_denominator(n, 10, 10);
    vstd::arithmetic::div_mod::lemma_div_denominator(n, 100, 10);
    vstd::arithmetic::div_mod::lemma_div_denominator(n, 1_000, 10);
    vstd::arithmetic::div_mod::lemma_div_denominator(n, 10_000, 10);
    let (a, b, c, d, e) = (n / 10, n / 100, n / 1_000, n / 10_000, n / 100_000);
    assert(n == 10 * a + n % 10);
    assert(a == 10 * b + a % 10);
    assert(b == 10 * c + b % 10);
    assert(c == 10 * d + c % 10);
    assert(d == 10 * e + d % 10);
    assert(e % 10 == e);
}

/// Digits of different values differ.
proof fn lemma_digit_injective(a: int, b: int)
    requires
        0 <= a < 10,
        0 <= b < 10,
    ensures
        hex_digit(a) == hex_digit(b) ==> a == b,
{
}

/// What the hash of a first message covers: the ciphertext and nothing else. Token and bucket go into
/// the key of the hash; no name and no time goes into either, so the hash is good as long as the
/// token is.
pub open spec fn first_message_input(ciphertext: Seq<u8>) -> Seq<u8> {
    ascii("dc-first-msg-v1"@) + ciphertext
}

/// The hash that shows that a first message comes from someone who holds the token: keyed with a
/// secret that is derived from the token and the bucket.
pub open spec fn first_message_hash(token: Seq<u8>, bucket: Seq<u8>, ciphertext: Seq<u8>) -> Seq<u8> {
    blake3_keyed(mailbox_secret(token, bucket, 0), first_message_input(ciphertext))
}

/// The hash that shows that a first message comes from someone who holds the token.
pub fn first_message_mac(token: &[u8], bucket: &NodeId, ciphertext: &[u8]) -> (r: [u8; 32])
    ensures
        r@ == first_message_hash(token@, bucket@, ciphertext@),
{
    let key = derive_mailbox_secret(token, bucket, 0);
    let mut input = ascii_bytes("dc-first-msg-v1");
    append(&mut input, ciphertext);
    keyed_hash(&key, input.as_slice())
}

/// Checks the hash of a first message.
pub fn verify_first_message_mac(token: &[u8], bucket: &NodeId, ciphertext: &[u8], mac: &[u8; 32]) -> (r:
    Result<(), CoreError>)
    ensures
        r is Ok <==> mac@ == first_message_hash(token@, bucket@, ciphertext@),
        r matches Err(e) ==> e is Crypto && e.text() == "first-message token mac mismatch"@,
{
    let expected = first_message_mac(token, bucket, ciphertext);
    proof {
        if mac@ == expected@ {
            assert(*mac =~= expected);
        }
    }
    if !same_mac(mac, &expected) {
        return Err(CoreError::Crypto("first-message token mac mismatch".to_owned()));
    }
    Ok(())
}

/// The hash of a first message covers all of the message.
pub proof fn law_first_message_mac_binds_the_message(a: Seq<u8>, b: Seq<u8>)
    requires
        first_message_input(a) == first_message_input(b),
    ensures
        a == b,
{
    let tag = ascii("dc-first-msg-v1"@);
    assert(first_message_input(a).skip(tag.len() as int) =~= a);
    assert(first_message_input(b).skip(tag.len() as int) =~= b);
}

/// The kinds of ciphertext.
#[derive(Debug, Clone, Copy, PartialEq, Eq, Structural)]
pub enum CiphertextType {
    /// A message in a running session.
    Whisper,
    /// A first message, which sets a session up.
    PreKey,
    SenderKey,
    Plaintext,
}

/// The byte that a kind has on the wire.
pub open spec fn type_number(t: CiphertextType) -> u8 {
    match t {
        CiphertextType::Whisper => 2,
        CiphertextType::PreKey => 3,
        CiphertextType::SenderKey => 7,
        CiphertextType::Plaintext => 8,
    }
}

/// The byte that a kind has on the wire.
pub fn type_byte(t: CiphertextType) -> (r: u8)
    ensures
        r == type_number(t),
{
    match t {
        CiphertextType::Whisper => 2,
        CiphertextType::PreKey => 3,
        CiphertextType::SenderKey => 7,
        CiphertextType::Plaintext => 8,
    }
}

/// The kind of ciphertext behind a byte from the wire. Only messages of a session and first
/// messages are read.
pub fn readable_type(msg_type: u8) -> (r: Result<CiphertextType, CoreError>)
    ensures
        match r {
            Ok(t) => (t is Whisper || t is PreKey) && type_number(t) == msg_type,
            Err(e) => msg_type != 2 && msg_type != 3 && e is Crypto && e.text()
                == "unsupported ciphertext type "@ + decimal(msg_type as nat),
        },
{
    if msg_type == 3 {
        Ok(CiphertextType::PreKey)
    } else if msg_type == 2 {
        Ok(CiphertextType::Whisper)
    } else {
        let mut text = "unsupported ciphertext type ".to_owned();
        append_decimal(&mut text, msg_type as u64);
        Err(CoreError::Crypto(text))
    }
}

/// The bytes on the wire tell the kinds apart.
pub proof fn law_type_bytes_differ(a: CiphertextType, b: CiphertextType)
    requires
        type_number(a) == type_number(b),
    ensures
        a == b,
{
}

/// The one-time key of a bundle from the wire: there is one if both its number and the key itself
/// are given.
pub fn one_time_key(id: Option<u32>, key: Option<Vec<u8>>) -> (r: Option<(u32, Vec<u8>)>)
    ensures
        r == match (id, key) {
            (Some(i), Some(k)) => Some((i, k)),
            _ => None,
        },
{
    match (id, key) {
        (Some(i), Some(k)) => Some((i, k)),
        _ => None,
    }
}

/// The short code depends on the whole safety number: where the same bytes are hashed for two safety
/// numbers, they are the same from the first digit to the last.
pub proof fn law_code_covers_the_whole_number(a: Seq<char>, b: Seq<char>)
    requires
        sas_material(a) == sas_material(b),
    ensures
        a == b,
{
    let tag = ascii("dc-sas6-v1"@);
    assert(sas_material(a).skip(tag.len() as int) =~= encode_utf8(a));
    assert(sas_material(b).skip(tag.len() as int) =~= encode_utf8(b));
    vstd::utf8::encode_utf8_decode_utf8(a);
    vstd::utf8::encode_utf8_decode_utf8(b);
}

/// The short code of a safety number is six decimal digits, and read as a number it is what the first
/// four bytes of the hash leave when they are divided by a million.
pub proof fn law_code_reads_as_its_number(full: Seq<char>)
    requires
        blake3_hash(sas_material(full)).len() == 32,
    ensures
        ({
            let code = six_digits(sas_number(full));
            let h = blake3_hash(sas_material(full));
            &&& code.len() == 6
            &&& forall|i: int| 0 <= i < 6 ==> '0' <= #[trigger] code[i] <= '9'
            &&& 100_000 * (code[0] as int - 48) + 10_000 * (code[1] as int - 48) + 1_000 * (code[2] as int
                - 48) + 100 * (code[3] as int - 48) + 10 * (code[4] as int - 48) + (code[5] as int - 48)
                == (16_777_216 * h[0] + 65_536 * h[1] + 256 * h[2] + h[3]) % 1_000_000
        }),
{
    let h = blake3_hash(sas_material(full));
    let n = sas_number(full);
    lemma_sum_of_digits(n);
    let four = h.take(4);
    reveal_with_fuel(be_value, 5);
    assert(four.drop_last() =~= h.take(3));
    assert(h.take(3).drop_last() =~= h.take(2));
    assert(h.take(2).drop_last() =~= h.take(1));
    assert(h.take(1).drop_last() =~= h.take(0));
    assert(be_value(four) == 16_777_216 * h[0] + 65_536 * h[1] + 256 * h[2] + h[3]);
}

/// The hash of a first message takes token and bucket into account: for other ones its key is derived
/// from other bytes.
pub proof fn law_first_message_key_binds_token_and_bucket(
    t1: Seq<u8>,
    b1: Seq<u8>,
    t2: Seq<u8>,
    b2: Seq<u8>,
    ciphertext: Seq<u8>,
)
    requires
        b1.len() == 32,
        b2.len() == 32,
        (t1, b1) != (t2, b2),
    ensures
        exists|m1: Seq<u8>, m2: Seq<u8>|
            {
                &&& m1 != m2
                &&& first_message_hash(t1, b1, ciphertext) == blake3_keyed(
                    #[trigger] blake3_derived("dc-mailbox-v1"@, m1),
                    ascii("dc-first-msg-v1"@) + ciphertext,
                )
                &&& first_message_hash(t2, b2, ciphertext) == blake3_keyed(
                    #[trigger] blake3_derived("dc-mailbox-v1"@, m2),
                    ascii("dc-first-msg-v1"@) + ciphertext,
                )
            },
{
    let (m1, m2) = (secret_material(t1, b1, 0), secret_material(t2, b2, 0));
    if m1 == m2 {
        law_secret_binds_bucket_and_serial(t1, b1, 0, t2, b2, 0);
    }
    assert(first_message_hash(t1, b1, ciphertext) == blake3_keyed(
        blake3_derived("dc-mailbox-v1"@, m1),
        ascii("dc-first-msg-v1"@) + ciphertext,
    ));
    assert(first_message_hash(t2, b2, ciphertext) == blake3_keyed(
        blake3_derived("dc-mailbox-v1"@, m2),
        ascii("dc-first-msg-v1"@) + ciphertext,
    ));
}

/// The bytes that kinds of ciphertexts have on the wire.
pub proof fn law_types_on_the_wire(t: CiphertextType)
    ensures
        type_number(t) == 2 <==> t == CiphertextType::Whisper,
        type_number(t) == 3 <==> t == CiphertextType::PreKey,
        type_number(t) == 7 <==> t == CiphertextType::SenderKey,
        type_number(t) == 8 <==> t == CiphertextType::Plaintext,
{
}

/// What the short code is hashed from begins with its tag, and the whole safety number follows.
pub proof fn law_code_has_its_own_tag(full: Seq<char>)
    ensures
        sas_material(full).take(10) == ascii("dc-sas6-v1"@),
        sas_material(full).skip(10) == encode_utf8(full),
{
    reveal_strlit("dc-sas6-v1");
    assert(sas_material(full).take(10) =~= ascii("dc-sas6-v1"@));
    assert(sas_material(full).skip(10) =~= encode_utf8(full));
}

} // verus!
