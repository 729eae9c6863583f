//! Identities: Ed25519 key pairs and the fingerprints that people compare.
use vstd::prelude::*;
use crate::bytes::{
    be_bytes, law_be_injective, lemma_be_bytes_len, lemma_ranges, lemma_split, push_be,
    to_array,
};
use crate::crypto::{
    absorb, absorbed, blake3_xof, check_key, check_signature, draw_array, ed25519_is_key,
    ed25519_public, ed25519_signature, ed25519_verifies, generator_failed, generator_gave, hasher,
    neutral_point, public_of_seed,
    random_error_text, sign_with_seed, signature_error_text, xof,
};
use crate::text::{ascii, ascii_bytes, hex_chars, hex_text};
use crate::CoreError;

verus! {

/// A node is known by its Ed25519 public key.
pub type NodeId = [u8; 32];

/// Bytes of a fingerprint.
pub const FINGERPRINT_LEN: usize = 128;

/// A long-term or node key pair.
pub struct Identity {
    seed: [u8; 32],
}

/// A public key that has been found to be one.
#[derive(Debug, Clone, Copy)]
pub struct VerifyingKey {
    bytes: [u8; 32],
}

/// An Ed25519 signature.
#[derive(Debug, Clone, Copy)]
pub struct Signature {
    bytes: [u8; 64],
}

impl View for Identity {
    type V = Seq<u8>;

    /// The secret seed.
    closed spec fn view(&self) -> Seq<u8> {
        self.seed@
    }
}

impl Clone for Identity {
    fn clone(&self) -> (r: Identity)
        ensures
            r@ == self@,
    {
        Identity { seed: self.seed }
    }
}

impl View for VerifyingKey {
    type V = Seq<u8>;

    closed spec fn view(&self) -> Seq<u8> {
        self.bytes@
    }
}

impl View for Signature {
    type V = Seq<u8>;

    closed spec fn view(&self) -> Seq<u8> {
        self.bytes@
    }
}

impl VerifyingKey {
    #[verifier::type_invariant]
    closed spec fn is_key(self) -> bool {
        ed25519_is_key(self.bytes@)
    }

    /// Takes 32 bytes for a public key if they can be one.
    pub fn from_bytes(bytes: &[u8; 32]) -> (r: Result<VerifyingKey, CoreError>)
        ensures
            match r {
                Ok(k) => ed25519_is_key(bytes@) && k@ == bytes@,
                Err(e) => !ed25519_is_key(bytes@) && e is Crypto,
            },
    {
        match check_key(bytes) {
            Ok(_) => Ok(VerifyingKey { bytes: *bytes }),
            Err(e) => Err(CoreError::Crypto(signature_error_text(&e))),
        }
    }

    pub fn to_bytes(&self) -> (r: [u8; 32])
        ensures
            r@ == self@,
            ed25519_is_key(r@),
    {
        proof {
            use_type_invariant(self);
        }
        self.bytes
    }
}

impl Signature {
    pub fn from_bytes(bytes: &[u8; 64]) -> (r: Signature)
        ensures
            r@ == bytes@,
    {
        Signature { bytes: *bytes }
    }

    /// Takes a byte string for a signature if it has the length of one.
    pub fn from_slice(bytes: &[u8]) -> (r: Result<Signature, CoreError>)
        ensures
            match r {
                Ok(s) => bytes@.len() == 64 && s@ == bytes@,
                Err(e) => bytes@.len() != 64 && e is Crypto && e.text()
                    == "signature length must be 64"@,
            },
    {
        if bytes.len() != 64 {
            return Err(CoreError::Crypto("signature length must be 64".to_owned()));
        }
        assert(bytes@.take(64) =~= bytes@);
        Ok(Signature { bytes: to_array::<64>(bytes) })
    }

    pub fn to_bytes(&self) -> (r: [u8; 64])
        ensures
            r@ == self@,
    {
        self.bytes
    }
}

impl Identity {
    /// A new identity. Its seed is what the operating system's generator gave; where that gave
    /// nothing, there is no identity.
    pub fn generate() -> (r: Result<Identity, CoreError>)
        ensures
            match r {
                Ok(id) => generator_gave(32, id@) && id@.len() == 32,
                Err(e) => generator_failed(32) && e is Entropy,
            },
    {
        match draw_array::<32>() {
            Ok(seed) => Ok(Identity::from_seed(seed)),
            Err(e) => Err(CoreError::Entropy(random_error_text(&e))),
        }
    }

    /// The identity that a seed stands for.
    pub fn from_seed(seed: [u8; 32]) -> (r: Identity)
        ensures
            r@ == seed@,
    {
        Identity { seed }
    }

    /// A copy of the secret seed, from which the identity can be made again.
    pub fn clone_seed(&self) -> (r: [u8; 32])
        ensures
            r@ == self@,
    {
        self.seed
    }

    pub fn node_id(&self) -> (r: NodeId)
        ensures
            r@ == ed25519_public(self@),
            ed25519_is_key(r@),
    {
        public_of_seed(&self.seed)
    }

    pub fn public(&self) -> (r: VerifyingKey)
        ensures
            r@ == ed25519_public(self@),
    {
        VerifyingKey { bytes: public_of_seed(&self.seed) }
    }

    /// Signs a message. The signature passes `verify` under the identity's public key unless its
    /// first half encodes the neutral element.
    pub fn sign(&self, msg: &[u8]) -> (r: Signature)
        ensures
            r@ == ed25519_signature(self@, msg@),
            r@.take(32) != neutral_point() ==> ed25519_verifies(ed25519_public(self@), msg@, r@),
    {
        Signature { bytes: sign_with_seed(&self.seed, msg) }
    }
}

/// The strict check of a signature.
pub fn verify(vk: &VerifyingKey, msg: &[u8], sig: &Signature) -> (r: Result<(), CoreError>)
    ensures
        match r {
            Ok(_) => ed25519_verifies(vk@, msg@, sig@),
            Err(e) => !ed25519_verifies(vk@, msg@, sig@) && e is Crypto,
        },
{
    match check_signature(&vk.bytes, msg, &sig.bytes) {
        Ok(_) => Ok(()),
        Err(e) => Err(CoreError::Crypto(signature_error_text(&e))),
    }
}

/// Checks a signature, both given as bytes: first the key, then the length of the signature,
/// then the signature itself.
pub fn verify_bytes(key: &[u8; 32], msg: &[u8], sig: &[u8]) -> (r: Result<(), CoreError>)
    ensures
        r is Ok <==> signed_by(key@, msg@, sig@),
        r matches Err(e) ==> e is Crypto,
        r matches Err(e) ==> ed25519_is_key(key@) && sig@.len() != 64 ==> e.text()
            == "signature length must be 64"@,
{
    let vk = VerifyingKey::from_bytes(key)?;
    let signature = Signature::from_slice(sig)?;
    verify(&vk, msg, &signature)
}

/// `sig` is the signature of `msg` by the key with the bytes `key`.
pub open spec fn signed_by(key: Seq<u8>, msg: Seq<u8>, sig: Seq<u8>) -> bool {
    ed25519_is_key(key) && sig.len() == 64 && ed25519_verifies(key, msg, sig)
}

/// The fingerprint's parts, each behind its length.
pub open spec fn parts_bytes(parts: Seq<Seq<u8>>) -> Seq<u8>
    decreases parts.len(),
{
    if parts.len() == 0 {
        Seq::empty()
    } else {
        parts_bytes(parts.drop_last()) + be_bytes(parts.last().len(), 8) + parts.last()
    }
}

/// What is hashed for a fingerprint: a tag, the number of parts, the parts.
pub open spec fn fingerprint_input(parts: Seq<Seq<u8>>) -> Seq<u8> {
    ascii("dc-fingerprint-v1"@) + be_bytes(parts.len(), 4) + parts_bytes(parts)
}

/// The fingerprint of some parts.
pub open spec fn fingerprint_of(parts: Seq<Seq<u8>>) -> Seq<u8> {
    blake3_xof(fingerprint_input(parts), FINGERPRINT_LEN as nat)
}

/// The byte strings that slices hold.
pub open spec fn contents(parts: Seq<&[u8]>) -> Seq<Seq<u8>> {
    parts.map_values(|p: &[u8]| p@)
}

/// A fingerprint of 1024 bits over parts that are kept apart by their lengths.
pub fn fingerprint1024(parts: &[&[u8]]) -> (r: [u8; FINGERPRINT_LEN])
    requires
        parts@.len() <= u32::MAX,
    ensures
        r@ == fingerprint_of(contents(parts@)),
{
    let mut h = hasher();
    let mut head: Vec<u8> = ascii_bytes("dc-fingerprint-v1");
    push_be(&mut head, parts.len() as u64, 4);
    absorb(&mut h, head.as_slice());
    let mut i: usize = 0;
    let ghost start = ascii("dc-fingerprint-v1"@) + be_bytes(parts@.len(), 4);
    assert(absorbed(h) =~= start + parts_bytes(contents(parts@).take(0)));
    while i < parts.len()
        invariant
            i <= parts@.len(),
            absorbed(h) == start + parts_bytes(contents(parts@).take(i as int)),
        decreases parts@.len() - i,
    {
        let part: &[u8] = parts[i];
        let mut len: Vec<u8> = Vec::new();
        push_be(&mut len, part.len() as u64, 8);
        absorb(&mut h, len.as_slice());
        absorb(&mut h, part);
        proof {
            assert(contents(parts@).take(i + 1).drop_last() =~= contents(parts@).take(i as int));
            assert(absorbed(h) =~= start + parts_bytes(contents(parts@).take(i + 1)));
        }
        i = i + 1;
    }
    assert(contents(parts@).take(i as int) =~= contents(parts@));
    let out: Vec<u8> = xof(&h, FINGERPRINT_LEN);
    assert(out@.take(FINGERPRINT_LEN as int) =~= out@);
    to_array::<FINGERPRINT_LEN>(out.as_slice())
}


/// The fingerprint that contacts compare for an identity.
pub fn identity_fingerprint(node_id: &NodeId) -> (r: [u8; FINGERPRINT_LEN])
    ensures
        r@ == fingerprint_of(seq![ascii("identity"@), node_id@]),
{
    let tag: Vec<u8> = ascii_bytes("identity");
    let parts: [&[u8]; 2] = [tag.as_slice(), node_id.as_slice()];
    assert(contents(parts@) =~= seq![ascii("identity"@), node_id@]);
    fingerprint1024(parts.as_slice())
}

/// `h` in groups of eight characters with a space between them.
pub open spec fn grouped(h: Seq<char>) -> Seq<char>
    decreases h.len(),
{
    if h.len() == 0 {
        Seq::empty()
    } else if h.len() > 1 && (h.len() - 1) % 8 == 0 {
        grouped(h.drop_last()).push(' ').push(h.last())
    } else {
        grouped(h.drop_last()).push(h.last())
    }
}

/// The first `count` characters in groups of eight.
fn group_chars(h: &[char], count: usize) -> (r: String)
    requires
        count <= h@.len(),
    ensures
        r@ == grouped(h@.take(count as int)),
{
    let mut out = String::new();
    let mut i: usize = 0;
    while i < count
        invariant
            i <= count <= h@.len(),
            out@ == grouped(h@.take(i as int)),
        decreases count - i,
    {
        assert(h@.take(i + 1).drop_last() =~= h@.take(i as int));
        if i > 0 && i % 8 == 0 {
            out.push(' ');
        }
        out.push(h[i]);
        i = i + 1;
    }
    out
}

/// A fingerprint for the eye: lower-case hexadecimal digits in groups of eight.
pub fn format_fingerprint(fp: &[u8]) -> (r: String)
    ensures
        r@ == grouped(hex_text(fp@)),
{
    let h = hex_chars(fp);
    assert(h@.take(h@.len() as int) =~= h@);
    group_chars(h.as_slice(), h.len())
}

/// The first `groups` groups of a fingerprint.
pub fn safety_groups(fp: &[u8], groups: usize) -> (r: String)
    ensures
        r@ == grouped(
            hex_text(fp@).take(
                if 8 * groups <= hex_text(fp@).len() {
                    8 * groups
                } else {
                    hex_text(fp@).len() as int
                },
            ),
        ),
{
    let h = hex_chars(fp);
    let count: usize = if groups <= h.len() / 8 {
        8 * groups
    } else {
        h.len()
    };
    group_chars(h.as_slice(), count)
}


/// The parts can also be written from the front.
proof fn lemma_parts_front(parts: Seq<Seq<u8>>)
    requires
        parts.len() > 0,
    ensures
        parts_bytes(parts) == be_bytes(parts[0].len(), 8) + parts[0] + parts_bytes(
            parts.drop_first(),
        ),
    decreases parts.len(),
{
    let head = be_bytes(parts[0].len(), 8) + parts[0];
    if parts.len() == 1 {
        assert(parts.drop_last() =~= Seq::empty());
        assert(parts.drop_first() =~= Seq::empty());
        assert(parts_bytes(parts) =~= head + parts_bytes(parts.drop_first()));
    } else {
        lemma_parts_front(parts.drop_last());
        assert(parts.drop_last()[0] == parts[0]);
        assert(parts.drop_last().drop_first() =~= parts.drop_first().drop_last());
        assert(parts.drop_first().last() == parts.last());
        assert(parts_bytes(parts) =~= head + parts_bytes(parts.drop_first()));
    }
}

/// As many parts, written alike, are equal.
proof fn lemma_parts_injective(a: Seq<Seq<u8>>, b: Seq<Seq<u8>>)
    requires
        a.len() == b.len(),
        forall|i: int| 0 <= i < a.len() ==> (#[trigger] a[i]).len() <= u64::MAX,
        forall|i: int| 0 <= i < b.len() ==> (#[trigger] b[i]).len() <= u64::MAX,
        parts_bytes(a) == parts_bytes(b),
    ensures
        a == b,
    decreases a.len(),
{
    broadcast use lemma_be_bytes_len;

    if a.len() > 0 {
        lemma_parts_front(a);
        lemma_parts_front(b);
        lemma_ranges();
        let (la, lb) = (be_bytes(a[0].len(), 8), be_bytes(b[0].len(), 8));
        let (ra, rb) = (parts_bytes(a.drop_first()), parts_bytes(b.drop_first()));
        assert(la + a[0] + ra =~= la + (a[0] + ra));
        assert(lb + b[0] + rb =~= lb + (b[0] + rb));
        lemma_split(la, a[0] + ra, lb, b[0] + rb);
        law_be_injective(a[0].len(), b[0].len(), 8);
        lemma_split(a[0], ra, b[0], rb);
        lemma_parts_injective(a.drop_first(), b.drop_first());
        assert(a =~= seq![a[0]] + a.drop_first());
        assert(b =~= seq![b[0]] + b.drop_first());
    } else {
        assert(a =~= b);
    }
}

/// Fingerprints of different parts hash different inputs: neither a boundary nor the order of
/// the parts can be moved without changing what is hashed.
pub proof fn law_fingerprint_keeps_parts_apart(a: Seq<Seq<u8>>, b: Seq<Seq<u8>>)
    requires
        a.len() <= u32::MAX,
        b.len() <= u32::MAX,
        forall|i: int| 0 <= i < a.len() ==> (#[trigger] a[i]).len() <= u64::MAX,
        forall|i: int| 0 <= i < b.len() ==> (#[trigger] b[i]).len() <= u64::MAX,
        fingerprint_input(a) == fingerprint_input(b),
    ensures
        a == b,
{
    broadcast use lemma_be_bytes_len;

    lemma_ranges();
    let tag = ascii("dc-fingerprint-v1"@);
    lemma_split(
        tag + be_bytes(a.len(), 4),
        parts_bytes(a),
        tag + be_bytes(b.len(), 4),
        parts_bytes(b),
    );
    lemma_split(tag, be_bytes(a.len(), 4), tag, be_bytes(b.len(), 4));
    law_be_injective(a.len(), b.len(), 4);
    lemma_parts_injective(a, b);
}

/// The first groups of a fingerprint are the beginning of the whole.
pub proof fn law_safety_groups_are_a_prefix(h: Seq<char>, n: int)
    requires
        0 <= n <= h.len(),
    ensures
        grouped(h.take(n)).len() <= grouped(h).len(),
        grouped(h).take(grouped(h.take(n)).len() as int) == grouped(h.take(n)),
    decreases h.len(),
{
    if n == h.len() {
        assert(h.take(n) =~= h);
        assert(grouped(h).take(grouped(h).len() as int) =~= grouped(h));
    } else {
        law_safety_groups_are_a_prefix(h.drop_last(), n);
        assert(h.drop_last().take(n) =~= h.take(n));
        assert(grouped(h).take(grouped(h.take(n)).len() as int) =~= grouped(h.take(n)));
    }
}

/// Groups are of eight characters: every ninth place is a space, and the others hold the text in its order.
pub proof fn law_groups_have_eight_characters(h: Seq<char>, i: int)
    requires
        0 <= i < h.len(),
    ensures
        grouped(h).len() == h.len() + (h.len() - 1) / 8,
        grouped(h)[i + i / 8] == h[i],
        i % 8 == 7 && i + 1 < h.len() ==> grouped(h)[i + i / 8 + 1] == ' ',
    decreases h.len(),
{
    let front = h.drop_last();
    if i < front.len() {
        law_groups_have_eight_characters(front, i);
    } else if front.len() > 0 {
        law_groups_have_eight_characters(front, i - 1);
    }
}

/// A fingerprint is the first 128 bytes of the hash over a tag, the number of parts and each part behind its
/// length, in their order.
pub proof fn law_fingerprint_covers_the_parts(a: Seq<Seq<u8>>, b: Seq<Seq<u8>>, p: Seq<u8>)
    ensures
        parts_bytes(seq![p]) == be_bytes(p.len(), 8) + p,
        parts_bytes(a + b) == parts_bytes(a) + parts_bytes(b),
        fingerprint_of(a) == blake3_xof(
            ascii("dc-fingerprint-v1"@) + be_bytes(a.len(), 4) + parts_bytes(a),
            128,
        ),
    decreases b.len(),
{
    let one = seq![p];
    assert(one.drop_last() =~= Seq::<Seq<u8>>::empty());
    assert(one.last() == p);
    assert(parts_bytes(one.drop_last()) == Seq::<u8>::empty());
    assert(parts_bytes(one) == parts_bytes(one.drop_last()) + be_bytes(p.len(), 8) + p);
    assert(parts_bytes(one) =~= be_bytes(p.len(), 8) + p);
    if b.len() > 0 {
        law_fingerprint_covers_the_parts(a, b.drop_last(), p);
        assert((a + b).drop_last() =~= a + b.drop_last());
        assert(parts_bytes(a + b) =~= parts_bytes(a) + parts_bytes(b));
    } else {
        assert(a + b =~= a);
        assert(parts_bytes(a) + parts_bytes(b) =~= parts_bytes(a));
    }
}

/// A signature counts if and only if the key is one, it has 64 bytes, and it passes the strict check over
/// the message.
pub proof fn law_signature_counts(key: Seq<u8>, msg: Seq<u8>, sig: Seq<u8>)
    ensures
        signed_by(key, msg, sig) ==> sig.len() == 64 && ed25519_is_key(key) && ed25519_verifies(
            key,
            msg,
            sig,
        ),
        ed25519_is_key(key) && ed25519_verifies(key, msg, sig) && sig.len() == 64 ==> signed_by(
            key,
            msg,
            sig,
        ),
{
}

} // verus!
