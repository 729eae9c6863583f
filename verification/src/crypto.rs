//! The cryptographic primitives and the compression that the library rests on. The functions whose
//! bodies are not verified hand their arguments to another crate, and their contracts say what is
//! believed of that crate.
use vstd::prelude::*;
use crate::bytes::to_array;
use ed25519_dalek::Signer;

verus! {

/// `blake3::Hasher`, a hash that is fed piece by piece.
#[verifier::external_type_specification]
#[verifier::external_body]
pub struct ExHasher(blake3::Hasher);

/// `ed25519_dalek::SignatureError`, why a key or a signature was refused.
#[verifier::external_type_specification]
#[verifier::external_body]
pub struct ExSignatureError(ed25519_dalek::SignatureError);

/// `getrandom::Error`, why the operating system gave no random bytes.
#[verifier::external_type_specification]
#[verifier::external_body]
pub struct ExRandomError(getrandom::Error);

/// `std::io::Error`, which the compression crate reports.
#[verifier::external_type_specification]
#[verifier::external_body]
pub struct ExIoError(std::io::Error);

/// The bytes that a hasher has been fed.
pub uninterp spec fn absorbed(h: blake3::Hasher) -> Seq<u8>;

/// The first `len` bytes of the BLAKE3 output stream over `input`.
pub uninterp spec fn blake3_xof(input: Seq<u8>, len: nat) -> Seq<u8>;

/// The 32 bytes of the BLAKE3 hash of `input`.
pub uninterp spec fn blake3_hash(input: Seq<u8>) -> Seq<u8>;

/// The 32 bytes of the keyed BLAKE3 hash of `input`.
pub uninterp spec fn blake3_keyed(key: Seq<u8>, input: Seq<u8>) -> Seq<u8>;

/// The 32 bytes that BLAKE3 derives from `material` for the purpose `context`.
pub uninterp spec fn blake3_derived(context: Seq<char>, material: Seq<u8>) -> Seq<u8>;

/// The Ed25519 public key that belongs to a seed.
pub uninterp spec fn ed25519_public(seed: Seq<u8>) -> Seq<u8>;

/// The Ed25519 signature of a message under the key of a seed.
pub uninterp spec fn ed25519_signature(seed: Seq<u8>, message: Seq<u8>) -> Seq<u8>;

/// The bytes are the encoding of a point of the curve, so that they can be a public key.
pub uninterp spec fn ed25519_is_key(key: Seq<u8>) -> bool;

/// A signature passes the strict Ed25519 check against a public key.
pub uninterp spec fn ed25519_verifies(key: Seq<u8>, message: Seq<u8>, signature: Seq<u8>) -> bool;

/// The encoding of the neutral element of the curve: a one, then zeros.
pub open spec fn neutral_point() -> Seq<u8> {
    Seq::new(32, |i: int| if i == 0 { 1u8 } else { 0u8 })
}

/// `blake3::Hasher::new`: a hasher that has been fed nothing.
#[verifier::external_body]
pub(crate) fn hasher() -> (r: blake3::Hasher)
    ensures
        absorbed(r) == Seq::<u8>::empty(),
{
    blake3::Hasher::new()
}

/// `blake3::Hasher::update`: feeds `data` to the hasher, behind what it was fed before.
#[verifier::external_body]
pub(crate) fn absorb(h: &mut blake3::Hasher, data: &[u8])
    ensures
        absorbed(*final(h)) == absorbed(*old(h)) + data@,
{
    h.update(data);
}

/// `blake3::Hasher::finalize_xof` and `blake3::OutputReader::fill`: the first `len` bytes of
/// the output stream over what the hasher was fed.
#[verifier::external_body]
pub(crate) fn xof(h: &blake3::Hasher, len: usize) -> (r: Vec<u8>)
    ensures
        r@ == blake3_xof(absorbed(*h), len as nat),
        r@.len() == len,
{
    let mut out = vec![0u8; len];
    h.finalize_xof().fill(&mut out);
    out
}

/// `blake3::Hasher::finalize`: the hash of what the hasher was fed.
#[verifier::external_body]
pub(crate) fn digest(h: &blake3::Hasher) -> (r: [u8; 32])
    ensures
        r@ == blake3_hash(absorbed(*h)),
{
    *h.finalize().as_bytes()
}

/// `blake3::keyed_hash`: the keyed hash of `input`.
#[verifier::external_body]
pub(crate) fn keyed_hash(key: &[u8; 32], input: &[u8]) -> (r: [u8; 32])
    ensures
        r@ == blake3_keyed(key@, input@),
{
    *blake3::keyed_hash(key, input).as_bytes()
}

/// `blake3::derive_key`: the key derived from `material` for the purpose `context`.
#[verifier::external_body]
pub(crate) fn derive_key(context: &str, material: &[u8]) -> (r: [u8; 32])
    ensures
        r@ == blake3_derived(context@, material@),
{
    blake3::derive_key(context, material)
}

/// `ed25519_dalek::SigningKey::verifying_key`: the public key of a seed.
#[verifier::external_body]
pub(crate) fn public_of_seed(seed: &[u8; 32]) -> (r: [u8; 32])
    ensures
        r@ == ed25519_public(seed@),
        ed25519_is_key(r@),
{
    ed25519_dalek::SigningKey::from_bytes(seed).verifying_key().to_bytes()
}

/// `ed25519_dalek::SigningKey::sign`: the signature of a message. It passes the strict check
/// under the seed's public key, unless its first half encodes the neutral element; the strict
/// check refuses such a signature.
#[verifier::external_body]
pub(crate) fn sign_with_seed(seed: &[u8; 32], message: &[u8]) -> (r: [u8; 64])
    ensures
        r@ == ed25519_signature(seed@, message@),
        r@.take(32) != neutral_point() ==> ed25519_verifies(ed25519_public(seed@), message@, r@),
{
    ed25519_dalek::SigningKey::from_bytes(seed).sign(message).to_bytes()
}

/// `ed25519_dalek::VerifyingKey::from_bytes`: whether 32 bytes can be a public key.
#[verifier::external_body]
pub(crate) fn check_key(key: &[u8; 32]) -> (r: Result<(), ed25519_dalek::SignatureError>)
    ensures
        r is Ok <==> ed25519_is_key(key@),
{
    ed25519_dalek::VerifyingKey::from_bytes(key).map(|_| ())
}

/// `ed25519_dalek::VerifyingKey::verify_strict`: whether a signature passes the strict check.
/// It never does for bytes that are no public key.
#[verifier::external_body]
pub(crate) fn check_signature(key: &[u8; 32], message: &[u8], signature: &[u8; 64]) -> (r: Result<
    (),
    ed25519_dalek::SignatureError,
>)
    ensures
        r is Ok <==> ed25519_verifies(key@, message@, signature@),
{
    let vk = ed25519_dalek::VerifyingKey::from_bytes(key)?;
    vk.verify_strict(message, &ed25519_dalek::Signature::from_bytes(signature))
}

/// The `Display` text of an `ed25519_dalek::SignatureError`. Nothing is said of its words.
#[verifier::external_body]
pub(crate) fn signature_error_text(e: &ed25519_dalek::SignatureError) -> (r: String) {
    e.to_string()
}

/// `getrandom::fill`: as many bytes as asked for from the operating system's generator. Which
/// bytes they are, and whether there are any, is left open.
#[verifier::external_body]
pub(crate) fn random_bytes(len: usize) -> (r: Result<Vec<u8>, getrandom::Error>)
    ensures
        r matches Ok(v) ==> v@.len() == len,
{
    let mut out = vec![0u8; len];
    getrandom::fill(&mut out)?;
    Ok(out)
}

/// A request for `len` random bytes came back with `drawn`.
pub closed spec fn drew(len: usize, drawn: Result<Vec<u8>, getrandom::Error>) -> bool {
    call_ensures(random_bytes, (len,), drawn)
}

/// These are bytes that the operating system's generator gave when it was asked for `len`.
pub open spec fn generator_gave(len: usize, bytes: Seq<u8>) -> bool {
    exists|v: Vec<u8>| #[trigger] drew(len, Ok(v)) && v@ == bytes
}

/// The operating system's generator gave nothing when it was asked for `len` bytes.
pub open spec fn generator_failed(len: usize) -> bool {
    exists|e: getrandom::Error| #[trigger] drew(len, Err(e))
}

/// Asks for random bytes, and tells that what comes back is what the generator gave.
pub(crate) fn draw_bytes(len: usize) -> (r: Result<Vec<u8>, getrandom::Error>)
    ensures
        match r {
            Ok(v) => v@.len() == len && generator_gave(len, v@),
            Err(_) => generator_failed(len),
        },
{
    let generator = random_bytes;
    match generator(len) {
        Ok(v) => {
            assert(drew(len, Ok(v)));
            Ok(v)
        },
        Err(e) => {
            assert(drew(len, Err(e)));
            Err(e)
        },
    }
}

/// As many random bytes as an array holds.
pub(crate) fn draw_array<const N: usize>() -> (r: Result<[u8; N], getrandom::Error>)
    ensures
        match r {
            Ok(a) => generator_gave(N, a@),
            Err(_) => generator_failed(N),
        },
{
    match draw_bytes(N) {
        Ok(v) => {
            assert(v@.take(N as int) =~= v@);
            Ok(to_array::<N>(v.as_slice()))
        },
        Err(e) => Err(e),
    }
}

/// The `Display` text of a `getrandom::Error`. Nothing is said of its words.
#[verifier::external_body]
pub(crate) fn random_error_text(e: &getrandom::Error) -> (r: String) {
    e.to_string()
}

/// What zstd decompresses a byte string to; nothing when it is no zstd stream.
pub uninterp spec fn zstd_decoded(data: Seq<u8>) -> Option<Seq<u8>>;

/// `zstd::encode_all`: a compressed form of `data`, from which `zstd::decode_all` gets `data` back.
/// Which of the possible forms it is depends on the level and on the machine, and is left open; so
/// is whether there was memory for the work.
#[verifier::external_body]
pub(crate) fn compress_bytes(data: &[u8], level: i32) -> (r: Result<Vec<u8>, std::io::Error>)
    ensures
        r matches Ok(v) ==> zstd_decoded(v@) == Some(data@),
{
    zstd::encode_all(data, level)
}

/// `zstd::decode_all`: what a compressed byte string stands for. It fails on what is no zstd
/// stream, and also when there is no memory for the work; when it fails is therefore left open.
#[verifier::external_body]
pub(crate) fn decompress_bytes(data: &[u8]) -> (r: Result<Vec<u8>, std::io::Error>)
    ensures
        r matches Ok(v) ==> zstd_decoded(data@) == Some(v@),
{
    zstd::decode_all(data)
}

/// The compressor came back with `packed` when it was given `data` and a level.
pub closed spec fn compressor_gave(
    data: &[u8],
    level: i32,
    packed: Result<Vec<u8>, std::io::Error>,
) -> bool {
    call_ensures(compress_bytes, (data, level), packed)
}

/// The decompressor came back with `unpacked` when it was given `data`.
pub closed spec fn decompressor_gave(
    data: &[u8],
    unpacked: Result<Vec<u8>, std::io::Error>,
) -> bool {
    call_ensures(decompress_bytes, (data,), unpacked)
}

/// Compresses, and tells that what comes back is what the compressor gave.
pub(crate) fn pack(data: &[u8], level: i32) -> (r: Result<Vec<u8>, std::io::Error>)
    ensures
        compressor_gave(data, level, r),
        r matches Ok(v) ==> zstd_decoded(v@) == Some(data@),
{
    let compressor = compress_bytes;
    compressor(data, level)
}

/// Decompresses, and tells that what comes back is what the decompressor gave.
pub(crate) fn unpack(data: &[u8]) -> (r: Result<Vec<u8>, std::io::Error>)
    ensures
        decompressor_gave(data, r),
        r matches Ok(v) ==> zstd_decoded(data@) == Some(v@),
{
    let decompressor = decompress_bytes;
    decompressor(data)
}

/// Whatever the compressor gave stands for what it was given.
pub proof fn lemma_packed(data: &[u8], level: i32, packed: Vec<u8>)
    requires
        compressor_gave(data, level, Ok(packed)),
    ensures
        zstd_decoded(packed@) == Some(data@),
{
}

/// Whatever the decompressor gave is what it was given stands for.
pub proof fn lemma_unpacked(data: &[u8], unpacked: Vec<u8>)
    requires
        decompressor_gave(data, Ok(unpacked)),
    ensures
        zstd_decoded(data@) == Some(unpacked@),
{
}

/// The `Display` text of a `std::io::Error`. Nothing is said of its words.
#[verifier::external_body]
pub(crate) fn io_error_text(e: &std::io::Error) -> (r: String) {
    e.to_string()
}

} // verus!
