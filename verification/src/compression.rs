//! Compression of message bodies, before they are encrypted.
use vstd::prelude::*;
use crate::crypto::{
    compressor_gave, decompressor_gave, io_error_text, lemma_packed, lemma_unpacked, pack, unpack,
    zstd_decoded,
};
use crate::CoreError;

verus! {

/// Compresses a byte string. What comes out is what the compressor made of it at the level, and
/// decompresses to what went in. It fails if and only if the compressor does.
pub fn compress(data: &[u8], level: i32) -> (r: Result<Vec<u8>, CoreError>)
    ensures
        match r {
            Ok(v) => compressor_gave(data, level, Ok(v)) && zstd_decoded(v@) == Some(data@),
            Err(e) => e is Io && exists|fault: std::io::Error|
                #[trigger] compressor_gave(data, level, Err(fault)),
        },
{
    match pack(data, level) {
        Ok(v) => Ok(v),
        Err(e) => Err(CoreError::Io(io_error_text(&e))),
    }
}

/// Decompresses a byte string. It fails if and only if the decompressor does.
pub fn decompress(data: &[u8]) -> (r: Result<Vec<u8>, CoreError>)
    ensures
        match r {
            Ok(v) => decompressor_gave(data, Ok(v)) && zstd_decoded(data@) == Some(v@),
            Err(e) => e is Io && exists|fault: std::io::Error|
                #[trigger] decompressor_gave(data, Err(fault)),
        },
{
    match unpack(data) {
        Ok(v) => Ok(v),
        Err(e) => Err(CoreError::Io(io_error_text(&e))),
    }
}

/// What the decompressor makes of what the compressor made of a byte string is that byte string,
/// whatever the level.
pub proof fn law_compression_round_trip(
    data: &[u8],
    level: i32,
    packed: Vec<u8>,
    again: &[u8],
    unpacked: Vec<u8>,
)
    requires
        compressor_gave(data, level, Ok(packed)),
        again@ == packed@,
        decompressor_gave(again, Ok(unpacked)),
    ensures
        unpacked@ == data@,
{
    lemma_packed(data, level, packed);
    lemma_unpacked(again, unpacked);
}

} // verus!
