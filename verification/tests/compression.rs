//! Compression.
use dc_core::compression::{compress, decompress};

#[test]
fn compress_roundtrip_shrinks_repetitive() {
    let data = vec![42u8; 10_000];
    let c = compress(&data, 3).unwrap();
    assert!(c.len() < 100);
    assert_eq!(decompress(&c).unwrap(), data);
}

#[test]
fn what_is_not_compressed_is_refused() {
    let err = decompress(b"this is no zstd stream").unwrap_err();
    assert!(err.message().starts_with("IO 错误: "));
    assert_eq!(decompress(&compress(b"", 1).unwrap()).unwrap(), b"");
}
