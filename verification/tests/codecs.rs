use bloda::{compress_data, decompress_data, ArchiveError};

const SAMPLE: &[u8] =
    b"the quick brown fox jumps over the lazy dog, and then does it again and again and again";

#[test]
fn lzma_round_trip() {
    let packed = compress_data(SAMPLE, "LZMA").unwrap();
    assert_ne!(packed, SAMPLE.to_vec());
    assert_eq!(decompress_data(&packed, "LZMA").unwrap(), SAMPLE.to_vec());
}

#[test]
fn lz4_round_trip() {
    let packed = compress_data(SAMPLE, "LZ4").unwrap();
    assert_ne!(packed, SAMPLE.to_vec());
    assert_eq!(decompress_data(&packed, "LZ4").unwrap(), SAMPLE.to_vec());
}

#[test]
fn zstd_round_trip() {
    let packed = compress_data(SAMPLE, "ZSTD").unwrap();
    assert_ne!(packed, SAMPLE.to_vec());
    assert_eq!(decompress_data(&packed, "ZSTD").unwrap(), SAMPLE.to_vec());
}

#[test]
fn none_is_a_pass_through() {
    let packed = compress_data(SAMPLE, "NONE").unwrap();
    assert_eq!(packed, SAMPLE.to_vec());
    assert_eq!(decompress_data(&packed, "NONE").unwrap(), SAMPLE.to_vec());
}

#[test]
fn unknown_codec_is_reported() {
    match compress_data(SAMPLE, "BROTLI") {
        Err(ArchiveError::UnknownCodec { label }) => assert_eq!(label, "BROTLI"),
        other => panic!("expected UnknownCodec, got {:?}", other.map(|_| ())),
    }
    assert!(matches!(
        decompress_data(SAMPLE, "gzip"),
        Err(ArchiveError::UnknownCodec { .. })
    ));
}

#[test]
fn lowercase_labels_are_rejected() {
    assert!(matches!(compress_data(SAMPLE, "zstd"), Err(ArchiveError::UnknownCodec { .. })));
}

#[test]
fn corrupt_stream_fails_to_decompress() {
    let garbage = vec![0xAB; 64];
    assert!(matches!(
        decompress_data(&garbage, "LZ4"),
        Err(ArchiveError::CodecFailure { .. })
    ));
    assert!(matches!(
        decompress_data(&garbage, "ZSTD"),
        Err(ArchiveError::CodecFailure { .. })
    ));
    assert!(matches!(
        decompress_data(&garbage, "LZMA"),
        Err(ArchiveError::CodecFailure { .. })
    ));
}
