use stowr_core::codec::{compress, decompress};
use stowr_core::{CompressionAlgorithm, StowrError};

#[test]
fn codecs_write_their_own_formats() {
    let data = b"hello hello hello hello".to_vec();
    let gz = compress(CompressionAlgorithm::Gzip, 6, &data).unwrap();
    assert_eq!(&gz[..2], &[0x1f, 0x8b]);
    let zst = compress(CompressionAlgorithm::Zstd, 3, &data).unwrap();
    assert_eq!(&zst[..4], &[0x28, 0xb5, 0x2f, 0xfd]);
    let lz = compress(CompressionAlgorithm::Lz4, 0, &data).unwrap();
    assert_eq!(&lz[..4], &(data.len() as u32).to_le_bytes());
    for (alg, bytes) in [
        (CompressionAlgorithm::Gzip, gz),
        (CompressionAlgorithm::Zstd, zst),
        (CompressionAlgorithm::Lz4, lz),
    ] {
        assert_eq!(decompress(alg, &bytes).unwrap(), data);
    }
}

#[test]
fn gzip_level_zero_round_trips() {
    let data: Vec<u8> = (0..300u32).map(|i| (i * 7 % 256) as u8).collect();
    let gz = compress(CompressionAlgorithm::Gzip, 0, &data).unwrap();
    assert_eq!(decompress(CompressionAlgorithm::Gzip, &gz).unwrap(), data);
}

#[test]
fn malformed_payload_is_decode_corrupt() {
    let junk = b"definitely not compressed".to_vec();
    assert_eq!(decompress(CompressionAlgorithm::Gzip, &junk), Err(StowrError::DecodeCorrupt));
    assert_eq!(decompress(CompressionAlgorithm::Zstd, &junk), Err(StowrError::DecodeCorrupt));
    assert_eq!(decompress(CompressionAlgorithm::Lz4, &[1, 2]), Err(StowrError::DecodeCorrupt));
}
