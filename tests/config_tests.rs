use stowr_core::{CompressionAlgorithm, Config, DeltaAlgorithm, IndexMode, Score, StowrError};

#[test]
fn algorithm_names_and_levels() {
    assert_eq!(CompressionAlgorithm::from_str("GZip"), Ok(CompressionAlgorithm::Gzip));
    assert_eq!(CompressionAlgorithm::from_str("zstd"), Ok(CompressionAlgorithm::Zstd));
    assert_eq!(CompressionAlgorithm::from_str("LZ4"), Ok(CompressionAlgorithm::Lz4));
    assert_eq!(CompressionAlgorithm::from_str("brotli"), Err(StowrError::InvalidInput));
    assert_eq!(CompressionAlgorithm::Zstd.to_string(), "zstd");
    assert_eq!(CompressionAlgorithm::Zstd.file_extension(), "zst");
    assert_eq!(CompressionAlgorithm::Gzip.validate_level(0), Ok(0));
    assert_eq!(CompressionAlgorithm::Gzip.validate_level(10), Err(StowrError::InvalidInput));
    assert_eq!(CompressionAlgorithm::Zstd.validate_level(0), Err(StowrError::InvalidInput));
    assert_eq!(CompressionAlgorithm::Zstd.validate_level(22), Ok(22));
    assert_eq!(CompressionAlgorithm::Lz4.validate_level(17), Ok(0));
    assert_eq!(CompressionAlgorithm::Gzip.default_level(), 6);
    assert_eq!(CompressionAlgorithm::Zstd.default_level(), 3);
    assert_eq!(DeltaAlgorithm::from_str("BsDiff"), Ok(DeltaAlgorithm::BsDiff));
    assert_eq!(DeltaAlgorithm::XDelta.to_string(), "xdelta");
    assert_eq!(IndexMode::from_lowercase_name("sqlite"), Ok(IndexMode::Sqlite));
}

#[test]
fn config_set_rules() {
    let mut c = Config::default();
    assert_eq!(c.set("nope", "1"), Err(StowrError::UnknownKey));
    c.set("compression.algorithm", "zstd").unwrap();
    assert_eq!(c.compression_level, 3);
    assert_eq!(c.set("compression.level", "23"), Err(StowrError::InvalidInput));
    c.set("compression.level", "+19").unwrap();
    assert_eq!(c.compression_level, 19);
    c.set("compression.algorithm", "lz4").unwrap();
    c.set("compression.level", "5").unwrap();
    assert_eq!(c.compression_level, 0);
    assert_eq!(c.set("multithread", "0"), Err(StowrError::InvalidInput));
    c.set("multithread", "4").unwrap();
    assert_eq!(c.multithread, 4);
    assert_eq!(c.set("dedup.enable", "yes"), Err(StowrError::InvalidInput));
    c.set("delta.enable", "true").unwrap();
    assert!(c.enable_delta_compression);
    assert_eq!(c.set("delta.similarity_threshold", "1.5"), Err(StowrError::InvalidInput));
    c.set("delta.similarity_threshold", "0.85").unwrap();
    assert_eq!(c.similarity_threshold, Score { num: 85, den: 100 });
    c.set("index.mode", "SQLite").unwrap();
    assert_eq!(c.index_mode, IndexMode::Sqlite);
    c.set("storage.path", "/tmp/x").unwrap();
    let list = c.list();
    assert_eq!(list[0], ("storage.path".to_string(), "/tmp/x".to_string()));
    assert_eq!(list[1].1, "sqlite");
    assert_eq!(list[2].1, "4");
    assert_eq!(list[7].1, "0.85");
    let d = Config::default().list();
    assert_eq!(d[7].1, "0.7");
    assert_eq!(d[0].1, ".stowr/storage");
}
