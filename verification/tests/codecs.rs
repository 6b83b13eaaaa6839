use dedupe_estimator::codec::{codec_of_name, parse_compression, Codec};

#[test]
fn every_codec_has_its_name() {
    assert_eq!(parse_compression("snappy").unwrap(), Codec::Snappy);
    assert_eq!(parse_compression("gzip").unwrap(), Codec::Gzip);
    assert_eq!(parse_compression("lz4").unwrap(), Codec::Lz4);
    assert_eq!(parse_compression("lz4_raw").unwrap(), Codec::Lz4Raw);
    assert_eq!(parse_compression("zstd").unwrap(), Codec::Zstd);
    assert_eq!(parse_compression("uncompressed").unwrap(), Codec::Uncompressed);
    assert_eq!(parse_compression("none").unwrap(), Codec::Uncompressed);
}

#[test]
fn the_case_of_a_name_does_not_matter() {
    assert_eq!(parse_compression("SNAPPY").unwrap(), Codec::Snappy);
    assert_eq!(parse_compression("ZStd").unwrap(), Codec::Zstd);
    assert_eq!(parse_compression("LZ4_Raw").unwrap(), Codec::Lz4Raw);
}

#[test]
fn an_unknown_name_comes_back_in_lower_case() {
    let err = parse_compression("Brotli").unwrap_err();
    assert_eq!(err.name, "brotli");
    assert!(parse_compression("").is_err());
    assert!(parse_compression(" gzip").is_err());
}

#[test]
fn only_lower_case_names_are_names() {
    assert_eq!(codec_of_name(&"gzip".to_string()), Some(Codec::Gzip));
    assert_eq!(codec_of_name(&"GZIP".to_string()), None);
}
