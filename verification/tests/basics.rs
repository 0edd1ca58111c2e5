use diskcache_rs::error::CacheError;
use diskcache_rs::layout::{
    build_file_path, choose_write_mode, filename_from_digest, generate_filename,
    is_network_fs_type, to_hex, WriteMode,
};
use diskcache_rs::serialization::{
    create_serializer, unframe_result, BincodeSerializer, CacheEntry, CompressionType,
    JsonSerializer, SerializationFormat, Serializer,
};
use diskcache_rs::utils::{
    add_capped, bump, validate_cache_config, validate_key, CacheStats, MAX_KEY_BYTES,
};

#[test]
fn plain_keys_are_valid() {
    assert_eq!(validate_key("a"), Ok(()));
    assert_eq!(validate_key("user:42"), Ok(()));
    assert_eq!(validate_key("with space"), Ok(()));
    assert_eq!(validate_key("ключ"), Ok(()));
}

#[test]
fn empty_key_is_invalid() {
    assert_eq!(validate_key(""), Err(CacheError::InvalidKey));
}

#[test]
fn key_length_is_bounded_in_bytes() {
    let longest = "x".repeat(MAX_KEY_BYTES);
    assert_eq!(validate_key(&longest), Ok(()));
    let too_long = "x".repeat(MAX_KEY_BYTES + 1);
    assert_eq!(validate_key(&too_long), Err(CacheError::InvalidKey));
    // 513 two-byte characters are 1026 bytes
    let wide = "é".repeat(513);
    assert_eq!(validate_key(&wide), Err(CacheError::InvalidKey));
    let wide_ok = "é".repeat(512);
    assert_eq!(validate_key(&wide_ok), Ok(()));
}

#[test]
fn separators_and_control_characters_are_invalid() {
    assert_eq!(validate_key("a/b"), Err(CacheError::InvalidKey));
    assert_eq!(validate_key("a\\b"), Err(CacheError::InvalidKey));
    assert_eq!(validate_key("a\0b"), Err(CacheError::InvalidKey));
    assert_eq!(validate_key("a\nb"), Err(CacheError::InvalidKey));
    assert_eq!(validate_key("a\tb"), Err(CacheError::InvalidKey));
    assert_eq!(validate_key("a\u{7f}b"), Err(CacheError::InvalidKey));
}

#[test]
fn config_needs_a_directory_and_nonzero_limits() {
    assert_eq!(validate_cache_config(Some(1), Some(1), "dir"), Ok(()));
    assert_eq!(validate_cache_config(None, None, "dir"), Ok(()));
    assert_eq!(validate_cache_config(None, None, ""), Err(CacheError::InvalidConfig));
    assert_eq!(validate_cache_config(Some(0), None, "dir"), Err(CacheError::InvalidConfig));
    assert_eq!(validate_cache_config(None, Some(0), "dir"), Err(CacheError::InvalidConfig));
}

#[test]
fn caller_errors_are_told_apart() {
    assert!(CacheError::InvalidKey.is_caller_error());
    assert!(CacheError::InvalidConfig.is_caller_error());
    assert!(!CacheError::Io.is_caller_error());
    assert!(!CacheError::Serialization.is_caller_error());
    assert!(!CacheError::Deserialization.is_caller_error());
    assert!(!CacheError::NetworkFileSystem.is_caller_error());
    assert!(!CacheError::MigrationFailed.is_caller_error());
}

#[test]
fn counters_saturate() {
    assert_eq!(bump(0), 1);
    assert_eq!(bump(u64::MAX - 1), u64::MAX);
    assert_eq!(bump(u64::MAX), u64::MAX);
    assert_eq!(add_capped(2, 3), 5);
    assert_eq!(add_capped(u64::MAX - 1, 1), u64::MAX);
    assert_eq!(add_capped(u64::MAX - 1, 5), u64::MAX);
}

#[test]
fn hit_rate_in_permille() {
    let mut s = CacheStats::new();
    assert_eq!(s.hit_permille(), 0);
    s.hits = 1;
    s.misses = 3;
    assert_eq!(s.hit_permille(), 250);
    s.hits = 2;
    s.misses = 1;
    assert_eq!(s.hit_permille(), 666);
    s.hits = u64::MAX;
    s.misses = 0;
    assert_eq!(s.hit_permille(), 1000);
}

#[test]
fn hex_is_lower_case_high_half_first() {
    assert_eq!(to_hex(&[]), "");
    assert_eq!(to_hex(&[0x00, 0xff, 0x1a, 0xa1]), "00ff1aa1");
    assert_eq!(to_hex(&[0x09, 0x0a, 0x90, 0xf0]), "090a90f0");
}

#[test]
fn file_name_takes_eight_digest_bytes() {
    let digest = [0xde, 0xad, 0xbe, 0xef, 0x01, 0x23, 0x45, 0x67, 0x89, 0xab];
    assert_eq!(filename_from_digest(&digest), "deadbeef01234567.dat");
}

#[test]
fn file_name_is_the_blake3_digest_of_the_key() {
    // the BLAKE3 digest of the empty input starts af1349b9f5f9a1a6
    assert_eq!(generate_filename(""), "af1349b9f5f9a1a6.dat");
    assert_eq!(generate_filename("a"), "17762fddd969a453.dat");
    let a = generate_filename("a");
    let b = generate_filename("b");
    assert_eq!(a.len(), 20);
    assert!(a.ends_with(".dat"));
    assert_ne!(a, b);
    assert_eq!(a, generate_filename("a"));
    assert!(a[..16].chars().all(|c| c.is_ascii_digit() || ('a'..='f').contains(&c)));
}

#[test]
fn file_path_lies_in_the_data_directory() {
    assert_eq!(build_file_path("/tmp/c", ""), "/tmp/c/data/af1349b9f5f9a1a6.dat");
    let p = build_file_path("cache", "k");
    assert_eq!(p, format!("cache/data/{}", generate_filename("k")));
}

#[test]
fn write_mode_follows_the_settings() {
    assert_eq!(choose_write_mode(true, false, false), WriteMode::Atomic);
    assert_eq!(choose_write_mode(true, false, true), WriteMode::Direct);
    assert_eq!(choose_write_mode(false, false, false), WriteMode::Direct);
    assert_eq!(choose_write_mode(false, false, true), WriteMode::Direct);
    assert_eq!(choose_write_mode(true, true, false), WriteMode::Locked);
    assert_eq!(choose_write_mode(true, true, true), WriteMode::Locked);
    assert_eq!(choose_write_mode(false, true, true), WriteMode::Locked);
}

#[test]
fn network_file_systems_by_type_code() {
    assert!(is_network_fs_type(0x6969));
    assert!(is_network_fs_type(0x517B));
    assert!(is_network_fs_type(0x564C));
    assert!(!is_network_fs_type(0xEF53));
    assert!(!is_network_fs_type(0));
    assert!(!is_network_fs_type(-1));
}

#[test]
fn serializer_for_each_format() {
    assert!(matches!(
        create_serializer(SerializationFormat::Json, CompressionType::Uncompressed),
        Serializer::Json(_)
    ));
    assert!(matches!(
        create_serializer(SerializationFormat::Bincode, CompressionType::Lz4),
        Serializer::Bincode(_)
    ));
    assert!(matches!(
        create_serializer(SerializationFormat::MessagePack, CompressionType::Zstd),
        Serializer::Json(_)
    ));
}

#[test]
fn uncompressed_framing_is_the_identity() {
    let s = JsonSerializer::new(CompressionType::Uncompressed);
    let stored = s.serialize(b"{\"a\":1}").unwrap();
    assert_eq!(stored, b"{\"a\":1}".to_vec());
    assert_eq!(s.deserialize(&stored).unwrap(), b"{\"a\":1}".to_vec());
    let z = BincodeSerializer::new(CompressionType::Zstd);
    assert_eq!(z.serialize(&[1, 2, 3]).unwrap(), vec![1, 2, 3]);
    assert_eq!(z.deserialize(&[1, 2, 3]).unwrap(), vec![1, 2, 3]);
}

#[test]
fn lz4_framing_round_trips_and_prepends_the_size() {
    let s = create_serializer(SerializationFormat::Bincode, CompressionType::Lz4);
    let input: Vec<u8> = vec![0x41; 300];
    let stored = s.serialize(&input).unwrap();
    assert_ne!(stored, input);
    assert!(stored.len() < input.len());
    // the length of the input, little-endian, comes first
    assert_eq!(&stored[..4], &[0x2c, 0x01, 0x00, 0x00]);
    assert_eq!(s.deserialize(&stored).unwrap(), input);
    let empty = s.serialize(&[]).unwrap();
    assert_eq!(empty, vec![0, 0, 0, 0, 0]);
    assert_eq!(s.deserialize(&empty).unwrap(), Vec::<u8>::new());
}

#[test]
fn lz4_framing_refuses_what_is_no_frame() {
    let s = JsonSerializer::new(CompressionType::Lz4);
    assert_eq!(s.deserialize(&[1, 2]), Err(CacheError::Deserialization));
    // four bytes are promised, none follow
    assert_eq!(s.deserialize(&[4, 0, 0, 0]), Err(CacheError::Deserialization));
}

#[test]
fn unframing_goes_by_the_decompressor_under_lz4_only() {
    assert_eq!(
        unframe_result(CompressionType::Lz4, &[9, 9], Some(vec![1])),
        Ok(vec![1])
    );
    assert_eq!(
        unframe_result(CompressionType::Lz4, &[9, 9], None),
        Err(CacheError::Deserialization)
    );
    assert_eq!(
        unframe_result(CompressionType::Uncompressed, &[9, 9], None),
        Ok(vec![9, 9])
    );
    assert_eq!(
        unframe_result(CompressionType::Zstd, &[9, 9], Some(vec![1])),
        Ok(vec![9, 9])
    );
}

#[test]
fn new_entry_is_counted_as_accessed_once() {
    let e = CacheEntry::new_at("k".to_string(), vec![1, 2, 3], vec!["t".to_string()], Some(50), 40);
    assert_eq!(e.key, "k");
    assert_eq!(e.data, vec![1, 2, 3]);
    assert_eq!(e.size, 3);
    assert_eq!(e.created_at, 40);
    assert_eq!(e.accessed_at, 40);
    assert_eq!(e.access_count, 1);
    assert_eq!(e.tags, vec!["t".to_string()]);
    assert_eq!(e.expire_time, Some(50));
}

#[test]
fn new_entry_by_the_clock() {
    let e = CacheEntry::new("k".to_string(), vec![9], vec![], None);
    assert_eq!(e.created_at, e.accessed_at);
    // the clock reads a time after the year 2020
    assert!(e.created_at > 1_577_836_800);
    assert_eq!(e.access_count, 1);
    assert_eq!(e.size, 1);
    assert!(!e.is_expired());
}

#[test]
fn access_is_counted_and_dated() {
    let mut e = CacheEntry::new_at("k".to_string(), vec![], vec![], None, 10);
    e.update_access_at(20);
    assert_eq!(e.accessed_at, 20);
    assert_eq!(e.access_count, 2);
    assert_eq!(e.created_at, 10);
    e.access_count = u64::MAX;
    e.update_access_at(30);
    assert_eq!(e.access_count, u64::MAX);
    e.update_access();
    assert!(e.accessed_at > 1_577_836_800);
}

#[test]
fn entry_expires_after_its_deadline() {
    let e = CacheEntry::new_at("k".to_string(), vec![], vec![], Some(100), 10);
    assert!(!e.is_expired_at(99));
    assert!(!e.is_expired_at(100));
    assert!(e.is_expired_at(101));
    let forever = CacheEntry::new_at("k".to_string(), vec![], vec![], None, 10);
    assert!(!forever.is_expired_at(u64::MAX));
    let past = CacheEntry::new_at("k".to_string(), vec![], vec![], Some(1), 10);
    assert!(past.is_expired());
}

#[test]
fn duplicate_keeps_every_field() {
    let e = CacheEntry::new_at("k".to_string(), vec![5, 6], vec!["a".to_string(), "b".to_string()], Some(7), 3);
    let d = e.duplicate();
    assert_eq!(d.key, e.key);
    assert_eq!(d.data, e.data);
    assert_eq!(d.tags, e.tags);
    assert_eq!(d.expire_time, e.expire_time);
    assert_eq!(d.created_at, e.created_at);
    assert_eq!(d.accessed_at, e.accessed_at);
    assert_eq!(d.access_count, e.access_count);
    assert_eq!(d.size, e.size);
}

#[test]
fn bytes_that_do_not_shrink_are_framed_and_read_back() {
    let s = create_serializer(SerializationFormat::Bincode, CompressionType::Lz4);
    let mut noise = Vec::with_capacity(0x100_0000);
    let mut x: u32 = 99;
    for _ in 0..0x100_0000 {
        x = x.wrapping_mul(1664525).wrapping_add(1013904223);
        noise.push((x >> 24) as u8);
    }
    let stored = s.serialize(&noise).unwrap();
    assert!(stored.len() > 0x100_0000);
    assert_eq!(s.deserialize(&stored).unwrap(), noise);
    // a long input that shrinks
    let zeros = vec![0u8; 0x100_0000];
    let stored = s.serialize(&zeros).unwrap();
    assert!(stored.len() < 0x2_0000);
    assert_eq!(s.deserialize(&stored).unwrap(), zeros);
}

#[test]
fn a_frame_that_is_not_readable_is_not_deserialized() {
    let s = create_serializer(SerializationFormat::Bincode, CompressionType::Lz4);
    let mut frame = vec![16, 0, 0, 0, 0xf0];
    frame.resize(5 + 0x0101_0101, 0xff);
    frame.push(1);
    assert_eq!(s.deserialize(&frame), Err(CacheError::Deserialization));
}
