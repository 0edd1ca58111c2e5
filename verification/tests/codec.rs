use diskcache_rs::codec::{append_bytes, decode_entry, encode_entry};
use diskcache_rs::error::CacheError;
use diskcache_rs::serialization::CacheEntry;

fn le(n: u64) -> Vec<u8> {
    n.to_le_bytes().to_vec()
}

fn sample() -> CacheEntry {
    CacheEntry {
        key: "k".to_string(),
        data: vec![7],
        created_at: 1,
        accessed_at: 2,
        access_count: 3,
        size: 1,
        tags: vec!["t".to_string()],
        expire_time: Some(9),
    }
}

fn sample_bytes() -> Vec<u8> {
    let mut b = vec![0x44, 0x43, 0x45, 0x31];
    b.extend(le(1));
    b.push(b'k');
    b.extend(le(1));
    b.extend(le(2));
    b.extend(le(3));
    b.extend(le(1));
    b.push(1);
    b.extend(le(9));
    b.extend(le(1));
    b.extend(le(1));
    b.push(b't');
    b.extend(le(1));
    b.push(7);
    b
}

fn same(a: &CacheEntry, b: &CacheEntry) -> bool {
    a.key == b.key
        && a.data == b.data
        && a.created_at == b.created_at
        && a.accessed_at == b.accessed_at
        && a.access_count == b.access_count
        && a.size == b.size
        && a.tags == b.tags
        && a.expire_time == b.expire_time
}

#[test]
fn envelope_layout_is_exact() {
    assert_eq!(encode_entry(&sample()), sample_bytes());
}

#[test]
fn envelope_without_deadline_and_tags() {
    let e = CacheEntry {
        key: "ab".to_string(),
        data: vec![],
        created_at: 0x0102030405060708,
        accessed_at: 0,
        access_count: 0,
        size: 0,
        tags: vec![],
        expire_time: None,
    };
    let mut b = vec![0x44, 0x43, 0x45, 0x31];
    b.extend(le(2));
    b.extend(b"ab");
    b.extend(vec![8, 7, 6, 5, 4, 3, 2, 1]);
    b.extend(le(0));
    b.extend(le(0));
    b.extend(le(0));
    b.push(0);
    b.extend(le(0));
    b.extend(le(0));
    b.extend(le(0));
    assert_eq!(encode_entry(&e), b);
    assert!(same(&decode_entry(&b).unwrap(), &e));
}

#[test]
fn decoding_gives_the_envelope_back() {
    let e = sample();
    let back = decode_entry(&encode_entry(&e)).unwrap();
    assert!(same(&back, &e));
}

#[test]
fn round_trip_with_wide_characters_and_many_tags() {
    let e = CacheEntry {
        key: "schlüssel-鍵-🔑".to_string(),
        data: (0..=255u8).collect(),
        created_at: u64::MAX,
        accessed_at: 1 << 40,
        access_count: 77,
        size: 256,
        tags: vec!["".to_string(), "α".to_string(), "tag with space".to_string()],
        expire_time: Some(0),
    };
    let bytes = encode_entry(&e);
    assert!(same(&decode_entry(&bytes).unwrap(), &e));
}

#[test]
fn garbage_is_no_envelope() {
    assert_eq!(decode_entry(&[]).err(), Some(CacheError::Deserialization));
    assert_eq!(decode_entry(&[1, 2, 3]).err(), Some(CacheError::Deserialization));
    assert_eq!(decode_entry(b"DCE1").err(), Some(CacheError::Deserialization));
    assert_eq!(decode_entry(b"XXXXXXXXXXXXXXXXXXXXXXXX").err(), Some(CacheError::Deserialization));
}

#[test]
fn wrong_magic_is_refused() {
    let mut b = sample_bytes();
    b[3] = 0x32;
    assert_eq!(decode_entry(&b).err(), Some(CacheError::Deserialization));
}

#[test]
fn cut_short_is_refused() {
    let b = sample_bytes();
    for n in 0..b.len() {
        assert_eq!(decode_entry(&b[..n]).err(), Some(CacheError::Deserialization), "prefix {}", n);
    }
}

#[test]
fn trailing_bytes_are_refused() {
    let mut b = sample_bytes();
    b.push(0);
    assert_eq!(decode_entry(&b).err(), Some(CacheError::Deserialization));
}

#[test]
fn invalid_utf8_in_the_key_is_refused() {
    let mut b = vec![0x44, 0x43, 0x45, 0x31];
    b.extend(le(2));
    b.extend(vec![0xff, 0xfe]);
    b.extend(le(1));
    b.extend(le(2));
    b.extend(le(3));
    b.extend(le(1));
    b.push(0);
    b.extend(le(0));
    b.extend(le(0));
    b.extend(le(0));
    assert_eq!(decode_entry(&b).err(), Some(CacheError::Deserialization));
}

#[test]
fn deadline_flag_must_be_canonical() {
    // flag 2 is no flag
    let mut b = sample_bytes();
    let flag_at = 4 + 8 + 1 + 32;
    assert_eq!(b[flag_at], 1);
    b[flag_at] = 2;
    assert_eq!(decode_entry(&b).err(), Some(CacheError::Deserialization));
    // no deadline, but a value where zero belongs
    b[flag_at] = 0;
    assert_eq!(decode_entry(&b).err(), Some(CacheError::Deserialization));
}

#[test]
fn a_length_beyond_the_buffer_is_refused() {
    let mut b = vec![0x44, 0x43, 0x45, 0x31];
    b.extend(le(u64::MAX));
    b.extend(b"abc");
    assert_eq!(decode_entry(&b).err(), Some(CacheError::Deserialization));
}

#[test]
fn a_tag_count_beyond_the_buffer_is_refused() {
    let mut b = vec![0x44, 0x43, 0x45, 0x31];
    b.extend(le(1));
    b.push(b'k');
    b.extend(le(1));
    b.extend(le(2));
    b.extend(le(3));
    b.extend(le(1));
    b.push(0);
    b.extend(le(0));
    b.extend(le(1 << 60));
    b.extend(le(0));
    assert_eq!(decode_entry(&b).err(), Some(CacheError::Deserialization));
}

#[test]
fn bytes_are_appended_in_order() {
    let mut out = vec![1, 2];
    append_bytes(&mut out, &[3, 4, 5]);
    assert_eq!(out, vec![1, 2, 3, 4, 5]);
    append_bytes(&mut out, &[]);
    assert_eq!(out, vec![1, 2, 3, 4, 5]);
}
