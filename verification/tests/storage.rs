use std::collections::HashMap;

use diskcache_rs::batcher::WriteOp;
use diskcache_rs::codec::encode_entry;
use diskcache_rs::error::CacheError;
use diskcache_rs::layout::{build_file_path, WriteMode};
use diskcache_rs::serialization::{decompress_frame, is_readable_frame, CacheEntry};
use diskcache_rs::storage::optimized_backend::{
    choose_stored, compress_if_beneficial, decompress_if_needed, file_bytes, pick_stored,
    recover_entry,
    OptimizedStorage, StorageConfig, StorageStats,
};
use diskcache_rs::storage::{IndexRecord, StorageBackend};
use diskcache_rs::tiers::{capacity_hint, FileInfo};

type Disk = HashMap<String, Vec<u8>>;

fn carry_out(disk: &mut Disk, ops: Vec<WriteOp>) {
    for op in ops {
        match op {
            WriteOp::Write { path, data, .. } => {
                disk.insert(path, data);
            }
            WriteOp::Delete { path } => {
                disk.remove(&path);
            }
            WriteOp::Sync => {}
        }
    }
}

fn fetch(store: &mut OptimizedStorage, disk: &Disk, key: &str, now: u64) -> Option<CacheEntry> {
    let contents = match store.read_request(key, now) {
        Some(path) => disk.get(&path).cloned(),
        None => None,
    };
    store.get(key, contents, now).unwrap()
}

fn entry(key: &str, data: Vec<u8>, expire: Option<u64>, now: u64) -> CacheEntry {
    CacheEntry::new_at(key.to_string(), data, vec![], expire, now)
}

fn store() -> OptimizedStorage {
    OptimizedStorage::new("dir").unwrap()
}

fn sorted(mut v: Vec<String>) -> Vec<String> {
    v.sort();
    v
}

#[test]
fn a_store_needs_a_directory() {
    assert_eq!(OptimizedStorage::new("").err(), Some(CacheError::InvalidConfig));
    assert!(OptimizedStorage::with_config("d", StorageConfig::default()).is_ok());
}

#[test]
fn default_settings() {
    let c = StorageConfig::default();
    assert_eq!(c.hot_cache_size, 10_000);
    assert_eq!(c.warm_cache_size, 1_000);
    assert_eq!(c.mmap_threshold, 64 * 1024);
    assert_eq!(c.batch_size, 100);
    assert_eq!(c.compression_threshold, 1024);
    assert!(c.use_compression);
    assert!(!c.sync_writes);
    assert_eq!(c.disk_write_threshold, 1024);
    assert!(!c.use_file_locking);
}

#[test]
fn store_counters() {
    let mut s = StorageStats::new();
    s.record_hot_hit();
    s.record_warm_hit();
    s.record_warm_hit();
    s.record_cold_hit();
    s.record_miss();
    s.record_write(10);
    s.record_write(5);
    s.record_read(7);
    assert_eq!(s.hot_hits, 1);
    assert_eq!(s.warm_hits, 2);
    assert_eq!(s.cold_hits, 1);
    assert_eq!(s.misses, 1);
    assert_eq!(s.writes, 2);
    assert_eq!(s.bytes_written, 15);
    assert_eq!(s.bytes_read, 7);
    s.bytes_read = u64::MAX;
    s.record_read(1);
    assert_eq!(s.bytes_read, u64::MAX);
}

#[test]
fn the_nine_tenths_rule() {
    let data = vec![0u8; 100];
    assert_eq!(pick_stored(data.clone(), vec![1u8; 89]), (vec![1u8; 89], true));
    assert_eq!(pick_stored(data.clone(), vec![1u8; 90]), (data.clone(), false));
    assert_eq!(pick_stored(data.clone(), vec![1u8; 200]), (data.clone(), false));
    assert_eq!(pick_stored(vec![], vec![]), (vec![], false));
    // the bound is nine tenths of the length, not its rounded value
    let odd = vec![0u8; 1025];
    assert_eq!(pick_stored(odd.clone(), vec![1u8; 922]), (vec![1u8; 922], true));
    assert_eq!(pick_stored(odd.clone(), vec![1u8; 923]), (odd.clone(), false));
    let nine = vec![0u8; 9];
    assert_eq!(pick_stored(nine.clone(), vec![1u8; 8]), (vec![1u8; 8], true));
    assert_eq!(pick_stored(vec![0u8; 10], vec![1u8; 9]), (vec![0u8; 10], false));
    // the length of the frame plays no part
    let long = vec![0u8; 0x130_0000];
    let frame = vec![1u8; 0x100_0001];
    assert!(pick_stored(long, frame).1);
}

#[test]
fn compression_where_it_pays() {
    let config = StorageConfig::default();
    let repetitive = vec![0x41u8; 2048];
    let (stored, compressed) = compress_if_beneficial(&config, &repetitive);
    assert!(compressed);
    assert!(stored.len() < 2048 * 9 / 10);
    assert_eq!(&stored[..4], &[0x00, 0x08, 0x00, 0x00]);
    assert_eq!(decompress_if_needed(stored, true).unwrap(), repetitive);
    // below the threshold nothing is compressed
    let small = vec![0x41u8; 1023];
    assert_eq!(compress_if_beneficial(&config, &small), (small.clone(), false));
    // at the threshold it is
    let at = vec![0x41u8; 1024];
    assert!(compress_if_beneficial(&config, &at).1);
    // what does not shrink is stored as it is
    let mut noise = Vec::new();
    let mut x: u32 = 12345;
    for _ in 0..2048 {
        x = x.wrapping_mul(1664525).wrapping_add(1013904223);
        noise.push((x >> 24) as u8);
    }
    assert_eq!(compress_if_beneficial(&config, &noise), (noise.clone(), false));
    let mut off = StorageConfig::default();
    off.use_compression = false;
    assert_eq!(compress_if_beneficial(&off, &repetitive), (repetitive.clone(), false));
}

#[test]
fn decompression() {
    assert_eq!(decompress_if_needed(vec![1, 2, 3], false), Ok(vec![1, 2, 3]));
    assert_eq!(decompress_if_needed(vec![1, 2, 3], true), Err(CacheError::Deserialization));
    assert_eq!(decompress_frame(&[3, 0, 0, 0, 0x30, b'a', b'b', b'c']), Some(b"abc".to_vec()));
}

fn frame_with_run(run: usize) -> Vec<u8> {
    // a size prefix, a token that announces length bytes, the run, an end
    let mut frame = vec![16, 0, 0, 0, 0xf0];
    frame.resize(5 + run, 0xff);
    frame.push(5);
    frame
}

#[test]
fn a_frame_whose_length_bytes_would_overflow_is_refused_unread() {
    let frame = frame_with_run(0x0101_0101);
    assert!(!is_readable_frame(&frame));
    assert_eq!(decompress_frame(&frame), None);
    assert_eq!(decompress_if_needed(frame, true), Err(CacheError::Deserialization));
}

#[test]
fn a_frame_with_a_shorter_run_is_read() {
    let frame = frame_with_run(0x0101_0100);
    assert!(is_readable_frame(&frame));
    // the decompressor finds it malformed
    assert_eq!(decompress_frame(&frame), None);
    assert!(is_readable_frame(&[]));
    assert!(is_readable_frame(&[0xff; 64]));
}

#[test]
fn a_long_frame_is_stored_and_read_back() {
    let config = StorageConfig::default();
    // half noise, half zeros: the frame pays and is longer than sixteen MiB
    let mut data = Vec::with_capacity(0x240_0000);
    let mut x: u32 = 4242;
    for _ in 0..0x120_0000 {
        x = x.wrapping_mul(1664525).wrapping_add(1013904223);
        data.push((x >> 24) as u8);
    }
    data.resize(0x240_0000, 0);
    let (stored, compressed) = compress_if_beneficial(&config, &data);
    assert!(compressed);
    assert!(stored.len() > 0x100_0000);
    assert!(stored.len() * 10 < data.len() * 9);
    assert_eq!(decompress_if_needed(stored, true).unwrap(), data);
}

#[test]
fn a_file_holds_the_envelope_with_the_stored_payload() {
    let config = StorageConfig::default();
    let e = entry("k", vec![0x42; 3000], Some(77), 5);
    let (bytes, compressed) = file_bytes(&config, &e);
    assert!(compressed);
    assert!(bytes.len() < 3000);
    let back = recover_entry(&bytes, compressed).unwrap();
    assert_eq!(back.data, e.data);
    assert_eq!(back.key, "k");
    assert_eq!(back.size, 3000);
    assert_eq!(back.expire_time, Some(77));
    // read as if it were not compressed, the payload is the frame
    let raw = recover_entry(&bytes, false).unwrap();
    assert_ne!(raw.data, e.data);
    let small = entry("k", vec![1, 2, 3], None, 5);
    let (plain, flag) = file_bytes(&config, &small);
    assert!(!flag);
    assert_eq!(plain, encode_entry(&small));
    assert_eq!(recover_entry(&plain, true).err(), Some(CacheError::Deserialization));
    assert_eq!(recover_entry(&[1, 2, 3], false).err(), Some(CacheError::Deserialization));
}

#[test]
fn a_small_entry_stays_in_memory() {
    let mut s = store();
    let mut disk = Disk::new();
    assert_eq!(s.set("a", entry("a", vec![1; 10], None, 100), 100), Ok(()));
    let st = s.stats();
    assert_eq!(st.hot_cache_size, 1);
    assert_eq!(st.warm_cache_size, 0);
    assert_eq!(st.cold_index_size, 0);
    assert_eq!(st.writes, 1);
    assert_eq!(st.bytes_written, 10);
    // no file is written
    let ops = s.sync();
    assert_eq!(ops.len(), 1);
    assert!(matches!(ops[0], WriteOp::Sync));
    assert_eq!(s.read_request("a", 100), None);
    let got = fetch(&mut s, &disk, "a", 150).unwrap();
    assert_eq!(got.data, vec![1; 10]);
    assert_eq!(got.access_count, 2);
    assert_eq!(got.accessed_at, 150);
    assert_eq!(got.created_at, 100);
    // the access is kept
    let again = fetch(&mut s, &disk, "a", 160).unwrap();
    assert_eq!(again.access_count, 3);
    assert_eq!(s.stats().hot_hits, 2);
    assert_eq!(s.stats().bytes_read, 20);
    carry_out(&mut disk, s.sync());
    assert!(disk.is_empty());
}

#[test]
fn a_large_entry_goes_to_disk() {
    let mut s = store();
    let mut disk = Disk::new();
    let payload = vec![0x41u8; 2048];
    assert_eq!(s.set("k", entry("k", payload.clone(), None, 100), 100), Ok(()));
    let st = s.stats();
    assert_eq!(st.hot_cache_size, 0);
    assert_eq!(st.cold_index_size, 1);
    let ops = s.sync();
    assert_eq!(ops.len(), 2);
    let path = build_file_path("dir", "k");
    assert!(path.starts_with("dir/data/"));
    match &ops[0] {
        WriteOp::Write { path: p, data, mode } => {
            assert_eq!(p, &path);
            assert_eq!(*mode, WriteMode::Direct);
            assert!(data.len() < 2048);
            assert_eq!(recover_entry(data, true).unwrap().data, payload);
        }
        _ => panic!("a write comes first"),
    }
    assert!(matches!(ops[1], WriteOp::Sync));
    carry_out(&mut disk, ops);
    let index = s.index_snapshot();
    assert_eq!(index.len(), 1);
    assert_eq!(index[0].key, "k");
    assert_eq!(index[0].info.path, path);
    assert_eq!(index[0].info.size, disk[&path].len() as u64);
    assert_eq!(index[0].info.created_at, 100);
    assert!(index[0].info.compressed);
    assert_eq!(index[0].info.expire_time, None);
    assert!(index[0].file_exists);
    // the file has to be read before the lookup
    assert_eq!(s.read_request("k", 110), Some(path.clone()));
    let got = fetch(&mut s, &disk, "k", 110).unwrap();
    assert_eq!(got.data, payload);
    assert_eq!(got.access_count, 2);
    assert_eq!(s.stats().cold_hits, 1);
    // below four KiB the entry is copied into the hot tier
    assert_eq!(s.stats().hot_cache_size, 1);
    assert_eq!(s.stats().warm_cache_size, 0);
    assert_eq!(s.read_request("k", 120), None);
    let again = fetch(&mut s, &disk, "k", 120).unwrap();
    assert_eq!(again.data, payload);
    assert_eq!(again.access_count, 3);
    assert_eq!(s.stats().hot_hits, 1);
    // the entry that was read is written back with its count
    carry_out(&mut disk, s.sync());
    assert_eq!(recover_entry(&disk[&path], true).unwrap().access_count, 2);
    assert_eq!(sorted(s.keys().unwrap()), vec!["k".to_string()]);
}

#[test]
fn a_middle_sized_entry_becomes_mapped() {
    let mut s = store();
    let mut disk = Disk::new();
    let payload = vec![0x41u8; 8192];
    s.set("m", entry("m", payload.clone(), None, 100), 100).unwrap();
    carry_out(&mut disk, s.sync());
    assert_eq!(fetch(&mut s, &disk, "m", 110).unwrap().data, payload);
    assert_eq!(s.stats().warm_cache_size, 1);
    assert_eq!(s.stats().hot_cache_size, 0);
    assert_eq!(s.stats().cold_hits, 1);
    carry_out(&mut disk, s.sync());
    // the next read is served from the mapped file
    assert!(s.read_request("m", 120).is_some());
    assert_eq!(fetch(&mut s, &disk, "m", 120).unwrap().data, payload);
    assert_eq!(s.stats().warm_hits, 1);
    assert_eq!(s.stats().cold_hits, 1);
    assert_eq!(s.stats().cold_index_size, 1);
}

#[test]
fn a_small_file_becomes_mapped_where_the_hot_tier_is_off() {
    let mut config = StorageConfig::default();
    config.hot_cache_size = 0;
    let mut s = OptimizedStorage::with_config("dir", config).unwrap();
    let mut disk = Disk::new();
    let payload = vec![0x41u8; 2048];
    s.set("k", entry("k", payload.clone(), None, 100), 100).unwrap();
    carry_out(&mut disk, s.sync());
    assert_eq!(fetch(&mut s, &disk, "k", 110).unwrap().data, payload);
    carry_out(&mut disk, s.sync());
    assert_eq!(fetch(&mut s, &disk, "k", 120).unwrap().data, payload);
    let st = s.stats();
    assert_eq!(st.hot_cache_size, 0);
    assert_eq!(st.warm_cache_size, 1);
    assert_eq!(st.cold_hits, 1);
    assert_eq!(st.warm_hits, 1);
    // without a hot tier even the smallest entry goes to disk
    s.set("tiny", entry("tiny", vec![1], None, 130), 130).unwrap();
    assert_eq!(s.stats().cold_index_size, 2);
    assert_eq!(s.stats().hot_cache_size, 0);
}

#[test]
fn a_huge_entry_is_neither_copied_nor_mapped() {
    let mut s = store();
    let mut disk = Disk::new();
    let payload: Vec<u8> = (0..70_000u32).map(|i| (i % 251) as u8).collect();
    s.set("big", entry("big", payload.clone(), None, 100), 100).unwrap();
    carry_out(&mut disk, s.sync());
    assert_eq!(fetch(&mut s, &disk, "big", 110).unwrap().data, payload);
    assert_eq!(s.stats().warm_cache_size, 0);
    assert_eq!(s.stats().hot_cache_size, 0);
}

#[test]
fn a_missing_key_is_a_miss() {
    let mut s = store();
    let disk = Disk::new();
    assert_eq!(s.read_request("nope", 1), None);
    assert!(fetch(&mut s, &disk, "nope", 1).is_none());
    assert_eq!(s.stats().misses, 1);
    assert_eq!(s.contains("nope", 1), Ok(false));
    assert_eq!(s.delete("nope"), Ok(false));
}

#[test]
fn a_file_that_cannot_be_read_is_dropped_from_the_index() {
    let mut s = store();
    let disk = Disk::new();
    s.set("k", entry("k", vec![0x41; 2048], None, 100), 100).unwrap();
    // the file was never written
    assert!(fetch(&mut s, &disk, "k", 110).is_none());
    assert_eq!(s.stats().cold_index_size, 0);
    assert_eq!(s.stats().misses, 1);
    assert_eq!(s.keys().unwrap(), Vec::<String>::new());
}

#[test]
fn a_file_that_cannot_be_decoded_is_dropped_and_removed() {
    let mut s = store();
    let mut disk = Disk::new();
    s.set("k", entry("k", vec![0x41; 2048], None, 100), 100).unwrap();
    carry_out(&mut disk, s.sync());
    let path = build_file_path("dir", "k");
    disk.insert(path.clone(), vec![0, 1, 2, 3]);
    assert!(fetch(&mut s, &disk, "k", 110).is_none());
    assert_eq!(s.stats().cold_index_size, 0);
    let ops = s.sync();
    assert!(matches!(&ops[0], WriteOp::Delete { path: p } if p == &path));
    carry_out(&mut disk, ops);
    assert!(disk.is_empty());
}

#[test]
fn a_file_of_another_key_is_not_handed_out() {
    let mut s = store();
    let mut disk = Disk::new();
    s.set("k", entry("k", vec![0x41; 2048], None, 100), 100).unwrap();
    carry_out(&mut disk, s.sync());
    let (other, _) = file_bytes(&StorageConfig::default(), &entry("j", vec![0x41; 2048], None, 100));
    assert!(s.get("k", Some(other), 110).unwrap().is_none());
    assert_eq!(s.stats().cold_index_size, 0);
    assert_eq!(s.stats().misses, 1);
    // the file belongs to the other key: it is not removed
    let ops = s.sync();
    assert_eq!(ops.len(), 1);
    assert!(matches!(ops[0], WriteOp::Sync));
}

#[test]
fn expired_entries_are_not_live_and_not_handed_out() {
    let mut s = store();
    let mut disk = Disk::new();
    s.set("hot", entry("hot", vec![1], Some(200), 100), 100).unwrap();
    s.set("cold", entry("cold", vec![0x41; 2048], Some(200), 100), 100).unwrap();
    carry_out(&mut disk, s.sync());
    assert_eq!(s.contains("hot", 200), Ok(true));
    assert_eq!(s.contains("cold", 200), Ok(true));
    assert_eq!(s.contains("hot", 201), Ok(false));
    assert_eq!(s.contains("cold", 201), Ok(false));
    // asking changes nothing
    assert_eq!(sorted(s.keys().unwrap()), vec!["cold".to_string(), "hot".to_string()]);
    assert_eq!(s.deadline("cold"), Some(200));
    assert_eq!(s.deadline("hot"), None);
    assert_eq!(s.read_request("cold", 201), None);
    assert!(fetch(&mut s, &disk, "hot", 201).is_none());
    assert!(fetch(&mut s, &disk, "cold", 201).is_none());
    assert_eq!(s.keys().unwrap(), Vec::<String>::new());
    carry_out(&mut disk, s.sync());
    assert!(disk.is_empty());
}

#[test]
fn delete_removes_from_every_tier() {
    let mut s = store();
    let mut disk = Disk::new();
    s.set("a", entry("a", vec![1], None, 1), 1).unwrap();
    s.set("k", entry("k", vec![0x41; 2048], None, 1), 1).unwrap();
    carry_out(&mut disk, s.sync());
    fetch(&mut s, &disk, "k", 2).unwrap();
    carry_out(&mut disk, s.sync());
    assert_eq!(s.delete("a"), Ok(true));
    assert_eq!(s.delete("k"), Ok(true));
    assert_eq!(s.delete("k"), Ok(false));
    let st = s.stats();
    assert_eq!((st.hot_cache_size, st.warm_cache_size, st.cold_index_size), (0, 0, 0));
    assert!(fetch(&mut s, &disk, "k", 3).is_none());
    carry_out(&mut disk, s.sync());
    assert!(disk.is_empty());
}

#[test]
fn storing_again_replaces_across_tiers() {
    let mut s = store();
    let mut disk = Disk::new();
    s.set("k", entry("k", vec![0x41; 2048], None, 1), 1).unwrap();
    carry_out(&mut disk, s.sync());
    assert_eq!(disk.len(), 1);
    // large by small: the file goes
    s.set("k", entry("k", vec![9], None, 2), 2).unwrap();
    assert_eq!(s.stats().cold_index_size, 0);
    assert_eq!(s.stats().hot_cache_size, 1);
    carry_out(&mut disk, s.sync());
    assert!(disk.is_empty());
    assert_eq!(fetch(&mut s, &disk, "k", 3).unwrap().data, vec![9]);
    // small by large: the hot entry goes
    s.set("k", entry("k", vec![0x42; 3000], None, 4), 4).unwrap();
    assert_eq!(s.stats().cold_index_size, 1);
    assert_eq!(s.stats().hot_cache_size, 0);
    carry_out(&mut disk, s.sync());
    assert_eq!(fetch(&mut s, &disk, "k", 5).unwrap().data, vec![0x42; 3000]);
    assert_eq!(s.keys().unwrap(), vec!["k".to_string()]);
}

#[test]
fn an_overflowing_hot_tier_gives_up_entries_but_not_the_newest() {
    let mut config = StorageConfig::default();
    config.hot_cache_size = 2;
    let mut s = OptimizedStorage::with_config("dir", config).unwrap();
    let disk = Disk::new();
    s.set("a", entry("a", vec![1], None, 1), 1).unwrap();
    s.set("b", entry("b", vec![2], None, 1), 1).unwrap();
    assert!(s.take_dropped().is_empty());
    s.set("c", entry("c", vec![3], None, 1), 1).unwrap();
    assert_eq!(s.stats().hot_cache_size, 2);
    let dropped = s.take_dropped();
    assert_eq!(dropped.len(), 1);
    assert!(dropped[0] == "a" || dropped[0] == "b");
    assert!(s.take_dropped().is_empty());
    assert_eq!(fetch(&mut s, &disk, "c", 2).unwrap().data, vec![3]);
    let keys = s.keys().unwrap();
    assert_eq!(keys.len(), 2);
    assert!(keys.contains(&"c".to_string()));
    assert!(!keys.contains(&dropped[0]));
}

#[test]
fn a_tenth_of_the_capacity_leaves_at_least() {
    let mut config = StorageConfig::default();
    config.hot_cache_size = 20;
    let mut s = OptimizedStorage::with_config("dir", config).unwrap();
    for i in 0..20 {
        let k = format!("k{}", i);
        s.set(&k, entry(&k, vec![1], None, 1), 1).unwrap();
    }
    assert_eq!(s.stats().hot_cache_size, 20);
    s.set("new", entry("new", vec![1], None, 1), 1).unwrap();
    // twenty-one entries, capacity twenty: two leave
    assert_eq!(s.stats().hot_cache_size, 19);
    assert_eq!(s.take_dropped().len(), 2);
    assert_eq!(s.contains("new", 1), Ok(true));
}

#[test]
fn size_adds_up_files_and_inline_entries() {
    let mut s = store();
    let mut disk = Disk::new();
    assert_eq!(s.size(), Ok(0));
    // key of one byte, ten bytes of payload: eighty bytes encoded
    s.set("a", entry("a", vec![1; 10], None, 1), 1).unwrap();
    assert_eq!(s.size(), Ok(80));
    s.set("k", entry("k", vec![0x41; 2048], None, 1), 1).unwrap();
    carry_out(&mut disk, s.sync());
    let file_len = disk[&build_file_path("dir", "k")].len() as u64;
    assert_eq!(s.size(), Ok(80 + file_len));
    // a copy in the hot tier of what is on disk is not counted twice
    fetch(&mut s, &disk, "k", 2).unwrap();
    assert_eq!(s.stats().hot_cache_size, 2);
    assert_eq!(s.size(), Ok(80 + file_len));
    s.delete("a").unwrap();
    assert_eq!(s.size(), Ok(file_len));
}

#[test]
fn keys_lists_every_key_once() {
    let mut s = store();
    let mut disk = Disk::new();
    s.set("a", entry("a", vec![1], None, 1), 1).unwrap();
    s.set("k", entry("k", vec![0x41; 2048], None, 1), 1).unwrap();
    s.set("m", entry("m", vec![0x41; 8192], None, 1), 1).unwrap();
    carry_out(&mut disk, s.sync());
    fetch(&mut s, &disk, "k", 2).unwrap();
    fetch(&mut s, &disk, "m", 2).unwrap();
    assert_eq!(
        sorted(s.keys().unwrap()),
        vec!["a".to_string(), "k".to_string(), "m".to_string()]
    );
}

#[test]
fn clear_empties_and_queues_the_removals() {
    let mut s = store();
    let mut disk = Disk::new();
    s.set("a", entry("a", vec![1], None, 1), 1).unwrap();
    s.set("k", entry("k", vec![0x41; 2048], None, 1), 1).unwrap();
    s.set("j", entry("j", vec![0x41; 2048], None, 1), 1).unwrap();
    carry_out(&mut disk, s.sync());
    assert_eq!(disk.len(), 2);
    assert_eq!(s.clear(), Ok(()));
    let st = s.stats();
    assert_eq!((st.hot_cache_size, st.warm_cache_size, st.cold_index_size), (0, 0, 0));
    assert_eq!(s.keys().unwrap(), Vec::<String>::new());
    let mut steps = Vec::new();
    loop {
        let out = s.step();
        let done = out.iter().any(|op| matches!(op, WriteOp::Sync));
        steps.extend(out);
        if done {
            break;
        }
    }
    assert_eq!(steps.len(), 3);
    assert!(matches!(steps[2], WriteOp::Sync));
    carry_out(&mut disk, steps);
    assert!(disk.is_empty());
}

#[test]
fn vacuum_drops_what_has_expired() {
    let mut s = store();
    let mut disk = Disk::new();
    s.set("h1", entry("h1", vec![1], Some(10), 1), 1).unwrap();
    s.set("h2", entry("h2", vec![1], Some(30), 1), 1).unwrap();
    s.set("h3", entry("h3", vec![1], None, 1), 1).unwrap();
    s.set("c1", entry("c1", vec![0x41; 2048], Some(10), 1), 1).unwrap();
    s.set("c2", entry("c2", vec![0x41; 2048], None, 1), 1).unwrap();
    carry_out(&mut disk, s.sync());
    assert_eq!(s.vacuum(20), Ok(()));
    assert_eq!(
        sorted(s.keys().unwrap()),
        vec!["c2".to_string(), "h2".to_string(), "h3".to_string()]
    );
    assert_eq!(sorted(s.take_dropped()), vec!["c1".to_string(), "h1".to_string()]);
    let ops = s.sync();
    assert!(ops.iter().any(|op| matches!(op, WriteOp::Delete { path } if *path == build_file_path("dir", "c1"))));
    carry_out(&mut disk, ops);
    assert_eq!(disk.len(), 1);
    // nothing has expired: nothing goes
    assert_eq!(s.vacuum(20), Ok(()));
    assert_eq!(s.keys().unwrap().len(), 3);
    assert!(s.take_dropped().is_empty());
}

#[test]
fn stale_mapped_files_are_unmapped_on_overflow() {
    let mut config = StorageConfig::default();
    config.warm_cache_size = 10;
    config.hot_cache_size = 0;
    let mut s = OptimizedStorage::with_config("dir", config).unwrap();
    let mut disk = Disk::new();
    for i in 0..11 {
        let k = format!("k{}", i);
        s.set(&k, entry(&k, vec![0x41; 5000], None, 1000), 1000).unwrap();
    }
    carry_out(&mut disk, s.sync());
    for i in 0..10 {
        fetch(&mut s, &disk, &format!("k{}", i), 1000).unwrap();
    }
    assert_eq!(s.stats().warm_cache_size, 10);
    // the eleventh file is mapped 300 seconds later: nothing is stale yet
    fetch(&mut s, &disk, "k10", 1300).unwrap();
    assert_eq!(s.stats().warm_cache_size, 11);
    // one second more and the ten are stale: one of them goes, a tenth of ten
    fetch(&mut s, &disk, "k10", 1301).unwrap();
    assert_eq!(s.stats().warm_cache_size, 11);
    s.vacuum(1301).unwrap();
    assert_eq!(s.stats().warm_cache_size, 10);
    assert_eq!(s.stats().cold_index_size, 11);
    // the tier is within its capacity: nothing more goes
    s.vacuum(1301).unwrap();
    assert_eq!(s.stats().warm_cache_size, 10);
}

#[test]
fn the_index_survives_through_its_records() {
    let mut s = store();
    let mut disk = Disk::new();
    s.set("a", entry("a", vec![1], None, 1), 1).unwrap();
    s.set("k", entry("k", vec![0x41; 2048], Some(500), 1), 1).unwrap();
    s.set("j", entry("j", vec![0x42; 5000], None, 1), 1).unwrap();
    carry_out(&mut disk, s.sync());
    let mut records = s.index_snapshot();
    assert_eq!(records.len(), 2);
    // the file of j has gone missing since
    for r in records.iter_mut() {
        if r.key == "j" {
            r.file_exists = false;
        }
    }
    let mut fresh = store();
    fresh.load_index(records);
    assert_eq!(fresh.keys().unwrap(), vec!["k".to_string()]);
    assert_eq!(fresh.deadline("k"), Some(500));
    assert_eq!(fetch(&mut fresh, &disk, "k", 2).unwrap().data, vec![0x41; 2048]);
    // what only the hot tier had is gone
    assert!(fetch(&mut fresh, &disk, "a", 2).is_none());
}

#[test]
fn a_later_record_replaces_an_earlier_one() {
    let mut s = store();
    let rec = |path: &str, size: u64, exists: bool| IndexRecord {
        key: "k".to_string(),
        info: FileInfo {
            path: path.to_string(),
            size,
            created_at: 1,
            compressed: false,
            expire_time: None,
        },
        file_exists: exists,
    };
    s.load_index(vec![rec("p1", 1, true), rec("p2", 2, true), rec("p3", 3, false)]);
    let index = s.index_snapshot();
    assert_eq!(index.len(), 1);
    assert_eq!(index[0].info.path, "p2");
    assert_eq!(s.size(), Ok(2));
    assert_eq!(s.read_request("k", 1), Some("p2".to_string()));
}

#[test]
fn without_a_running_batcher_no_file_is_taken() {
    let mut s = store();
    s.set("k", entry("k", vec![0x41; 2048], None, 1), 1).unwrap();
    s.shutdown();
    assert_eq!(s.set("j", entry("j", vec![0x41; 2048], None, 1), 1), Err(CacheError::Io));
    assert_eq!(s.keys().unwrap(), vec!["k".to_string()]);
    // an entry for the hot tier needs no file
    assert_eq!(s.set("a", entry("a", vec![1], None, 1), 1), Ok(()));
    // the queue is still worked off
    let first = s.step();
    assert!(first.is_empty());
    let last = s.step();
    assert_eq!(last.len(), 1);
    assert!(matches!(last[0], WriteOp::Write { .. }));
}

#[test]
fn writes_are_collected_into_batches() {
    let mut config = StorageConfig::default();
    config.batch_size = 2;
    let mut s = OptimizedStorage::with_config("dir", config).unwrap();
    s.set("a", entry("a", vec![0x41; 2048], None, 1), 1).unwrap();
    s.set("b", entry("b", vec![0x41; 2048], None, 1), 1).unwrap();
    s.set("c", entry("c", vec![0x41; 2048], None, 1), 1).unwrap();
    assert!(s.step().is_empty());
    let batch = s.step();
    assert_eq!(batch.len(), 2);
    assert!(matches!(&batch[0], WriteOp::Write { path, .. } if *path == build_file_path("dir", "a")));
    assert!(matches!(&batch[1], WriteOp::Write { path, .. } if *path == build_file_path("dir", "b")));
    assert!(s.step().is_empty());
    let rest = s.flush_idle();
    assert_eq!(rest.len(), 1);
    assert!(matches!(&rest[0], WriteOp::Write { path, .. } if *path == build_file_path("dir", "c")));
}

#[test]
fn written_through_files_are_followed_by_a_barrier() {
    let mut config = StorageConfig::default();
    config.sync_writes = true;
    let mut s = OptimizedStorage::with_config("dir", config).unwrap();
    s.set("a", entry("a", vec![0x41; 2048], None, 1), 1).unwrap();
    assert!(s.step().is_empty());
    let out = s.step();
    assert_eq!(out.len(), 2);
    assert!(matches!(out[0], WriteOp::Write { .. }));
    assert!(matches!(out[1], WriteOp::Sync));
    // so is a payload of more than a MiB
    let mut plain = store();
    plain.set("big", entry("big", vec![0x41; 1024 * 1024 + 1], None, 1), 1).unwrap();
    plain.step();
    let out = plain.step();
    assert_eq!(out.len(), 2);
    assert!(matches!(out[1], WriteOp::Sync));
    let mut batched = store();
    batched.set("big", entry("big", vec![0x41; 1024 * 1024], None, 1), 1).unwrap();
    assert!(batched.step().is_empty());
    assert!(batched.step().is_empty());
}

#[test]
fn files_are_written_in_the_chosen_mode() {
    let mut config = StorageConfig::default();
    config.use_file_locking = true;
    let mut s = OptimizedStorage::with_config("dir", config).unwrap();
    s.set("a", entry("a", vec![0x41; 2048], None, 1), 1).unwrap();
    let ops = s.sync();
    assert!(matches!(ops[0], WriteOp::Write { mode: WriteMode::Locked, .. }));
    let mut t = store();
    t.set_write_mode(WriteMode::Atomic);
    t.set("a", entry("a", vec![0x41; 2048], None, 1), 1).unwrap();
    let ops = t.sync();
    assert!(matches!(ops[0], WriteOp::Write { mode: WriteMode::Atomic, .. }));
}

#[test]
fn file_info_copies_and_deadlines() {
    let info = FileInfo {
        path: "p".to_string(),
        size: 3,
        created_at: 4,
        compressed: true,
        expire_time: Some(10),
    };
    let copy = info.duplicate();
    assert_eq!(copy.path, "p");
    assert_eq!(copy.size, 3);
    assert_eq!(copy.created_at, 4);
    assert!(copy.compressed);
    assert_eq!(copy.expire_time, Some(10));
    assert!(!info.is_expired_at(10));
    assert!(info.is_expired_at(11));
}

#[test]
fn a_batch_is_stored_in_order() {
    let mut s = store();
    let mut disk = Disk::new();
    let batch = vec![
        entry("a", vec![1], None, 1),
        entry("k", vec![0x41; 2048], None, 1),
        entry("a", vec![2], None, 1),
    ];
    assert_eq!(s.set_batch(batch, 5), Ok(()));
    carry_out(&mut disk, s.sync());
    assert_eq!(sorted(s.keys().unwrap()), vec!["a".to_string(), "k".to_string()]);
    assert_eq!(fetch(&mut s, &disk, "a", 6).unwrap().data, vec![2]);
    assert_eq!(fetch(&mut s, &disk, "k", 6).unwrap().data, vec![0x41; 2048]);
    assert_eq!(s.stats().writes, 3);
    assert_eq!(s.set_batch(Vec::new(), 7), Ok(()));
}

#[test]
fn a_batch_stops_at_the_first_entry_that_is_refused() {
    let mut s = store();
    s.shutdown();
    let batch = vec![
        entry("a", vec![1], None, 1),
        entry("k", vec![0x41; 2048], None, 1),
        entry("b", vec![2], None, 1),
    ];
    assert_eq!(s.set_batch(batch, 5), Err(CacheError::Io));
    assert_eq!(s.keys().unwrap(), vec!["a".to_string()]);
}

#[test]
fn the_queue_can_be_asked() {
    let mut s = store();
    assert_eq!(s.pending_len(), 0);
    assert!(!s.barrier_waits());
    s.set("k", entry("k", vec![0x41; 2048], None, 1), 1).unwrap();
    assert_eq!(s.pending_len(), 1);
    assert!(!s.barrier_waits());
    s.clear().unwrap();
    assert_eq!(s.pending_len(), 3);
    assert!(s.barrier_waits());
    s.sync();
    assert_eq!(s.pending_len(), 0);
    assert!(!s.barrier_waits());
}

#[test]
fn placement_by_the_thresholds() {
    let tiers_after = |len: usize| {
        let mut s = store();
        let mut disk = Disk::new();
        s.set("k", entry("k", vec![0x41; len], None, 1), 1).unwrap();
        let placed = s.stats();
        carry_out(&mut disk, s.sync());
        assert_eq!(fetch(&mut s, &disk, "k", 2).unwrap().data.len(), len);
        let read = s.stats();
        (
            (placed.hot_cache_size, placed.cold_index_size),
            (read.hot_cache_size, read.warm_cache_size, read.cold_index_size),
        )
    };
    // below the disk-write threshold: memory only
    assert_eq!(tiers_after(0), ((1, 0), (1, 0, 0)));
    assert_eq!(tiers_after(1023), ((1, 0), (1, 0, 0)));
    // from the threshold on: a file, copied into the hot tier when read
    assert_eq!(tiers_after(1024), ((0, 1), (1, 0, 1)));
    assert_eq!(tiers_after(4095), ((0, 1), (1, 0, 1)));
    // from four KiB on: mapped when read
    assert_eq!(tiers_after(4096), ((0, 1), (0, 1, 1)));
    assert_eq!(tiers_after(65535), ((0, 1), (0, 1, 1)));
    // from the map threshold on: read from the file each time
    assert_eq!(tiers_after(65536), ((0, 1), (0, 0, 1)));
}

#[test]
fn a_queued_file_is_found_once_it_is_written() {
    let mut s = store();
    let mut disk = Disk::new();
    let value = vec![0x41u8; 2048];
    s.set("k", entry("k", value.clone(), None, 100), 100).unwrap();
    assert_eq!(s.stats().cold_index_size, 1);
    assert_eq!(s.read_request("k", 101), Some(build_file_path("dir", "k")));
    carry_out(&mut disk, s.sync());
    let got = fetch(&mut s, &disk, "k", 101).unwrap();
    assert_eq!(got.data, value);
    assert_eq!(got.key, "k");
    // the key stays in the index
    assert_eq!(s.stats().cold_index_size, 1);
    assert_eq!(s.keys().unwrap(), vec!["k".to_string()]);
}

#[test]
fn with_the_hot_tier_off_a_small_value_takes_the_place_of_the_file() {
    let mut config = StorageConfig::default();
    config.hot_cache_size = 0;
    let mut s = OptimizedStorage::with_config("dir", config).unwrap();
    let mut disk = Disk::new();
    s.set("k", entry("k", vec![7; 3000], None, 100), 100).unwrap();
    s.set("k", entry("k", vec![5], None, 101), 101).unwrap();
    assert_eq!(s.stats().hot_cache_size, 0);
    assert_eq!(s.stats().cold_index_size, 1);
    carry_out(&mut disk, s.sync());
    assert_eq!(disk.len(), 1);
    assert_eq!(fetch(&mut s, &disk, "k", 102).unwrap().data, vec![5]);
}

#[test]
fn with_the_hot_tier_on_a_small_value_leaves_no_file() {
    let mut s = store();
    let mut disk = Disk::new();
    s.set("k", entry("k", vec![7; 3000], None, 100), 100).unwrap();
    let old_file = s.sync();
    s.set("k", entry("k", vec![5], None, 101), 101).unwrap();
    assert_eq!(s.stats().cold_index_size, 0);
    assert_eq!(s.read_request("k", 102), None);
    carry_out(&mut disk, old_file);
    carry_out(&mut disk, s.sync());
    assert!(disk.is_empty());
    assert_eq!(fetch(&mut s, &disk, "k", 102).unwrap().data, vec![5]);
}

#[test]
fn a_map_is_made_with_room_for_a_million_entries_at_most() {
    assert_eq!(capacity_hint(0), 0);
    assert_eq!(capacity_hint(1000), 1000);
    assert_eq!(capacity_hint(0x10_0000), 0x10_0000);
    assert_eq!(capacity_hint(0x10_0001), 0x10_0000);
    assert_eq!(capacity_hint(usize::MAX), 0x10_0000);
}

#[test]
fn a_store_with_tiers_without_a_bound_can_be_made_and_used() {
    let mut config = StorageConfig::default();
    config.hot_cache_size = usize::MAX;
    config.warm_cache_size = usize::MAX;
    let mut s = OptimizedStorage::with_config("dir", config).unwrap();
    let disk = Disk::new();
    s.set("a", entry("a", vec![1; 10], None, 100), 100).unwrap();
    assert_eq!(fetch(&mut s, &disk, "a", 101).unwrap().data, vec![1; 10]);
    assert_eq!(s.stats().hot_cache_size, 1);
}

#[test]
fn what_is_stored_once_the_frame_is_made() {
    let config = StorageConfig::default();
    let frame = vec![9u8; 100];
    assert_eq!(choose_stored(&config, vec![0; 2048], frame.clone()), (frame.clone(), true));
    assert_eq!(choose_stored(&config, vec![0; 1024], frame.clone()), (frame.clone(), true));
    // below the threshold
    assert_eq!(choose_stored(&config, vec![0; 1023], frame.clone()), (vec![0; 1023], false));
    // a frame that does not pay
    assert_eq!(choose_stored(&config, vec![0; 1024], vec![9; 922]), (vec![0; 1024], false));
    assert_eq!(choose_stored(&config, vec![0; 1025], vec![9; 922]), (vec![9; 922], true));
    // compression switched off
    let mut off = StorageConfig::default();
    off.use_compression = false;
    assert_eq!(choose_stored(&off, vec![0; 2048], frame.clone()), (vec![0; 2048], false));
    // a frame that pays and could not be read back
    let data = vec![0u8; 0x140_0000];
    let (stored, compressed) = choose_stored(&config, data, frame_with_run(0x0101_0101));
    assert!(!compressed);
    assert_eq!(stored.len(), 0x140_0000);
    // one byte less in the run, and the frame is kept
    let data = vec![0u8; 0x140_0000];
    let (stored, compressed) = choose_stored(&config, data, frame_with_run(0x0101_0100));
    assert!(compressed);
    assert_eq!(stored.len(), 6 + 0x0101_0100);
}
