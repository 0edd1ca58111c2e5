use std::collections::HashMap;

use diskcache_rs::batcher::WriteOp;
use diskcache_rs::cache::{eviction_target, Cache, CacheConfig};
use diskcache_rs::error::CacheError;
use diskcache_rs::eviction::EvictionStrategy;
use diskcache_rs::layout::{build_file_path, WriteMode};
use diskcache_rs::serialization::{CompressionType, SerializationFormat, Serializer};

type Disk = HashMap<String, Vec<u8>>;

fn carry_out(disk: &mut Disk, ops: Vec<WriteOp>) {
    for op in ops {
        match op {
            WriteOp::Write { path, data, .. } => {
                disk.insert(path, data);
            }
            WriteOp::Delete { path } => {
                disk.remove(&path);
            }
            WriteOp::Sync => {}
        }
    }
}

fn settle(cache: &mut Cache, disk: &mut Disk) {
    let ops = cache.take_disk_work();
    carry_out(disk, ops);
}

fn lookup(cache: &mut Cache, disk: &Disk, key: &str, now: u64) -> Option<Vec<u8>> {
    let contents = match cache.read_request(key, now) {
        Some(path) => disk.get(&path).cloned(),
        None => None,
    };
    cache.get_at(key, contents, now).unwrap()
}

fn config(dir: &str) -> CacheConfig {
    let mut c = CacheConfig::default();
    c.directory = dir.to_string();
    c.auto_vacuum = false;
    c
}

fn open(c: CacheConfig) -> Cache {
    Cache::open(c, false, Vec::new(), 1000).unwrap()
}

fn sorted(mut v: Vec<String>) -> Vec<String> {
    v.sort();
    v
}

fn strs(v: &[&str]) -> Vec<String> {
    v.iter().map(|s| s.to_string()).collect()
}

#[test]
fn default_cache_settings() {
    let c = CacheConfig::default();
    assert_eq!(c.directory, "./cache");
    assert_eq!(c.max_size, Some(1024 * 1024 * 1024));
    assert_eq!(c.max_entries, Some(100_000));
    assert_eq!(c.eviction_strategy, EvictionStrategy::LruTtl);
    assert_eq!(c.serialization_format, SerializationFormat::Bincode);
    assert_eq!(c.compression, CompressionType::Lz4);
    assert!(c.use_atomic_writes);
    assert!(c.use_file_locking);
    assert!(c.auto_vacuum);
    assert_eq!(c.vacuum_interval, 3600);
    assert_eq!(c.memory_cache_size, 64 * 1024 * 1024);
    assert_eq!(c.memory_cache_entries, 10_000);
    assert!(c.auto_migrate);
}

#[test]
fn store_settings_follow_the_cache_settings() {
    let mut c = CacheConfig::default();
    let s = c.storage_config();
    assert_eq!(s.hot_cache_size, 10_000);
    assert!(s.use_compression);
    assert!(s.use_file_locking);
    assert_eq!(s.disk_write_threshold, 1024);
    c.memory_cache_size = 0;
    c.compression = CompressionType::Uncompressed;
    c.use_file_locking = false;
    let s = c.storage_config();
    assert_eq!(s.hot_cache_size, 0);
    assert!(!s.use_compression);
    assert!(!s.use_file_locking);
    c.memory_cache_size = 1;
    c.memory_cache_entries = 0;
    assert_eq!(c.storage_config().hot_cache_size, 0);
    c.compression = CompressionType::Zstd;
    assert!(!c.storage_config().use_compression);
    c.compression = CompressionType::Lz4;
    assert!(c.storage_config().use_compression);
}

#[test]
fn the_serializer_follows_the_settings() {
    let mut c = config("dir");
    c.serialization_format = SerializationFormat::Json;
    c.compression = CompressionType::Lz4;
    let cache = open(c);
    assert!(matches!(cache.serializer(), Serializer::Json(_)));
    let stored = cache.serializer().serialize(b"[1,2,3,1,2,3,1,2,3,1,2,3,1,2,3,1,2,3]").unwrap();
    assert_eq!(&stored[..4], &[37, 0, 0, 0]);
    assert_eq!(
        cache.serializer().deserialize(&stored).unwrap(),
        b"[1,2,3,1,2,3,1,2,3,1,2,3,1,2,3,1,2,3]".to_vec()
    );
    let plain = open(config("dir"));
    assert!(matches!(plain.serializer(), Serializer::Bincode(_)));
}

#[test]
fn invalid_settings_are_refused() {
    let mut c = config("");
    assert_eq!(Cache::open(c, false, Vec::new(), 1).err(), Some(CacheError::InvalidConfig));
    c = config("dir");
    c.max_size = Some(0);
    assert_eq!(Cache::new(c).err(), Some(CacheError::InvalidConfig));
    c = config("dir");
    c.max_entries = Some(0);
    assert_eq!(Cache::new(c).err(), Some(CacheError::InvalidConfig));
    assert_eq!(Cache::with_directory(String::new()).err(), Some(CacheError::InvalidConfig));
    assert!(Cache::with_directory("dir".to_string()).is_ok());
}

#[test]
fn invalid_keys_are_refused_everywhere() {
    let mut cache = open(config("dir"));
    assert_eq!(cache.get_at("", None, 1), Err(CacheError::InvalidKey));
    assert_eq!(cache.get("a/b", None), Err(CacheError::InvalidKey));
    assert_eq!(cache.set_at("a/b", &[1], None, vec![], 1), Err(CacheError::InvalidKey));
    assert_eq!(cache.set("", &[1], None, vec![]), Err(CacheError::InvalidKey));
    assert_eq!(cache.delete("a\0"), Err(CacheError::InvalidKey));
    assert_eq!(cache.contains_at("a\\b", 1), Err(CacheError::InvalidKey));
    assert_eq!(cache.contains(""), Err(CacheError::InvalidKey));
    // nothing was counted
    let st = cache.stats();
    assert_eq!((st.hits, st.misses, st.sets, st.deletes), (0, 0, 0, 0));
}

#[test]
fn set_then_get_hits() {
    let mut cache = open(config("dir"));
    let disk = Disk::new();
    cache.set_at("a", &[0x01], None, vec![], 1000).unwrap();
    assert_eq!(lookup(&mut cache, &disk, "a", 1001), Some(vec![0x01]));
    let st = cache.stats();
    assert_eq!(st.hits, 1);
    assert_eq!(st.misses, 0);
    assert_eq!(st.sets, 1);
    assert_eq!(st.entry_count, 1);
    assert_eq!(st.total_size, 1);
}

#[test]
fn get_of_a_missing_key_misses() {
    let mut cache = open(config("dir"));
    let disk = Disk::new();
    assert_eq!(lookup(&mut cache, &disk, "missing", 1000), None);
    let st = cache.stats();
    assert_eq!(st.misses, 1);
    assert_eq!(st.hits, 0);
    assert_eq!(st.entry_count, 0);
}

#[test]
fn two_kib_go_to_a_file_under_data() {
    let mut cache = open(config("dir"));
    let mut disk = Disk::new();
    let value = vec![0x41u8; 2048];
    cache.set_at("k", &value, None, vec![], 1000).unwrap();
    settle(&mut cache, &mut disk);
    assert_eq!(disk.len(), 1);
    let path = build_file_path("dir", "k");
    assert!(path.starts_with("dir/data/"));
    assert!(disk.contains_key(&path));
    assert_eq!(lookup(&mut cache, &disk, "k", 1001), Some(value.clone()));
    assert_eq!(lookup(&mut cache, &disk, "k", 1002), Some(value.clone()));
    let m = cache.memory_stats();
    assert_eq!(m.cold_index_size, 1);
    assert_eq!(m.cold_hits, 1);
    // under four KiB the entry was copied into the hot tier
    assert_eq!(m.hot_cache_size, 1);
    assert_eq!(m.hot_hits, 1);
    assert_eq!(cache.stats().hits, 2);
}

#[test]
fn two_kib_are_mapped_where_the_hot_tier_is_off() {
    let mut c = config("dir");
    c.memory_cache_entries = 0;
    let mut cache = open(c);
    let mut disk = Disk::new();
    let value = vec![0x41u8; 2048];
    cache.set_at("k", &value, None, vec![], 1000).unwrap();
    settle(&mut cache, &mut disk);
    assert_eq!(lookup(&mut cache, &disk, "k", 1001), Some(value.clone()));
    settle(&mut cache, &mut disk);
    assert_eq!(lookup(&mut cache, &disk, "k", 1002), Some(value.clone()));
    let m = cache.memory_stats();
    assert_eq!(m.warm_cache_size, 1);
    assert_eq!(m.hot_cache_size, 0);
    assert_eq!(m.cold_hits, 1);
    assert_eq!(m.warm_hits, 1);
}

#[test]
fn an_expired_entry_is_not_handed_out() {
    let mut cache = open(config("dir"));
    let disk = Disk::new();
    cache.set_at("t", &[0x02], Some(999), vec![], 1000).unwrap();
    assert_eq!(cache.stats().entry_count, 1);
    assert_eq!(cache.contains_at("t", 1000), Ok(false));
    assert_eq!(lookup(&mut cache, &disk, "t", 1000), None);
    assert_eq!(cache.keys().unwrap(), Vec::<String>::new());
    assert_eq!(cache.memory_stats().cold_index_size, 0);
    assert_eq!(cache.stats().entry_count, 0);
    assert_eq!(cache.stats().misses, 1);
}

#[test]
fn an_expired_entry_on_disk_is_not_handed_out() {
    let mut cache = open(config("dir"));
    let mut disk = Disk::new();
    cache.set_at("t", &vec![0x02; 2000], Some(1500), vec![], 1000).unwrap();
    settle(&mut cache, &mut disk);
    assert_eq!(lookup(&mut cache, &disk, "t", 1500), Some(vec![0x02; 2000]));
    settle(&mut cache, &mut disk);
    assert_eq!(lookup(&mut cache, &disk, "t", 1501), None);
    assert_eq!(cache.memory_stats().cold_index_size, 0);
    settle(&mut cache, &mut disk);
    assert!(disk.is_empty());
}

#[test]
fn an_expired_entry_is_gone_after_a_vacuum() {
    let mut cache = open(config("dir"));
    let mut disk = Disk::new();
    cache.set_at("old", &[1], Some(1100), vec![], 1000).unwrap();
    cache.set_at("old-file", &vec![1; 3000], Some(1100), vec![], 1000).unwrap();
    cache.set_at("keep", &[2], Some(5000), vec![], 1000).unwrap();
    cache.set_at("forever", &[3], None, vec![], 1000).unwrap();
    settle(&mut cache, &mut disk);
    assert_eq!(cache.vacuum_at(1101), Ok(()));
    assert_eq!(sorted(cache.keys().unwrap()), strs(&["forever", "keep"]));
    assert_eq!(cache.stats().entry_count, 2);
    settle(&mut cache, &mut disk);
    assert!(disk.is_empty());
    assert_eq!(lookup(&mut cache, &disk, "keep", 1102), Some(vec![2]));
}

#[test]
fn the_entry_limit_is_enforced_at_the_next_store() {
    let mut c = config("dir");
    c.max_entries = Some(3);
    c.eviction_strategy = EvictionStrategy::Lru;
    let mut cache = open(c);
    let disk = Disk::new();
    for (i, k) in ["a", "b", "c", "d"].iter().enumerate() {
        cache.set_at(k, &[i as u8], None, vec![], 1000 + i as u64).unwrap();
    }
    // three entries did not exceed the limit when d came
    assert_eq!(cache.stats().entry_count, 4);
    assert_eq!(cache.stats().evictions, 0);
    cache.set_at("e", &[9], None, vec![], 1010).unwrap();
    // four did: the least recently used one went before e was stored
    assert_eq!(cache.stats().evictions, 1);
    assert_eq!(sorted(cache.keys().unwrap()), strs(&["b", "c", "d", "e"]));
    assert_eq!(cache.stats().entry_count, 4);
    assert_eq!(lookup(&mut cache, &disk, "a", 1011), None);
    assert_eq!(lookup(&mut cache, &disk, "d", 1011), Some(vec![3]));
}

#[test]
fn making_room_brings_the_cache_under_its_limit() {
    let mut c = config("dir");
    c.max_entries = Some(20);
    c.eviction_strategy = EvictionStrategy::Lru;
    let mut cache = open(c);
    c = config("dir");
    c.max_entries = None;
    let mut unlimited = open(c);
    for i in 0..30u64 {
        let k = format!("k{:02}", i);
        unlimited.set_at(&k, &[1], None, vec![], 1000 + i).unwrap();
    }
    assert_eq!(unlimited.stats().entry_count, 30);
    // with the limit, every store makes room first
    for i in 0..30u64 {
        let k = format!("k{:02}", i);
        cache.set_at(&k, &[1], None, vec![], 1000 + i).unwrap();
        assert!(cache.stats().entry_count <= 21);
    }
    cache.maybe_evict_at(2000).unwrap();
    assert!(cache.stats().entry_count <= 20);
    assert_eq!(cache.keys().unwrap().len() as u64, cache.stats().entry_count);
}

#[test]
fn eviction_targets() {
    assert_eq!(eviction_target(0, 0, None, None), 0);
    assert_eq!(eviction_target(100, 10, Some(100), Some(10)), 0);
    // over the entry limit: the entries too many and a tenth of the limit
    assert_eq!(eviction_target(0, 15, None, Some(10)), 6);
    assert_eq!(eviction_target(0, 4, None, Some(3)), 1);
    assert_eq!(eviction_target(0, 100, None, Some(99)), 10);
    // over the size limit: a tenth of the entries, one at least
    assert_eq!(eviction_target(2000, 25, Some(1000), None), 2);
    assert_eq!(eviction_target(2000, 5, Some(1000), None), 1);
    assert_eq!(eviction_target(2000, 0, Some(1000), None), 1);
    // the larger of the two
    assert_eq!(eviction_target(2000, 100, Some(1000), Some(95)), 14);
    assert_eq!(eviction_target(2000, 100, Some(1000), Some(99)), 10);
    assert_eq!(eviction_target(u64::MAX, u64::MAX, Some(1), Some(1)), u64::MAX - 1);
}

#[test]
fn the_size_limit_evicts_too() {
    let mut c = config("dir");
    c.max_size = Some(100);
    c.max_entries = None;
    c.eviction_strategy = EvictionStrategy::Lfu;
    let mut cache = open(c);
    let disk = Disk::new();
    // eighty bytes each once encoded
    cache.set_at("a", &[1; 10], None, vec![], 1000).unwrap();
    cache.set_at("b", &[2; 10], None, vec![], 1001).unwrap();
    assert_eq!(cache.size(), Ok(160));
    assert_eq!(lookup(&mut cache, &disk, "a", 1002), Some(vec![1; 10]));
    // 160 bytes exceed the limit: one entry goes, the less used one
    cache.set_at("c", &[3; 10], None, vec![], 1003).unwrap();
    assert_eq!(cache.stats().evictions, 1);
    assert_eq!(sorted(cache.keys().unwrap()), strs(&["a", "c"]));
}

#[test]
fn room_is_made_until_the_entries_fit() {
    let mut c = config("dir");
    c.max_size = None;
    c.max_entries = None;
    c.eviction_strategy = EvictionStrategy::Lru;
    let mut cache = open(c);
    for (i, k) in ["a", "b", "c", "d", "e"].iter().enumerate() {
        cache.set_at(k, &[i as u8; 10], None, vec![], 1000 + i as u64).unwrap();
    }
    assert_eq!(cache.size(), Ok(400));
    let records = cache.index_snapshot();
    assert!(records.is_empty());
    // the same entries under a limit of a hundred bytes
    let mut c = config("dir");
    c.max_size = Some(100);
    c.max_entries = None;
    c.eviction_strategy = EvictionStrategy::Lru;
    let mut tight = open(c);
    tight.set_at("a", &[0; 10], None, vec![], 1000).unwrap();
    tight.set_at("b", &[1; 10], None, vec![], 1001).unwrap();
    // eighty bytes fitted when b came; now a hundred and sixty do not
    assert_eq!(tight.size(), Ok(160));
    tight.maybe_evict_at(1002).unwrap();
    assert_eq!(tight.size(), Ok(80));
    assert_eq!(tight.keys().unwrap(), strs(&["b"]));
    assert_eq!(tight.stats().evictions, 1);
    // a tenth of five entries is one victim, but three more have to go
    let mut c = config("dir");
    c.max_size = Some(100);
    c.max_entries = None;
    c.eviction_strategy = EvictionStrategy::Ttl;
    let mut by_deadline = open(c);
    by_deadline.set_at("x", &[0; 10], Some(1), vec![], 1000).unwrap();
    by_deadline.set_at("y", &[0; 10], None, vec![], 1000).unwrap();
    by_deadline.set_at("z", &[0; 10], None, vec![], 1000).unwrap();
    // only deadlines name victims here: x goes, y stays though the limit is exceeded
    assert_eq!(sorted(by_deadline.keys().unwrap()), strs(&["y", "z"]));
    by_deadline.maybe_evict_at(2000).unwrap();
    assert_eq!(by_deadline.size(), Ok(160));
}

#[test]
fn many_victims_where_the_size_asks_for_them() {
    let mut c = config("dir");
    c.max_size = Some(1000);
    c.max_entries = None;
    c.eviction_strategy = EvictionStrategy::Lru;
    let mut cache = open(c);
    for i in 0..12u64 {
        // eighty-one bytes each: the key has two characters
        cache.set_at(&format!("k{}", i % 10), &[1; 10], None, vec![], 1000 + i).unwrap();
    }
    assert_eq!(cache.stats().entry_count, 10);
    assert_eq!(cache.size(), Ok(810));
    assert_eq!(cache.stats().evictions, 0);
    // one large value in memory brings the size over the limit
    cache.set_at("large", &[7; 900], None, vec![], 2000).unwrap();
    assert_eq!(cache.size(), Ok(810 + 974));
    cache.set_at("next", &[1], None, vec![], 2001).unwrap();
    // ten small ones went before the limit was met
    assert_eq!(sorted(cache.keys().unwrap()), strs(&["large", "next"]));
    assert_eq!(cache.stats().evictions, 10);
}

#[test]
fn expired_entries_are_evicted_first() {
    let mut c = config("dir");
    c.max_entries = Some(2);
    c.eviction_strategy = EvictionStrategy::LruTtl;
    let mut cache = open(c);
    cache.set_at("a", &[1], None, vec![], 1000).unwrap();
    cache.set_at("b", &[2], None, vec![], 1001).unwrap();
    cache.set_at("c", &[3], Some(1005), vec![], 1002).unwrap();
    // three entries, limit two: one has to go, and c has expired
    cache.set_at("d", &[4], None, vec![], 1010).unwrap();
    assert_eq!(sorted(cache.keys().unwrap()), strs(&["a", "b", "d"]));
    assert_eq!(cache.stats().evictions, 1);
}

#[test]
fn a_vacuum_runs_when_it_is_due() {
    let mut c = config("dir");
    c.auto_vacuum = true;
    c.vacuum_interval = 100;
    let mut cache = open(c);
    cache.set_at("short", &[1], Some(1050), vec![], 1000).unwrap();
    // not due yet: the expired entry stays
    cache.set_at("x", &[1], None, vec![], 1100).unwrap();
    assert_eq!(cache.stats().entry_count, 2);
    cache.set_at("y", &[1], None, vec![], 1101).unwrap();
    assert_eq!(sorted(cache.keys().unwrap()), strs(&["x", "y"]));
    // the vacuum was noted: the next one is due a hundred seconds later
    cache.set_at("gone", &[1], Some(1150), vec![], 1102).unwrap();
    cache.set_at("z", &[1], None, vec![], 1201).unwrap();
    assert_eq!(cache.stats().entry_count, 4);
    cache.set_at("w", &[1], None, vec![], 1202).unwrap();
    assert_eq!(sorted(cache.keys().unwrap()), strs(&["w", "x", "y", "z"]));
}

#[test]
fn delete_then_get_finds_nothing() {
    let mut cache = open(config("dir"));
    let mut disk = Disk::new();
    cache.set_at("a", &[1], None, vec![], 1000).unwrap();
    cache.set_at("k", &vec![7; 5000], None, vec![], 1000).unwrap();
    settle(&mut cache, &mut disk);
    assert_eq!(cache.delete("a"), Ok(true));
    assert_eq!(cache.delete("k"), Ok(true));
    assert_eq!(cache.delete("k"), Ok(false));
    assert_eq!(cache.delete("never"), Ok(false));
    assert_eq!(lookup(&mut cache, &disk, "a", 1001), None);
    // even with the old file still at hand
    let stale = disk.get(&build_file_path("dir", "k")).cloned();
    assert!(stale.is_some());
    assert_eq!(cache.get_at("k", stale, 1001), Ok(None));
    let st = cache.stats();
    assert_eq!(st.deletes, 2);
    assert_eq!(st.entry_count, 0);
    settle(&mut cache, &mut disk);
    assert!(disk.is_empty());
}

#[test]
fn storing_again_replaces_the_value() {
    let mut cache = open(config("dir"));
    let mut disk = Disk::new();
    cache.set_at("k", &[1], None, vec![], 1000).unwrap();
    cache.set_at("k", &[2], None, vec![], 1001).unwrap();
    assert_eq!(lookup(&mut cache, &disk, "k", 1002), Some(vec![2]));
    cache.set_at("k", &vec![3; 4000], None, vec![], 1003).unwrap();
    settle(&mut cache, &mut disk);
    assert_eq!(lookup(&mut cache, &disk, "k", 1004), Some(vec![3; 4000]));
    settle(&mut cache, &mut disk);
    cache.set_at("k", &vec![4; 9000], None, vec![], 1005).unwrap();
    settle(&mut cache, &mut disk);
    assert_eq!(lookup(&mut cache, &disk, "k", 1006), Some(vec![4; 9000]));
    cache.set_at("k", &[5], None, vec![], 1007).unwrap();
    assert_eq!(lookup(&mut cache, &disk, "k", 1008), Some(vec![5]));
    settle(&mut cache, &mut disk);
    assert!(disk.is_empty());
    assert_eq!(cache.keys().unwrap(), strs(&["k"]));
    assert_eq!(cache.stats().entry_count, 1);
    assert_eq!(cache.stats().sets, 5);
    let m = cache.memory_stats();
    assert_eq!((m.hot_cache_size, m.warm_cache_size, m.cold_index_size), (1, 0, 0));
}

#[test]
fn round_trip_of_many_values() {
    let mut cache = open(config("dir"));
    let mut disk = Disk::new();
    let mut x: u32 = 7;
    let mut values = Vec::new();
    for i in 0..40usize {
        let len = [0usize, 1, 100, 1023, 1024, 1500, 4095, 4096, 10_000, 70_000][i % 10];
        let mut v = Vec::with_capacity(len);
        for j in 0..len {
            x = x.wrapping_mul(1664525).wrapping_add(1013904223);
            // half of the values compress, half do not
            v.push(if i % 2 == 0 { (j % 7) as u8 } else { (x >> 24) as u8 });
        }
        let key = format!("key-{}", i);
        cache.set_at(&key, &v, None, vec![format!("t{}", i)], 1000).unwrap();
        values.push((key, v));
    }
    settle(&mut cache, &mut disk);
    for round in 0..3 {
        for (key, v) in values.iter() {
            assert_eq!(lookup(&mut cache, &disk, key, 1001 + round).as_ref(), Some(v));
            settle(&mut cache, &mut disk);
        }
    }
    assert_eq!(cache.stats().hits, 120);
    assert_eq!(cache.stats().misses, 0);
    assert_eq!(cache.stats().entry_count, 40);
    assert_eq!(cache.keys().unwrap().len(), 40);
}

#[test]
fn lookups_are_counted_once_each() {
    let mut cache = open(config("dir"));
    let disk = Disk::new();
    cache.set_at("a", &[1], None, vec![], 1000).unwrap();
    let mut calls = 0;
    for i in 0..10 {
        let key = if i % 3 == 0 { "a" } else { "b" };
        lookup(&mut cache, &disk, key, 1001);
        calls += 1;
    }
    let st = cache.stats();
    assert_eq!(st.hits + st.misses, calls);
    assert_eq!(st.hits, 4);
    assert_eq!(st.misses, 6);
    assert_eq!(st.hit_permille(), 400);
    assert_eq!(st.entry_count as usize, cache.keys().unwrap().len());
}

#[test]
fn contains_does_not_count_or_change() {
    let mut cache = open(config("dir"));
    cache.set_at("a", &[1], Some(2000), vec![], 1000).unwrap();
    assert_eq!(cache.contains_at("a", 1500), Ok(true));
    assert_eq!(cache.contains_at("a", 2000), Ok(true));
    assert_eq!(cache.contains_at("a", 2001), Ok(false));
    assert_eq!(cache.contains_at("b", 1500), Ok(false));
    assert_eq!(cache.contains("b"), Ok(false));
    let st = cache.stats();
    assert_eq!((st.hits, st.misses), (0, 0));
    assert_eq!(cache.keys().unwrap(), strs(&["a"]));
}

#[test]
fn clear_starts_again() {
    let mut cache = open(config("dir"));
    let mut disk = Disk::new();
    cache.set_at("a", &[1], None, vec![], 1000).unwrap();
    cache.set_at("k", &vec![1; 3000], None, vec![], 1000).unwrap();
    settle(&mut cache, &mut disk);
    lookup(&mut cache, &disk, "a", 1001);
    assert_eq!(cache.clear(), Ok(()));
    assert_eq!(cache.keys().unwrap(), Vec::<String>::new());
    assert_eq!(cache.size(), Ok(0));
    let st = cache.stats();
    assert_eq!((st.hits, st.misses, st.sets, st.entry_count, st.total_size), (0, 0, 0, 0, 0));
    settle(&mut cache, &mut disk);
    assert!(disk.is_empty());
    assert_eq!(lookup(&mut cache, &disk, "a", 1002), None);
    cache.set_at("a", &[2], None, vec![], 1003).unwrap();
    assert_eq!(lookup(&mut cache, &disk, "a", 1004), Some(vec![2]));
}

#[test]
fn a_fresh_instance_finds_what_the_index_lists() {
    let mut c = config("dir");
    // without a hot tier every entry has a file
    c.memory_cache_entries = 0;
    let mut cache = open(c);
    let mut disk = Disk::new();
    cache.set_at("x", &[0x03], None, vec![], 1000).unwrap();
    cache.set_at("big", &vec![9; 5000], None, vec![], 1000).unwrap();
    cache.set_at("dated", &[1], Some(1500), vec![], 1000).unwrap();
    cache.vacuum_at(1001).unwrap();
    settle(&mut cache, &mut disk);
    let records = cache.index_snapshot();
    assert_eq!(records.len(), 3);
    cache.shutdown();
    settle(&mut cache, &mut disk);

    let mut c = config("dir");
    c.memory_cache_entries = 0;
    let mut fresh = Cache::open(c, false, records, 2000).unwrap();
    assert_eq!(fresh.stats().entry_count, 3);
    assert_eq!(sorted(fresh.keys().unwrap()), strs(&["big", "dated", "x"]));
    fresh.vacuum_at(2000).unwrap();
    assert_eq!(lookup(&mut fresh, &disk, "x", 2001), Some(vec![0x03]));
    assert_eq!(lookup(&mut fresh, &disk, "big", 2001), Some(vec![9; 5000]));
    // its deadline had passed: the vacuum took it
    assert_eq!(lookup(&mut fresh, &disk, "dated", 2001), None);
    assert_eq!(sorted(fresh.keys().unwrap()), strs(&["big", "x"]));
}

#[test]
fn what_only_memory_held_does_not_survive() {
    let mut cache = open(config("dir"));
    let mut disk = Disk::new();
    cache.set_at("x", &[0x03], None, vec![], 1000).unwrap();
    cache.vacuum_at(1001).unwrap();
    settle(&mut cache, &mut disk);
    assert!(disk.is_empty());
    let records = cache.index_snapshot();
    assert!(records.is_empty());
    let mut fresh = Cache::open(config("dir"), false, records, 2000).unwrap();
    assert_eq!(lookup(&mut fresh, &disk, "x", 2001), None);
}

#[test]
fn recovered_keys_can_be_evicted() {
    let mut c = config("dir");
    c.memory_cache_entries = 0;
    let mut cache = open(c);
    let mut disk = Disk::new();
    for k in ["a", "b", "c"] {
        cache.set_at(k, &[1], None, vec![], 1000).unwrap();
    }
    settle(&mut cache, &mut disk);
    let records = cache.index_snapshot();
    let mut c = config("dir");
    c.memory_cache_entries = 0;
    c.max_entries = Some(2);
    c.eviction_strategy = EvictionStrategy::Lfu;
    let mut fresh = Cache::open(c, false, records, 2000).unwrap();
    assert_eq!(fresh.stats().entry_count, 3);
    fresh.set_at("d", &[1], None, vec![], 2001).unwrap();
    assert_eq!(fresh.stats().evictions, 1);
    assert_eq!(fresh.stats().entry_count, 3);
    assert!(fresh.keys().unwrap().contains(&"d".to_string()));
}

#[test]
fn a_closed_cache_takes_no_files() {
    let mut cache = open(config("dir"));
    let mut disk = Disk::new();
    cache.set_at("k", &vec![1; 2000], None, vec![], 1000).unwrap();
    cache.shutdown();
    assert_eq!(cache.set_at("j", &vec![1; 2000], None, vec![], 1001), Err(CacheError::Io));
    assert_eq!(cache.set_at("small", &[1], None, vec![], 1001), Ok(()));
    assert_eq!(sorted(cache.keys().unwrap()), strs(&["k", "small"]));
    assert_eq!(cache.stats().sets, 2);
    // what was queued is still handed out
    let mut ops = cache.step_disk_work();
    ops.extend(cache.step_disk_work());
    carry_out(&mut disk, ops);
    assert_eq!(disk.len(), 1);
    assert_eq!(lookup(&mut cache, &disk, "k", 1002), Some(vec![1; 2000]));
}

#[test]
fn files_are_written_in_the_mode_of_the_settings() {
    let mode_of = |atomic: bool, locking: bool, network: bool| {
        let mut c = config("dir");
        c.use_atomic_writes = atomic;
        c.use_file_locking = locking;
        let mut cache = Cache::open(c, network, Vec::new(), 1).unwrap();
        cache.set_at("k", &vec![1; 2000], None, vec![], 1).unwrap();
        match &cache.take_disk_work()[0] {
            WriteOp::Write { mode, .. } => *mode,
            _ => panic!("a write comes first"),
        }
    };
    assert_eq!(mode_of(true, false, false), WriteMode::Atomic);
    assert_eq!(mode_of(true, false, true), WriteMode::Direct);
    assert_eq!(mode_of(false, false, false), WriteMode::Direct);
    assert_eq!(mode_of(true, true, true), WriteMode::Locked);
}

#[test]
fn collected_writes_can_be_flushed_when_idle() {
    let mut c = config("dir");
    c.use_file_locking = false;
    let mut cache = open(c);
    cache.set_at("k", &vec![1; 2000], None, vec![], 1).unwrap();
    assert!(cache.step_disk_work().is_empty());
    assert!(cache.step_disk_work().is_empty());
    let ops = cache.flush_disk_work();
    assert_eq!(ops.len(), 1);
    assert!(matches!(ops[0], WriteOp::Write { .. }));
    assert!(cache.flush_disk_work().is_empty());
}

#[test]
fn by_the_clock() {
    let mut cache = Cache::new(config("dir")).unwrap();
    cache.set("a", &[1], None, vec!["tag".to_string()]).unwrap();
    cache.set("past", &[1], Some(1), vec![]).unwrap();
    cache.set("future", &[1], Some(u64::MAX), vec![]).unwrap();
    assert_eq!(cache.get("a", None), Ok(Some(vec![1])));
    assert_eq!(cache.contains("a"), Ok(true));
    assert_eq!(cache.contains("past"), Ok(false));
    assert_eq!(cache.contains("future"), Ok(true));
    assert_eq!(cache.get("past", None), Ok(None));
    assert_eq!(cache.vacuum(), Ok(()));
    assert_eq!(sorted(cache.keys().unwrap()), strs(&["a", "future"]));
}

#[test]
fn what_is_written_through_is_announced() {
    let mut c = config("dir");
    c.use_file_locking = true;
    let mut cache = open(c);
    assert_eq!(cache.pending_disk_work(), 0);
    assert!(!cache.writes_through_now());
    cache.set_at("k", &vec![1; 2000], None, vec![], 1).unwrap();
    // under file locking every file is written at once
    assert_eq!(cache.pending_disk_work(), 2);
    assert!(cache.writes_through_now());
    cache.take_disk_work();
    assert_eq!(cache.pending_disk_work(), 0);
    let mut c = config("dir");
    c.use_file_locking = false;
    let mut batched = open(c);
    batched.set_at("k", &vec![1; 2000], None, vec![], 1).unwrap();
    assert_eq!(batched.pending_disk_work(), 1);
    assert!(!batched.writes_through_now());
}

#[test]
fn the_store_counts_writes_and_bytes() {
    let mut cache = open(config("dir"));
    let disk = Disk::new();
    cache.set_at("a", &[1; 10], None, vec![], 1000).unwrap();
    cache.set_at("b", &[2; 5], None, vec![], 1000).unwrap();
    let m = cache.memory_stats();
    assert_eq!((m.writes, m.bytes_written, m.bytes_read), (2, 15, 0));
    assert_eq!(lookup(&mut cache, &disk, "a", 1001), Some(vec![1; 10]));
    assert_eq!(lookup(&mut cache, &disk, "nope", 1001), None);
    let m = cache.memory_stats();
    assert_eq!((m.writes, m.bytes_written, m.bytes_read), (2, 15, 10));
    assert_eq!((m.hot_hits, m.misses), (1, 1));
}

#[test]
fn a_file_that_was_replaced_in_memory_is_gone_after_one_flush() {
    let mut cache = open(config("dir"));
    let mut disk = Disk::new();
    // the file's write and its removal wait in one queue
    cache.set_at("k", &vec![3; 4000], None, vec![], 1000).unwrap();
    cache.set_at("k", &[5], None, vec![], 1001).unwrap();
    settle(&mut cache, &mut disk);
    assert!(disk.is_empty());
    assert_eq!(lookup(&mut cache, &disk, "k", 1002), Some(vec![5]));
}

#[test]
fn a_deleted_key_leaves_no_file_behind() {
    let mut cache = open(config("dir"));
    let mut disk = Disk::new();
    cache.set_at("k", &vec![3; 4000], None, vec![], 1000).unwrap();
    assert!(cache.delete("k").unwrap());
    settle(&mut cache, &mut disk);
    assert!(disk.is_empty());
    assert_eq!(lookup(&mut cache, &disk, "k", 1002), None);
    // stored again after the removal was queued, the file stays
    cache.set_at("k", &vec![4; 4000], None, vec![], 1003).unwrap();
    cache.delete("k").unwrap();
    cache.set_at("k", &vec![6; 4000], None, vec![], 1004).unwrap();
    settle(&mut cache, &mut disk);
    assert_eq!(disk.len(), 1);
    assert_eq!(lookup(&mut cache, &disk, "k", 1005), Some(vec![6; 4000]));
}
