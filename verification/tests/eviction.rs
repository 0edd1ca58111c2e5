use diskcache_rs::eviction::{
    cap_keys, dedup_keys, holds_key, append_keys, CombinedEviction, EvictionPolicy,
    EvictionStrategy, LfuEviction, LruEviction, TtlEviction,
};
use diskcache_rs::ranked::RankedKeys;
use diskcache_rs::serialization::CacheEntry;

fn entry(key: &str, count: u64, expire: Option<u64>) -> CacheEntry {
    let mut e = CacheEntry::new_at(key.to_string(), vec![], vec![], expire, 0);
    e.access_count = count;
    e
}

fn strs(v: &[&str]) -> Vec<String> {
    v.iter().map(|s| s.to_string()).collect()
}

#[test]
fn ranked_keys_stand_in_rank_order() {
    let mut r = RankedKeys::new();
    r.place("c".to_string(), 30);
    r.place("a".to_string(), 10);
    r.place("b".to_string(), 20);
    assert_eq!(r.len(), 3);
    assert_eq!(r.front_keys(10), strs(&["a", "b", "c"]));
    assert_eq!(r.front_keys(2), strs(&["a", "b"]));
    assert_eq!(r.front_keys(0), Vec::<String>::new());
    assert_eq!(r.rank_of(&"b".to_string()), Some(20));
    assert_eq!(r.rank_of(&"x".to_string()), None);
    assert_eq!(r.find(&"c".to_string()), Some(2));
}

#[test]
fn equal_ranks_keep_the_order_of_arrival() {
    let mut r = RankedKeys::new();
    r.place("x".to_string(), 5);
    r.place("y".to_string(), 5);
    r.place("z".to_string(), 5);
    r.place("w".to_string(), 4);
    assert_eq!(r.front_keys(4), strs(&["w", "x", "y", "z"]));
    // a key that is placed again moves behind its equals
    r.place("x".to_string(), 5);
    assert_eq!(r.front_keys(4), strs(&["w", "y", "z", "x"]));
    assert_eq!(r.len(), 4);
}

#[test]
fn ranked_keys_remove_and_count_below() {
    let mut r = RankedKeys::new();
    r.place("a".to_string(), 1);
    r.place("b".to_string(), 5);
    r.place("c".to_string(), 9);
    assert_eq!(r.below(0), 0);
    assert_eq!(r.below(1), 0);
    assert_eq!(r.below(2), 1);
    assert_eq!(r.below(9), 2);
    assert_eq!(r.below(10), 3);
    assert_eq!(r.below(u64::MAX), 3);
    assert!(r.remove(&"b".to_string()));
    assert!(!r.remove(&"b".to_string()));
    assert_eq!(r.front_keys(5), strs(&["a", "c"]));
    r.clear();
    assert_eq!(r.len(), 0);
}

#[test]
fn lru_gives_up_the_least_recently_used_first() {
    let mut lru = LruEviction::new();
    lru.on_insert("a", &entry("a", 1, None));
    lru.on_insert("b", &entry("b", 1, None));
    lru.on_insert("c", &entry("c", 1, None));
    assert_eq!(lru.select_victims(2), strs(&["a", "b"]));
    lru.on_access("a", &entry("a", 2, None));
    assert_eq!(lru.select_victims(2), strs(&["b", "c"]));
    assert_eq!(lru.select_victims(10), strs(&["b", "c", "a"]));
    assert_eq!(lru.select_victims(0), Vec::<String>::new());
    lru.on_remove("c");
    assert_eq!(lru.select_victims(10), strs(&["b", "a"]));
    lru.on_remove("missing");
    assert_eq!(lru.select_victims(10), strs(&["b", "a"]));
    lru.clear();
    assert_eq!(lru.select_victims(10), Vec::<String>::new());
}

#[test]
fn lfu_gives_up_the_least_used_first() {
    let mut lfu = LfuEviction::new();
    lfu.on_insert("a", &entry("a", 3, None));
    lfu.on_insert("b", &entry("b", 1, None));
    lfu.on_insert("c", &entry("c", 2, None));
    lfu.on_insert("d", &entry("d", 1, None));
    assert_eq!(lfu.select_victims(4), strs(&["b", "d", "c", "a"]));
    // b is read: it now has two accesses and stands behind c
    lfu.on_access("b", &entry("b", 2, None));
    assert_eq!(lfu.select_victims(4), strs(&["d", "c", "b", "a"]));
    // stored again, an entry starts at one access
    lfu.on_insert("a", &entry("a", 1, None));
    assert_eq!(lfu.select_victims(2), strs(&["d", "a"]));
    lfu.on_remove("d");
    assert_eq!(lfu.select_victims(1), strs(&["a"]));
    lfu.clear();
    assert_eq!(lfu.select_victims(1), Vec::<String>::new());
}

#[test]
fn ttl_knows_the_keys_whose_deadline_has_passed() {
    let mut ttl = TtlEviction::new();
    ttl.on_insert("late", &entry("late", 1, Some(300)));
    ttl.on_insert("early", &entry("early", 1, Some(100)));
    ttl.on_insert("mid", &entry("mid", 1, Some(200)));
    ttl.on_insert("never", &entry("never", 1, None));
    assert_eq!(ttl.get_expired_keys_at(100), Vec::<String>::new());
    assert_eq!(ttl.get_expired_keys_at(101), strs(&["early"]));
    assert_eq!(ttl.get_expired_keys_at(201), strs(&["early", "mid"]));
    assert_eq!(ttl.get_expired_keys_at(u64::MAX), strs(&["early", "mid", "late"]));
    assert_eq!(ttl.select_victims_at(2, u64::MAX), strs(&["early", "mid"]));
    assert_eq!(ttl.select_victims_at(0, u64::MAX), Vec::<String>::new());
    // reading does not move a deadline
    ttl.on_access("early", &entry("early", 9, Some(999)));
    assert_eq!(ttl.get_expired_keys_at(101), strs(&["early"]));
    // storing again does
    ttl.on_insert("early", &entry("early", 1, Some(400)));
    assert_eq!(ttl.get_expired_keys_at(301), strs(&["mid", "late"]));
    // an entry stored without a deadline is not kept
    ttl.on_insert("mid", &entry("mid", 1, None));
    assert_eq!(ttl.get_expired_keys_at(u64::MAX), strs(&["late", "early"]));
    ttl.on_remove("late");
    assert_eq!(ttl.get_expired_keys_at(u64::MAX), strs(&["early"]));
    ttl.clear();
    assert_eq!(ttl.get_expired_keys_at(u64::MAX), Vec::<String>::new());
}

#[test]
fn ttl_by_the_clock() {
    let mut ttl = TtlEviction::new();
    ttl.on_insert("old", &entry("old", 1, Some(1)));
    ttl.on_insert("far", &entry("far", 1, Some(u64::MAX)));
    assert_eq!(ttl.get_expired_keys(), strs(&["old"]));
    assert_eq!(ttl.select_victims(5), strs(&["old"]));
}

#[test]
fn strategies_that_include_deadlines() {
    assert!(EvictionStrategy::Ttl.includes_ttl());
    assert!(EvictionStrategy::LruTtl.includes_ttl());
    assert!(EvictionStrategy::LfuTtl.includes_ttl());
    assert!(!EvictionStrategy::Lru.includes_ttl());
    assert!(!EvictionStrategy::Lfu.includes_ttl());
}

#[test]
fn combined_takes_expired_keys_first() {
    let mut c = CombinedEviction::new(EvictionStrategy::LruTtl);
    assert_eq!(c.strategy(), EvictionStrategy::LruTtl);
    c.on_insert("a", &entry("a", 1, None));
    c.on_insert("b", &entry("b", 1, Some(50)));
    c.on_insert("c", &entry("c", 1, None));
    c.on_insert("d", &entry("d", 1, Some(40)));
    // nothing has expired: recency decides
    assert_eq!(c.select_victims_at(2, 10), strs(&["a", "b"]));
    // both deadlines have passed: they go first, earliest first
    assert_eq!(c.select_victims_at(1, 100), strs(&["d"]));
    assert_eq!(c.select_victims_at(2, 100), strs(&["d", "b"]));
    assert_eq!(c.select_victims_at(3, 100), strs(&["d", "b", "a"]));
    assert_eq!(c.select_victims_at(0, 100), Vec::<String>::new());
}

#[test]
fn combined_names_no_key_twice() {
    let mut c = CombinedEviction::new(EvictionStrategy::LruTtl);
    c.on_insert("a", &entry("a", 1, Some(5)));
    c.on_insert("b", &entry("b", 1, None));
    c.on_insert("c", &entry("c", 1, None));
    // a has expired and is also the least recently used: it is named
    // once, and recency fills up to the count
    assert_eq!(c.select_victims_at(1, 100), strs(&["a"]));
    assert_eq!(c.select_victims_at(2, 100), strs(&["a", "b"]));
    assert_eq!(c.select_victims_at(3, 100), strs(&["a", "b", "c"]));
    assert_eq!(c.select_victims_at(9, 100), strs(&["a", "b", "c"]));
}

#[test]
fn combined_names_expired_keys_before_older_ones() {
    let mut c = CombinedEviction::new(EvictionStrategy::LruTtl);
    c.on_insert("a", &entry("a", 1, None));
    c.on_insert("b", &entry("b", 1, None));
    c.on_insert("c", &entry("c", 1, Some(5)));
    assert_eq!(c.select_victims_at(1, 100), strs(&["c"]));
    assert_eq!(c.select_victims_at(2, 100), strs(&["c", "a"]));
    assert_eq!(c.select_victims_at(3, 100), strs(&["c", "a", "b"]));
    // before the deadline recency alone decides
    assert_eq!(c.select_victims_at(2, 5), strs(&["a", "b"]));
}

#[test]
fn combined_by_frequency() {
    let mut c = CombinedEviction::new(EvictionStrategy::Lfu);
    c.on_insert("a", &entry("a", 1, Some(1)));
    c.on_insert("b", &entry("b", 1, None));
    c.on_access("a", &entry("a", 5, Some(1)));
    // deadlines are not kept under this strategy
    assert_eq!(c.select_victims_at(2, 100), strs(&["b", "a"]));
    c.on_remove("b");
    assert_eq!(c.select_victims_at(2, 100), strs(&["a"]));
    c.clear();
    assert_eq!(c.select_victims_at(2, 100), Vec::<String>::new());
}

#[test]
fn combined_by_deadline_alone() {
    let mut c = CombinedEviction::new(EvictionStrategy::Ttl);
    c.on_insert("a", &entry("a", 1, None));
    c.on_insert("b", &entry("b", 1, Some(10)));
    assert_eq!(c.select_victims_at(5, 5), Vec::<String>::new());
    assert_eq!(c.select_victims_at(5, 11), strs(&["b"]));
    assert_eq!(c.select_victims(5), strs(&["b"]));
}

#[test]
fn key_list_helpers() {
    let keys = strs(&["a", "b", "a", "c", "b"]);
    assert_eq!(dedup_keys(&keys), strs(&["a", "b", "c"]));
    assert_eq!(dedup_keys(&Vec::new()), Vec::<String>::new());
    assert!(holds_key(&keys, &"c".to_string()));
    assert!(!holds_key(&keys, &"d".to_string()));
    assert_eq!(cap_keys(strs(&["a", "b", "c"]), 2), strs(&["a", "b"]));
    assert_eq!(cap_keys(strs(&["a", "b", "c"]), 3), strs(&["a", "b", "c"]));
    assert_eq!(cap_keys(strs(&["a", "b", "c"]), 9), strs(&["a", "b", "c"]));
    assert_eq!(cap_keys(strs(&["a"]), 0), Vec::<String>::new());
    let mut v = strs(&["x"]);
    append_keys(&mut v, &strs(&["y", "z"]));
    assert_eq!(v, strs(&["x", "y", "z"]));
}
