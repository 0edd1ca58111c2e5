//! The cache itself: it checks keys, looks entries up across the tiers,
//! evicts before it stores, keeps the eviction bookkeeping in step with
//! what is stored, and counts.

use vstd::prelude::*;
use vstd::string::StringExecFns;
use crate::batcher::{BatcherState, WriteOp};
use crate::clock::current_timestamp;
use crate::error::{CacheError, CacheResult};
use crate::eviction::{
    lemma_covers_accessed,
    lemma_covers_empty,
    lemma_covers_inserted,
    lemma_covers_removed,
    lemma_covers_removed_all,
    CombinedEviction,
    EvictionPolicy,
    EvictionStrategy,
    EvictionView,
};
use crate::layout::{choose_write_mode, spec_choose_write_mode};
use crate::ranked::{lemma_without_all_empty, lemma_without_all_insert};
use crate::serialization::{
    bytes_option_view,
    create_serializer,
    strings_view,
    CacheEntry,
    CacheEntryView,
    CompressionType,
    SerializationFormat,
    Serializer,
};
use crate::storage::model::{capped_u64, keys_in, StorageView};
use crate::storage::optimized_backend::{OptimizedStorage, StorageConfig, StorageStatistics};
use crate::storage::{records_view, restored, IndexRecord, StorageBackend};
use crate::tiers::lists_domain;
use crate::utils::{
    add_capped,
    bump,
    valid_cache_config,
    valid_key,
    validate_cache_config,
    validate_key,
    CacheStats,
};

verus! {

/// The cache's settings, as plain values.
pub struct CacheConfigView {
    pub directory: Seq<char>,
    pub max_size: Option<u64>,
    pub max_entries: Option<u64>,
    pub eviction_strategy: EvictionStrategy,
    pub serialization_format: SerializationFormat,
    pub compression: CompressionType,
    pub use_atomic_writes: bool,
    pub use_file_locking: bool,
    pub auto_vacuum: bool,
    pub vacuum_interval: u64,
    pub memory_cache_size: u64,
    pub memory_cache_entries: usize,
    pub auto_migrate: bool,
}

/// The cache's settings.
#[derive(Debug)]
pub struct CacheConfig {
    /// Where the files lie.
    pub directory: String,
    /// Most bytes that the entries may take up, if there is a limit.
    pub max_size: Option<u64>,
    /// Most entries, if there is a limit.
    pub max_entries: Option<u64>,
    pub eviction_strategy: EvictionStrategy,
    pub serialization_format: SerializationFormat,
    pub compression: CompressionType,
    /// Ignored on a network file system.
    pub use_atomic_writes: bool,
    pub use_file_locking: bool,
    /// Whether a store may start a vacuum when the last one is long ago.
    pub auto_vacuum: bool,
    /// Seconds between two such vacuums.
    pub vacuum_interval: u64,
    /// Bytes for the hot tier; zero turns it off.
    pub memory_cache_size: u64,
    /// Entries for the hot tier; zero turns it off.
    pub memory_cache_entries: usize,
    /// Whether legacy data is taken over at startup.
    pub auto_migrate: bool,
}

impl View for CacheConfig {
    type V = CacheConfigView;

    open spec fn view(&self) -> CacheConfigView {
        CacheConfigView {
            directory: self.directory@,
            max_size: self.max_size,
            max_entries: self.max_entries,
            eviction_strategy: self.eviction_strategy,
            serialization_format: self.serialization_format,
            compression: self.compression,
            use_atomic_writes: self.use_atomic_writes,
            use_file_locking: self.use_file_locking,
            auto_vacuum: self.auto_vacuum,
            vacuum_interval: self.vacuum_interval,
            memory_cache_size: self.memory_cache_size,
            memory_cache_entries: self.memory_cache_entries,
            auto_migrate: self.auto_migrate,
        }
    }
}

impl CacheConfigView {
    /// The settings that a cache has unless told otherwise.
    pub open spec fn spec_default() -> CacheConfigView {
        CacheConfigView {
            directory: "./cache"@,
            max_size: Some(1073741824u64),
            max_entries: Some(100000u64),
            eviction_strategy: EvictionStrategy::LruTtl,
            serialization_format: SerializationFormat::Bincode,
            compression: CompressionType::Lz4,
            use_atomic_writes: true,
            use_file_locking: true,
            auto_vacuum: true,
            vacuum_interval: 3600,
            memory_cache_size: 67108864,
            memory_cache_entries: 10000,
            auto_migrate: true,
        }
    }

    /// The settings are acceptable.
    pub open spec fn valid(self) -> bool {
        valid_cache_config(self.max_size, self.max_entries, self.directory)
    }

    /// The store's settings that follow from the cache's.
    pub open spec fn storage_config(self) -> StorageConfig {
        StorageConfig {
            hot_cache_size: if self.memory_cache_size > 0 {
                self.memory_cache_entries
            } else {
                0
            },
            use_compression: self.compression == CompressionType::Lz4,
            use_file_locking: self.use_file_locking,
            ..StorageConfig::spec_default()
        }
    }
}

impl Default for CacheConfig {
    fn default() -> (r: Self)
        ensures
            r@ == CacheConfigView::spec_default(),
    {
        CacheConfig {
            directory: String::from_str("./cache"),
            max_size: Some(1073741824u64),
            max_entries: Some(100000u64),
            eviction_strategy: EvictionStrategy::LruTtl,
            serialization_format: SerializationFormat::Bincode,
            compression: CompressionType::Lz4,
            use_atomic_writes: true,
            use_file_locking: true,
            auto_vacuum: true,
            vacuum_interval: 3600,
            memory_cache_size: 67108864,
            memory_cache_entries: 10000,
            auto_migrate: true,
        }
    }
}

impl CacheConfig {
    /// The store's settings that follow from the cache's.
    pub fn storage_config(&self) -> (r: StorageConfig)
        ensures
            r == self@.storage_config(),
    {
        let base = StorageConfig::default();
        let use_compression = match self.compression {
            CompressionType::Lz4 => true,
            _ => false,
        };
        StorageConfig {
            hot_cache_size: if self.memory_cache_size > 0 {
                self.memory_cache_entries
            } else {
                0
            },
            warm_cache_size: base.warm_cache_size,
            mmap_threshold: base.mmap_threshold,
            batch_size: base.batch_size,
            compression_threshold: base.compression_threshold,
            use_compression,
            sync_writes: base.sync_writes,
            disk_write_threshold: base.disk_write_threshold,
            use_file_locking: self.use_file_locking,
        }
    }
}

/// How many entries a store evicts first, given what the cache holds and
/// its limits: over the size limit a tenth of the entries and one at
/// least; over the entry limit the entries too many and a tenth of the
/// limit; the larger of the two.
pub open spec fn spec_eviction_target(
    size: u64,
    entries: u64,
    max_size: Option<u64>,
    max_entries: Option<u64>,
) -> u64 {
    let by_size: u64 = match max_size {
        Some(m) => if size > m {
            if entries / 10 >= 1 {
                entries / 10
            } else {
                1
            }
        } else {
            0
        },
        None => 0,
    };
    let by_count: u64 = match max_entries {
        Some(m) => if entries > m {
            (entries - m + m / 10) as u64
        } else {
            0
        },
        None => 0,
    };
    if by_size >= by_count {
        by_size
    } else {
        by_count
    }
}

#[verifier::when_used_as_spec(spec_eviction_target)]
pub fn eviction_target(
    size: u64,
    entries: u64,
    max_size: Option<u64>,
    max_entries: Option<u64>,
) -> (r: u64)
    ensures
        r == spec_eviction_target(size, entries, max_size, max_entries),
{
    let by_size: u64 = match max_size {
        Some(m) => if size > m {
            if entries / 10 >= 1 {
                entries / 10
            } else {
                1
            }
        } else {
            0
        },
        None => 0,
    };
    let by_count: u64 = match max_entries {
        Some(m) => if entries > m {
            entries - m + m / 10
        } else {
            0
        },
        None => 0,
    };
    if by_size >= by_count {
        by_size
    } else {
        by_count
    }
}

/// A counter after `n` more counts.
pub open spec fn bumped_by(x: u64, n: nat) -> u64
    decreases n,
{
    if n == 0 {
        x
    } else {
        bump(bumped_by(x, (n - 1) as nat))
    }
}

/// The cache as plain values.
pub struct CacheView {
    pub storage: StorageView,
    pub eviction: EvictionView,
    pub stats: CacheStats,
    /// When the last vacuum ran.
    pub last_vacuum: u64,
    pub config: CacheConfigView,
}

/// The view of what a lookup hands out.
pub open spec fn payload_view(r: CacheResult<Option<Vec<u8>>>) -> Result<Option<Seq<u8>>, CacheError> {
    match r {
        Ok(Some(v)) => Ok(Some(v@)),
        Ok(None) => Ok(None),
        Err(e) => Err(e),
    }
}

impl CacheView {
    /// The eviction bookkeeping is in step with the store, nothing that
    /// the store dropped waits to be taken note of, and the entry count
    /// is the number of stored keys.
    pub open spec fn coherent(self) -> bool {
        &&& self.storage.dropped == Set::<Seq<char>>::empty()
        &&& self.eviction.covers(self.storage.key_set())
        &&& self.eviction.strategy == self.config.eviction_strategy
        &&& self.stats.entry_count == capped_u64(self.storage.key_set().len())
    }

    /// The keys that left the store between `self` and `after`, other
    /// than `key`.
    pub open spec fn lost(self, after: CacheView, key: Seq<char>) -> Set<Seq<char>> {
        self.storage.key_set().difference(after.storage.key_set()).remove(key)
    }

    /// The store of `after` with the keys noted again that were dropped
    /// on the way from `self`.
    pub open spec fn unsettled(self, after: CacheView, key: Seq<char>) -> StorageView {
        StorageView { dropped: self.lost(after, key), ..after.storage }
    }

    /// `after` is the cache once the key was looked up at `now` with
    /// the result `r`, given what the key's file holds. An invalid key
    /// is refused and nothing changes. Otherwise the store is read (see
    /// `StorageView::after_get`); a hit hands out the payload, counts a
    /// hit and tells the eviction bookkeeping of the access; a miss
    /// counts a miss and makes the bookkeeping forget the key.
    pub open spec fn after_get(
        self,
        after: CacheView,
        key: Seq<char>,
        contents: Option<Seq<u8>>,
        now: u64,
        r: Result<Option<Seq<u8>>, CacheError>,
    ) -> bool {
        if !valid_key(key) {
            r == Err::<Option<Seq<u8>>, CacheError>(CacheError::InvalidKey) && after == self
        } else {
            let found = self.storage.lookup(key, contents, now);
            &&& r == Ok::<Option<Seq<u8>>, CacheError>(
                match found {
                    Some(e) => Some(e.data),
                    None => None,
                },
            )
            &&& self.storage.after_get(self.unsettled(after, key), key, contents, now)
            &&& after.storage.dropped == Set::<Seq<char>>::empty()
            &&& after.eviction == (match found {
                Some(e) => self.eviction.accessed(key, e.touched(now).access_count),
                None => self.eviction.removed(key),
            }).removed_all(self.lost(after, key))
            &&& after.stats == (CacheStats {
                hits: if found is Some {
                    bump(self.stats.hits)
                } else {
                    self.stats.hits
                },
                misses: if found is Some {
                    self.stats.misses
                } else {
                    bump(self.stats.misses)
                },
                entry_count: capped_u64(after.storage.key_set().len()),
                ..self.stats
            })
            &&& after.last_vacuum == self.last_vacuum
            &&& after.config == self.config
        }
    }

    /// `after` is the cache once the key was deleted with the result
    /// `r`. An invalid key is refused. Otherwise the key leaves every
    /// tier and the bookkeeping, and where it was there a delete is
    /// counted.
    pub open spec fn after_delete(
        self,
        after: CacheView,
        key: Seq<char>,
        r: Result<bool, CacheError>,
    ) -> bool {
        if !valid_key(key) {
            r == Err::<bool, CacheError>(CacheError::InvalidKey) && after == self
        } else {
            let found = self.storage.key_set().contains(key);
            &&& r == Ok::<bool, CacheError>(found)
            &&& after.storage == self.storage.deleted(key)
            &&& after.eviction == if found {
                self.eviction.removed(key)
            } else {
                self.eviction
            }
            &&& after.stats == (CacheStats {
                deletes: if found {
                    bump(self.stats.deletes)
                } else {
                    self.stats.deletes
                },
                entry_count: capped_u64(after.storage.key_set().len()),
                ..self.stats
            })
            &&& after.last_vacuum == self.last_vacuum
            &&& after.config == self.config
        }
    }

    /// `after` is the cache once a vacuum ran at `now`: the store has
    /// dropped every key that is not live (see
    /// `StorageView::after_vacuum`), the bookkeeping has forgotten these
    /// keys, and the time of the vacuum is noted.
    pub open spec fn after_vacuum(self, after: CacheView, now: u64) -> bool {
        let lost = self.storage.key_set().difference(after.storage.key_set());
        &&& self.storage.after_vacuum(StorageView { dropped: lost, ..after.storage }, now)
        &&& after.storage.dropped == Set::<Seq<char>>::empty()
        &&& after.eviction == self.eviction.removed_all(lost)
        &&& after.stats == (CacheStats {
            entry_count: capped_u64(after.storage.key_set().len()),
            ..self.stats
        })
        &&& after.last_vacuum == now
        &&& after.config == self.config
    }

    /// The cache after these keys were evicted, one after the other.
    pub open spec fn evicted(self, victims: Seq<Seq<char>>) -> CacheView
        decreases victims.len(),
    {
        if victims.len() == 0 {
            self
        } else {
            let before = self.evicted(victims.drop_last());
            CacheView {
                storage: before.storage.deleted(victims.last()),
                eviction: before.eviction.removed(victims.last()),
                stats: CacheStats { evictions: bump(before.stats.evictions), ..before.stats },
                ..before
            }
        }
    }

    /// Evicting changes neither the settings nor the time of the last
    /// vacuum.
    pub proof fn lemma_evicted_keeps(self, victims: Seq<Seq<char>>)
        ensures
            self.evicted(victims).config == self.config,
            self.evicted(victims).last_vacuum == self.last_vacuum,
            self.evicted(victims).eviction.strategy == self.eviction.strategy,
        decreases victims.len(),
    {
        if victims.len() > 0 {
            self.lemma_evicted_keeps(victims.drop_last());
        }
    }

    /// How many entries are evicted before a store at `now`.
    pub open spec fn target(self) -> u64 {
        spec_eviction_target(
            capped_u64(self.storage.total_bytes()),
            capped_u64(self.storage.key_set().len()),
            self.config.max_size,
            self.config.max_entries,
        )
    }

    /// The keys that are evicted before a store at `now`.
    pub open spec fn victims(self, now: u64) -> Seq<Seq<char>> {
        if self.target() > usize::MAX {
            self.eviction.victims_at(usize::MAX as int, now)
        } else {
            self.eviction.victims_at(self.target() as int, now)
        }
    }

    /// A vacuum is due at `now`.
    pub open spec fn vacuum_due(self, now: u64) -> bool {
        self.config.auto_vacuum && now > self.last_vacuum && now - self.last_vacuum
            > self.config.vacuum_interval
    }

    /// The cache with its entry count brought up to date.
    pub open spec fn recounted(self) -> CacheView {
        CacheView {
            stats: CacheStats {
                entry_count: capped_u64(self.storage.key_set().len()),
                ..self.stats
            },
            ..self
        }
    }

    /// The entries take up more bytes than the size limit allows.
    pub open spec fn over_size(self) -> bool {
        self.config.max_size matches Some(m) && capped_u64(self.storage.total_bytes()) > m
    }

    /// The cache after victims were evicted one by one for as long as it
    /// was over its size limit and the bookkeeping named one, `rounds`
    /// times at most.
    pub open spec fn trimmed(self, now: u64, rounds: nat) -> CacheView
        decreases rounds,
    {
        if rounds == 0 || !self.over_size() || self.eviction.victims_at(1, now).len() == 0 {
            self
        } else {
            self.evicted(self.eviction.victims_at(1, now)).trimmed(now, (rounds - 1) as nat)
        }
    }

    /// The cache after room was made at `now` and before any vacuum: the
    /// victims that the limits ask for are evicted, and then one victim
    /// after the other until the entries fit the size limit.
    pub open spec fn slimmed(self, now: u64) -> CacheView {
        let mid = self.evicted(self.victims(now)).recounted();
        mid.trimmed(now, mid.stats.entry_count as nat).recounted()
    }

    /// `after` is the cache once room was made at `now`, see `slimmed`,
    /// and a vacuum has followed where one was due.
    pub open spec fn after_evict(self, after: CacheView, now: u64) -> bool {
        if self.vacuum_due(now) {
            self.slimmed(now).after_vacuum(after, now)
        } else {
            after == self.slimmed(now)
        }
    }

    /// Trimming changes neither the settings nor the time of the last
    /// vacuum.
    pub proof fn lemma_trimmed_keeps(self, now: u64, rounds: nat)
        ensures
            self.trimmed(now, rounds).config == self.config,
            self.trimmed(now, rounds).last_vacuum == self.last_vacuum,
            self.trimmed(now, rounds).eviction.strategy == self.eviction.strategy,
        decreases rounds,
    {
        if rounds == 0 || !self.over_size() || self.eviction.victims_at(1, now).len() == 0 {
        } else {
            let v = self.eviction.victims_at(1, now);
            self.lemma_evicted_keeps(v);
            self.evicted(v).lemma_trimmed_keeps(now, (rounds - 1) as nat);
        }
    }

    /// `after` is the cache once the entry `e` was stored under the key
    /// in the cache `self`, where room had been made before: stored in
    /// the store (see `StorageView::after_set`), made known to the
    /// bookkeeping, counted.
    pub open spec fn after_store(self, after: CacheView, key: Seq<char>, e: CacheEntryView, now: u64) -> bool {
        &&& self.storage.after_set(self.unsettled(after, key), key, e, now, true)
        &&& after.storage.dropped == Set::<Seq<char>>::empty()
        &&& after.eviction == self.eviction.inserted(key, e.access_count, e.expire_time).removed_all(
            self.lost(after, key),
        )
        &&& after.stats == (CacheStats {
            sets: bump(self.stats.sets),
            total_size: add_capped(self.stats.total_size, e.size),
            entry_count: capped_u64(after.storage.key_set().len()),
            ..self.stats
        })
        &&& after.last_vacuum == self.last_vacuum
        &&& after.config == self.config
    }

    /// `after` is the cache once the value was stored under the key at
    /// `now` with the result `r`. An invalid key is refused and nothing
    /// changes. Otherwise room is made (see `after_evict`), leaving the
    /// cache `mid`; then the entry is stored (see `after_store`), or,
    /// where its file cannot be queued, refused with `Io`.
    pub open spec fn after_set(
        self,
        mid: CacheView,
        after: CacheView,
        key: Seq<char>,
        value: Seq<u8>,
        expire_time: Option<u64>,
        tags: Seq<Seq<char>>,
        now: u64,
        r: Result<(), CacheError>,
    ) -> bool {
        let e = CacheEntryView::fresh(key, value, tags, expire_time, now);
        if !valid_key(key) {
            r == Err::<(), CacheError>(CacheError::InvalidKey) && after == self
        } else {
            &&& self.after_evict(mid, now)
            &&& if mid.storage.goes_hot(e) || mid.storage.batcher.state == BatcherState::Running {
                r is Ok && mid.after_store(after, key, e, now)
            } else {
                r == Err::<(), CacheError>(CacheError::Io) && after == mid
            }
        }
    }
}

/// The cache.
pub struct Cache {
    config: CacheConfig,
    storage: OptimizedStorage,
    eviction: CombinedEviction,
    serializer: Serializer,
    stats: CacheStats,
    last_vacuum: u64,
}

impl View for Cache {
    type V = CacheView;

    closed spec fn view(&self) -> CacheView {
        CacheView {
            storage: self.storage@,
            eviction: self.eviction@,
            stats: self.stats,
            last_vacuum: self.last_vacuum,
            config: self.config@,
        }
    }
}

impl Cache {
    /// Store and bookkeeping are consistent each by itself and in step
    /// with each other.
    pub closed spec fn wf(&self) -> bool {
        &&& self.parts_wf()
        &&& self@.coherent()
    }

    /// Store and bookkeeping are consistent each by itself, and the
    /// serializer is the one that the settings ask for.
    pub closed spec fn parts_wf(&self) -> bool {
        &&& self.storage.wf()
        &&& self.eviction.wf()
        &&& self.serializer.compression() == self.config.compression
        &&& self.serializer is Bincode <==> self.config.serialization_format
            == SerializationFormat::Bincode
    }

    /// What `wf` says, for callers.
    pub proof fn lemma_wf(&self)
        requires
            self.wf(),
        ensures
            self@.coherent(),
            self@.storage.key_set().finite(),
            self@.storage.hot.len() <= self@.storage.config.hot_cache_size,
            self@.storage.warm.dom().subset_of(self@.storage.cold.dom()),
            self@.storage.hot_backed(),
            crate::ranked::distinct(self@.eviction.lru),
            crate::ranked::distinct(self@.eviction.lfu),
            crate::ranked::distinct(self@.eviction.ttl),
    {
        self.storage.lemma_wf();
        self.eviction.lemma_wf();
    }

    /// Takes note of the keys that the store dropped.
    fn settle(&mut self)
        requires
            old(self).parts_wf(),
        ensures
            final(self).parts_wf(),
            final(self)@ == (CacheView {
                storage: StorageView { dropped: Set::empty(), ..old(self)@.storage },
                eviction: old(self)@.eviction.removed_all(old(self)@.storage.dropped),
                ..old(self)@
            }),
    {
        let ghost start = self@;
        let dropped = self.storage.take_dropped();
        let ghost ks = strings_view(dropped@);
        let ghost mut done: Set<Seq<char>> = Set::empty();
        proof {
            lemma_without_all_empty(start.eviction.lru);
            lemma_without_all_empty(start.eviction.lfu);
            lemma_without_all_empty(start.eviction.ttl);
        }
        let mut i: usize = 0;
        while i < dropped.len()
            invariant
                i <= dropped.len(),
                ks == strings_view(dropped@),
                self.parts_wf(),
                self@ == (CacheView {
                    storage: StorageView { dropped: Set::empty(), ..start.storage },
                    eviction: start.eviction.removed_all(done),
                    ..start
                }),
                forall|x: Seq<char>| done.contains(x) <==> exists|j: int| 0 <= j < i && ks[j] == x,
            decreases dropped.len() - i,
        {
            let ghost k = ks[i as int];
            assert(k == dropped@[i as int]@);
            self.eviction.on_remove(dropped[i].as_str());
            proof {
                lemma_without_all_insert(start.eviction.lru, done, k);
                lemma_without_all_insert(start.eviction.lfu, done, k);
                lemma_without_all_insert(start.eviction.ttl, done, k);
                let next = done.insert(k);
                assert forall|x: Seq<char>| next.contains(x) <==> exists|j: int|
                    0 <= j < i + 1 && ks[j] == x by {
                    if done.contains(x) {
                        let j = choose|j: int| 0 <= j < i && ks[j] == x;
                        assert(0 <= j < i + 1 && ks[j] == x);
                    }
                    if x == k {
                        assert(0 <= i < i + 1 && ks[i as int] == x);
                    }
                    if exists|j: int| 0 <= j < i + 1 && ks[j] == x {
                        let j = choose|j: int| 0 <= j < i + 1 && ks[j] == x;
                        if j < i {
                            assert(done.contains(x));
                        }
                    }
                }
                done = next;
            }
            i = i + 1;
        }
        proof {
            assert(done == start.storage.dropped) by {
                assert forall|x: Seq<char>| done.contains(x) <==> keys_in(dropped@).contains(x) by {
                    if done.contains(x) {
                        let j = choose|j: int| 0 <= j < i && ks[j] == x;
                        assert(ks.contains(x));
                    }
                    if ks.contains(x) {
                        let j = choose|j: int| 0 <= j < ks.len() && ks[j] == x;
                        assert(0 <= j < i && ks[j] == x);
                    }
                }
            }
        }
    }

    /// Brings the entry count up to date.
    fn recount(&mut self)
        requires
            old(self).parts_wf(),
        ensures
            final(self).parts_wf(),
            final(self)@ == old(self)@.recounted(),
    {
        let n = match self.storage.keys() {
            Ok(keys) => {
                proof {
                    let ks = strings_view(keys@);
                    ks.unique_seq_to_set();
                    assert(ks.to_set() == self@.storage.key_set());
                }
                keys.len() as u64
            },
            Err(_) => 0,
        };
        self.stats.entry_count = n;
    }

    /// A cache for the given settings, at `now`. `is_network_fs` says
    /// whether the directory lies on a network file system; `recovered`
    /// holds the records of the index document, if one was found. The
    /// settings are refused where they are not valid.
    pub fn open(
        config: CacheConfig,
        is_network_fs: bool,
        recovered: Vec<IndexRecord>,
        now: u64,
    ) -> (r: CacheResult<Self>)
        ensures
            match r {
                Ok(c) => {
                    &&& config@.valid()
                    &&& c.wf()
                    &&& c@.config == config@
                    &&& c@.last_vacuum == now
                    &&& c@.stats == (CacheStats {
                        entry_count: capped_u64(c@.storage.key_set().len()),
                        ..CacheStats::spec_new()
                    })
                    &&& c@.storage == (StorageView {
                        cold: restored(records_view(recovered@)),
                        write_mode: spec_choose_write_mode(
                            config.use_atomic_writes,
                            config.use_file_locking,
                            is_network_fs,
                        ),
                        ..OptimizedStorage::empty_view(config@.directory, config@.storage_config())
                    })
                },
                Err(e) => e == CacheError::InvalidConfig && !config@.valid(),
            },
    {
        match validate_cache_config(config.max_size, config.max_entries, config.directory.as_str()) {
            Err(e) => {
                return Err(e);
            },
            Ok(_) => {},
        }
        let mut storage = match OptimizedStorage::with_config(
            config.directory.as_str(),
            config.storage_config(),
        ) {
            Ok(s) => s,
            Err(e) => {
                return Err(e);
            },
        };
        storage.set_write_mode(
            choose_write_mode(config.use_atomic_writes, config.use_file_locking, is_network_fs),
        );
        storage.load_index(recovered);
        proof {
            let empty = Map::<Seq<char>, crate::tiers::FileInfoView>::empty();
            let m = restored(records_view(recovered@));
            assert(empty.union_prefer_right(m) == m);
        }
        let eviction = CombinedEviction::new(config.eviction_strategy);
        let serializer = create_serializer(config.serialization_format, config.compression);
        let mut cache = Cache {
            config,
            storage,
            eviction,
            serializer,
            stats: CacheStats::new(),
            last_vacuum: now,
        };
        cache.register_stored(now);
        cache.recount();
        Ok(cache)
    }

    /// Makes every stored key known to the eviction bookkeeping, as if
    /// it had been stored at `now`.
    fn register_stored(&mut self, now: u64)
        requires
            old(self).parts_wf(),
            old(self)@.eviction == EvictionView::empty(old(self)@.eviction.strategy),
        ensures
            final(self).parts_wf(),
            final(self)@ == (CacheView { eviction: final(self)@.eviction, ..old(self)@ }),
            final(self)@.eviction.strategy == old(self)@.eviction.strategy,
            final(self)@.eviction.covers(old(self)@.storage.key_set()),
    {
        let ghost start = self@;
        let keys = match self.storage.keys() {
            Ok(keys) => keys,
            Err(_) => Vec::new(),
        };
        let ghost ks = strings_view(keys@);
        let ghost mut done: Set<Seq<char>> = Set::empty();
        let mut i: usize = 0;
        proof {
            lemma_covers_empty(start.eviction.strategy);
        }
        while i < keys.len()
            invariant
                i <= keys.len(),
                ks == strings_view(keys@),
                lists_domain(ks, start.storage.key_set()),
                self.parts_wf(),
                self@ == (CacheView { eviction: self@.eviction, ..start }),
                self@.eviction.strategy == start.eviction.strategy,
                self@.eviction.covers(done),
                forall|x: Seq<char>| done.contains(x) <==> exists|j: int| 0 <= j < i && ks[j] == x,
            decreases keys.len() - i,
        {
            let ghost k = ks[i as int];
            assert(k == keys@[i as int]@);
            let deadline = self.storage.deadline(keys[i].as_str());
            let entry = CacheEntry::new_at(keys[i].clone(), Vec::new(), Vec::new(), deadline, now);
            proof {
                lemma_covers_inserted(self@.eviction, done, k, entry.access_count, deadline);
            }
            self.eviction.on_insert(keys[i].as_str(), &entry);
            proof {
                let next = done.insert(k);
                assert forall|x: Seq<char>| next.contains(x) <==> exists|j: int|
                    0 <= j < i + 1 && ks[j] == x by {
                    if done.contains(x) {
                        let j = choose|j: int| 0 <= j < i && ks[j] == x;
                        assert(0 <= j < i + 1 && ks[j] == x);
                    }
                    if x == k {
                        assert(0 <= i < i + 1 && ks[i as int] == x);
                    }
                    if exists|j: int| 0 <= j < i + 1 && ks[j] == x {
                        let j = choose|j: int| 0 <= j < i + 1 && ks[j] == x;
                        if j < i {
                            assert(done.contains(x));
                        }
                    }
                }
                done = next;
            }
            i = i + 1;
        }
        proof {
            assert(done == start.storage.key_set()) by {
                assert forall|x: Seq<char>| done.contains(x) <==> start.storage.key_set().contains(
                    x,
                ) by {
                    if done.contains(x) {
                        let j = choose|j: int| 0 <= j < i && ks[j] == x;
                        assert(ks.contains(x));
                    }
                    if start.storage.key_set().contains(x) {
                        assert(ks.contains(x));
                        let j = choose|j: int| 0 <= j < ks.len() && ks[j] == x;
                        assert(0 <= j < i && ks[j] == x);
                    }
                }
            }
        }
    }

    /// A cache for the given settings on a local file system, with no
    /// index to take over, opened at the clock's reading.
    pub fn new(config: CacheConfig) -> (r: CacheResult<Self>)
        ensures
            match r {
                Ok(c) => config@.valid() && c.wf() && c@.config == config@ && c@.stats
                    == CacheStats::spec_new() && c@.storage == (StorageView {
                    write_mode: spec_choose_write_mode(
                        config.use_atomic_writes,
                        config.use_file_locking,
                        false,
                    ),
                    ..OptimizedStorage::empty_view(config@.directory, config@.storage_config())
                }),
                Err(e) => e == CacheError::InvalidConfig && !config@.valid(),
            },
    {
        let now = current_timestamp();
        let r = Cache::open(config, false, Vec::new(), now);
        proof {
            assert(restored(records_view(Seq::<IndexRecord>::empty())) == Map::<
                Seq<char>,
                crate::tiers::FileInfoView,
            >::empty());
            if r is Ok {
                assert(r->Ok_0@.storage.key_set() == Set::<Seq<char>>::empty());
            }
        }
        r
    }

    /// A cache with the usual settings in the given directory.
    pub fn with_directory(directory: String) -> (r: CacheResult<Self>)
        ensures
            match r {
                Ok(c) => directory@.len() > 0 && c.wf() && c@.config == (CacheConfigView {
                    directory: directory@,
                    ..CacheConfigView::spec_default()
                }),
                Err(e) => e == CacheError::InvalidConfig && directory@.len() == 0,
            },
    {
        let mut config = CacheConfig::default();
        config.directory = directory;
        Cache::new(config)
    }

    /// The file that the caller has to read before it looks the key up
    /// at `now`, if there is one.
    pub fn read_request(&self, key: &str, now: u64) -> (r: Option<String>)
        requires
            self.wf(),
        ensures
            match r {
                Some(path) => self@.storage.file_needed(key@, now) == Some(path@),
                None => self@.storage.file_needed(key@, now) is None,
            },
    {
        self.storage.read_request(key, now)
    }

    /// A barrier: hands over every file operation that waits. Nothing is
    /// queued any more after that, and while the batcher runs nothing is
    /// buffered and the caller holds the operations in the order in which
    /// they were queued, with the barrier last.
    pub fn take_disk_work(&mut self) -> (r: Vec<WriteOp>)
        requires
            old(self).wf(),
        ensures
            final(self).wf(),
            final(self)@ == (CacheView {
                storage: StorageView { batcher: final(self)@.storage.batcher, ..old(self)@.storage },
                ..old(self)@
            }),
            final(self)@.storage.batcher.pending.len() == 0,
            final(self)@.storage.batcher.state == old(self)@.storage.batcher.state,
            final(self)@.storage.batcher.batch_size == old(self)@.storage.batcher.batch_size,
            old(self)@.storage.batcher.state == BatcherState::Running ==> {
                &&& old(self)@.storage.barrier_taken(final(self)@.storage)
                &&& crate::batcher::ops_view(r@) == old(self)@.storage.waiting().push(
                    crate::batcher::WriteOpView::Sync,
                )
            },
            old(self)@.storage.batcher.state != BatcherState::Running ==> {
                &&& crate::batcher::ops_view(r@) == crate::batcher::drain_out(
                    old(self)@.storage.batcher,
                )
                &&& final(self)@.storage.batcher == crate::batcher::drain_next(
                    old(self)@.storage.batcher,
                )
            },
    {
        self.storage.sync()
    }

    /// Works off the file operation at the head of the queue and hands
    /// over what has to be carried out now.
    pub fn step_disk_work(&mut self) -> (r: Vec<WriteOp>)
        requires
            old(self).wf(),
        ensures
            final(self).wf(),
            crate::batcher::ops_view(r@) == crate::batcher::step_out(old(self)@.storage.batcher),
            final(self)@ == (CacheView {
                storage: StorageView {
                    batcher: crate::batcher::step_next(old(self)@.storage.batcher),
                    ..old(self)@.storage
                },
                ..old(self)@
            }),
    {
        self.storage.step()
    }

    /// Hands over the writes that the batcher has collected, as after an
    /// idle period.
    pub fn flush_disk_work(&mut self) -> (r: Vec<WriteOp>)
        requires
            old(self).wf(),
        ensures
            final(self).wf(),
            crate::batcher::ops_view(r@) == old(self)@.storage.batcher.buffered,
            final(self)@ == (CacheView {
                storage: StorageView {
                    batcher: crate::batcher::BatcherView {
                        buffered: Seq::empty(),
                        ..old(self)@.storage.batcher
                    },
                    ..old(self)@.storage
                },
                ..old(self)@
            }),
    {
        self.storage.flush_idle()
    }

    /// Stops the batcher from taking file operations, as when the cache
    /// is closed. What is queued is still worked off.
    pub fn shutdown(&mut self)
        requires
            old(self).wf(),
        ensures
            final(self).wf(),
            final(self)@ == (CacheView {
                storage: StorageView {
                    batcher: crate::batcher::BatcherView {
                        state: if old(self)@.storage.batcher.state == BatcherState::Running {
                            BatcherState::Draining
                        } else {
                            old(self)@.storage.batcher.state
                        },
                        ..old(self)@.storage.batcher
                    },
                    ..old(self)@.storage
                },
                ..old(self)@
            }),
    {
        self.storage.shutdown()
    }

    /// How many file operations wait in the queue.
    pub fn pending_disk_work(&self) -> (r: usize)
        ensures
            r == self@.storage.batcher.pending.len(),
    {
        self.storage.pending_len()
    }

    /// Whether a barrier waits in the queue: a file was written through
    /// or tiers were emptied, and the caller has to carry out what is
    /// queued before it goes on.
    pub fn writes_through_now(&self) -> (r: bool)
        ensures
            r == self@.storage.batcher.pending.contains(crate::batcher::WriteOpView::Sync),
    {
        self.storage.barrier_waits()
    }

    /// The index as records, for the caller to write to the index
    /// document after a vacuum.
    pub fn index_snapshot(&self) -> (r: Vec<IndexRecord>)
        requires
            self.wf(),
        ensures
            r@.len() == self@.storage.cold.len(),
            restored(records_view(r@)) == self@.storage.cold,
            forall|i: int| 0 <= i < r@.len() ==> (#[trigger] r@[i]).file_exists,
    {
        self.storage.index_snapshot()
    }

    /// Looks the key up at `now`, see `CacheView::after_get`.
    pub fn get_at(&mut self, key: &str, contents: Option<Vec<u8>>, now: u64) -> (r: CacheResult<
        Option<Vec<u8>>,
    >)
        requires
            old(self).wf(),
        ensures
            final(self).wf(),
            old(self)@.after_get(
                final(self)@,
                key@,
                bytes_option_view(contents),
                now,
                payload_view(r),
            ),
    {
        match validate_key(key) {
            Err(e) => {
                return Err(e);
            },
            Ok(_) => {},
        }
        let ghost start = self@;
        let ghost cv = bytes_option_view(contents);
        proof {
            self.storage.lemma_wf();
        }
        let found = match self.storage.get(key, contents, now) {
            Ok(f) => f,
            Err(_) => None,
        };
        let ghost mid = self.storage@;
        let ghost keys = start.storage.key_set();
        let r = match found {
            Some(e) => {
                proof {
                    assert(keys.contains(key@));
                    lemma_covers_accessed(start.eviction, keys, key@, e.access_count);
                }
                self.eviction.on_access(key, &e);
                self.stats.hits = bump(self.stats.hits);
                Some(e.data)
            },
            None => {
                proof {
                    lemma_covers_removed(start.eviction, keys, key@);
                }
                self.eviction.on_remove(key);
                self.stats.misses = bump(self.stats.misses);
                None
            },
        };
        let ghost noted = self@.eviction;
        self.settle();
        self.recount();
        proof {
            let after = self@;
            let lost = start.lost(after, key@);
            assert(after.storage.key_set() == mid.key_set());
            assert(mid.dropped == lost);
            assert(start.unsettled(after, key@) == mid);
            let base = if start.storage.lookup(key@, cv, now) is Some {
                keys
            } else {
                keys.remove(key@)
            };
            assert(noted.covers(base));
            lemma_covers_removed_all(noted, base, lost);
            assert(base.difference(lost) == after.storage.key_set());
        }
        Ok(r)
    }

    /// Looks the key up at the clock's reading.
    pub fn get(&mut self, key: &str, contents: Option<Vec<u8>>) -> (r: CacheResult<Option<Vec<u8>>>)
        requires
            old(self).wf(),
        ensures
            final(self).wf(),
            exists|now: u64| #[trigger]
                old(self)@.after_get(
                    final(self)@,
                    key@,
                    bytes_option_view(contents),
                    now,
                    payload_view(r),
                ),
    {
        let now = current_timestamp();
        self.get_at(key, contents, now)
    }

    /// Deletes the key, see `CacheView::after_delete`.
    pub fn delete(&mut self, key: &str) -> (r: CacheResult<bool>)
        requires
            old(self).wf(),
        ensures
            final(self).wf(),
            old(self)@.after_delete(final(self)@, key@, r),
    {
        match validate_key(key) {
            Err(e) => {
                return Err(e);
            },
            Ok(_) => {},
        }
        let ghost start = self@;
        proof {
            self.storage.lemma_wf();
        }
        let found = match self.storage.delete(key) {
            Ok(f) => f,
            Err(_) => false,
        };
        if found {
            self.eviction.on_remove(key);
            self.stats.deletes = bump(self.stats.deletes);
        }
        self.recount();
        proof {
            let keys = start.storage.key_set();
            lemma_covers_removed(start.eviction, keys, key@);
            if !found {
                assert(keys.remove(key@) == keys);
            }
            assert(self@.storage.key_set() == keys.remove(key@));
        }
        Ok(found)
    }

    /// Whether the key has an entry that has not expired at `now`.
    /// Nothing changes and nothing is counted.
    pub fn contains_at(&self, key: &str, now: u64) -> (r: CacheResult<bool>)
        requires
            self.wf(),
        ensures
            match r {
                Ok(found) => valid_key(key@) && found == self@.storage.live(key@, now),
                Err(e) => e == CacheError::InvalidKey && !valid_key(key@),
            },
    {
        match validate_key(key) {
            Err(e) => {
                return Err(e);
            },
            Ok(_) => {},
        }
        self.storage.contains(key, now)
    }

    /// Whether the key has an entry that has not expired at the clock's
    /// reading.
    pub fn contains(&self, key: &str) -> (r: CacheResult<bool>)
        requires
            self.wf(),
        ensures
            match r {
                Ok(found) => valid_key(key@) && exists|now: u64|
                    found == #[trigger] self@.storage.live(key@, now),
                Err(e) => e == CacheError::InvalidKey && !valid_key(key@),
            },
    {
        let now = current_timestamp();
        self.contains_at(key, now)
    }

    /// Every stored key once, in no particular order. There are as many
    /// as the entry count says.
    pub fn keys(&self) -> (r: CacheResult<Vec<String>>)
        requires
            self.wf(),
        ensures
            r matches Ok(v) && lists_domain(strings_view(v@), self@.storage.key_set()) && v@.len()
                == self@.stats.entry_count,
    {
        let r = self.storage.keys();
        proof {
            self.storage.lemma_wf();
            if r is Ok {
                let ks = strings_view(r->Ok_0@);
                ks.unique_seq_to_set();
                assert(ks.to_set() == self@.storage.key_set());
                assert(ks.len() == r->Ok_0@.len());
                assert(self@.coherent());
                assert(self@.storage.key_set().len() == ks.len());
                let n = r->Ok_0.len();
                assert(ks.len() == n);
                assert(capped_u64(ks.len()) == ks.len());
            }
        }
        r
    }

    /// The bytes that the entries take up: the files of the index and
    /// the entries that only the hot tier has.
    pub fn size(&self) -> (r: CacheResult<u64>)
        requires
            self.wf(),
        ensures
            r == Ok::<u64, CacheError>(capped_u64(self@.storage.total_bytes())),
    {
        self.storage.size()
    }

    /// The serializer that frames what callers have encoded: for the
    /// format and the compression of the settings.
    pub fn serializer(&self) -> (r: &Serializer)
        requires
            self.wf(),
        ensures
            r.compression() == self@.config.compression,
            r is Bincode <==> self@.config.serialization_format == SerializationFormat::Bincode,
    {
        &self.serializer
    }

    /// The counters.
    pub fn stats(&self) -> (r: CacheStats)
        ensures
            r == self@.stats,
    {
        self.stats
    }

    /// The store's counters and tier sizes.
    pub fn memory_stats(&self) -> (r: StorageStatistics)
        requires
            self.wf(),
        ensures
            r.hot_cache_size == self@.storage.hot.len(),
            r.warm_cache_size == self@.storage.warm.len(),
            r.cold_index_size == self@.storage.cold.len(),
            r.hot_hits == self@.storage.stats.hot_hits,
            r.warm_hits == self@.storage.stats.warm_hits,
            r.cold_hits == self@.storage.stats.cold_hits,
            r.misses == self@.storage.stats.misses,
            r.writes == self@.storage.stats.writes,
            r.bytes_written == self@.storage.stats.bytes_written,
            r.bytes_read == self@.storage.stats.bytes_read,
    {
        proof {
            self.storage.lemma_wf();
        }
        self.storage.stats()
    }

    /// Empties the cache: every tier and the bookkeeping hold nothing
    /// any more, the removal of every file is queued with a barrier
    /// behind, and the counters start again.
    pub fn clear(&mut self) -> (r: CacheResult<()>)
        requires
            old(self).wf(),
        ensures
            final(self).wf(),
            r is Ok,
            old(self)@.storage.after_clear(final(self)@.storage),
            final(self)@.eviction == EvictionView::empty(old(self)@.eviction.strategy),
            final(self)@.stats == CacheStats::spec_new(),
            final(self)@.last_vacuum == old(self)@.last_vacuum,
            final(self)@.config == old(self)@.config,
    {
        let _ = self.storage.clear();
        self.eviction.clear();
        self.stats = CacheStats::new();
        proof {
            assert(self@.storage.key_set() == Set::<Seq<char>>::empty());
            lemma_covers_empty(self@.eviction.strategy);
        }
        Ok(())
    }

    /// Runs a vacuum at `now`, see `CacheView::after_vacuum`.
    pub fn vacuum_at(&mut self, now: u64) -> (r: CacheResult<()>)
        requires
            old(self).wf(),
        ensures
            final(self).wf(),
            r is Ok,
            old(self)@.after_vacuum(final(self)@, now),
    {
        let ghost start = self@;
        proof {
            self.storage.lemma_wf();
        }
        let _ = self.storage.vacuum(now);
        let ghost mid = self.storage@;
        self.settle();
        self.last_vacuum = now;
        self.recount();
        proof {
            let after = self@;
            let keys = start.storage.key_set();
            let lost = keys.difference(after.storage.key_set());
            assert(after.storage.key_set() == mid.key_set());
            assert(mid.dropped == lost);
            assert((StorageView { dropped: lost, ..after.storage }) == mid);
            lemma_covers_removed_all(start.eviction, keys, lost);
            assert(keys.difference(lost) == after.storage.key_set());
        }
        Ok(())
    }

    /// Runs a vacuum at the clock's reading.
    pub fn vacuum(&mut self) -> (r: CacheResult<()>)
        requires
            old(self).wf(),
        ensures
            final(self).wf(),
            r is Ok,
            exists|now: u64| #[trigger] old(self)@.after_vacuum(final(self)@, now),
    {
        let now = current_timestamp();
        self.vacuum_at(now)
    }

    /// Evicts the keys one after the other.
    fn evict_all(&mut self, victims: &Vec<String>)
        requires
            old(self).parts_wf(),
            old(self)@.storage.dropped == Set::<Seq<char>>::empty(),
            old(self)@.eviction.covers(old(self)@.storage.key_set()),
        ensures
            final(self).parts_wf(),
            final(self)@ == old(self)@.evicted(strings_view(victims@)),
            final(self)@.storage.dropped == Set::<Seq<char>>::empty(),
            final(self)@.eviction.covers(final(self)@.storage.key_set()),
    {
        let ghost start = self@;
        let ghost vs = strings_view(victims@);
        let mut i: usize = 0;
        assert(vs.take(0) == Seq::<Seq<char>>::empty());
        while i < victims.len()
            invariant
                i <= victims.len(),
                vs == strings_view(victims@),
                self.parts_wf(),
                self@ == start.evicted(vs.take(i as int)),
                self@.storage.dropped == Set::<Seq<char>>::empty(),
                self@.eviction.covers(self@.storage.key_set()),
            decreases victims.len() - i,
        {
            let ghost before = self@;
            let ghost k = vs[i as int];
            assert(k == victims@[i as int]@);
            let _ = self.storage.delete(victims[i].as_str());
            self.eviction.on_remove(victims[i].as_str());
            self.stats.evictions = bump(self.stats.evictions);
            proof {
                let next = vs.take(i as int + 1);
                assert(next.drop_last() == vs.take(i as int));
                assert(next.last() == k);
                lemma_covers_removed(before.eviction, before.storage.key_set(), k);
                assert(self@.storage.key_set() == before.storage.key_set().remove(k));
            }
            i = i + 1;
        }
        assert(vs.take(vs.len() as int) == vs);
    }

    /// Makes room at `now`, see `CacheView::after_evict`.
    pub fn maybe_evict_at(&mut self, now: u64) -> (r: CacheResult<()>)
        requires
            old(self).wf(),
        ensures
            final(self).wf(),
            r is Ok,
            old(self)@.after_evict(final(self)@, now),
    {
        let ghost start = self@;
        proof {
            self.storage.lemma_wf();
        }
        let size = match self.storage.size() {
            Ok(s) => s,
            Err(_) => 0,
        };
        let entries = self.stats.entry_count;
        let count = eviction_target(size, entries, self.config.max_size, self.config.max_entries);
        let n: usize = if count > usize::MAX as u64 {
            usize::MAX
        } else {
            count as usize
        };
        let victims = self.eviction.select_victims_at(n, now);
        assert(strings_view(victims@) == start.victims(now));
        self.evict_all(&victims);
        self.recount();
        let ghost mid = self@;
        proof {
            start.lemma_evicted_keeps(start.victims(now));
        }
        let total = self.stats.entry_count;
        let mut rounds = total;
        let mut going = true;
        while going && rounds > 0
            invariant
                self.parts_wf(),
                self@.storage.dropped == Set::<Seq<char>>::empty(),
                self@.eviction.covers(self@.storage.key_set()),
                self@.config == start.config,
                self@.last_vacuum == start.last_vacuum,
                self@.eviction.strategy == start.eviction.strategy,
                mid.trimmed(now, total as nat) == if going {
                    self@.trimmed(now, rounds as nat)
                } else {
                    self@
                },
            decreases rounds + if going {
                1int
            } else {
                0int
            },
        {
            let ghost before = self@;
            let size = match self.storage.size() {
                Ok(s) => s,
                Err(_) => 0,
            };
            let over = match self.config.max_size {
                Some(m) => size > m,
                None => false,
            };
            if !over {
                going = false;
            } else {
                let one = self.eviction.select_victims_at(1, now);
                if one.len() == 0 {
                    assert(strings_view(one@).len() == 0);
                    going = false;
                } else {
                    assert(strings_view(one@).len() == one@.len());
                    self.evict_all(&one);
                    rounds = rounds - 1;
                    proof {
                        before.lemma_evicted_keeps(strings_view(one@));
                    }
                }
            }
        }
        self.recount();
        proof {
            assert(self@ == start.slimmed(now));
        }
        let due = self.config.auto_vacuum && now > self.last_vacuum && now - self.last_vacuum
            > self.config.vacuum_interval;
        if due {
            assert(self.wf());
            self.vacuum_at(now)
        } else {
            Ok(())
        }
    }

    /// Stores the value under the key at `now`, see
    /// `CacheView::after_set`.
    pub fn set_at(
        &mut self,
        key: &str,
        value: &[u8],
        expire_time: Option<u64>,
        tags: Vec<String>,
        now: u64,
    ) -> (r: CacheResult<()>)
        requires
            old(self).wf(),
        ensures
            final(self).wf(),
            exists|mid: CacheView| #[trigger]
                old(self)@.after_set(
                    mid,
                    final(self)@,
                    key@,
                    value@,
                    expire_time,
                    strings_view(tags@),
                    now,
                    r,
                ),
    {
        match validate_key(key) {
            Err(e) => {
                assert(old(self)@.after_set(
                    old(self)@,
                    self@,
                    key@,
                    value@,
                    expire_time,
                    strings_view(tags@),
                    now,
                    Err::<(), CacheError>(e),
                ));
                return Err(e);
            },
            Ok(_) => {},
        }
        let ghost tv = strings_view(tags@);
        let _ = self.maybe_evict_at(now);
        let ghost mid = self@;
        proof {
            self.storage.lemma_wf();
        }
        let entry = CacheEntry::new_at(
            key.to_owned(),
            vstd::slice::slice_to_vec(value),
            tags,
            expire_time,
            now,
        );
        let ghost e = entry@;
        let copy = entry.duplicate();
        match self.storage.set(key, copy, now) {
            Err(err) => {
                assert(old(self)@.after_set(
                    mid,
                    self@,
                    key@,
                    value@,
                    expire_time,
                    tv,
                    now,
                    Err::<(), CacheError>(err),
                ));
                return Err(err);
            },
            Ok(_) => {},
        }
        let ghost stored = self.storage@;
        let ghost keys = mid.storage.key_set();
        proof {
            lemma_covers_inserted(mid.eviction, keys, key@, e.access_count, e.expire_time);
        }
        self.eviction.on_insert(key, &entry);
        self.stats.sets = bump(self.stats.sets);
        self.stats.total_size = add_capped(self.stats.total_size, entry.size);
        let ghost noted = self@.eviction;
        self.settle();
        self.recount();
        proof {
            let after = self@;
            let lost = mid.lost(after, key@);
            assert(after.storage.key_set() == stored.key_set());
            assert(stored.dropped == lost);
            assert(mid.unsettled(after, key@) == stored);
            lemma_covers_removed_all(noted, keys.insert(key@), lost);
            assert(keys.insert(key@).difference(lost) == after.storage.key_set());
            assert(mid.after_store(after, key@, e, now));
            assert(old(self)@.after_set(
                mid,
                after,
                key@,
                value@,
                expire_time,
                tv,
                now,
                Ok::<(), CacheError>(()),
            ));
        }
        Ok(())
    }

    /// Stores the value under the key at the clock's reading.
    pub fn set(&mut self, key: &str, value: &[u8], expire_time: Option<u64>, tags: Vec<String>) -> (r:
        CacheResult<()>)
        requires
            old(self).wf(),
        ensures
            final(self).wf(),
            exists|now: u64, mid: CacheView| #[trigger]
                old(self)@.after_set(
                    mid,
                    final(self)@,
                    key@,
                    value@,
                    expire_time,
                    strings_view(tags@),
                    now,
                    r,
                ),
    {
        let now = current_timestamp();
        self.set_at(key, value, expire_time, tags, now)
    }
}

} // verus!
