//! The tiered store: hot entries in memory, cold entries in files, and
//! the bookkeeping of the files that are mapped into memory.

use vstd::prelude::*;
use bytes::Bytes;
use dashmap::DashMap;
use crate::batcher::{BatcherState, BatcherView, WriteBatcher, WriteOp, WriteOpView};
use crate::codec::{decode_entry, encode_entry, spec_decode, spec_encode};
use crate::error::{CacheError, CacheResult};
use crate::layout::{build_file_path, WriteMode};
use crate::serialization::{
    decompress_frame,
    is_readable_frame,
    lemma_short_frame_is_readable,
    lz4_compress,
    lz4_frame,
    readable_frame,
    spec_decompress_frame,
    strings_view,
    CacheEntry,
    CacheEntryView,
    MAX_FRAME_INPUT,
    MAX_LENGTH_RUN,
};
use crate::storage::model::{
    capped_u64,
    cold_adder,
    entries_view,
    hot_adder,
    hot_excess,
    keys_in,
    stale,
    stored_as,
    stored_in_turn,
    unmapped,
    waits,
    StorageView,
};
use crate::storage::{records_view, restored, IndexRecord, IndexRecordView, StorageBackend};
use crate::tiers::{
    capacity_hint,
    cold_clear,
    cold_contains,
    cold_contents,
    cold_get,
    cold_insert,
    cold_keys,
    cold_len,
    cold_new,
    cold_remove,
    hot_clear,
    hot_contains,
    hot_contents,
    hot_get,
    hot_insert,
    hot_keys,
    hot_len,
    hot_new,
    hot_remove,
    lists_domain,
    warm_clear,
    warm_contents,
    warm_get,
    warm_insert,
    warm_keys,
    warm_len,
    warm_new,
    warm_remove,
    FileInfo,
    FileInfoView,
    WarmEntry,
};
use crate::utils::{add_capped, bump};

verus! {

/// Payloads below this size are copied into the hot tier when read.
pub const HOT_PROMOTE_LIMIT: usize = 4096;

/// A mapped file that was not read for longer than this many seconds may
/// be unmapped when the warm tier overflows.
pub const WARM_STALE_SECS: u64 = 300;

/// Payloads above this size are written through at once.
pub const WRITE_THROUGH_LIMIT: usize = 1048576;

/// The store's settings.
#[derive(Debug, Clone, Copy)]
pub struct StorageConfig {
    /// Most entries that the hot tier holds; zero turns it off.
    pub hot_cache_size: usize,
    /// Most files that stay mapped.
    pub warm_cache_size: usize,
    /// Payloads below this size may be mapped once read from disk.
    pub mmap_threshold: usize,
    /// Writes that the batcher collects before it hands them out.
    pub batch_size: usize,
    /// Payloads of this size or more are compressed where that pays.
    pub compression_threshold: usize,
    pub use_compression: bool,
    /// Every write is handed out at once.
    pub sync_writes: bool,
    /// Payloads below this size stay in memory only.
    pub disk_write_threshold: usize,
    /// Files are written under an exclusive lock.
    pub use_file_locking: bool,
}

impl StorageConfig {
    /// The settings that a store has unless told otherwise.
    pub open spec fn spec_default() -> StorageConfig {
        StorageConfig {
            hot_cache_size: 10000,
            warm_cache_size: 1000,
            mmap_threshold: 65536,
            batch_size: 100,
            compression_threshold: 1024,
            use_compression: true,
            sync_writes: false,
            disk_write_threshold: 1024,
            use_file_locking: false,
        }
    }
}

impl Default for StorageConfig {
    fn default() -> (r: Self)
        ensures
            r == StorageConfig::spec_default(),
    {
        StorageConfig {
            hot_cache_size: 10000,
            warm_cache_size: 1000,
            mmap_threshold: 65536,
            batch_size: 100,
            compression_threshold: 1024,
            use_compression: true,
            sync_writes: false,
            disk_write_threshold: 1024,
            use_file_locking: false,
        }
    }
}

/// Counters of the store. Each one saturates.
#[derive(Debug, Clone, Copy, PartialEq, Eq, Structural)]
pub struct StorageStats {
    pub hot_hits: u64,
    pub warm_hits: u64,
    pub cold_hits: u64,
    pub misses: u64,
    pub writes: u64,
    pub bytes_written: u64,
    pub bytes_read: u64,
}

impl StorageStats {
    pub open spec fn spec_new() -> StorageStats {
        StorageStats {
            hot_hits: 0,
            warm_hits: 0,
            cold_hits: 0,
            misses: 0,
            writes: 0,
            bytes_written: 0,
            bytes_read: 0,
        }
    }

    #[verifier::when_used_as_spec(spec_new)]
    pub fn new() -> (r: StorageStats)
        ensures
            r == StorageStats::spec_new(),
    {
        StorageStats {
            hot_hits: 0,
            warm_hits: 0,
            cold_hits: 0,
            misses: 0,
            writes: 0,
            bytes_written: 0,
            bytes_read: 0,
        }
    }

    pub fn record_hot_hit(&mut self)
        ensures
            *final(self) == (StorageStats { hot_hits: bump(old(self).hot_hits), ..*old(self) }),
    {
        self.hot_hits = bump(self.hot_hits);
    }

    pub fn record_warm_hit(&mut self)
        ensures
            *final(self) == (StorageStats { warm_hits: bump(old(self).warm_hits), ..*old(self) }),
    {
        self.warm_hits = bump(self.warm_hits);
    }

    pub fn record_cold_hit(&mut self)
        ensures
            *final(self) == (StorageStats { cold_hits: bump(old(self).cold_hits), ..*old(self) }),
    {
        self.cold_hits = bump(self.cold_hits);
    }

    pub fn record_miss(&mut self)
        ensures
            *final(self) == (StorageStats { misses: bump(old(self).misses), ..*old(self) }),
    {
        self.misses = bump(self.misses);
    }

    pub fn record_write(&mut self, bytes: u64)
        ensures
            *final(self) == (StorageStats {
                writes: bump(old(self).writes),
                bytes_written: add_capped(old(self).bytes_written, bytes),
                ..*old(self)
            }),
    {
        self.writes = bump(self.writes);
        self.bytes_written = add_capped(self.bytes_written, bytes);
    }

    pub fn record_read(&mut self, bytes: u64)
        ensures
            *final(self) == (StorageStats {
                bytes_read: add_capped(old(self).bytes_read, bytes),
                ..*old(self)
            }),
    {
        self.bytes_read = add_capped(self.bytes_read, bytes);
    }
}

/// A snapshot of the store's counters and tier sizes.
#[derive(Debug, Clone, Copy, PartialEq, Eq, Structural)]
pub struct StorageStatistics {
    pub hot_hits: u64,
    pub warm_hits: u64,
    pub cold_hits: u64,
    pub misses: u64,
    pub writes: u64,
    pub bytes_written: u64,
    pub bytes_read: u64,
    pub hot_cache_size: usize,
    pub warm_cache_size: usize,
    pub cold_index_size: usize,
}

/// Whether a frame pays: it is smaller than 90% of the payload.
pub open spec fn frame_pays(data_len: int, frame_len: int) -> bool {
    10 * frame_len < 9 * data_len
}

/// Whether compressing pays: compression is on, the payload has reached
/// the threshold, and the frame pays.
pub open spec fn compression_pays(config: StorageConfig, data_len: int, frame_len: int) -> bool {
    &&& config.use_compression
    &&& data_len >= config.compression_threshold
    &&& frame_pays(data_len, frame_len)
}

/// Whether `frame` is stored in place of the payload: compressing pays,
/// and the frame can be read back, which is to say that the payload's
/// length fits the frame's size prefix and the frame is readable.
pub open spec fn keeps_frame(config: StorageConfig, data: Seq<u8>, frame: Seq<u8>) -> bool {
    &&& compression_pays(config, data.len() as int, frame.len() as int)
    &&& data.len() <= MAX_FRAME_INPUT
    &&& readable_frame(frame)
}

/// Whether the payload is stored as its LZ4 frame.
pub open spec fn stored_compressed(config: StorageConfig, data: Seq<u8>) -> bool {
    keeps_frame(config, data, lz4_frame(data))
}

/// A payload whose length fits a frame's size prefix, with a frame of
/// fewer than `MAX_LENGTH_RUN` bytes, is stored compressed exactly when
/// compressing pays.
pub proof fn lemma_stored_compressed(config: StorageConfig, data: Seq<u8>)
    requires
        data.len() <= MAX_FRAME_INPUT,
        lz4_frame(data).len() < MAX_LENGTH_RUN,
    ensures
        stored_compressed(config, data) == compression_pays(
            config,
            data.len() as int,
            lz4_frame(data).len() as int,
        ),
{
    lemma_short_frame_is_readable(lz4_frame(data));
}

/// The frame where it pays, the payload otherwise, and whether it is the
/// frame.
pub fn pick_stored(data: Vec<u8>, frame: Vec<u8>) -> (r: (Vec<u8>, bool))
    ensures
        r.1 == frame_pays(data@.len() as int, frame@.len() as int),
        r.0@ == if r.1 {
            frame@
        } else {
            data@
        },
{
    let nine_tenths: u128 = (data.len() as u128) * 9;
    let tenfold: u128 = (frame.len() as u128) * 10;
    if tenfold < nine_tenths {
        (frame, true)
    } else {
        (data, false)
    }
}

/// What is stored for a payload, once its frame has been made: the frame
/// where `keeps_frame` says so, the payload itself otherwise, and
/// whether it is the frame.
pub fn choose_stored(config: &StorageConfig, data: Vec<u8>, frame: Vec<u8>) -> (r: (Vec<u8>, bool))
    ensures
        r.1 == keeps_frame(*config, data@, frame@),
        r.0@ == if r.1 {
            frame@
        } else {
            data@
        },
{
    if !config.use_compression || data.len() < config.compression_threshold || data.len()
        > MAX_FRAME_INPUT {
        return (data, false);
    }
    if !is_readable_frame(frame.as_slice()) {
        return (data, false);
    }
    pick_stored(data, frame)
}

/// The payload as it is stored: the LZ4 frame where compressing pays, the
/// payload itself otherwise, and also where the frame could not be read
/// back. Either way the payload is recovered from what is stored.
pub fn compress_if_beneficial(config: &StorageConfig, data: &[u8]) -> (r: (Vec<u8>, bool))
    ensures
        r.1 == stored_compressed(*config, data@),
        r.1 ==> r.0@ == lz4_frame(data@),
        !r.1 ==> r.0@ == data@,
        spec_decompress(r.0@, r.1) == Some(data@),
{
    if !config.use_compression || data.len() < config.compression_threshold || data.len()
        > MAX_FRAME_INPUT {
        return (vstd::slice::slice_to_vec(data), false);
    }
    let frame = lz4_compress(data);
    choose_stored(config, vstd::slice::slice_to_vec(data), frame)
}

/// The payload that stored bytes stand for: the bytes themselves, or,
/// where they are said to be a frame, what is recovered from the frame.
pub open spec fn spec_decompress(data: Seq<u8>, is_compressed: bool) -> Option<Seq<u8>> {
    if is_compressed {
        spec_decompress_frame(data)
    } else {
        Some(data)
    }
}

/// The payload that stored bytes stand for; `Deserialization` where they
/// are said to be a frame and are none, or are a frame that is not
/// readable.
pub fn decompress_if_needed(data: Vec<u8>, is_compressed: bool) -> (r: CacheResult<Vec<u8>>)
    ensures
        match r {
            Ok(v) => spec_decompress(data@, is_compressed) == Some(v@),
            Err(e) => e == CacheError::Deserialization && spec_decompress(data@, is_compressed)
                is None,
        },
{
    if !is_compressed {
        return Ok(data);
    }
    match decompress_frame(data.as_slice()) {
        Some(v) => Ok(v),
        None => Err(CacheError::Deserialization),
    }
}

/// The envelope that a file's bytes stand for: the envelope inside, with
/// the payload decompressed where the index says that it is a frame.
pub open spec fn recover(file: Seq<u8>, is_compressed: bool) -> Option<CacheEntryView> {
    match spec_decode(file) {
        Some(e) => match spec_decompress(e.data, is_compressed) {
            Some(d) => Some(CacheEntryView { data: d, ..e }),
            None => None,
        },
        None => None,
    }
}

/// Reads an envelope back from a file's bytes.
pub fn recover_entry(file: &[u8], is_compressed: bool) -> (r: CacheResult<CacheEntry>)
    ensures
        match r {
            Ok(e) => recover(file@, is_compressed) == Some(e@),
            Err(err) => err == CacheError::Deserialization && recover(file@, is_compressed)
                is None,
        },
{
    let e = decode_entry(file)?;
    let CacheEntry { key, data, created_at, accessed_at, access_count, size, tags, expire_time } =
        e;
    let payload = decompress_if_needed(data, is_compressed)?;
    Ok(CacheEntry { key, data: payload, created_at, accessed_at, access_count, size, tags, expire_time })
}

/// The bytes of an entry's file, and whether the payload inside is a
/// frame.
pub fn file_bytes(config: &StorageConfig, entry: &CacheEntry) -> (r: (Vec<u8>, bool))
    ensures
        recover(r.0@, r.1) == Some(entry@),
        r.1 == stored_compressed(*config, entry@.data),
        r.0@ == spec_encode(
            CacheEntryView {
                data: if r.1 {
                    lz4_frame(entry@.data)
                } else {
                    entry@.data
                },
                ..entry@
            },
        ),
{
    let (stored, compressed) = compress_if_beneficial(config, entry.data.as_slice());
    let shell = CacheEntry {
        key: entry.key.clone(),
        data: stored,
        created_at: entry.created_at,
        accessed_at: entry.accessed_at,
        access_count: entry.access_count,
        size: entry.size,
        tags: crate::serialization::clone_strings(&entry.tags),
        expire_time: entry.expire_time,
    };
    let bytes = encode_entry(&shell);
    assert(recover(bytes@, compressed) == Some(entry@)) by {
        let e = shell@;
        assert(spec_decode(bytes@) == Some(e));
        assert(spec_decompress(e.data, compressed) == Some(entry@.data));
        assert((CacheEntryView { data: entry@.data, ..e }) == entry@);
    }
    (bytes, compressed)
}

/// The tiered store.
pub struct OptimizedStorage {
    directory: String,
    hot_cache: DashMap<String, Bytes>,
    warm_cache: DashMap<String, WarmEntry>,
    cold_index: DashMap<String, FileInfo>,
    write_batcher: WriteBatcher,
    dropped: Vec<String>,
    config: StorageConfig,
    write_mode: WriteMode,
    stats: StorageStats,
}

impl View for OptimizedStorage {
    type V = StorageView;

    closed spec fn view(&self) -> StorageView {
        StorageView {
            hot: hot_contents(self.hot_cache),
            warm: warm_contents(self.warm_cache),
            cold: cold_contents(self.cold_index),
            batcher: self.write_batcher@,
            dropped: keys_in(self.dropped@),
            stats: self.stats,
            config: self.config,
            directory: self.directory@,
            write_mode: self.write_mode,
        }
    }
}

impl OptimizedStorage {
    /// The tiers are finite, every mapped file is a file of the index,
    /// every hot entry has a file or is small enough to live without
    /// one, and the batcher is consistent.
    pub closed spec fn consistent(&self) -> bool {
        &&& self@.hot.dom().finite()
        &&& self@.warm.dom().finite()
        &&& self@.cold.dom().finite()
        &&& self@.warm.dom().subset_of(self@.cold.dom())
        &&& self@.hot_backed()
        &&& self.write_batcher.wf()
    }

    /// What `wf` says, for callers.
    pub proof fn lemma_wf(&self)
        requires
            self.wf(),
        ensures
            self@.hot.dom().finite(),
            self@.warm.dom().finite(),
            self@.cold.dom().finite(),
            self@.warm.dom().subset_of(self@.cold.dom()),
            self@.key_set().finite(),
            self@.key_set() == self@.hot.dom().union(self@.cold.dom()),
            self@.hot_backed(),
            self@.hot.len() <= self@.config.hot_cache_size,
            self@.config.hot_cache_size == 0 ==> self@.hot == Map::<Seq<char>, Seq<u8>>::empty(),
    {
        assert(self@.key_set() == self@.hot.dom().union(self@.cold.dom()));
        if self@.config.hot_cache_size == 0 {
            assert(self@.hot.dom() == Set::<Seq<char>>::empty()) by {
                self@.hot.dom().lemma_len0_is_empty();
            }
            assert(self@.hot == Map::<Seq<char>, Seq<u8>>::empty());
        }
    }

    /// An empty store below `directory` with the usual settings.
    pub fn new(directory: &str) -> (r: CacheResult<Self>)
        ensures
            match r {
                Ok(s) => directory@.len() > 0 && s.wf() && s@ == OptimizedStorage::empty_view(
                    directory@,
                    StorageConfig::spec_default(),
                ),
                Err(e) => e == CacheError::InvalidConfig && directory@.len() == 0,
            },
    {
        OptimizedStorage::with_config(directory, StorageConfig::default())
    }

    /// The view of an empty store.
    pub open spec fn empty_view(directory: Seq<char>, config: StorageConfig) -> StorageView {
        StorageView {
            hot: Map::empty(),
            warm: Map::empty(),
            cold: Map::empty(),
            batcher: BatcherView {
                pending: Seq::empty(),
                buffered: Seq::empty(),
                state: BatcherState::Running,
                batch_size: config.batch_size as nat,
            },
            dropped: Set::empty(),
            stats: StorageStats::spec_new(),
            config,
            directory,
            write_mode: if config.use_file_locking {
                WriteMode::Locked
            } else {
                WriteMode::Direct
            },
        }
    }

    /// An empty store below `directory`. A store needs a directory:
    /// without one the settings are refused.
    pub fn with_config(directory: &str, config: StorageConfig) -> (r: CacheResult<Self>)
        ensures
            match r {
                Ok(s) => directory@.len() > 0 && s.wf() && s@ == OptimizedStorage::empty_view(
                    directory@,
                    config,
                ),
                Err(e) => e == CacheError::InvalidConfig && directory@.len() == 0,
            },
    {
        if directory.is_empty() {
            return Err(CacheError::InvalidConfig);
        }
        let write_mode = if config.use_file_locking {
            WriteMode::Locked
        } else {
            WriteMode::Direct
        };
        let s = OptimizedStorage {
            directory: directory.to_owned(),
            hot_cache: hot_new(capacity_hint(config.hot_cache_size)),
            warm_cache: warm_new(capacity_hint(config.warm_cache_size)),
            cold_index: cold_new(),
            write_batcher: WriteBatcher::new(config.batch_size),
            dropped: Vec::new(),
            config,
            write_mode,
            stats: StorageStats::new(),
        };
        proof {
            assert(strings_view(s.dropped@) == Seq::<Seq<char>>::empty());
            assert(keys_in(s.dropped@) == Set::<Seq<char>>::empty());
            assert(s@.batcher == OptimizedStorage::empty_view(directory@, config).batcher);
            assert(s@ == OptimizedStorage::empty_view(directory@, config));
        }
        Ok(s)
    }

    /// Chooses how files are written from now on.
    pub fn set_write_mode(&mut self, mode: WriteMode)
        requires
            old(self).wf(),
        ensures
            final(self).wf(),
            final(self)@ == (StorageView { write_mode: mode, ..old(self)@ }),
    {
        self.write_mode = mode;
    }

    /// Notes a key that left the store without being asked to.
    fn note_dropped(&mut self, key: String)
        ensures
            final(self)@ == (StorageView { dropped: old(self)@.dropped.insert(key@), ..old(self)@ }),
            final(self).wf() == old(self).wf(),
            final(self).consistent() == old(self).consistent(),
    {
        let ghost before = strings_view(self.dropped@);
        let ghost k = key@;
        self.dropped.push(key);
        proof {
            let after = strings_view(self.dropped@);
            assert(after == before.push(k));
            assert(after.to_set() == before.to_set().insert(k)) by {
                assert forall|x: Seq<char>| after.to_set().contains(x) <==> before.to_set().insert(
                    k,
                ).contains(x) by {
                    if after.contains(x) {
                        let i = choose|i: int| 0 <= i < after.len() && after[i] == x;
                        if i < before.len() {
                            assert(before[i] == x);
                        }
                    }
                    if before.contains(x) {
                        let i = choose|i: int| 0 <= i < before.len() && before[i] == x;
                        assert(after[i] == x);
                    }
                    assert(after[after.len() - 1] == k);
                }
            }
        }
    }

    /// Hands over the keys that left the store without being asked to
    /// since this was last called.
    pub fn take_dropped(&mut self) -> (r: Vec<String>)
        ensures
            keys_in(r@) == old(self)@.dropped,
            final(self)@ == (StorageView { dropped: Set::empty(), ..old(self)@ }),
            final(self).wf() == old(self).wf(),
    {
        let mut out: Vec<String> = Vec::new();
        std::mem::swap(&mut out, &mut self.dropped);
        assert(strings_view(self.dropped@) == Seq::<Seq<char>>::empty());
        assert(keys_in(self.dropped@) == Set::<Seq<char>>::empty());
        out
    }

    /// Brings an overflowing hot tier back under its capacity: entries
    /// leave it in no particular order, `hot_excess` of them, the one
    /// under `protect` never. An entry that has no file is lost with
    /// that, and its key is noted as dropped.
    fn cleanup_hot_cache(&mut self, protect: &String)
        requires
            old(self).consistent(),
        ensures
            final(self).consistent(),
            final(self)@.hot.submap_of(old(self)@.hot),
            old(self)@.hot.contains_key(protect@) ==> final(self)@.hot.contains_key(protect@),
            old(self)@.hot.len() <= old(self)@.config.hot_cache_size ==> final(self)@ == old(self)@,
            old(self)@.config.hot_cache_size > 0 ==> final(self)@.hot.len() == old(self)@.hot.len()
                - hot_excess(
                old(self)@.hot.len() as int,
                old(self)@.config.hot_cache_size as int,
            ),
            final(self)@.dropped == old(self)@.dropped.union(
                old(self)@.hot.dom().difference(final(self)@.hot.dom()).difference(
                    old(self)@.cold.dom(),
                ),
            ),
            final(self)@ == (StorageView {
                hot: final(self)@.hot,
                dropped: final(self)@.dropped,
                ..old(self)@
            }),
    {
        let len = hot_len(&self.hot_cache);
        let cap = self.config.hot_cache_size;
        if len <= cap {
            assert(self@.dropped == self@.dropped.union(
                self@.hot.dom().difference(self@.hot.dom()).difference(self@.cold.dom()),
            ));
            return ;
        }
        let tenth = cap / 10;
        let excess = if len - cap >= tenth {
            len - cap
        } else {
            tenth
        };
        assert(excess == hot_excess(len as int, cap as int));
        let keys = hot_keys(&self.hot_cache);
        let ghost ks = strings_view(keys@);
        let ghost start = self@;
        let mut removed: usize = 0;
        let mut i: usize = 0;
        let ghost mut skipped: int = 0;
        proof {
            assert(ks.len() == len) by {
                ks.unique_seq_to_set();
                assert(ks.to_set() == start.hot.dom());
            }
            assert(start.dropped == start.dropped.union(
                start.hot.dom().difference(start.hot.dom()).difference(start.cold.dom()),
            ));
        }
        while i < keys.len()
            invariant
                i <= keys.len(),
                ks == strings_view(keys@),
                ks.len() == len,
                lists_domain(ks, start.hot.dom()),
                start == old(self)@,
                old(self).consistent(),
                self.consistent(),
                removed <= excess,
                removed <= i,
                0 <= skipped <= 1,
                skipped == 1 <==> exists|j: int| 0 <= j < i && ks[j] == protect@,
                removed == excess || removed + skipped == i,
                self@.hot.submap_of(start.hot),
                self@.hot.len() + removed == len,
                forall|j: int| i <= j < ks.len() ==> self@.hot.contains_key(#[trigger] ks[j]),
                start.hot.contains_key(protect@) ==> self@.hot.contains_key(protect@),
                self@.dropped == start.dropped.union(
                    start.hot.dom().difference(self@.hot.dom()).difference(start.cold.dom()),
                ),
                self@ == (StorageView { hot: self@.hot, dropped: self@.dropped, ..start }),
            decreases keys.len() - i,
        {
            let ghost k = ks[i as int];
            assert(k == keys@[i as int]@);
            let ghost before = self@;
            if removed < excess && keys[i] != *protect {
                hot_remove(&mut self.hot_cache, keys[i].as_str());
                removed = removed + 1;
                let in_cold = cold_contains(&self.cold_index, keys[i].as_str());
                if !in_cold {
                    self.note_dropped(keys[i].clone());
                }
                proof {
                    assert(self@.hot == before.hot.remove(k));
                    assert(self@.hot.submap_of(start.hot)) by {
                        assert forall|x: Seq<char>| #[trigger]
                            self@.hot.dom().contains(x) implies start.hot.dom().contains(x)
                            && self@.hot[x] == start.hot[x] by {
                            assert(before.hot.submap_of(start.hot));
                            assert(before.hot.dom().contains(x));
                            assert(start.hot.dom().contains(x) ==> before.hot[x] == start.hot[x]);
                            assert(start.hot.dom().contains(x));
                        }
                    }
                    assert forall|j: int| i < j < ks.len() implies self@.hot.contains_key(
                        #[trigger] ks[j],
                    ) by {
                        assert(ks[j] != ks[i as int]);
                    }
                    assert(self@.dropped == start.dropped.union(
                        start.hot.dom().difference(self@.hot.dom()).difference(start.cold.dom()),
                    ));
                    assert(ks[i as int] != protect@);
                }
            } else {
                proof {
                    if k == protect@ {
                        assert(skipped == 0) by {
                            if skipped == 1 {
                                let j = choose|j: int| 0 <= j < i && ks[j] == protect@;
                                assert(ks[j] == ks[i as int]);
                            }
                        }
                        skipped = 1;
                        assert(ks[i as int] == protect@);
                    }
                }
            }
            i = i + 1;
        }
        proof {
            if cap > 0 {
                assert(removed == excess);
            }
        }
    }

    /// Unmaps files of an overflowing warm tier: files that are stale at
    /// `now`, in no particular order, a tenth of the capacity at most.
    fn cleanup_warm_cache(&mut self, now: u64)
        requires
            old(self).wf(),
        ensures
            final(self).wf(),
            final(self)@ == (StorageView { warm: final(self)@.warm, ..old(self)@ }),
            unmapped(
                old(self)@.warm,
                final(self)@.warm,
                old(self)@.config.warm_cache_size,
                now,
            ),
    {
        let len = warm_len(&self.warm_cache);
        if len <= self.config.warm_cache_size {
            return ;
        }
        let limit = self.config.warm_cache_size / 10;
        let keys = warm_keys(&self.warm_cache);
        let ghost ks = strings_view(keys@);
        let ghost start = self@;
        let mut removed: usize = 0;
        let mut i: usize = 0;
        proof {
            assert(ks.len() == len) by {
                ks.unique_seq_to_set();
                assert(ks.to_set() == start.warm.dom());
            }
        }
        while i < keys.len()
            invariant
                i <= keys.len(),
                ks == strings_view(keys@),
                ks.len() == len,
                lists_domain(ks, start.warm.dom()),
                start == old(self)@,
                old(self).wf(),
                self.wf(),
                removed <= limit,
                removed <= i,
                limit == start.config.warm_cache_size / 10,
                self@ == (StorageView { warm: self@.warm, ..start }),
                self@.warm.submap_of(start.warm),
                self@.warm.len() + removed == len,
                forall|j: int| i <= j < ks.len() ==> self@.warm.contains_key(#[trigger] ks[j]),
                forall|k: Seq<char>|
                    start.warm.contains_key(k) && !self@.warm.contains_key(k) ==> stale(
                        #[trigger] start.warm[k],
                        now,
                    ),
                removed == limit || forall|j: int|
                    0 <= j < i && self@.warm.contains_key(#[trigger] ks[j]) ==> !stale(
                        start.warm[ks[j]],
                        now,
                    ),
            decreases keys.len() - i,
        {
            let ghost k = ks[i as int];
            assert(k == keys@[i as int]@);
            let ghost before = self@;
            if removed < limit {
                match warm_get(&self.warm_cache, keys[i].as_str()) {
                    Some(entry) => {
                        assert(self@.warm.dom().contains(k));
                        assert(ks.contains(k));
                        assert(start.warm.dom().contains(k));
                        assert(entry == start.warm[k]);
                        if now > entry.last_accessed && now - entry.last_accessed
                            > WARM_STALE_SECS {
                            warm_remove(&mut self.warm_cache, keys[i].as_str());
                            removed = removed + 1;
                            proof {
                                assert(self@.warm == before.warm.remove(k));
                                assert(self@.warm.submap_of(start.warm)) by {
                                    assert forall|x: Seq<char>| #[trigger]
                                        self@.warm.dom().contains(x) implies start.warm.dom().contains(
                                        x,
                                    ) && self@.warm[x] == start.warm[x] by {
                                        assert(before.warm.submap_of(start.warm));
                                        assert(before.warm.dom().contains(x));
                                        assert(start.warm.dom().contains(x) ==> before.warm[x]
                                            == start.warm[x]);
                                        assert(start.warm.dom().contains(x));
                                    }
                                }
                                assert forall|j: int| i < j < ks.len() implies self@.warm.contains_key(
                                    #[trigger] ks[j],
                                ) by {
                                    assert(ks[j] != ks[i as int]);
                                }
                            }
                        } else {
                            assert(!stale(start.warm[ks[i as int]], now));
                        }
                    },
                    None => {},
                }
            }
            i = i + 1;
        }
        proof {
            if removed != limit {
                assert forall|k: Seq<char>| self@.warm.contains_key(k) implies !stale(
                    #[trigger] self@.warm[k],
                    now,
                ) by {
                    assert(start.warm.contains_key(k));
                    assert(ks.contains(k));
                    let j = choose|j: int| 0 <= j < ks.len() && ks[j] == k;
                    assert(self@.warm.contains_key(ks[j]));
                }
            }
        }
    }
}

impl OptimizedStorage {
    /// Queues a file operation, as far as the batcher still takes any.
    fn queue_op(&mut self, op: WriteOp)
        requires
            old(self).wf(),
        ensures
            final(self).wf(),
            final(self)@ == old(self)@.queued(op@),
    {
        self.write_batcher.enqueue(op);
    }

    /// Takes the key out of every tier and queues the removal of its
    /// file.
    fn delete_key(&mut self, key: &str) -> (found: bool)
        requires
            old(self).wf(),
        ensures
            final(self).wf(),
            found == old(self)@.key_set().contains(key@),
            final(self)@ == old(self)@.deleted(key@),
            final(self)@.key_set() == old(self)@.key_set().remove(key@),
    {
        let in_hot = hot_remove(&mut self.hot_cache, key).is_some();
        let in_warm = warm_remove(&mut self.warm_cache, key).is_some();
        let found = match cold_remove(&mut self.cold_index, key) {
            Some(info) => {
                self.queue_op(WriteOp::Delete { path: info.path });
                true
            },
            None => in_hot || in_warm,
        };
        proof {
            assert(self@.key_set() == old(self)@.key_set().remove(key@));
            if old(self)@.config.hot_cache_size == 0 {
                assert(self@.hot.dom() == old(self)@.hot.dom().remove(key@));
            }
        }
        found
    }

    /// Takes the key out of every tier and leaves its file in place.
    fn forget_key(&mut self, key: &str)
        requires
            old(self).wf(),
        ensures
            final(self).wf(),
            final(self)@ == old(self)@.without_key(key@),
            final(self)@.key_set() == old(self)@.key_set().remove(key@),
    {
        hot_remove(&mut self.hot_cache, key);
        warm_remove(&mut self.warm_cache, key);
        cold_remove(&mut self.cold_index, key);
        proof {
            assert(self@.key_set() == old(self)@.key_set().remove(key@));
        }
    }

    /// The file that the caller has to read before it looks the key up
    /// at `now`, if there is one.
    pub fn read_request(&self, key: &str, now: u64) -> (r: Option<String>)
        requires
            self.wf(),
        ensures
            match r {
                Some(path) => self@.file_needed(key@, now) == Some(path@),
                None => self@.file_needed(key@, now) is None,
            },
    {
        if hot_contains(&self.hot_cache, key) {
            return None;
        }
        match cold_get(&self.cold_index, key) {
            Some(info) => {
                if info.is_expired_at(now) {
                    None
                } else {
                    Some(info.path)
                }
            },
            None => None,
        }
    }

    /// Queues the entry's file and brings the index up to date.
    fn write_file(&mut self, key: &str, entry: &CacheEntry, path: String, created_at: u64)
        requires
            old(self).wf(),
            old(self)@.batcher.state == BatcherState::Running,
            old(self)@.warm.dom().subset_of(old(self)@.cold.dom().insert(key@)),
        ensures
            final(self).wf(),
            final(self)@ == old(self)@.with_file(key@, entry@, path@, created_at),
            recover(old(self)@.file_of(entry@), old(self)@.file_compressed(entry@)) == Some(entry@),
    {
        let (bytes, compressed) = file_bytes(&self.config, entry);
        let through = self.config.sync_writes || self.config.use_file_locking || entry.data.len()
            > WRITE_THROUGH_LIMIT;
        let info = FileInfo {
            path: path.clone(),
            size: bytes.len() as u64,
            created_at,
            compressed,
            expire_time: entry.expire_time,
        };
        cold_insert(&mut self.cold_index, key.to_owned(), info);
        self.write_batcher.enqueue(WriteOp::Write { path, data: bytes, mode: self.write_mode });
        if through {
            self.write_batcher.enqueue(WriteOp::Sync);
        }
        proof {
            assert(self@.batcher == old(self)@.with_file(
                key@,
                entry@,
                path@,
                created_at,
            ).batcher);
        }
    }

    /// Stands the encoded entry in the hot tier and brings the tier back
    /// under its capacity.
    fn put_hot(&mut self, key: &str, entry: &CacheEntry)
        requires
            old(self).wf(),
            old(self)@.config.hot_cache_size > 0,
            old(self)@.cold.contains_key(key@) || entry@.data.len() < old(
                self,
            )@.config.disk_write_threshold,
        ensures
            final(self).wf(),
            final(self)@ == (StorageView {
                hot: final(self)@.hot,
                dropped: final(self)@.dropped,
                ..old(self)@
            }),
            final(self)@.hot.submap_of(old(self)@.hot.insert(key@, spec_encode(entry@))),
            final(self)@.hot.contains_key(key@),
            final(self)@.hot[key@] == spec_encode(entry@),
            final(self)@.hot.len() == old(self)@.hot.insert(key@, spec_encode(entry@)).len()
                - hot_excess(
                old(self)@.hot.insert(key@, spec_encode(entry@)).len() as int,
                old(self)@.config.hot_cache_size as int,
            ),
            final(self)@.dropped == old(self)@.dropped.union(
                old(self)@.hot.insert(key@, spec_encode(entry@)).dom().difference(
                    final(self)@.hot.dom(),
                ).difference(old(self)@.cold.dom()),
            ),
    {
        let k = key.to_owned();
        hot_insert(&mut self.hot_cache, key.to_owned(), encode_entry(entry));
        let ghost ins = self@.hot;
        assert(self.consistent());
        self.cleanup_hot_cache(&k);
        proof {
            assert(self@.hot.dom().contains(key@));
            assert(ins.dom().contains(key@));
            assert(self@.hot[key@] == ins[key@]);
        }
    }
}

impl OptimizedStorage {
    /// The bytes that the files of the index take up.
    fn cold_size(&self) -> (r: u64)
        requires
            self.wf(),
        ensures
            r == capped_u64(self@.cold_bytes()),
    {
        let keys = cold_keys(&self.cold_index);
        let ghost ks = strings_view(keys@);
        let ghost f = cold_adder(self@.cold);
        let ghost mut seen: Set<Seq<char>> = Set::empty();
        let mut acc: u64 = 0;
        let mut i: usize = 0;
        proof {
            vstd::set::fold::lemma_fold_empty::<Seq<char>, nat>(0nat, f);
            assert(vstd::set::fold::is_fun_commutative(f));
        }
        while i < keys.len()
            invariant
                i <= keys.len(),
                ks == strings_view(keys@),
                lists_domain(ks, self@.cold.dom()),
                f == cold_adder(self@.cold),
                vstd::set::fold::is_fun_commutative(f),
                seen.finite(),
                forall|x: Seq<char>| seen.contains(x) <==> exists|j: int| 0 <= j < i && ks[j] == x,
                acc == capped_u64(seen.fold(0nat, f)),
            decreases keys.len() - i,
        {
            let ghost k = ks[i as int];
            assert(k == keys@[i as int]@);
            assert(ks.contains(k));
            let size = match cold_get(&self.cold_index, keys[i].as_str()) {
                Some(info) => info.size,
                None => 0,
            };
            proof {
                assert(!seen.contains(k)) by {
                    if seen.contains(k) {
                        let j = choose|j: int| 0 <= j < i && ks[j] == k;
                        assert(ks[j] == ks[i as int]);
                    }
                }
                vstd::set::fold::lemma_fold_insert::<Seq<char>, nat>(seen, 0nat, f, k);
                assert(f(seen.fold(0nat, f), k) == seen.fold(0nat, f) + size as nat);
                let next = seen.insert(k);
                assert forall|x: Seq<char>| next.contains(x) <==> exists|j: int|
                    0 <= j < i + 1 && ks[j] == x by {
                    if next.contains(x) {
                        if x == k {
                            assert(ks[i as int] == x);
                        } else {
                            let j = choose|j: int| 0 <= j < i && ks[j] == x;
                            assert(0 <= j < i + 1 && ks[j] == x);
                        }
                    }
                    if exists|j: int| 0 <= j < i + 1 && ks[j] == x {
                        let j = choose|j: int| 0 <= j < i + 1 && ks[j] == x;
                        if j < i {
                            assert(seen.contains(x));
                        }
                    }
                }
                seen = next;
            }
            acc = add_capped(acc, size);
            i = i + 1;
        }
        proof {
            assert(seen == self@.cold.dom()) by {
                assert forall|x: Seq<char>| seen.contains(x) <==> self@.cold.dom().contains(x) by {
                    if self@.cold.dom().contains(x) {
                        assert(ks.contains(x));
                        let j = choose|j: int| 0 <= j < ks.len() && ks[j] == x;
                        assert(0 <= j < i && ks[j] == x);
                    }
                    if seen.contains(x) {
                        let j = choose|j: int| 0 <= j < i && ks[j] == x;
                        assert(ks.contains(x));
                    }
                }
            }
        }
        acc
    }

    /// The bytes that the entries take up which only the hot tier has.
    fn inline_size(&self) -> (r: u64)
        requires
            self.wf(),
        ensures
            r == capped_u64(self@.inline_bytes()),
    {
        let keys = hot_keys(&self.hot_cache);
        let ghost ks = strings_view(keys@);
        let ghost f = hot_adder(self@.hot);
        let ghost mut seen: Set<Seq<char>> = Set::empty();
        let mut acc: u64 = 0;
        let mut i: usize = 0;
        proof {
            vstd::set::fold::lemma_fold_empty::<Seq<char>, nat>(0nat, f);
            assert(vstd::set::fold::is_fun_commutative(f));
        }
        while i < keys.len()
            invariant
                i <= keys.len(),
                ks == strings_view(keys@),
                lists_domain(ks, self@.hot.dom()),
                f == hot_adder(self@.hot),
                vstd::set::fold::is_fun_commutative(f),
                seen.finite(),
                forall|x: Seq<char>|
                    seen.contains(x) <==> !self@.cold.dom().contains(x) && exists|j: int|
                        0 <= j < i && ks[j] == x,
                acc == capped_u64(seen.fold(0nat, f)),
            decreases keys.len() - i,
        {
            let ghost k = ks[i as int];
            assert(k == keys@[i as int]@);
            assert(ks.contains(k));
            let ghost before = seen;
            if !cold_contains(&self.cold_index, keys[i].as_str()) {
                let len = match hot_get(&self.hot_cache, keys[i].as_str()) {
                    Some(bytes) => bytes.len() as u64,
                    None => 0,
                };
                proof {
                    assert(!seen.contains(k)) by {
                        if seen.contains(k) {
                            let j = choose|j: int| 0 <= j < i && ks[j] == k;
                            assert(ks[j] == ks[i as int]);
                        }
                    }
                    vstd::set::fold::lemma_fold_insert::<Seq<char>, nat>(seen, 0nat, f, k);
                    assert(f(seen.fold(0nat, f), k) == seen.fold(0nat, f) + len as nat);
                    seen = seen.insert(k);
                }
                acc = add_capped(acc, len);
            }
            proof {
                assert forall|x: Seq<char>|
                    seen.contains(x) <==> !self@.cold.dom().contains(x) && exists|j: int|
                        0 <= j < i + 1 && ks[j] == x by {
                    if seen.contains(x) {
                        if x == k {
                            assert(ks[i as int] == x);
                        } else {
                            assert(before.contains(x));
                            let j = choose|j: int| 0 <= j < i && ks[j] == x;
                            assert(0 <= j < i + 1 && ks[j] == x);
                        }
                    }
                    if !self@.cold.dom().contains(x) && exists|j: int|
                        0 <= j < i + 1 && ks[j] == x {
                        let j = choose|j: int| 0 <= j < i + 1 && ks[j] == x;
                        if j < i {
                            assert(before.contains(x));
                        }
                    }
                }
            }
            i = i + 1;
        }
        proof {
            let goal = self@.hot.dom().difference(self@.cold.dom());
            assert(seen == goal) by {
                assert forall|x: Seq<char>| seen.contains(x) <==> goal.contains(x) by {
                    if goal.contains(x) {
                        assert(ks.contains(x));
                        let j = choose|j: int| 0 <= j < ks.len() && ks[j] == x;
                        assert(0 <= j < i && ks[j] == x);
                    }
                    if seen.contains(x) {
                        let j = choose|j: int| 0 <= j < i && ks[j] == x;
                        assert(ks.contains(x));
                    }
                }
            }
        }
        acc
    }

    /// Deletes every key of the hot tier that is not live at `now`.
    fn drop_dead_hot(&mut self, now: u64)
        requires
            old(self).wf(),
        ensures
            final(self).wf(),
            final(self)@.hot == old(self)@.hot.restrict(old(self)@.live_keys(now)),
            forall|k: Seq<char>|
                final(self)@.cold.contains_key(k) <==> old(self)@.cold.contains_key(k) && !(old(
                    self,
                )@.hot.contains_key(k) && !old(self)@.live(k, now)),
            final(self)@.cold.submap_of(old(self)@.cold),
            final(self)@.warm.submap_of(old(self)@.warm),
            forall|k: Seq<char>|
                #![trigger final(self)@.warm.contains_key(k)]
                final(self)@.warm.contains_key(k) <==> old(self)@.warm.contains_key(k)
                    && final(self)@.cold.contains_key(k),
            final(self)@.dropped == old(self)@.dropped.union(
                old(self)@.key_set().difference(final(self)@.key_set()),
            ),
            final(self)@ == (StorageView {
                hot: final(self)@.hot,
                warm: final(self)@.warm,
                cold: final(self)@.cold,
                dropped: final(self)@.dropped,
                batcher: final(self)@.batcher,
                ..old(self)@
            }),
            final(self)@.batcher == (BatcherView {
                pending: final(self)@.batcher.pending,
                ..old(self)@.batcher
            }),
            old(self)@.batcher.state != BatcherState::Running ==> final(self)@.batcher == old(
                self,
            )@.batcher,
            old(self)@.batcher.state == BatcherState::Running ==> {
                &&& final(self)@.batcher.pending.len() >= old(self)@.batcher.pending.len()
                &&& forall|i: int|
                    0 <= i < old(self)@.batcher.pending.len() ==> final(self)@.batcher.pending[i]
                        == old(self)@.batcher.pending[i]
                &&& forall|k: Seq<char>|
                    old(self)@.cold.contains_key(k) && !final(self)@.cold.contains_key(k)
                        ==> final(self)@.batcher.pending.contains(
                        WriteOpView::Delete { path: #[trigger] old(self)@.cold[k].path },
                    )
            },
    {
        let ghost start = self@;
        proof {
            self.lemma_wf();
        }
        let keys = hot_keys(&self.hot_cache);
        let ghost ks = strings_view(keys@);
        let mut i: usize = 0;
        proof {
            assert(start.dropped == start.dropped.union(
                start.key_set().difference(start.key_set()),
            ));
            assert forall|x: Seq<char>| start.hot.dom().contains(x) implies waits(ks, 0, x) by {
                assert(ks.contains(x));
                let j = choose|j: int| 0 <= j < ks.len() && ks[j] == x;
                assert(0 <= j < ks.len() && ks[j] == x);
            }
        }
        while i < keys.len()
            invariant
                i <= keys.len(),
                ks == strings_view(keys@),
                lists_domain(ks, start.hot.dom()),
                start == old(self)@,
                self.wf(),
                self@.hot.submap_of(start.hot),
                self@.cold.submap_of(start.cold),
                self@.warm.submap_of(start.warm),
                forall|x: Seq<char>|
                    #![trigger self@.warm.contains_key(x)]
                    self@.warm.contains_key(x) <==> start.warm.contains_key(x)
                        && self@.cold.contains_key(x),
                forall|x: Seq<char>|
                    #![trigger self@.hot.dom().contains(x)]
                    #![trigger start.hot.dom().contains(x)]
                    self@.hot.dom().contains(x) <==> start.hot.dom().contains(x) && (start.live(
                        x,
                        now,
                    ) || waits(ks, i as int, x)),
                forall|x: Seq<char>|
                    self@.cold.contains_key(x) <==> start.cold.contains_key(x) && !(
                    start.hot.contains_key(x) && !self@.hot.contains_key(x)),
                self@.dropped == start.dropped.union(
                    start.key_set().difference(self@.key_set()),
                ),
                self@ == (StorageView {
                    hot: self@.hot,
                    warm: self@.warm,
                    cold: self@.cold,
                    dropped: self@.dropped,
                    batcher: self@.batcher,
                    ..start
                }),
                self@.batcher == (BatcherView { pending: self@.batcher.pending, ..start.batcher }),
                start.batcher.state != BatcherState::Running ==> self@.batcher == start.batcher,
                start.batcher.state == BatcherState::Running ==> {
                    &&& self@.batcher.pending.len() >= start.batcher.pending.len()
                    &&& forall|j: int|
                        0 <= j < start.batcher.pending.len() ==> self@.batcher.pending[j]
                            == start.batcher.pending[j]
                    &&& forall|k: Seq<char>|
                        start.cold.contains_key(k) && !self@.cold.contains_key(k)
                            ==> self@.batcher.pending.contains(
                            WriteOpView::Delete { path: #[trigger] start.cold[k].path },
                        )
                },
            decreases keys.len() - i,
        {
            let ghost k = ks[i as int];
            assert(k == keys@[i as int]@);
            assert(ks.contains(k));
            let ghost before = self@;
            assert(start.hot.contains_key(k));
            assert(waits(ks, i as int, k)) by {
                assert(i <= i < ks.len() && ks[i as int] == k);
            }
            assert(before.hot.dom().contains(k));
            assert(start.hot.dom().contains(k) && before.hot.dom().contains(k));
            assert(before.hot[k] == start.hot[k]);
            let live = match hot_get(&self.hot_cache, keys[i].as_str()) {
                Some(bytes) => match decode_entry(bytes.as_slice()) {
                    Ok(e) => !e.is_expired_at(now),
                    Err(_) => false,
                },
                None => false,
            };
            assert(live == start.live(k, now));
            if !live {
                self.delete_key(keys[i].as_str());
                self.note_dropped(keys[i].clone());
                proof {
                    self.lemma_after_drop(start, before, k);
                }
            }
            proof {
                assert(self@.hot == if live {
                    before.hot
                } else {
                    before.hot.remove(k)
                });
                assert forall|x: Seq<char>|
                    #![trigger self@.hot.dom().contains(x)]
                    #![trigger start.hot.dom().contains(x)]
                    self@.hot.dom().contains(x) <==> start.hot.dom().contains(x) && (start.live(
                        x,
                        now,
                    ) || waits(ks, i + 1, x)) by {
                    if self@.hot.dom().contains(x) {
                        assert(before.hot.dom().contains(x));
                        assert(start.hot.dom().contains(x));
                        if !start.live(x, now) {
                            assert(waits(ks, i as int, x));
                            let j = choose|j: int| i <= j < ks.len() && ks[j] == x;
                            assert(j != i);
                            assert(i + 1 <= j < ks.len() && ks[j] == x);
                        }
                    }
                    if start.hot.dom().contains(x) && start.live(x, now) {
                        assert(before.hot.dom().contains(x));
                    }
                    if start.hot.dom().contains(x) && waits(ks, i + 1, x) {
                        let j = choose|j: int| i + 1 <= j < ks.len() && ks[j] == x;
                        assert(i <= j < ks.len() && ks[j] == x);
                        assert(waits(ks, i as int, x));
                        assert(before.hot.dom().contains(x));
                        assert(ks[j] != ks[i as int]);
                    }
                }
            }
            i = i + 1;
        }
        proof {
            assert forall|x: Seq<char>| !waits(ks, i as int, x) by {}
            assert(self@.hot == start.hot.restrict(start.live_keys(now))) by {
                assert forall|x: Seq<char>| #[trigger]
                    self@.hot.dom().contains(x) implies start.hot.dom().contains(x) && self@.hot[x]
                    == start.hot[x] by {}
                assert(self@.hot.dom() == start.hot.restrict(start.live_keys(now)).dom());
                assert forall|x: Seq<char>| self@.hot.dom().contains(x) implies #[trigger] self@.hot[x]
                    == start.hot.restrict(start.live_keys(now))[x] by {
                    assert(start.hot.dom().contains(x));
                }
            }
        }
    }

    /// Facts that hold once a key was deleted and noted as dropped.
    proof fn lemma_after_drop(&self, start: StorageView, before: StorageView, k: Seq<char>)
        requires
            self@ == (StorageView {
                dropped: before.deleted(k).dropped.insert(k),
                ..before.deleted(k)
            }),
            before.key_set().contains(k),
            before.hot.submap_of(start.hot),
            before.cold.submap_of(start.cold),
            before.warm.submap_of(start.warm),
            before.dropped == start.dropped.union(start.key_set().difference(before.key_set())),
            before.batcher == (BatcherView { pending: before.batcher.pending, ..start.batcher }),
            start.batcher.state != BatcherState::Running ==> before.batcher == start.batcher,
            start.batcher.state == BatcherState::Running ==> {
                &&& before.batcher.pending.len() >= start.batcher.pending.len()
                &&& forall|j: int|
                    0 <= j < start.batcher.pending.len() ==> before.batcher.pending[j]
                        == start.batcher.pending[j]
                &&& forall|x: Seq<char>|
                    start.cold.contains_key(x) && !before.cold.contains_key(x)
                        ==> before.batcher.pending.contains(
                        WriteOpView::Delete { path: #[trigger] start.cold[x].path },
                    )
            },
        ensures
            self@.hot.submap_of(start.hot),
            self@.cold.submap_of(start.cold),
            self@.warm.submap_of(start.warm),
            self@.hot == before.hot.remove(k),
            self@.cold == before.cold.remove(k),
            self@.warm == before.warm.remove(k),
            self@.dropped == start.dropped.union(start.key_set().difference(self@.key_set())),
            self@.batcher == (BatcherView { pending: self@.batcher.pending, ..start.batcher }),
            start.batcher.state != BatcherState::Running ==> self@.batcher == start.batcher,
            start.batcher.state == BatcherState::Running ==> {
                &&& self@.batcher.pending.len() >= start.batcher.pending.len()
                &&& forall|j: int|
                    0 <= j < start.batcher.pending.len() ==> self@.batcher.pending[j]
                        == start.batcher.pending[j]
                &&& forall|x: Seq<char>|
                    start.cold.contains_key(x) && !self@.cold.contains_key(x)
                        ==> self@.batcher.pending.contains(
                        WriteOpView::Delete { path: #[trigger] start.cold[x].path },
                    )
            },
    {
        assert forall|x: Seq<char>| #[trigger] self@.hot.dom().contains(x) implies start.hot.dom().contains(
            x,
        ) && self@.hot[x] == start.hot[x] by {
            assert(before.hot.dom().contains(x));
            assert(start.hot.dom().contains(x) ==> before.hot[x] == start.hot[x]);
            assert(start.hot.dom().contains(x));
        }
        assert forall|x: Seq<char>| #[trigger] self@.cold.dom().contains(x) implies start.cold.dom().contains(
            x,
        ) && self@.cold[x] == start.cold[x] by {
            assert(before.cold.dom().contains(x));
            assert(start.cold.dom().contains(x) ==> before.cold[x] == start.cold[x]);
            assert(start.cold.dom().contains(x));
        }
        assert forall|x: Seq<char>| #[trigger] self@.warm.dom().contains(x) implies start.warm.dom().contains(
            x,
        ) && self@.warm[x] == start.warm[x] by {
            assert(before.warm.dom().contains(x));
            assert(start.warm.dom().contains(x) ==> before.warm[x] == start.warm[x]);
            assert(start.warm.dom().contains(x));
        }
        assert(self@.key_set() == before.key_set().remove(k));
        assert(start.key_set().contains(k)) by {
            if before.hot.dom().contains(k) {
                assert(start.hot.dom().contains(k));
            }
            if before.cold.dom().contains(k) {
                assert(start.cold.dom().contains(k));
            }
            if before.warm.dom().contains(k) {
                assert(start.warm.dom().contains(k));
            }
        }
        assert(self@.dropped == start.dropped.union(start.key_set().difference(self@.key_set())));
        if start.batcher.state == BatcherState::Running {
            let after = self@.batcher.pending;
            let prev = before.batcher.pending;
            if before.cold.contains_key(k) {
                let op = WriteOpView::Delete { path: before.cold[k].path };
                assert(after == prev.push(op));
                assert(start.cold.dom().contains(k) && before.cold.dom().contains(k));
                assert(before.cold[k] == start.cold[k]);
                assert(after[after.len() - 1] == op);
            } else {
                assert(after == prev);
            }
            assert forall|x: Seq<char>|
                start.cold.contains_key(x) && !self@.cold.contains_key(x) implies after.contains(
                WriteOpView::Delete { path: #[trigger] start.cold[x].path },
            ) by {
                let d = WriteOpView::Delete { path: start.cold[x].path };
                if x == k && before.cold.contains_key(k) {
                    assert(after[after.len() - 1] == d);
                } else {
                    assert(!before.cold.contains_key(x));
                    assert(prev.contains(d));
                    let p = choose|p: int| 0 <= p < prev.len() && prev[p] == d;
                    assert(after[p] == d);
                }
            }
        }
    }

    /// Deletes every key of the index that has no hot entry and whose
    /// deadline has passed at `now`.
    fn drop_dead_cold(&mut self, now: u64)
        requires
            old(self).wf(),
        ensures
            final(self).wf(),
            final(self)@.hot == old(self)@.hot,
            forall|k: Seq<char>|
                final(self)@.cold.contains_key(k) <==> old(self)@.cold.contains_key(k) && (old(
                    self,
                )@.hot.contains_key(k) || !old(self)@.cold[k].expired_at(now)),
            final(self)@.cold.submap_of(old(self)@.cold),
            final(self)@.warm.submap_of(old(self)@.warm),
            forall|k: Seq<char>|
                #![trigger final(self)@.warm.contains_key(k)]
                final(self)@.warm.contains_key(k) <==> old(self)@.warm.contains_key(k)
                    && final(self)@.cold.contains_key(k),
            final(self)@.dropped == old(self)@.dropped.union(
                old(self)@.key_set().difference(final(self)@.key_set()),
            ),
            final(self)@ == (StorageView {
                warm: final(self)@.warm,
                cold: final(self)@.cold,
                dropped: final(self)@.dropped,
                batcher: final(self)@.batcher,
                ..old(self)@
            }),
            final(self)@.batcher == (BatcherView {
                pending: final(self)@.batcher.pending,
                ..old(self)@.batcher
            }),
            old(self)@.batcher.state != BatcherState::Running ==> final(self)@.batcher == old(
                self,
            )@.batcher,
            old(self)@.batcher.state == BatcherState::Running ==> {
                &&& final(self)@.batcher.pending.len() >= old(self)@.batcher.pending.len()
                &&& forall|i: int|
                    0 <= i < old(self)@.batcher.pending.len() ==> final(self)@.batcher.pending[i]
                        == old(self)@.batcher.pending[i]
                &&& forall|k: Seq<char>|
                    old(self)@.cold.contains_key(k) && !final(self)@.cold.contains_key(k)
                        ==> final(self)@.batcher.pending.contains(
                        WriteOpView::Delete { path: #[trigger] old(self)@.cold[k].path },
                    )
            },
    {
        let ghost start = self@;
        proof {
            self.lemma_wf();
        }
        let keys = cold_keys(&self.cold_index);
        let ghost ks = strings_view(keys@);
        let mut i: usize = 0;
        proof {
            assert(start.dropped == start.dropped.union(
                start.key_set().difference(start.key_set()),
            ));
        }
        while i < keys.len()
            invariant
                i <= keys.len(),
                ks == strings_view(keys@),
                lists_domain(ks, start.cold.dom()),
                start == old(self)@,
                self.wf(),
                self@.hot == start.hot,
                self@.cold.submap_of(start.cold),
                self@.warm.submap_of(start.warm),
                forall|x: Seq<char>|
                    #![trigger self@.warm.contains_key(x)]
                    self@.warm.contains_key(x) <==> start.warm.contains_key(x)
                        && self@.cold.contains_key(x),
                forall|x: Seq<char>|
                    self@.cold.contains_key(x) <==> start.cold.contains_key(x) && (
                    start.hot.contains_key(x) || !start.cold[x].expired_at(now) || exists|j: int|
                        i <= j < ks.len() && ks[j] == x),
                self@.dropped == start.dropped.union(
                    start.key_set().difference(self@.key_set()),
                ),
                self@ == (StorageView {
                    hot: self@.hot,
                    warm: self@.warm,
                    cold: self@.cold,
                    dropped: self@.dropped,
                    batcher: self@.batcher,
                    ..start
                }),
                self@.batcher == (BatcherView { pending: self@.batcher.pending, ..start.batcher }),
                start.batcher.state != BatcherState::Running ==> self@.batcher == start.batcher,
                start.batcher.state == BatcherState::Running ==> {
                    &&& self@.batcher.pending.len() >= start.batcher.pending.len()
                    &&& forall|j: int|
                        0 <= j < start.batcher.pending.len() ==> self@.batcher.pending[j]
                            == start.batcher.pending[j]
                    &&& forall|k: Seq<char>|
                        start.cold.contains_key(k) && !self@.cold.contains_key(k)
                            ==> self@.batcher.pending.contains(
                            WriteOpView::Delete { path: #[trigger] start.cold[k].path },
                        )
                },
            decreases keys.len() - i,
        {
            let ghost k = ks[i as int];
            assert(k == keys@[i as int]@);
            assert(ks.contains(k));
            let ghost before = self@;
            assert(before.cold.contains_key(k)) by {
                assert(i <= i < ks.len() && ks[i as int] == k);
            }
            assert(start.cold.dom().contains(k) && before.cold.dom().contains(k));
            assert(before.cold[k] == start.cold[k]);
            let dead = if hot_contains(&self.hot_cache, keys[i].as_str()) {
                false
            } else {
                match cold_get(&self.cold_index, keys[i].as_str()) {
                    Some(info) => info.is_expired_at(now),
                    None => false,
                }
            };
            assert(dead == (!start.hot.contains_key(k) && start.cold[k].expired_at(now)));
            if dead {
                self.delete_key(keys[i].as_str());
                self.note_dropped(keys[i].clone());
                proof {
                    self.lemma_after_drop(start, before, k);
                    assert(self@.hot == start.hot) by {
                        assert(self@.hot == before.hot.remove(k));
                        assert(!before.hot.contains_key(k));
                        assert(before.hot.remove(k) == before.hot);
                    }
                }
            }
            proof {
                assert forall|x: Seq<char>|
                    self@.cold.contains_key(x) <==> start.cold.contains_key(x) && (
                    start.hot.contains_key(x) || !start.cold[x].expired_at(now) || exists|j: int|
                        i + 1 <= j < ks.len() && ks[j] == x) by {
                    if before.cold.contains_key(x) && x != k && !start.hot.contains_key(x)
                        && start.cold[x].expired_at(now) {
                        let j = choose|j: int| i <= j < ks.len() && ks[j] == x;
                        assert(i + 1 <= j < ks.len() && ks[j] == x);
                    }
                    if exists|j: int| i + 1 <= j < ks.len() && ks[j] == x {
                        let j = choose|j: int| i + 1 <= j < ks.len() && ks[j] == x;
                        assert(i <= j < ks.len() && ks[j] == x);
                        assert(ks[j] != ks[i as int]);
                    }
                }
            }
            i = i + 1;
        }
    }

    /// A barrier: hands over every file operation that waits. Nothing is
    /// queued any more after that, and while the batcher runs nothing is
    /// buffered and the caller holds the operations in the order in which
    /// they were queued, with the barrier last.
    pub fn sync(&mut self) -> (r: Vec<WriteOp>)
        requires
            old(self).wf(),
        ensures
            final(self).wf(),
            final(self)@ == (StorageView { batcher: final(self)@.batcher, ..old(self)@ }),
            final(self)@.batcher.pending.len() == 0,
            final(self)@.batcher.state == old(self)@.batcher.state,
            final(self)@.batcher.batch_size == old(self)@.batcher.batch_size,
            old(self)@.batcher.state == BatcherState::Running ==> {
                &&& old(self)@.barrier_taken(final(self)@)
                &&& crate::batcher::ops_view(r@) == old(self)@.waiting().push(WriteOpView::Sync)
            },
            old(self)@.batcher.state != BatcherState::Running ==> {
                &&& crate::batcher::ops_view(r@) == crate::batcher::drain_out(old(self)@.batcher)
                &&& final(self)@.batcher == crate::batcher::drain_next(old(self)@.batcher)
            },
    {
        let r = self.write_batcher.sync();
        proof {
            if old(self)@.batcher.state == BatcherState::Running {
                assert(self@.batcher.buffered == Seq::<WriteOpView>::empty());
                assert(self@.batcher.pending == Seq::<WriteOpView>::empty());
            }
        }
        r
    }

    /// Works off the file operation at the head of the queue and hands
    /// over what has to be carried out now, see `step_out`.
    pub fn step(&mut self) -> (r: Vec<WriteOp>)
        requires
            old(self).wf(),
        ensures
            final(self).wf(),
            crate::batcher::ops_view(r@) == crate::batcher::step_out(old(self)@.batcher),
            final(self)@ == (StorageView {
                batcher: crate::batcher::step_next(old(self)@.batcher),
                ..old(self)@
            }),
    {
        self.write_batcher.step()
    }

    /// Hands over the writes that the batcher has collected, as after an
    /// idle period.
    pub fn flush_idle(&mut self) -> (r: Vec<WriteOp>)
        requires
            old(self).wf(),
        ensures
            final(self).wf(),
            crate::batcher::ops_view(r@) == old(self)@.batcher.buffered,
            final(self)@ == (StorageView {
                batcher: BatcherView { buffered: Seq::empty(), ..old(self)@.batcher },
                ..old(self)@
            }),
    {
        self.write_batcher.flush_idle()
    }

    /// Stops the batcher from taking file operations. What is queued is
    /// still worked off; entries that need a file are refused from now
    /// on.
    pub fn shutdown(&mut self)
        requires
            old(self).wf(),
        ensures
            final(self).wf(),
            final(self)@ == (StorageView {
                batcher: BatcherView {
                    state: if old(self)@.batcher.state == BatcherState::Running {
                        BatcherState::Draining
                    } else {
                        old(self)@.batcher.state
                    },
                    ..old(self)@.batcher
                },
                ..old(self)@
            }),
    {
        self.write_batcher.shutdown()
    }

    /// How many file operations wait in the queue.
    pub fn pending_len(&self) -> (r: usize)
        ensures
            r == self@.batcher.pending.len(),
    {
        self.write_batcher.pending_len()
    }

    /// Whether a barrier waits in the queue, so that the caller has to
    /// carry out what is queued before it goes on.
    pub fn barrier_waits(&self) -> (r: bool)
        ensures
            r == self@.batcher.pending.contains(WriteOpView::Sync),
    {
        self.write_batcher.barrier_waits()
    }

    /// Stores the entry under its own key.
    fn set_one(&mut self, entry: &CacheEntry, now: u64) -> (r: CacheResult<()>)
        requires
            old(self).wf(),
        ensures
            final(self).wf(),
            stored_as(old(self)@, final(self)@, entry@, now, r is Ok),
            r matches Err(e) ==> e == CacheError::Io && final(self)@ == old(self)@,
    {
        reveal(stored_as);
        self.set(entry.key.as_str(), entry.duplicate(), now)
    }

    /// Stores the entries one after the other, each under its own key,
    /// and stops at the first that is refused.
    pub fn set_batch(&mut self, entries: Vec<CacheEntry>, now: u64) -> (r: CacheResult<()>)
        requires
            old(self).wf(),
        ensures
            final(self).wf(),
            match r {
                Ok(_) => exists|trace: Seq<StorageView>|
                    {
                        &&& #[trigger] stored_in_turn(
                            trace,
                            entries_view(entries@),
                            now,
                            entries@.len() as int,
                        )
                        &&& trace[0] == old(self)@
                        &&& trace.last() == final(self)@
                    },
                Err(e) => e == CacheError::Io && exists|trace: Seq<StorageView>, n: int|
                    {
                        &&& 0 <= n < entries@.len()
                        &&& #[trigger] stored_in_turn(trace, entries_view(entries@), now, n)
                        &&& trace[0] == old(self)@
                        &&& trace.last() == final(self)@
                        &&& stored_as(final(self)@, final(self)@, entries@[n]@, now, false)
                    },
            },
    {
        let ghost all = entries_view(entries@);
        let ghost mut trace: Seq<StorageView> = seq![self@];
        let mut i: usize = 0;
        while i < entries.len()
            invariant
                i <= entries.len(),
                all == entries_view(entries@),
                self.wf(),
                stored_in_turn(trace, all, now, i as int),
                trace[0] == old(self)@,
                trace.last() == self@,
            decreases entries.len() - i,
        {
            let ghost before = self@;
            let ghost e = all[i as int];
            assert(e == entries@[i as int]@);
            match self.set_one(&entries[i], now) {
                Ok(_) => {
                    proof {
                        let next = trace.push(self@);
                        assert forall|j: int| 0 <= j < i + 1 implies stored_as(
                            #[trigger] next[j],
                            next[j + 1],
                            all[j],
                            now,
                            true,
                        ) by {
                            if j < i {
                                assert(next[j] == trace[j]);
                                assert(next[j + 1] == trace[j + 1]);
                            } else {
                                assert(next[j] == before);
                                assert(next[j + 1] == self@);
                            }
                        }
                        trace = next;
                    }
                },
                Err(err) => {
                    proof {
                        assert(stored_in_turn(trace, all, now, i as int));
                    }
                    return Err(err);
                },
            }
            i = i + 1;
        }
        Ok(())
    }

    /// The deadline that the index notes for the key, if it notes one.
    pub fn deadline(&self, key: &str) -> (r: Option<u64>)
        ensures
            r == if self@.cold.contains_key(key@) {
                self@.cold[key@].expire_time
            } else {
                None
            },
    {
        match cold_get(&self.cold_index, key) {
            Some(info) => info.expire_time,
            None => None,
        }
    }

    /// A snapshot of the counters and of how much each tier holds.
    pub fn stats(&self) -> (r: StorageStatistics)
        requires
            self.wf(),
        ensures
            r.hot_hits == self@.stats.hot_hits,
            r.warm_hits == self@.stats.warm_hits,
            r.cold_hits == self@.stats.cold_hits,
            r.misses == self@.stats.misses,
            r.writes == self@.stats.writes,
            r.bytes_written == self@.stats.bytes_written,
            r.bytes_read == self@.stats.bytes_read,
            r.hot_cache_size == self@.hot.len(),
            r.warm_cache_size == self@.warm.len(),
            r.cold_index_size == self@.cold.len(),
    {
        StorageStatistics {
            hot_hits: self.stats.hot_hits,
            warm_hits: self.stats.warm_hits,
            cold_hits: self.stats.cold_hits,
            misses: self.stats.misses,
            writes: self.stats.writes,
            bytes_written: self.stats.bytes_written,
            bytes_read: self.stats.bytes_read,
            hot_cache_size: hot_len(&self.hot_cache),
            warm_cache_size: warm_len(&self.warm_cache),
            cold_index_size: cold_len(&self.cold_index),
        }
    }

    /// The index as records, one for each key, in no particular order,
    /// for the caller to write to the index document.
    pub fn index_snapshot(&self) -> (r: Vec<IndexRecord>)
        requires
            self.wf(),
        ensures
            r@.len() == self@.cold.len(),
            restored(records_view(r@)) == self@.cold,
            forall|i: int| 0 <= i < r@.len() ==> (#[trigger] r@[i]).file_exists,
    {
        proof {
            self.lemma_wf();
        }
        let keys = cold_keys(&self.cold_index);
        let ghost ks = strings_view(keys@);
        let mut out: Vec<IndexRecord> = Vec::new();
        let mut i: usize = 0;
        proof {
            ks.unique_seq_to_set();
            assert(ks.to_set() == self@.cold.dom());
            assert(records_view(out@) == Seq::<IndexRecordView>::empty());
        }
        while i < keys.len()
            invariant
                i <= keys.len(),
                ks == strings_view(keys@),
                ks.len() == self@.cold.len(),
                lists_domain(ks, self@.cold.dom()),
                out@.len() == i,
                forall|j: int| 0 <= j < out@.len() ==> (#[trigger] out@[j]).file_exists,
                forall|x: Seq<char>|
                    restored(records_view(out@)).contains_key(x) <==> exists|j: int|
                        0 <= j < i && ks[j] == x,
                restored(records_view(out@)).submap_of(self@.cold),
            decreases keys.len() - i,
        {
            let ghost k = ks[i as int];
            assert(k == keys@[i as int]@);
            assert(ks.contains(k));
            let ghost before = records_view(out@);
            match cold_get(&self.cold_index, keys[i].as_str()) {
                Some(info) => {
                    let rec = IndexRecord { key: keys[i].clone(), info, file_exists: true };
                    let ghost rv = rec@;
                    out.push(rec);
                    proof {
                        let after = records_view(out@);
                        assert(after == before.push(rv));
                        assert(after.drop_last() == before);
                        assert(after.last() == rv);
                        assert(restored(after) == restored(before).insert(k, self@.cold[k]));
                        assert forall|x: Seq<char>|
                            restored(after).contains_key(x) <==> exists|j: int|
                                0 <= j < i + 1 && ks[j] == x by {
                            if restored(before).contains_key(x) {
                                let j = choose|j: int| 0 <= j < i && ks[j] == x;
                                assert(0 <= j < i + 1 && ks[j] == x);
                            }
                            if x == k {
                                assert(0 <= i < i + 1 && ks[i as int] == x);
                            }
                            if exists|j: int| 0 <= j < i + 1 && ks[j] == x {
                                let j = choose|j: int| 0 <= j < i + 1 && ks[j] == x;
                                if j < i {
                                    assert(restored(before).contains_key(x));
                                }
                            }
                        }
                        assert(restored(after).submap_of(self@.cold)) by {
                            assert forall|x: Seq<char>| #[trigger]
                                restored(after).dom().contains(x) implies self@.cold.dom().contains(
                                x,
                            ) && restored(after)[x] == self@.cold[x] by {
                                if x != k {
                                    assert(restored(before).dom().contains(x));
                                    assert(self@.cold.dom().contains(x) ==> restored(before)[x]
                                        == self@.cold[x]);
                                    assert(ks.contains(x)) by {
                                        let j = choose|j: int| 0 <= j < i && ks[j] == x;
                                        assert(ks[j] == x);
                                    }
                                }
                            }
                        }
                    }
                },
                None => {
                    assert(self@.cold.dom().contains(k));
                },
            }
            i = i + 1;
        }
        proof {
            let m = restored(records_view(out@));
            assert(m.dom() == self@.cold.dom()) by {
                assert forall|x: Seq<char>| m.dom().contains(x) <==> self@.cold.dom().contains(
                    x,
                ) by {
                    if self@.cold.dom().contains(x) {
                        assert(ks.contains(x));
                        let j = choose|j: int| 0 <= j < ks.len() && ks[j] == x;
                        assert(0 <= j < i && ks[j] == x);
                    }
                    if m.dom().contains(x) {
                        let j = choose|j: int| 0 <= j < i && ks[j] == x;
                        assert(ks.contains(x));
                    }
                }
            }
            assert(m == self@.cold) by {
                assert forall|x: Seq<char>| m.dom().contains(x) implies #[trigger] m[x]
                    == self@.cold[x] by {
                    assert(self@.cold.dom().contains(x));
                }
            }
        }
        out
    }

    /// Takes over the index that was read from the index document: every
    /// record whose file exists. What the index held before is kept
    /// where no record replaces it.
    pub fn load_index(&mut self, records: Vec<IndexRecord>)
        requires
            old(self).wf(),
        ensures
            final(self).wf(),
            final(self)@ == (StorageView {
                cold: old(self)@.cold.union_prefer_right(restored(records_view(records@))),
                ..old(self)@
            }),
    {
        let ghost start = self@;
        let ghost all = records_view(records@);
        proof {
            assert(start.cold.union_prefer_right(restored(all.take(0))) == start.cold) by {
                assert(restored(all.take(0)) == Map::<Seq<char>, FileInfoView>::empty());
            }
            self.lemma_wf();
        }
        let mut i: usize = 0;
        while i < records.len()
            invariant
                i <= records.len(),
                all == records_view(records@),
                self.wf(),
                self@ == (StorageView {
                    cold: start.cold.union_prefer_right(restored(all.take(i as int))),
                    ..start
                }),
            decreases records.len() - i,
        {
            let ghost before = self@;
            let ghost r = all[i as int];
            assert(r == records@[i as int]@);
            if records[i].file_exists {
                cold_insert(
                    &mut self.cold_index,
                    records[i].key.clone(),
                    records[i].info.duplicate(),
                );
            }
            proof {
                let next = all.take(i as int + 1);
                assert(next.drop_last() == all.take(i as int));
                assert(next.last() == r);
                let m = restored(all.take(i as int));
                if r.file_exists {
                    assert(start.cold.union_prefer_right(m).insert(r.key, r.info)
                        == start.cold.union_prefer_right(m.insert(r.key, r.info)));
                    assert(self@.cold.dom() == before.cold.dom().insert(r.key));
                }
            }
            i = i + 1;
        }
        proof {
            assert(all.take(records@.len() as int) == all);
        }
    }
}

impl StorageBackend for OptimizedStorage {
    /// The tiers are finite, every mapped file is a file of the index,
    /// the hot tier is within its capacity, and the batcher is
    /// consistent.
    closed spec fn wf(&self) -> bool {
        &&& self.consistent()
        &&& self@.hot.dom().len() <= self@.config.hot_cache_size
    }

    open spec fn stored_keys(&self) -> Set<Seq<char>> {
        self@.key_set()
    }

    /// Looks the key up, see `StorageView::lookup`. A read that finds
    /// nothing deletes the key and counts a miss. A read that finds the
    /// entry hands it out counted as read once more at `now`, stores it
    /// back in that form where it was found, and moves an entry found
    /// on disk up as `StorageView::promoted` says.
    fn get(&mut self, key: &str, contents: Option<Vec<u8>>, now: u64) -> (r: CacheResult<
        Option<CacheEntry>,
    >)
        ensures
            match old(self)@.lookup(key@, crate::serialization::bytes_option_view(contents), now) {
                None => r matches Ok(None),
                Some(e) => r matches Ok(Some(t)) && t@ == e.touched(now),
            },
            old(self)@.after_get(
                final(self)@,
                key@,
                crate::serialization::bytes_option_view(contents),
                now,
            ),
    {
        let ghost start = self@;
        let ghost cv = crate::serialization::bytes_option_view(contents);
        let k = key.to_owned();
        proof {
            self.lemma_wf();
        }
        match hot_get(&self.hot_cache, key) {
            Some(bytes) => {
                let found = match decode_entry(bytes.as_slice()) {
                    Ok(e) => {
                        if e.key == k && !e.is_expired_at(now) {
                            Some(e)
                        } else {
                            None
                        }
                    },
                    Err(_) => None,
                };
                match found {
                    Some(mut e) => {
                        e.update_access_at(now);
                        self.stats.record_hot_hit();
                        self.stats.record_read(e.data.len() as u64);
                        hot_insert(&mut self.hot_cache, k, encode_entry(&e));
                        proof {
                            assert(self@.hot.dom() == start.hot.dom().insert(key@));
                            assert(self@.hot.dom() == start.hot.dom());
                            assert(self@.key_set() == start.key_set());
                            assert(start.dropped == start.dropped.union(
                                start.key_set().difference(self@.key_set()).remove(key@),
                            ));
                        }
                        return Ok(Some(e));
                    },
                    None => {
                        self.delete_key(key);
                        self.stats.record_miss();
                        proof {
                            assert(start.dropped == start.dropped.union(
                                start.key_set().difference(self@.key_set()).remove(key@),
                            ));
                        }
                        return Ok(None);
                    },
                }
            },
            None => {},
        }
        let info = match cold_get(&self.cold_index, key) {
            Some(info) => info,
            None => {
                self.delete_key(key);
                self.stats.record_miss();
                proof {
                    assert(start.dropped == start.dropped.union(
                        start.key_set().difference(self@.key_set()).remove(key@),
                    ));
                }
                return Ok(None);
            },
        };
        let mut foreign = false;
        let found = if info.is_expired_at(now) {
            None
        } else {
            match &contents {
                Some(raw) => match recover_entry(raw.as_slice(), info.compressed) {
                    Ok(e) => {
                        if e.key != k {
                            foreign = true;
                            None
                        } else if !e.is_expired_at(now) {
                            Some(e)
                        } else {
                            None
                        }
                    },
                    Err(_) => None,
                },
                None => None,
            }
        };
        assert(foreign == start.foreign_file(key@, cv, now));
        let mut e = match found {
            Some(e) => e,
            None => {
                if foreign {
                    self.forget_key(key);
                } else {
                    self.delete_key(key);
                }
                self.stats.record_miss();
                proof {
                    assert(start.dropped == start.dropped.union(
                        start.key_set().difference(self@.key_set()).remove(key@),
                    ));
                }
                return Ok(None);
            },
        };
        e.update_access_at(now);
        let file_len = match &contents {
            Some(raw) => raw.len() as u64,
            None => 0,
        };
        let mapped = warm_get(&self.warm_cache, key);
        match self.write_batcher.state() {
            BatcherState::Running => {
                self.write_file(key, &e, info.path, info.created_at);
            },
            _ => {},
        }
        match mapped {
            Some(_) => {
                self.stats.record_warm_hit();
            },
            None => {
                self.stats.record_cold_hit();
            },
        }
        self.stats.record_read(e.data.len() as u64);
        let ghost counted = self@;
        assert(counted == start.disk_hit(key@, e@));
        let noted = WarmEntry { size: file_len, last_accessed: now };
        let promotes_hot = e.data.len() < HOT_PROMOTE_LIMIT && self.config.hot_cache_size > 0;
        if promotes_hot {
            self.put_hot(key, &e);
        }
        let ghost lifted = self@;
        match mapped {
            Some(_) => {
                warm_insert(&mut self.warm_cache, k, noted);
                proof {
                    assert(self@.warm.dom() == lifted.warm.dom().insert(key@));
                    assert(self@.warm.dom() == lifted.warm.dom());
                }
            },
            None => {
                if !promotes_hot && e.data.len() < self.config.mmap_threshold {
                    warm_insert(&mut self.warm_cache, k, noted);
                    let ghost ins = self@.warm;
                    assert(self.wf());
                    self.cleanup_warm_cache(now);
                    proof {
                        assert(self@.warm.contains_key(key@)) by {
                            if !self@.warm.contains_key(key@) {
                                assert(ins.contains_key(key@));
                                assert(stale(ins[key@], now));
                            }
                        }
                        assert(ins.dom().contains(key@));
                        assert(self@.warm.dom().contains(key@));
                        assert(self@.warm[key@] == ins[key@]);
                    }
                }
            },
        }
        proof {
            assert(counted.promoted(self@, key@, e@, file_len, now));
            assert(self@.cold.dom() == start.cold.dom().insert(key@) || self@.cold.dom()
                == start.cold.dom());
            assert(self@.cold.dom() == start.cold.dom());
            assert(self@.key_set().subset_of(start.key_set())) by {
                assert forall|x: Seq<char>| self@.key_set().contains(x) implies start.key_set().contains(
                    x,
                ) by {
                    if self@.hot.dom().contains(x) {
                        assert(counted.hot.insert(key@, spec_encode(e@)).dom().contains(x));
                    }
                    if self@.warm.dom().contains(x) {
                        assert(counted.warm.insert(key@, noted).dom().contains(x));
                    }
                }
            }
            assert(self@.dropped == start.dropped.union(
                start.key_set().difference(self@.key_set()).remove(key@),
            )) by {
                assert forall|x: Seq<char>| self@.dropped.contains(x) <==> start.dropped.union(
                    start.key_set().difference(self@.key_set()).remove(key@),
                ).contains(x) by {
                    if promotes_hot {
                        let ins = counted.hot.insert(key@, spec_encode(e@));
                        if ins.dom().contains(x) && !self@.hot.dom().contains(x)
                            && !counted.cold.dom().contains(x) {
                            assert(x != key@);
                            assert(start.hot.dom().contains(x));
                        }
                        if self@.hot.dom().contains(x) {
                            assert(ins.dom().contains(x));
                        }
                    }
                }
            }
        }
        Ok(Some(e))
    }

    /// Stores the entry under the key in place of what was there. An
    /// entry that `goes_hot` stands in the hot tier only; any other has
    /// its file queued and stands in the index. Without a running
    /// batcher no file can be queued: such an entry is refused with
    /// `Io` and nothing changes.
    fn set(&mut self, key: &str, entry: CacheEntry, now: u64) -> (r: CacheResult<()>)
        ensures
            r matches Err(e) ==> e == CacheError::Io,
            old(self)@.after_set(final(self)@, key@, entry@, now, r is Ok),
    {
        let ghost start = self@;
        proof {
            self.lemma_wf();
        }
        if entry.data.len() < self.config.disk_write_threshold && self.config.hot_cache_size > 0 {
            self.delete_key(key);
            self.stats.record_write(entry.data.len() as u64);
            let ghost base = self@;
            assert(base == start.deleted(key@).wrote(entry@.data.len() as int));
            self.put_hot(key, &entry);
            proof {
                let ins = base.hot.insert(key@, spec_encode(entry@));
                assert(self@.key_set().subset_of(start.key_set().insert(key@))) by {
                    assert forall|x: Seq<char>| self@.key_set().contains(x) implies start.key_set().insert(
                        key@,
                    ).contains(x) by {
                        if self@.hot.dom().contains(x) {
                            assert(ins.dom().contains(x));
                        }
                    }
                }
                assert(base.warm.dom().subset_of(base.cold.dom()));
                assert(self@.dropped == start.dropped.union(
                    start.key_set().difference(self@.key_set()).remove(key@),
                )) by {
                    assert forall|x: Seq<char>| self@.dropped.contains(x) <==> start.dropped.union(
                        start.key_set().difference(self@.key_set()).remove(key@),
                    ).contains(x) by {
                        if ins.dom().contains(x) && !self@.hot.dom().contains(x)
                            && !base.cold.dom().contains(x) {
                            assert(x != key@);
                            assert(start.hot.dom().contains(x));
                            assert(!base.warm.dom().contains(x));
                        }
                        if start.key_set().contains(x) && !self@.key_set().contains(x) && x
                            != key@ {
                            assert(!base.cold.dom().contains(x));
                            assert(!start.cold.dom().contains(x));
                            assert(!start.warm.dom().contains(x));
                            assert(start.hot.dom().contains(x));
                            assert(ins.dom().contains(x));
                        }
                    }
                }
            }
            return Ok(());
        }
        match self.write_batcher.state() {
            BatcherState::Running => {},
            _ => {
                proof {
                    assert(start.dropped == start.dropped.union(
                        start.key_set().difference(start.key_set()).remove(key@),
                    ));
                }
                return Err(CacheError::Io);
            },
        }
        hot_remove(&mut self.hot_cache, key);
        warm_remove(&mut self.warm_cache, key);
        proof {
            if start.config.hot_cache_size == 0 {
                assert(self@.hot.dom() == start.hot.dom().remove(key@));
            }
            assert(self.wf());
        }
        let path = build_file_path(self.directory.as_str(), key);
        self.write_file(key, &entry, path, now);
        self.stats.record_write(entry.data.len() as u64);
        proof {
            assert(self@ == start.stored_cold(key@, entry@, now));
            assert(self@.key_set().subset_of(start.key_set().insert(key@)));
            assert(self@.key_set().contains(key@));
            assert(start.dropped == start.dropped.union(
                start.key_set().difference(self@.key_set()).remove(key@),
            )) by {
                assert forall|x: Seq<char>|
                    start.key_set().contains(x) && x != key@ implies self@.key_set().contains(
                    x,
                ) by {
                    if start.warm.dom().contains(x) {
                        assert(start.cold.dom().contains(x));
                    }
                }
            }
        }
        Ok(())
    }

    /// Takes the key out of every tier and queues the removal of its
    /// file.
    fn delete(&mut self, key: &str) -> (r: CacheResult<bool>)
        ensures
            final(self)@ == old(self)@.deleted(key@),
    {
        Ok(self.delete_key(key))
    }

    /// Whether the key has an entry that has not expired at `now`: the
    /// hot entry decides where there is one, the index otherwise.
    /// Nothing changes.
    fn contains(&self, key: &str, now: u64) -> (r: CacheResult<bool>)
        ensures
            r == Ok::<bool, CacheError>(self@.live(key@, now)),
    {
        match hot_get(&self.hot_cache, key) {
            Some(bytes) => {
                match decode_entry(bytes.as_slice()) {
                    Ok(e) => Ok(!e.is_expired_at(now)),
                    Err(_) => Ok(false),
                }
            },
            None => match cold_get(&self.cold_index, key) {
                Some(info) => Ok(!info.is_expired_at(now)),
                None => Ok(false),
            },
        }
    }

    /// The keys of the index, then the keys that only the hot tier has.
    fn keys(&self) -> (r: CacheResult<Vec<String>>)
    {
        proof {
            self.lemma_wf();
        }
        let mut out = cold_keys(&self.cold_index);
        let hot = hot_keys(&self.hot_cache);
        let ghost cold_list = strings_view(out@);
        let ghost hs = strings_view(hot@);
        let mut i: usize = 0;
        while i < hot.len()
            invariant
                i <= hot.len(),
                self.wf(),
                hs == strings_view(hot@),
                lists_domain(hs, self@.hot.dom()),
                lists_domain(cold_list, self@.cold.dom()),
                strings_view(out@).no_duplicates(),
                forall|x: Seq<char>|
                    strings_view(out@).contains(x) <==> (self@.cold.dom().contains(x) || exists|
                        j: int,
                    |
                        0 <= j < i && hs[j] == x),
            decreases hot.len() - i,
        {
            let ghost before = strings_view(out@);
            if !cold_contains(&self.cold_index, hot[i].as_str()) {
                let k = hot[i].clone();
                out.push(k);
                proof {
                    let after = strings_view(out@);
                    assert(after == before.push(k@));
                    assert(k@ == hs[i as int]);
                    assert(!before.contains(k@)) by {
                        if before.contains(k@) {
                            let j = choose|j: int| 0 <= j < i && hs[j] == k@;
                            assert(hs[j] == hs[i as int]);
                        }
                    }
                    assert(after.no_duplicates());
                    assert forall|x: Seq<char>|
                        after.contains(x) <==> (self@.cold.dom().contains(x) || exists|j: int|
                            0 <= j < i + 1 && hs[j] == x) by {
                        if after.contains(x) {
                            let p = choose|p: int| 0 <= p < after.len() && after[p] == x;
                            if p < before.len() {
                                assert(before[p] == x);
                                assert(before.contains(x));
                            } else {
                                assert(hs[i as int] == x);
                            }
                        }
                        if before.contains(x) {
                            let p = choose|p: int| 0 <= p < before.len() && before[p] == x;
                            assert(after[p] == x);
                        }
                        if x == k@ {
                            assert(after[after.len() - 1] == x);
                        }
                    }
                }
            } else {
                proof {
                    assert forall|x: Seq<char>|
                        before.contains(x) <==> (self@.cold.dom().contains(x) || exists|j: int|
                            0 <= j < i + 1 && hs[j] == x) by {
                        if exists|j: int| 0 <= j < i + 1 && hs[j] == x {
                            let j = choose|j: int| 0 <= j < i + 1 && hs[j] == x;
                            if j == i {
                                assert(self@.cold.dom().contains(x));
                            }
                        }
                    }
                }
            }
            i = i + 1;
        }
        proof {
            let all = strings_view(out@);
            assert forall|x: Seq<char>| all.contains(x) <==> self@.key_set().contains(x) by {
                if self@.hot.dom().contains(x) {
                    assert(hs.contains(x));
                    let j = choose|j: int| 0 <= j < hs.len() && hs[j] == x;
                    assert(0 <= j < i && hs[j] == x);
                }
                if exists|j: int| 0 <= j < i && hs[j] == x {
                    let j = choose|j: int| 0 <= j < i && hs[j] == x;
                    assert(hs.contains(x));
                }
            }
        }
        Ok(out)
    }

    /// Empties every tier, queues the removal of every file of the
    /// index, and puts a barrier behind the removals.
    fn clear(&mut self) -> (r: CacheResult<()>)
        ensures
            old(self)@.after_clear(final(self)@),
    {
        let ghost start = self@;
        proof {
            self.lemma_wf();
        }
        hot_clear(&mut self.hot_cache);
        warm_clear(&mut self.warm_cache);
        let keys = cold_keys(&self.cold_index);
        let ghost ks = strings_view(keys@);
        proof {
            ks.unique_seq_to_set();
            assert(ks.to_set() == start.cold.dom());
            assert(self@.hot.dom() == Set::<Seq<char>>::empty());
            assert(self@.warm.dom() == Set::<Seq<char>>::empty());
        }
        let mut i: usize = 0;
        while i < keys.len()
            invariant
                i <= keys.len(),
                ks == strings_view(keys@),
                lists_domain(ks, start.cold.dom()),
                ks.len() == start.cold.len(),
                self.wf(),
                self@ == (StorageView {
                    hot: Map::empty(),
                    warm: Map::empty(),
                    batcher: self@.batcher,
                    ..start
                }),
                self@.batcher == (BatcherView { pending: self@.batcher.pending, ..start.batcher }),
                start.batcher.state != BatcherState::Running ==> self@.batcher == start.batcher,
                start.batcher.state == BatcherState::Running ==> {
                    &&& self@.batcher.pending.len() == start.batcher.pending.len() + i
                    &&& forall|j: int|
                        0 <= j < start.batcher.pending.len() ==> self@.batcher.pending[j]
                            == start.batcher.pending[j]
                    &&& forall|j: int|
                        0 <= j < i ==> self@.batcher.pending.contains(
                            WriteOpView::Delete { path: #[trigger] start.cold[ks[j]].path },
                        )
                },
            decreases keys.len() - i,
        {
            let ghost before = self@.batcher.pending;
            assert(ks.contains(ks[i as int]));
            match cold_get(&self.cold_index, keys[i].as_str()) {
                Some(info) => {
                    let ghost op = WriteOpView::Delete { path: info.path@ };
                    self.queue_op(WriteOp::Delete { path: info.path });
                    proof {
                        if start.batcher.state == BatcherState::Running {
                            let after = self@.batcher.pending;
                            assert(after == before.push(op));
                            assert(after[after.len() - 1] == op);
                            assert forall|j: int| 0 <= j < i + 1 implies after.contains(
                                WriteOpView::Delete { path: #[trigger] start.cold[ks[j]].path },
                            ) by {
                                if j < i {
                                    let d = WriteOpView::Delete { path: start.cold[ks[j]].path };
                                    assert(before.contains(d));
                                    let p = choose|p: int| 0 <= p < before.len() && before[p] == d;
                                    assert(after[p] == d);
                                }
                            }
                        }
                    }
                },
                None => {},
            }
            i = i + 1;
        }
        cold_clear(&mut self.cold_index);
        let ghost before = self@.batcher.pending;
        self.queue_op(WriteOp::Sync);
        proof {
            assert(self@.cold.dom() == Set::<Seq<char>>::empty());
            assert(self@.key_set() == Set::<Seq<char>>::empty());
            if start.batcher.state == BatcherState::Running {
                let after = self@.batcher.pending;
                assert(after == before.push(WriteOpView::Sync));
                assert forall|k: Seq<char>| start.cold.contains_key(k) implies after.contains(
                    WriteOpView::Delete { path: #[trigger] start.cold[k].path },
                ) by {
                    assert(ks.contains(k));
                    let j = choose|j: int| 0 <= j < ks.len() && ks[j] == k;
                    let d = WriteOpView::Delete { path: start.cold[ks[j]].path };
                    assert(before.contains(d));
                    let p = choose|p: int| 0 <= p < before.len() && before[p] == d;
                    assert(after[p] == d);
                }
            }
        }
        Ok(())
    }

    /// The bytes that the files of the index and the hot entries take
    /// up, at most the largest number that fits.
    fn size(&self) -> (r: CacheResult<u64>)
        ensures
            r == Ok::<u64, CacheError>(capped_u64(self@.total_bytes())),
    {
        proof {
            self.lemma_wf();
        }
        let cold = self.cold_size();
        let inline = self.inline_size();
        Ok(add_capped(cold, inline))
    }

    /// Removes every key that is not live at `now`, brings the memory
    /// tiers back under their capacity, and queues a barrier.
    fn vacuum(&mut self, now: u64) -> (r: CacheResult<()>)
        ensures
            old(self)@.after_vacuum(final(self)@, now),
    {
        let ghost start = self@;
        proof {
            self.lemma_wf();
        }
        self.drop_dead_hot(now);
        let ghost mid = self@;
        self.drop_dead_cold(now);
        let ghost swept = self@;
        proof {
            assert(swept.hot == start.hot.restrict(start.live_keys(now)));
            assert(swept.cold == start.cold.restrict(start.live_keys(now)));
            let kept = start.warm.restrict(start.live_keys(now));
            assert(start.warm.dom().subset_of(start.cold.dom()));
            assert forall|x: Seq<char>| swept.warm.dom().contains(x) <==> kept.dom().contains(
                x,
            ) by {
                assert(swept.warm.contains_key(x) <==> mid.warm.contains_key(x)
                    && swept.cold.contains_key(x));
                assert(mid.warm.contains_key(x) <==> start.warm.contains_key(x)
                    && mid.cold.contains_key(x));
                if swept.cold.dom().contains(x) {
                    assert(mid.cold.dom().contains(x));
                }
                if start.warm.dom().contains(x) {
                    assert(start.cold.dom().contains(x));
                }
            }
            assert forall|x: Seq<char>| swept.warm.dom().contains(x) implies #[trigger] swept.warm[x]
                == kept[x] by {
                assert(mid.warm.dom().contains(x) ==> swept.warm[x] == mid.warm[x]);
                assert(mid.warm.dom().contains(x));
                assert(start.warm.dom().contains(x) ==> mid.warm[x] == start.warm[x]);
                assert(start.warm.dom().contains(x));
            }
            assert(swept.warm =~= kept);
        }
        self.cleanup_warm_cache(now);
        let ghost before = self@.batcher.pending;
        self.queue_op(WriteOp::Sync);
        proof {
            assert(self@.warm.submap_of(start.warm)) by {
                assert forall|x: Seq<char>| #[trigger] self@.warm.dom().contains(x) implies start.warm.dom().contains(
                    x,
                ) && self@.warm[x] == start.warm[x] by {
                    assert(swept.warm.dom().contains(x) ==> self@.warm[x] == swept.warm[x]);
                    assert(swept.warm.dom().contains(x));
                    assert(mid.warm.dom().contains(x) ==> swept.warm[x] == mid.warm[x]);
                    assert(mid.warm.dom().contains(x));
                    assert(start.warm.dom().contains(x) ==> mid.warm[x] == start.warm[x]);
                    assert(start.warm.dom().contains(x));
                }
            }
            assert(self@.key_set().subset_of(start.key_set()));
            assert(self@.key_set() == swept.key_set()) by {
                assert(self@.warm.dom().subset_of(self@.cold.dom()));
                assert(swept.warm.dom().subset_of(swept.cold.dom()));
                assert(self@.key_set() == self@.hot.dom().union(self@.cold.dom()));
                assert(swept.key_set() == swept.hot.dom().union(swept.cold.dom()));
            }
            assert(mid.key_set().subset_of(start.key_set())) by {
                assert forall|x: Seq<char>| mid.key_set().contains(x) implies start.key_set().contains(
                    x,
                ) by {
                    if mid.warm.dom().contains(x) {
                        assert(start.warm.dom().contains(x));
                    }
                    if mid.cold.dom().contains(x) {
                        assert(start.cold.dom().contains(x));
                    }
                }
            }
            assert(swept.key_set().subset_of(mid.key_set())) by {
                assert forall|x: Seq<char>| swept.key_set().contains(x) implies mid.key_set().contains(
                    x,
                ) by {
                    if swept.warm.dom().contains(x) {
                        assert(mid.warm.dom().contains(x));
                    }
                    if swept.cold.dom().contains(x) {
                        assert(mid.cold.dom().contains(x));
                    }
                }
            }
            assert(self@.dropped == start.dropped.union(
                start.key_set().difference(self@.key_set()),
            )) by {
                assert(self@.dropped == swept.dropped);
                assert forall|x: Seq<char>| self@.dropped.contains(x) <==> start.dropped.union(
                    start.key_set().difference(self@.key_set()),
                ).contains(x) by {}
            }
            if start.batcher.state == BatcherState::Running {
                let after = self@.batcher.pending;
                assert(after == before.push(WriteOpView::Sync));
                assert forall|k: Seq<char>|
                    start.cold.contains_key(k) && !start.live(k, now) implies after.contains(
                    WriteOpView::Delete { path: #[trigger] start.cold[k].path },
                ) by {
                    let d = WriteOpView::Delete { path: start.cold[k].path };
                    assert(before.contains(d));
                    let p = choose|p: int| 0 <= p < before.len() && before[p] == d;
                    assert(after[p] == d);
                }
            }
        }
        Ok(())
    }
}

} // verus!
