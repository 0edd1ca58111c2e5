//! The tiered store as plain values, and what its operations do to it.

use vstd::prelude::*;
use crate::batcher::{BatcherState, BatcherView, WriteOpView};
use crate::codec::{spec_decode, spec_encode};
use crate::layout::{file_path, WriteMode};
use crate::serialization::{lz4_frame, strings_view, CacheEntry, CacheEntryView};
use crate::storage::optimized_backend::{
    recover,
    stored_compressed,
    StorageConfig,
    StorageStats,
    HOT_PROMOTE_LIMIT,
    WARM_STALE_SECS,
    WRITE_THROUGH_LIMIT,
};
use crate::tiers::{FileInfoView, WarmEntry};
use crate::utils::{add_capped, bump};

verus! {

/// The store as plain values.
pub struct StorageView {
    /// Hot tier: for each key its encoded envelope.
    pub hot: Map<Seq<char>, Seq<u8>>,
    /// Warm tier: for each mapped file its length and last reading.
    pub warm: Map<Seq<char>, WarmEntry>,
    /// Cold index: for each key on disk what is known of its file.
    pub cold: Map<Seq<char>, FileInfoView>,
    /// The write batcher with the file operations not yet handed out.
    pub batcher: BatcherView,
    /// Keys that left the store without being asked to, for the owner to
    /// take note of.
    pub dropped: Set<Seq<char>>,
    pub stats: StorageStats,
    pub config: StorageConfig,
    pub directory: Seq<char>,
    pub write_mode: WriteMode,
}

impl StorageView {
    /// The keys of all tiers.
    pub open spec fn key_set(self) -> Set<Seq<char>> {
        self.hot.dom().union(self.warm.dom()).union(self.cold.dom())
    }

    /// The key's hot entry is one that lives in memory only: its payload
    /// is below the disk-write threshold.
    pub open spec fn inline(self, key: Seq<char>) -> bool {
        spec_decode(self.hot[key]) matches Some(e) && e.data.len()
            < self.config.disk_write_threshold
    }

    /// Every key of the hot tier is also a key of the index, or its entry
    /// lives in memory only.
    pub open spec fn hot_backed(self) -> bool {
        forall|k: Seq<char>|
            #[trigger] self.hot.dom().contains(k) ==> self.cold.dom().contains(k) || self.inline(k)
    }

    /// The key has an entry whose deadline has not passed at `now`.
    pub open spec fn live(self, key: Seq<char>, now: u64) -> bool {
        if self.hot.contains_key(key) {
            match spec_decode(self.hot[key]) {
                Some(e) => !e.expired_at(now),
                None => false,
            }
        } else if self.cold.contains_key(key) {
            !self.cold[key].expired_at(now)
        } else {
            false
        }
    }

    /// The store with the key taken out of every tier.
    pub open spec fn without_key(self, key: Seq<char>) -> StorageView {
        StorageView {
            hot: self.hot.remove(key),
            warm: self.warm.remove(key),
            cold: self.cold.remove(key),
            ..self
        }
    }

    /// The store with one more file operation queued, as far as the
    /// batcher still takes operations.
    pub open spec fn queued(self, op: WriteOpView) -> StorageView {
        if self.batcher.state == BatcherState::Running {
            StorageView {
                batcher: BatcherView { pending: self.batcher.pending.push(op), ..self.batcher },
                ..self
            }
        } else {
            self
        }
    }

    /// The file operations that wait in the store, in the order in which
    /// they were queued.
    pub open spec fn waiting(self) -> Seq<WriteOpView> {
        self.batcher.buffered + self.batcher.pending
    }

    /// `after` is the store once a barrier was taken on it: nothing waits
    /// any more, and nothing else has changed.
    pub open spec fn barrier_taken(self, after: StorageView) -> bool {
        after == (StorageView {
            batcher: BatcherView {
                buffered: Seq::empty(),
                pending: Seq::empty(),
                ..self.batcher
            },
            ..self
        })
    }

    /// The store after the key was deleted: out of every tier, and its
    /// file, if it had one, queued for removal.
    pub open spec fn deleted(self, key: Seq<char>) -> StorageView {
        if self.cold.contains_key(key) {
            self.without_key(key).queued(WriteOpView::Delete { path: self.cold[key].path })
        } else {
            self.without_key(key)
        }
    }
}

impl StorageView {
    /// The entry goes to the hot tier only: its payload is below the
    /// disk-write threshold and the hot tier is on.
    pub open spec fn goes_hot(self, e: CacheEntryView) -> bool {
        e.data.len() < self.config.disk_write_threshold && self.config.hot_cache_size > 0
    }

    /// The entry's file is handed out at once, not collected first.
    pub open spec fn writes_through(self, e: CacheEntryView) -> bool {
        self.config.sync_writes || self.config.use_file_locking || e.data.len()
            > WRITE_THROUGH_LIMIT
    }

    /// Whether the payload inside the entry's file is a frame.
    pub open spec fn file_compressed(self, e: CacheEntryView) -> bool {
        stored_compressed(self.config, e.data)
    }

    /// The bytes of the entry's file.
    pub open spec fn file_of(self, e: CacheEntryView) -> Seq<u8> {
        spec_encode(
            CacheEntryView {
                data: if self.file_compressed(e) {
                    lz4_frame(e.data)
                } else {
                    e.data
                },
                ..e
            },
        )
    }

    /// What the index notes of the entry's file.
    pub open spec fn info_of(self, e: CacheEntryView, path: Seq<char>, created_at: u64) -> FileInfoView {
        FileInfoView {
            path,
            size: self.file_of(e).len() as u64,
            created_at,
            compressed: self.file_compressed(e),
            expire_time: e.expire_time,
        }
    }

    /// The store once the entry's file is queued to be written at `path`
    /// and the index knows of it. A file that is written through is
    /// followed by a barrier.
    pub open spec fn with_file(
        self,
        key: Seq<char>,
        e: CacheEntryView,
        path: Seq<char>,
        created_at: u64,
    ) -> StorageView {
        let w = WriteOpView::Write { path, data: self.file_of(e), mode: self.write_mode };
        let pending = if self.writes_through(e) {
            self.batcher.pending.push(w).push(WriteOpView::Sync)
        } else {
            self.batcher.pending.push(w)
        };
        StorageView {
            cold: self.cold.insert(key, self.info_of(e, path, created_at)),
            batcher: BatcherView { pending, ..self.batcher },
            ..self
        }
    }

    /// The counters after a write of `n` payload bytes.
    pub open spec fn wrote(self, n: int) -> StorageView {
        StorageView {
            stats: StorageStats {
                writes: bump(self.stats.writes),
                bytes_written: add_capped(self.stats.bytes_written, n as u64),
                ..self.stats
            },
            ..self
        }
    }

    /// The store after an entry too large for the hot tier was stored at
    /// `now`: out of the memory tiers, its file queued, the index
    /// brought up to date.
    pub open spec fn stored_cold(self, key: Seq<char>, e: CacheEntryView, now: u64) -> StorageView {
        (StorageView { hot: self.hot.remove(key), warm: self.warm.remove(key), ..self }).with_file(
            key,
            e,
            file_path(self.directory, key),
            now,
        ).wrote(e.data.len() as int)
    }

    /// `after` is the store once an entry small enough for the hot tier
    /// was stored: what was there under the key is deleted from every
    /// tier, the encoded entry stands in the hot tier, and where that
    /// tier overflowed other entries left it.
    pub open spec fn stored_hot(self, after: StorageView, key: Seq<char>, e: CacheEntryView) -> bool {
        let base = self.deleted(key).wrote(e.data.len() as int);
        let ins = base.hot.insert(key, spec_encode(e));
        &&& after == (StorageView { hot: after.hot, dropped: after.dropped, ..base })
        &&& after.hot.submap_of(ins)
        &&& after.hot.contains_key(key)
        &&& after.hot[key] == spec_encode(e)
        &&& after.hot.len() == ins.len() - hot_excess(
            ins.len() as int,
            self.config.hot_cache_size as int,
        )
        &&& after.dropped == self.dropped.union(
            ins.dom().difference(after.hot.dom()).difference(base.cold.dom()),
        )
    }

    /// The entry that a read of the key finds at `now`, given what the
    /// key's file holds: the hot entry, or else the entry in the file.
    /// An entry that has expired, that is stored under another key or
    /// that cannot be decoded is not found.
    pub open spec fn lookup(self, key: Seq<char>, contents: Option<Seq<u8>>, now: u64) -> Option<
        CacheEntryView,
    > {
        if self.hot.contains_key(key) {
            match spec_decode(self.hot[key]) {
                Some(e) => if e.key == key && !e.expired_at(now) {
                    Some(e)
                } else {
                    None
                },
                None => None,
            }
        } else if self.cold.contains_key(key) {
            if self.cold[key].expired_at(now) {
                None
            } else {
                match contents {
                    Some(raw) => match recover(raw, self.cold[key].compressed) {
                        Some(e) => if e.key == key && !e.expired_at(now) {
                            Some(e)
                        } else {
                            None
                        },
                        None => None,
                    },
                    None => None,
                }
            }
        } else {
            None
        }
    }

    /// The file that has to be read before the key can be looked up, if
    /// there is one: the file of a key that is not in the hot tier and
    /// has not expired.
    pub open spec fn file_needed(self, key: Seq<char>, now: u64) -> Option<Seq<char>> {
        if !self.hot.contains_key(key) && self.cold.contains_key(key) && !self.cold[key].expired_at(
            now,
        ) {
            Some(self.cold[key].path)
        } else {
            None
        }
    }

    /// The file that was read for the key holds the entry of another
    /// key: two keys share a file name.
    pub open spec fn foreign_file(self, key: Seq<char>, contents: Option<Seq<u8>>, now: u64) -> bool {
        &&& !self.hot.contains_key(key)
        &&& self.cold.contains_key(key)
        &&& !self.cold[key].expired_at(now)
        &&& contents matches Some(raw) && recover(raw, self.cold[key].compressed) matches Some(e)
            && e.key != key
    }

    /// The store after a read that found nothing: a miss is counted and
    /// the key is deleted. Where the file belongs to another key it is
    /// left in place, and the key only leaves the tiers.
    pub open spec fn missed(self, key: Seq<char>, foreign: bool) -> StorageView {
        let d = if foreign {
            self.without_key(key)
        } else {
            self.deleted(key)
        };
        StorageView { stats: StorageStats { misses: bump(d.stats.misses), ..d.stats }, ..d }
    }

    /// The store after a read that found the entry in the hot tier: the
    /// entry, counted as read, stands there again.
    pub open spec fn hot_hit(self, key: Seq<char>, t: CacheEntryView) -> StorageView {
        StorageView {
            hot: self.hot.insert(key, spec_encode(t)),
            stats: StorageStats {
                hot_hits: bump(self.stats.hot_hits),
                bytes_read: add_capped(self.stats.bytes_read, t.data.len() as u64),
                ..self.stats
            },
            ..self
        }
    }

    /// The store after a read from a file has been counted and the
    /// entry, counted as read, is queued to be written back. Without a
    /// running batcher nothing is written back.
    pub open spec fn disk_hit(self, key: Seq<char>, t: CacheEntryView) -> StorageView {
        let base = if self.batcher.state == BatcherState::Running {
            self.with_file(key, t, self.cold[key].path, self.cold[key].created_at)
        } else {
            self
        };
        StorageView {
            stats: StorageStats {
                warm_hits: if self.warm.contains_key(key) {
                    bump(self.stats.warm_hits)
                } else {
                    self.stats.warm_hits
                },
                cold_hits: if self.warm.contains_key(key) {
                    self.stats.cold_hits
                } else {
                    bump(self.stats.cold_hits)
                },
                bytes_read: add_capped(self.stats.bytes_read, t.data.len() as u64),
                ..self.stats
            },
            ..base
        }
    }

    /// The entry is copied into the hot tier when read from its file.
    pub open spec fn promotes_hot(self, t: CacheEntryView) -> bool {
        t.data.len() < HOT_PROMOTE_LIMIT && self.config.hot_cache_size > 0
    }

    /// `after` is the store `self` once a read from the key's file has
    /// moved the entry up: a small entry is copied into the hot tier,
    /// which may make others leave it; a mapped file is noted as read;
    /// a file of middle size becomes mapped, which may unmap stale ones.
    pub open spec fn promoted(
        self,
        after: StorageView,
        key: Seq<char>,
        t: CacheEntryView,
        file_len: u64,
        now: u64,
    ) -> bool {
        let ins = self.hot.insert(key, spec_encode(t));
        let noted = WarmEntry { size: file_len, last_accessed: now };
        &&& after == (StorageView {
            hot: after.hot,
            warm: after.warm,
            dropped: after.dropped,
            ..self
        })
        &&& if self.promotes_hot(t) {
            &&& after.hot.submap_of(ins)
            &&& after.hot.contains_key(key)
            &&& after.hot[key] == spec_encode(t)
            &&& after.hot.len() == ins.len() - hot_excess(
                ins.len() as int,
                self.config.hot_cache_size as int,
            )
            &&& after.dropped == self.dropped.union(
                ins.dom().difference(after.hot.dom()).difference(self.cold.dom()),
            )
        } else {
            after.hot == self.hot && after.dropped == self.dropped
        }
        &&& if self.warm.contains_key(key) {
            after.warm == self.warm.insert(key, noted)
        } else if !self.promotes_hot(t) && t.data.len() < self.config.mmap_threshold {
            &&& unmapped(
                self.warm.insert(key, noted),
                after.warm,
                self.config.warm_cache_size,
                now,
            )
            &&& after.warm.contains_key(key)
            &&& after.warm[key] == noted
        } else {
            after.warm == self.warm
        }
    }
}

impl StorageView {
    /// `after` is the store once the key was read at `now`, given what
    /// its file holds. A read that finds nothing deletes the key and
    /// counts a miss. A read that finds the entry stores it back,
    /// counted as read once more, where it was found, and moves an entry
    /// found on disk up. Keys that leave the store by the way, other
    /// than `key` itself, are noted as dropped.
    pub open spec fn after_get(
        self,
        after: StorageView,
        key: Seq<char>,
        contents: Option<Seq<u8>>,
        now: u64,
    ) -> bool {
        &&& match self.lookup(key, contents, now) {
            None => after == self.missed(key, self.foreign_file(key, contents, now))
                && !after.key_set().contains(key),
            Some(e) => {
                &&& after.key_set().contains(key)
                &&& if self.hot.contains_key(key) {
                    after == self.hot_hit(key, e.touched(now))
                } else {
                    self.disk_hit(key, e.touched(now)).promoted(
                        after,
                        key,
                        e.touched(now),
                        contents->0.len() as u64,
                        now,
                    )
                }
            },
        }
        &&& after.key_set().subset_of(self.key_set())
        &&& after.dropped == self.dropped.union(
            self.key_set().difference(after.key_set()).remove(key),
        )
    }

    /// `after` is the store once the entry was stored under the key at
    /// `now`, where `stored` says whether it was: an entry that
    /// `goes_hot` stands in the hot tier only; any other has its file
    /// queued and stands in the index, and reading that file back gives
    /// the entry. Without a running batcher no file can be queued, and
    /// nothing changes.
    pub open spec fn after_set(
        self,
        after: StorageView,
        key: Seq<char>,
        e: CacheEntryView,
        now: u64,
        stored: bool,
    ) -> bool {
        &&& stored == (self.goes_hot(e) || self.batcher.state == BatcherState::Running)
        &&& if !stored {
            after == self
        } else if self.goes_hot(e) {
            self.stored_hot(after, key, e)
        } else {
            &&& after == self.stored_cold(key, e, now)
            &&& recover(self.file_of(e), self.file_compressed(e)) == Some(e)
        }
        &&& after.key_set().subset_of(self.key_set().insert(key))
        &&& stored ==> after.key_set().contains(key)
        &&& after.dropped == self.dropped.union(
            self.key_set().difference(after.key_set()).remove(key),
        )
    }

    /// `after` is the store once every key that is not live at `now`
    /// was deleted, stale mapped files of an overflowing warm tier were
    /// unmapped, and a barrier was queued behind the removals.
    pub open spec fn after_vacuum(self, after: StorageView, now: u64) -> bool {
        &&& after.hot == self.hot.restrict(self.live_keys(now))
        &&& after.cold == self.cold.restrict(self.live_keys(now))
        &&& unmapped(
            self.warm.restrict(self.live_keys(now)),
            after.warm,
            self.config.warm_cache_size,
            now,
        )
        &&& after.dropped == self.dropped.union(self.key_set().difference(after.key_set()))
        &&& after == (StorageView {
            hot: after.hot,
            warm: after.warm,
            cold: after.cold,
            dropped: after.dropped,
            batcher: after.batcher,
            ..self
        })
        &&& after.batcher == (BatcherView { pending: after.batcher.pending, ..self.batcher })
        &&& self.batcher.state != BatcherState::Running ==> after.batcher == self.batcher
        &&& self.batcher.state == BatcherState::Running ==> {
            &&& after.batcher.pending.len() > self.batcher.pending.len()
            &&& after.batcher.pending.last() == WriteOpView::Sync
            &&& forall|i: int|
                0 <= i < self.batcher.pending.len() ==> after.batcher.pending[i]
                    == self.batcher.pending[i]
            &&& forall|k: Seq<char>|
                self.cold.contains_key(k) && !self.live(k, now) ==> after.batcher.pending.contains(
                    WriteOpView::Delete { path: #[trigger] self.cold[k].path },
                )
        }
    }

    /// `after` is the store once every tier was emptied, the removal of
    /// every file of the index was queued, and a barrier behind them.
    pub open spec fn after_clear(self, after: StorageView) -> bool {
        &&& after.hot == Map::<Seq<char>, Seq<u8>>::empty()
        &&& after.warm == Map::<Seq<char>, WarmEntry>::empty()
        &&& after.cold == Map::<Seq<char>, FileInfoView>::empty()
        &&& after == (StorageView {
            hot: after.hot,
            warm: after.warm,
            cold: after.cold,
            batcher: after.batcher,
            ..self
        })
        &&& after.batcher == (BatcherView { pending: after.batcher.pending, ..self.batcher })
        &&& self.batcher.state != BatcherState::Running ==> after.batcher == self.batcher
        &&& self.batcher.state == BatcherState::Running ==> {
            &&& after.batcher.pending.len() == self.batcher.pending.len() + self.cold.len() + 1
            &&& after.batcher.pending.last() == WriteOpView::Sync
            &&& forall|i: int|
                0 <= i < self.batcher.pending.len() ==> after.batcher.pending[i]
                    == self.batcher.pending[i]
            &&& forall|k: Seq<char>|
                self.cold.contains_key(k) ==> after.batcher.pending.contains(
                    WriteOpView::Delete { path: #[trigger] self.cold[k].path },
                )
        }
    }
}

/// Adds the size that the index notes of a key's file.
pub open spec fn cold_adder(cold: Map<Seq<char>, FileInfoView>) -> spec_fn(nat, Seq<char>) -> nat {
    |acc: nat, k: Seq<char>| acc + cold[k].size as nat
}

/// Adds the length of a key's bytes in the hot tier.
pub open spec fn hot_adder(hot: Map<Seq<char>, Seq<u8>>) -> spec_fn(nat, Seq<char>) -> nat {
    |acc: nat, k: Seq<char>| acc + hot[k].len()
}

impl StorageView {
    /// The bytes that the files of the index take up.
    pub open spec fn cold_bytes(self) -> nat {
        self.cold.dom().fold(0nat, cold_adder(self.cold))
    }

    /// The bytes that the entries take up which only the hot tier has.
    pub open spec fn inline_bytes(self) -> nat {
        self.hot.dom().difference(self.cold.dom()).fold(0nat, hot_adder(self.hot))
    }

    /// The bytes that all entries take up.
    pub open spec fn total_bytes(self) -> nat {
        self.cold_bytes() + self.inline_bytes()
    }

    /// The keys that are live at `now`.
    pub open spec fn live_keys(self, now: u64) -> Set<Seq<char>> {
        Set::new(|k: Seq<char>| self.live(k, now))
    }
}

/// The views of a list of entries.
pub open spec fn entries_view(s: Seq<CacheEntry>) -> Seq<CacheEntryView> {
    Seq::new(s.len(), |i: int| s[i]@)
}

/// `after` is the store `before` once the entry was stored under its
/// own key, or was refused where `stored` is false, see
/// `StorageView::after_set`.
#[verifier::opaque]
pub open spec fn stored_as(
    before: StorageView,
    after: StorageView,
    e: CacheEntryView,
    now: u64,
    stored: bool,
) -> bool {
    before.after_set(after, e.key, e, now, stored)
}

/// The stores in `trace` follow each other by storing the first `n`
/// entries, each under its own key, in their order.
pub open spec fn stored_in_turn(
    trace: Seq<StorageView>,
    entries: Seq<CacheEntryView>,
    now: u64,
    n: int,
) -> bool {
    &&& trace.len() == n + 1
    &&& forall|j: int|
        0 <= j < n ==> stored_as(#[trigger] trace[j], trace[j + 1], entries[j], now, true)
}

/// The key stands in the list at position `from` or behind it.
pub open spec fn waits(keys: Seq<Seq<char>>, from: int, key: Seq<char>) -> bool {
    exists|j: int| from <= j < keys.len() && keys[j] == key
}

/// A number as a counter: the largest value where it does not fit.
pub open spec fn capped_u64(n: nat) -> u64 {
    if n <= u64::MAX {
        n as u64
    } else {
        u64::MAX
    }
}

/// How many entries leave an overflowing hot tier: as many as it holds
/// too many, and a tenth of its capacity at least.
pub open spec fn hot_excess(len: int, capacity: int) -> int {
    if len <= capacity {
        0
    } else if len - capacity >= capacity / 10 {
        len - capacity
    } else {
        capacity / 10
    }
}

/// A mapped file was last read more than `WARM_STALE_SECS` before `now`.
pub open spec fn stale(entry: WarmEntry, now: u64) -> bool {
    now > entry.last_accessed && now - entry.last_accessed > WARM_STALE_SECS
}

/// `after` is the warm tier `before` once room was made in it at `now`.
/// Within its capacity nothing leaves it. Beyond it only stale files are
/// unmapped, a tenth of the capacity at most; where fewer leave, no
/// stale file is left.
pub open spec fn unmapped(
    before: Map<Seq<char>, WarmEntry>,
    after: Map<Seq<char>, WarmEntry>,
    capacity: usize,
    now: u64,
) -> bool {
    &&& after.submap_of(before)
    &&& before.len() <= capacity ==> after == before
    &&& forall|k: Seq<char>|
        before.contains_key(k) && !after.contains_key(k) ==> stale(#[trigger] before[k], now)
    &&& before.len() - after.len() <= capacity / 10
    &&& before.len() > capacity ==> (before.len() - after.len() == capacity / 10 || forall|
        k: Seq<char>,
    |
        after.contains_key(k) ==> !stale(#[trigger] after[k], now))
}

/// The set of the keys in a list.
pub open spec fn keys_in(keys: Seq<String>) -> Set<Seq<char>> {
    strings_view(keys).to_set()
}

} // verus!
