//! What holds of the cache across several operations.

use vstd::prelude::*;
use crate::batcher::{
    carried_out,
    drain_out,
    is_write_of,
    law_barrier_makes_durable,
    removes_last,
    touches,
    writes_last,
    BatcherState,
    BatcherView,
    WriteOpView,
};
use crate::cache::CacheView;
use crate::codec::{encodable, lemma_decode_encode, spec_encode};
use crate::error::CacheError;
use crate::layout::file_path;
use crate::serialization::CacheEntryView;
use crate::storage::model::StorageView;
use crate::storage::optimized_backend::recover;
use crate::storage::{restored, IndexRecordView};
use crate::utils::{bump, valid_key};
use crate::eviction::{
    dedup,
    expired_keys,
    lemma_covers_removed,
    lemma_dedup,
    EvictionView,
};
use crate::ranked::{
    count_below,
    distinct,
    first_keys,
    has_key,
    key_set,
    lemma_first_keys,
    lemma_key_set_len,
    lemma_without_props,
    Ranked,
};
use crate::storage::model::capped_u64;
use vstd::set_lib::{lemma_len_subset, lemma_set_difference_len};

verus! {

/// The caller hands a lookup what the last write to the key's file put
/// there, where the store asks for that file at all.
pub open spec fn reads_back(
    store: StorageView,
    key: Seq<char>,
    now: u64,
    written: Seq<u8>,
    contents: Option<Seq<u8>>,
) -> bool {
    store.file_needed(key, now) is Some ==> contents == Some(written)
}

/// Round trip: a value that was stored under a key is what a lookup of
/// the key hands out, as long as its deadline has not passed and the
/// caller reads back the file that the store queued.
pub proof fn law_round_trip(
    start: CacheView,
    mid: CacheView,
    stored: CacheView,
    after: CacheView,
    key: Seq<char>,
    value: Seq<u8>,
    expire_time: Option<u64>,
    tags: Seq<Seq<char>>,
    stored_at: u64,
    read_at: u64,
    contents: Option<Seq<u8>>,
    r: Result<Option<Seq<u8>>, CacheError>,
)
    requires
        encodable(CacheEntryView::fresh(key, value, tags, expire_time, stored_at)),
        start.after_set(mid, stored, key, value, expire_time, tags, stored_at, Ok(())),
        expire_time matches Some(t) ==> read_at <= t,
        reads_back(
            stored.storage,
            key,
            read_at,
            mid.storage.file_of(CacheEntryView::fresh(key, value, tags, expire_time, stored_at)),
            contents,
        ),
        stored.after_get(after, key, contents, read_at, r),
    ensures
        r == Ok::<Option<Seq<u8>>, CacheError>(Some(value)),
{
    let e = CacheEntryView::fresh(key, value, tags, expire_time, stored_at);
    lemma_found_after_set(start, mid, stored, key, value, expire_time, tags, stored_at, read_at, contents);
}

/// What a lookup finds after a store, under the conditions of
/// `law_round_trip`.
pub proof fn lemma_found_after_set(
    start: CacheView,
    mid: CacheView,
    stored: CacheView,
    key: Seq<char>,
    value: Seq<u8>,
    expire_time: Option<u64>,
    tags: Seq<Seq<char>>,
    stored_at: u64,
    read_at: u64,
    contents: Option<Seq<u8>>,
)
    requires
        encodable(CacheEntryView::fresh(key, value, tags, expire_time, stored_at)),
        start.after_set(mid, stored, key, value, expire_time, tags, stored_at, Ok(())),
        expire_time matches Some(t) ==> read_at <= t,
        reads_back(
            stored.storage,
            key,
            read_at,
            mid.storage.file_of(CacheEntryView::fresh(key, value, tags, expire_time, stored_at)),
            contents,
        ),
    ensures
        valid_key(key),
        stored.storage.lookup(key, contents, read_at) == Some(
            CacheEntryView::fresh(key, value, tags, expire_time, stored_at),
        ),
{
    let e = CacheEntryView::fresh(key, value, tags, expire_time, stored_at);
    lemma_decode_encode(e);
    let s = mid.unsettled(stored, key);
    assert(mid.storage.after_set(s, key, e, stored_at, true));
    assert(s.hot == stored.storage.hot && s.cold == stored.storage.cold && s.warm == stored.storage.warm);
    if mid.storage.goes_hot(e) {
        assert(stored.storage.hot.contains_key(key));
        assert(stored.storage.hot[key] == spec_encode(e));
    } else {
        assert(!stored.storage.hot.contains_key(key));
        assert(stored.storage.cold.contains_key(key));
        assert(stored.storage.cold[key].expire_time == expire_time);
        assert(stored.storage.file_needed(key, read_at) is Some);
    }
}

/// A stored file reaches the disk: once a value that needs a file was
/// stored, and the operations that a barrier hands over were carried out
/// in order, the key's file holds the bytes that `law_round_trip` asks
/// the caller to read back.
pub proof fn law_stored_file_is_written(
    start: CacheView,
    mid: CacheView,
    stored: CacheView,
    key: Seq<char>,
    value: Seq<u8>,
    expire_time: Option<u64>,
    tags: Seq<Seq<char>>,
    stored_at: u64,
    disk: Map<Seq<char>, Seq<u8>>,
)
    requires
        start.after_set(mid, stored, key, value, expire_time, tags, stored_at, Ok(())),
        !mid.storage.goes_hot(CacheEntryView::fresh(key, value, tags, expire_time, stored_at)),
    ensures
        stored.storage.cold.contains_key(key),
        stored.storage.cold[key].path == file_path(mid.storage.directory, key),
        carried_out(
            disk,
            drain_out(
                BatcherView {
                    pending: stored.storage.batcher.pending.push(WriteOpView::Sync),
                    ..stored.storage.batcher
                },
            ),
        ).contains_key(file_path(mid.storage.directory, key)),
        carried_out(
            disk,
            drain_out(
                BatcherView {
                    pending: stored.storage.batcher.pending.push(WriteOpView::Sync),
                    ..stored.storage.batcher
                },
            ),
        )[file_path(mid.storage.directory, key)] == mid.storage.file_of(
            CacheEntryView::fresh(key, value, tags, expire_time, stored_at),
        ),
{
    let e = CacheEntryView::fresh(key, value, tags, expire_time, stored_at);
    let s = mid.unsettled(stored, key);
    assert(mid.storage.after_set(s, key, e, stored_at, true));
    assert(s.batcher == stored.storage.batcher && s.cold == stored.storage.cold);
    lemma_queued_file_is_written(mid.storage, s, key, e, stored_at, disk);
}

/// The same of the store by itself: once an entry that needs a file was
/// stored, a barrier brings the entry's file to the disk.
pub proof fn lemma_queued_file_is_written(
    before: StorageView,
    stored: StorageView,
    key: Seq<char>,
    e: CacheEntryView,
    stored_at: u64,
    disk: Map<Seq<char>, Seq<u8>>,
)
    requires
        before.after_set(stored, key, e, stored_at, true),
        !before.goes_hot(e),
    ensures
        stored.cold.contains_key(key),
        stored.cold[key] == before.info_of(e, file_path(before.directory, key), stored_at),
        carried_out(
            disk,
            drain_out(
                BatcherView {
                    pending: stored.batcher.pending.push(WriteOpView::Sync),
                    ..stored.batcher
                },
            ),
        ).contains_key(file_path(before.directory, key)),
        carried_out(
            disk,
            drain_out(
                BatcherView {
                    pending: stored.batcher.pending.push(WriteOpView::Sync),
                    ..stored.batcher
                },
            ),
        )[file_path(before.directory, key)] == before.file_of(e),
{
    let path = file_path(before.directory, key);
    let data = before.file_of(e);
    let b = stored.batcher;
    let w = WriteOpView::Write { path, data, mode: before.write_mode };
    let all = b.buffered + b.pending;
    let at = (b.buffered.len() + before.batcher.pending.len()) as int;
    assert(b.buffered == before.batcher.buffered);
    assert(all[at] == w);
    assert(writes_last(all, path, data)) by {
        assert(is_write_of(all[at], path, data));
        assert forall|j: int| at < j < all.len() implies !touches(#[trigger] all[j], path) by {
            assert(all[j] == WriteOpView::Sync);
        }
    }
    law_barrier_makes_durable(b, disk);
}

/// Delete exclusivity: once a key was deleted, a lookup of it finds
/// nothing, whatever the caller reads from disk.
pub proof fn law_deleted_is_gone(
    start: CacheView,
    emptied: CacheView,
    after: CacheView,
    key: Seq<char>,
    deleted: Result<bool, CacheError>,
    contents: Option<Seq<u8>>,
    now: u64,
    r: Result<Option<Seq<u8>>, CacheError>,
)
    requires
        start.after_delete(emptied, key, deleted),
        deleted is Ok,
        emptied.after_get(after, key, contents, now, r),
    ensures
        r == Ok::<Option<Seq<u8>>, CacheError>(None),
        !emptied.storage.key_set().contains(key),
{
}

/// Expiry on read: a value stored with a deadline is not handed out once
/// the deadline has passed, whatever the caller reads from disk.
pub proof fn law_expired_is_not_returned(
    start: CacheView,
    mid: CacheView,
    stored: CacheView,
    after: CacheView,
    key: Seq<char>,
    value: Seq<u8>,
    deadline: u64,
    tags: Seq<Seq<char>>,
    stored_at: u64,
    read_at: u64,
    contents: Option<Seq<u8>>,
    r: Result<Option<Seq<u8>>, CacheError>,
)
    requires
        encodable(CacheEntryView::fresh(key, value, tags, Some(deadline), stored_at)),
        start.after_set(mid, stored, key, value, Some(deadline), tags, stored_at, Ok(())),
        read_at > deadline,
        stored.after_get(after, key, contents, read_at, r),
    ensures
        r == Ok::<Option<Seq<u8>>, CacheError>(None),
        !after.storage.key_set().contains(key),
{
    let e = CacheEntryView::fresh(key, value, tags, Some(deadline), stored_at);
    lemma_decode_encode(e);
    let s = mid.unsettled(stored, key);
    assert(mid.storage.after_set(s, key, e, stored_at, true));
    assert(s.hot == stored.storage.hot && s.cold == stored.storage.cold && s.warm == stored.storage.warm);
    if mid.storage.goes_hot(e) {
        assert(stored.storage.hot[key] == spec_encode(e));
    } else {
        assert(stored.storage.cold[key].expire_time == Some(deadline));
    }
    assert(stored.storage.lookup(key, contents, read_at) is None);
    let u = stored.unsettled(after, key);
    assert(stored.storage.after_get(u, key, contents, read_at));
    assert(u.key_set() == after.storage.key_set());
}

/// Expiry at vacuum: a value stored with a deadline is no longer among
/// the keys after a vacuum that runs once the deadline has passed.
pub proof fn law_expired_is_vacuumed(
    start: CacheView,
    mid: CacheView,
    stored: CacheView,
    after: CacheView,
    key: Seq<char>,
    value: Seq<u8>,
    deadline: u64,
    tags: Seq<Seq<char>>,
    stored_at: u64,
    vacuum_at: u64,
)
    requires
        encodable(CacheEntryView::fresh(key, value, tags, Some(deadline), stored_at)),
        start.after_set(mid, stored, key, value, Some(deadline), tags, stored_at, Ok(())),
        vacuum_at > deadline,
        stored.after_vacuum(after, vacuum_at),
    ensures
        !after.storage.key_set().contains(key),
{
    let e = CacheEntryView::fresh(key, value, tags, Some(deadline), stored_at);
    lemma_decode_encode(e);
    let s = mid.unsettled(stored, key);
    assert(mid.storage.after_set(s, key, e, stored_at, true));
    assert(s.hot == stored.storage.hot && s.cold == stored.storage.cold && s.warm == stored.storage.warm);
    if mid.storage.goes_hot(e) {
        assert(stored.storage.hot[key] == spec_encode(e));
        assert(!stored.storage.warm.dom().contains(key));
    } else {
        assert(stored.storage.cold[key].expire_time == Some(deadline));
        assert(!stored.storage.warm.dom().contains(key));
    }
    assert(!stored.storage.live(key, vacuum_at));
    assert(!stored.storage.live_keys(vacuum_at).contains(key));
    let lost = stored.storage.key_set().difference(after.storage.key_set());
    let u = StorageView { dropped: lost, ..after.storage };
    assert(stored.storage.after_vacuum(u, vacuum_at));
    assert(!u.hot.dom().contains(key));
    assert(!u.cold.dom().contains(key));
    assert(!u.warm.dom().contains(key)) by {
        if u.warm.dom().contains(key) {
            let kept = stored.storage.warm.restrict(stored.storage.live_keys(vacuum_at));
            assert(kept.dom().contains(key));
        }
    }
}

/// Tier exclusivity on store: once a value was stored under a key, no
/// tier holds anything else for the key. The hot tier holds the new
/// entry or nothing, no file of the key is mapped, the index notes the
/// new file or nothing, and the key stands in one tier only. A lookup
/// that is served from memory, or that reads the new file or no file,
/// finds the new entry or nothing.
pub proof fn law_store_replaces(
    start: CacheView,
    mid: CacheView,
    stored: CacheView,
    key: Seq<char>,
    value: Seq<u8>,
    expire_time: Option<u64>,
    tags: Seq<Seq<char>>,
    stored_at: u64,
    read_at: u64,
    contents: Option<Seq<u8>>,
)
    requires
        encodable(CacheEntryView::fresh(key, value, tags, expire_time, stored_at)),
        start.after_set(mid, stored, key, value, expire_time, tags, stored_at, Ok(())),
        contents is None || contents == Some(
            mid.storage.file_of(CacheEntryView::fresh(key, value, tags, expire_time, stored_at)),
        ) || stored.storage.hot.contains_key(key),
    ensures
        stored.storage.hot.contains_key(key) ==> stored.storage.hot[key] == spec_encode(
            CacheEntryView::fresh(key, value, tags, expire_time, stored_at),
        ),
        !stored.storage.warm.contains_key(key),
        stored.storage.cold.contains_key(key) ==> stored.storage.cold[key] == mid.storage.info_of(
            CacheEntryView::fresh(key, value, tags, expire_time, stored_at),
            file_path(mid.storage.directory, key),
            stored_at,
        ),
        stored.storage.hot.contains_key(key) != stored.storage.cold.contains_key(key),
        stored.storage.lookup(key, contents, read_at) matches Some(found) ==> found
            == CacheEntryView::fresh(key, value, tags, expire_time, stored_at),
{
    let e = CacheEntryView::fresh(key, value, tags, expire_time, stored_at);
    let s = mid.unsettled(stored, key);
    assert(mid.storage.after_set(s, key, e, stored_at, true));
    assert(s.hot == stored.storage.hot && s.cold == stored.storage.cold && s.warm == stored.storage.warm);
    law_store_keeps_one_copy(mid.storage, s, key, e, stored_at, read_at, contents);
    assert(s.lookup(key, contents, read_at) == stored.storage.lookup(key, contents, read_at));
}

/// Round trip at the store: an entry that was stored under its own key
/// is what a read of the key finds, as long as its deadline has not
/// passed and the caller reads back the file that the store queued. The
/// read hands the entry out with its payload unchanged, and a key whose
/// entry went to a file stands in the index before and after the read.
pub proof fn law_store_round_trip(
    before: StorageView,
    stored: StorageView,
    after: StorageView,
    key: Seq<char>,
    e: CacheEntryView,
    stored_at: u64,
    read_at: u64,
    contents: Option<Seq<u8>>,
)
    requires
        encodable(e),
        e.key == key,
        before.after_set(stored, key, e, stored_at, true),
        !e.expired_at(read_at),
        reads_back(stored, key, read_at, before.file_of(e), contents),
        stored.after_get(after, key, contents, read_at),
    ensures
        stored.lookup(key, contents, read_at) == Some(e),
        e.touched(read_at).data == e.data,
        after.key_set().contains(key),
        !before.goes_hot(e) ==> stored.cold.contains_key(key) && after.cold.contains_key(key),
{
    lemma_decode_encode(e);
    if before.goes_hot(e) {
        assert(stored.hot.contains_key(key));
        assert(stored.hot[key] == spec_encode(e));
    } else {
        assert(!stored.hot.contains_key(key));
        assert(stored.cold.contains_key(key));
        assert(stored.cold[key].expire_time == e.expire_time);
        assert(stored.file_needed(key, read_at) is Some);
        let hit = stored.disk_hit(key, e.touched(read_at));
        assert(hit.cold.contains_key(key));
        assert(after.cold == hit.cold);
    }
}

/// Tier exclusivity at the store, whether the hot tier is on or off:
/// once an entry was stored under its own key, no tier holds anything
/// else for the key. An entry that goes to the hot tier stands there and
/// nowhere else: the index has forgotten the key's file, so that a read
/// after the key has left the hot tier finds nothing, whatever the
/// caller reads from disk. Any other entry stands in the index alone,
/// with the new file noted, and a read of the new file or of no file
/// finds the new entry or nothing.
pub proof fn law_store_keeps_one_copy(
    before: StorageView,
    stored: StorageView,
    key: Seq<char>,
    e: CacheEntryView,
    stored_at: u64,
    read_at: u64,
    contents: Option<Seq<u8>>,
)
    requires
        encodable(e),
        e.key == key,
        before.after_set(stored, key, e, stored_at, true),
    ensures
        !stored.warm.contains_key(key),
        stored.hot.contains_key(key) <==> before.goes_hot(e),
        stored.cold.contains_key(key) <==> !before.goes_hot(e),
        stored.hot.contains_key(key) ==> stored.hot[key] == spec_encode(e),
        stored.cold.contains_key(key) ==> stored.cold[key] == before.info_of(
            e,
            file_path(before.directory, key),
            stored_at,
        ),
        before.goes_hot(e) ==> (StorageView { hot: stored.hot.remove(key), ..stored }).lookup(
            key,
            contents,
            read_at,
        ) is None,
        contents is None || contents == Some(before.file_of(e)) || before.goes_hot(e) ==> (
        stored.lookup(key, contents, read_at) matches Some(found) ==> found == e),
{
    lemma_decode_encode(e);
    if before.goes_hot(e) {
        assert(stored.hot[key] == spec_encode(e));
        assert(!stored.warm.dom().contains(key));
        assert(!stored.cold.dom().contains(key));
    } else {
        assert(!stored.warm.dom().contains(key));
        assert(!stored.hot.dom().contains(key));
    }
}

/// The disk once a barrier was taken on the store and what it handed
/// over was carried out in order.
pub open spec fn settled_disk(store: StorageView, disk: Map<Seq<char>, Seq<u8>>) -> Map<
    Seq<char>,
    Seq<u8>,
> {
    carried_out(disk, store.waiting().push(WriteOpView::Sync))
}

/// What reading the file at `path` gives: its bytes, or nothing where no
/// file is asked for or none is there.
pub open spec fn file_read(disk: Map<Seq<char>, Seq<u8>>, path: Option<Seq<char>>) -> Option<
    Seq<u8>,
> {
    match path {
        Some(p) => if disk.contains_key(p) {
            Some(disk[p])
        } else {
            None
        },
        None => None,
    }
}

/// What a lookup of the key is handed once a barrier was taken on the
/// store and carried out: the file that the store asks for, as the disk
/// then holds it.
pub open spec fn read_after_barrier(
    store: StorageView,
    disk: Map<Seq<char>, Seq<u8>>,
    key: Seq<char>,
    now: u64,
) -> Option<Seq<u8>> {
    file_read(settled_disk(store, disk), store.file_needed(key, now))
}

/// Once an entry that needs a file was stored and a barrier was carried
/// out, the disk holds the entry's file, whatever it held before.
pub proof fn lemma_settled_disk_holds_file(
    before: StorageView,
    stored: StorageView,
    key: Seq<char>,
    e: CacheEntryView,
    stored_at: u64,
    disk: Map<Seq<char>, Seq<u8>>,
)
    requires
        before.after_set(stored, key, e, stored_at, true),
        !before.goes_hot(e),
    ensures
        stored.cold.contains_key(key),
        stored.cold[key].path == file_path(before.directory, key),
        settled_disk(stored, disk).contains_key(file_path(before.directory, key)),
        settled_disk(stored, disk)[file_path(before.directory, key)] == before.file_of(e),
{
    lemma_queued_file_is_written(before, stored, key, e, stored_at, disk);
    law_barrier_makes_durable(stored.batcher, disk);
}

/// Round trip at the store, the disk included: an entry is stored under
/// its own key, a barrier is taken and carried out, and the key is read
/// with the file that the disk then holds. The read finds the entry, as
/// long as its deadline has not passed, whatever the disk held before;
/// and a key whose entry went to a file stays in the index.
pub proof fn law_store_round_trip_on_disk(
    before: StorageView,
    stored: StorageView,
    flushed: StorageView,
    after: StorageView,
    key: Seq<char>,
    e: CacheEntryView,
    stored_at: u64,
    read_at: u64,
    disk: Map<Seq<char>, Seq<u8>>,
)
    requires
        encodable(e),
        e.key == key,
        before.after_set(stored, key, e, stored_at, true),
        !e.expired_at(read_at),
        stored.barrier_taken(flushed),
        flushed.after_get(after, key, read_after_barrier(stored, disk, key, read_at), read_at),
    ensures
        flushed.lookup(key, read_after_barrier(stored, disk, key, read_at), read_at) == Some(e),
        e.touched(read_at).data == e.data,
        after.key_set().contains(key),
        !before.goes_hot(e) ==> after.cold.contains_key(key),
{
    let contents = read_after_barrier(stored, disk, key, read_at);
    lemma_decode_encode(e);
    if before.goes_hot(e) {
        assert(stored.hot.contains_key(key));
        assert(stored.hot[key] == spec_encode(e));
    } else {
        lemma_settled_disk_holds_file(before, stored, key, e, stored_at, disk);
        assert(!stored.hot.contains_key(key));
        assert(stored.cold[key].expire_time == e.expire_time);
        assert(stored.file_needed(key, read_at) == Some(file_path(before.directory, key)));
        assert(contents == Some(before.file_of(e)));
        let hit = flushed.disk_hit(key, e.touched(read_at));
        assert(hit.cold.contains_key(key));
        assert(after.cold == hit.cold);
    }
}

/// Round trip, the disk included: a value is stored under a key, the
/// waiting file operations are handed over at a barrier and carried out,
/// and the key is looked up with the file that the disk then holds. The
/// lookup hands out the value, as long as its deadline has not passed,
/// whatever the disk held before.
pub proof fn law_round_trip_on_disk(
    start: CacheView,
    mid: CacheView,
    stored: CacheView,
    flushed: CacheView,
    after: CacheView,
    key: Seq<char>,
    value: Seq<u8>,
    expire_time: Option<u64>,
    tags: Seq<Seq<char>>,
    stored_at: u64,
    read_at: u64,
    disk: Map<Seq<char>, Seq<u8>>,
    r: Result<Option<Seq<u8>>, CacheError>,
)
    requires
        encodable(CacheEntryView::fresh(key, value, tags, expire_time, stored_at)),
        start.after_set(mid, stored, key, value, expire_time, tags, stored_at, Ok(())),
        expire_time matches Some(t) ==> read_at <= t,
        flushed == (CacheView { storage: flushed.storage, ..stored }),
        stored.storage.barrier_taken(flushed.storage),
        flushed.after_get(
            after,
            key,
            read_after_barrier(stored.storage, disk, key, read_at),
            read_at,
            r,
        ),
    ensures
        r == Ok::<Option<Seq<u8>>, CacheError>(Some(value)),
{
    let e = CacheEntryView::fresh(key, value, tags, expire_time, stored_at);
    let contents = read_after_barrier(stored.storage, disk, key, read_at);
    let s = mid.unsettled(stored, key);
    assert(mid.storage.after_set(s, key, e, stored_at, true));
    assert(s.batcher == stored.storage.batcher && s.cold == stored.storage.cold && s.hot
        == stored.storage.hot);
    if !mid.storage.goes_hot(e) {
        lemma_settled_disk_holds_file(mid.storage, s, key, e, stored_at, disk);
        assert(settled_disk(s, disk) == settled_disk(stored.storage, disk));
    }
    lemma_found_after_set(start, mid, stored, key, value, expire_time, tags, stored_at, read_at, contents);
    assert(flushed.storage.lookup(key, contents, read_at) == stored.storage.lookup(
        key,
        contents,
        read_at,
    ));
}

/// No old copy, the disk included: once an entry was stored under its
/// own key and a barrier was carried out, nothing that was stored under
/// the key before can be read again. A file that the key had before an
/// entry went to the hot tier is gone from the disk. Any store that has
/// the same index, and under the key the same hot entry or none (the
/// entry may have left the hot tier, or the index may have been taken
/// over by a new instance), finds the new entry or nothing.
pub proof fn law_store_leaves_no_old_copy(
    before: StorageView,
    stored: StorageView,
    later: StorageView,
    key: Seq<char>,
    e: CacheEntryView,
    stored_at: u64,
    read_at: u64,
    disk: Map<Seq<char>, Seq<u8>>,
)
    requires
        encodable(e),
        e.key == key,
        before.after_set(stored, key, e, stored_at, true),
        later.cold == stored.cold,
        later.hot.contains_key(key) ==> stored.hot.contains_key(key) && later.hot[key]
            == stored.hot[key],
    ensures
        before.goes_hot(e) && before.cold.contains_key(key) && before.batcher.state
            == BatcherState::Running ==> !settled_disk(stored, disk).contains_key(
            before.cold[key].path,
        ),
        later.lookup(
            key,
            file_read(settled_disk(stored, disk), later.file_needed(key, read_at)),
            read_at,
        ) matches Some(found) ==> found == e,
{
    lemma_decode_encode(e);
    law_barrier_makes_durable(stored.batcher, disk);
    let all = stored.waiting();
    assert(all.push(WriteOpView::Sync).drop_last() == all);
    assert(settled_disk(stored, disk) == carried_out(disk, all));
    if before.goes_hot(e) {
        assert(!stored.cold.dom().contains(key));
        if before.cold.contains_key(key) && before.batcher.state == BatcherState::Running {
            let path = before.cold[key].path;
            let d = WriteOpView::Delete { path };
            assert(stored.batcher.pending == before.batcher.pending.push(d));
            let at = all.len() - 1;
            assert(all[at] == d);
            assert(removes_last(all, path));
        }
    } else {
        lemma_settled_disk_holds_file(before, stored, key, e, stored_at, disk);
        let path = file_path(before.directory, key);
        assert(!stored.hot.dom().contains(key));
        assert(later.cold[key].path == path);
    }
}

/// Tier exclusivity on store, the disk included: once a value was stored
/// under a key and a barrier was carried out, a lookup of the key hands
/// out the new value or nothing, never what the key held before. This
/// holds of the cache as it is, after the entry has left the hot tier,
/// and of a new instance that has taken over the index, whatever the
/// disk held before.
pub proof fn law_old_value_is_gone(
    start: CacheView,
    mid: CacheView,
    stored: CacheView,
    later: StorageView,
    key: Seq<char>,
    value: Seq<u8>,
    expire_time: Option<u64>,
    tags: Seq<Seq<char>>,
    stored_at: u64,
    read_at: u64,
    disk: Map<Seq<char>, Seq<u8>>,
)
    requires
        encodable(CacheEntryView::fresh(key, value, tags, expire_time, stored_at)),
        start.after_set(mid, stored, key, value, expire_time, tags, stored_at, Ok(())),
        later.cold == stored.storage.cold,
        later.hot.contains_key(key) ==> stored.storage.hot.contains_key(key) && later.hot[key]
            == stored.storage.hot[key],
    ensures
        later.lookup(
            key,
            file_read(settled_disk(stored.storage, disk), later.file_needed(key, read_at)),
            read_at,
        ) matches Some(found) ==> found == CacheEntryView::fresh(
            key,
            value,
            tags,
            expire_time,
            stored_at,
        ),
        mid.storage.goes_hot(CacheEntryView::fresh(key, value, tags, expire_time, stored_at))
            && mid.storage.cold.contains_key(key) && mid.storage.batcher.state
            == BatcherState::Running ==> !settled_disk(stored.storage, disk).contains_key(
            mid.storage.cold[key].path,
        ),
{
    let e = CacheEntryView::fresh(key, value, tags, expire_time, stored_at);
    let s = mid.unsettled(stored, key);
    assert(mid.storage.after_set(s, key, e, stored_at, true));
    assert(s.batcher == stored.storage.batcher && s.cold == stored.storage.cold && s.hot
        == stored.storage.hot);
    assert(settled_disk(s, disk) == settled_disk(stored.storage, disk));
    law_store_leaves_no_old_copy(mid.storage, s, later, key, e, stored_at, read_at, disk);
}

/// Recovery: an instance that takes over the index which another wrote
/// finds every entry of that index again, as long as the entry's
/// deadline has not passed and its file is read back.
pub proof fn law_recovery(
    old_store: StorageView,
    records: Seq<IndexRecordView>,
    fresh: StorageView,
    key: Seq<char>,
    e: CacheEntryView,
    file: Seq<u8>,
    now: u64,
)
    requires
        restored(records) == old_store.cold,
        fresh.cold == restored(records),
        fresh.hot == Map::<Seq<char>, Seq<u8>>::empty(),
        old_store.cold.contains_key(key),
        recover(file, old_store.cold[key].compressed) == Some(e),
        e.key == key,
        !e.expired_at(now),
        !old_store.cold[key].expired_at(now),
    ensures
        fresh.file_needed(key, now) == Some(old_store.cold[key].path),
        fresh.lookup(key, Some(file), now) == Some(e),
{
}

/// Every lookup of a valid key counts once: a lookup that hands out a
/// value moves the hits up by one and leaves the misses, a lookup that
/// hands out nothing moves the misses up by one and leaves the hits. A
/// counter that has reached the largest value it can hold stays there;
/// short of that the two counters together hold one more than before.
/// A lookup of an invalid key counts nothing.
pub proof fn law_lookups_are_counted(
    start: CacheView,
    after: CacheView,
    key: Seq<char>,
    contents: Option<Seq<u8>>,
    now: u64,
    r: Result<Option<Seq<u8>>, CacheError>,
)
    requires
        start.after_get(after, key, contents, now, r),
    ensures
        valid_key(key) <==> r is Ok,
        r matches Ok(Some(_)) ==> after.stats.hits == bump(start.stats.hits) && after.stats.misses
            == start.stats.misses,
        r matches Ok(None) ==> after.stats.misses == bump(start.stats.misses) && after.stats.hits
            == start.stats.hits,
        r is Ok && start.stats.hits < u64::MAX && start.stats.misses < u64::MAX
            ==> after.stats.lookups() == start.stats.lookups() + 1 && (r->Ok_0 is Some
            <==> after.stats.hits == start.stats.hits + 1),
        r is Err ==> after.stats == start.stats,
{
}

/// Evicting keys takes exactly these keys out of the store.
pub proof fn lemma_evicted_keys(c: CacheView, victims: Seq<Seq<char>>)
    ensures
        c.evicted(victims).storage.key_set() == c.storage.key_set().difference(victims.to_set()),
    decreases victims.len(),
{
    let k = c.storage.key_set();
    if victims.len() == 0 {
        assert(victims.to_set() == Set::<Seq<char>>::empty());
        assert(k.difference(victims.to_set()) == k);
    } else {
        let rest = victims.drop_last();
        let last = victims.last();
        lemma_evicted_keys(c, rest);
        let before = c.evicted(rest);
        assert(before.storage.deleted(last).key_set() == before.storage.key_set().remove(last));
        assert(victims.to_set() == rest.to_set().insert(last)) by {
            assert forall|x: Seq<char>| victims.to_set().contains(x) <==> rest.to_set().insert(
                last,
            ).contains(x) by {
                if victims.contains(x) {
                    let i = choose|i: int| 0 <= i < victims.len() && victims[i] == x;
                    if i < rest.len() {
                        assert(rest[i] == x);
                    }
                }
                if rest.contains(x) {
                    let i = choose|i: int| 0 <= i < rest.len() && rest[i] == x;
                    assert(victims[i] == x);
                }
                assert(victims[victims.len() - 1] == last);
            }
        }
        assert(k.difference(rest.to_set()).remove(last) == k.difference(victims.to_set()));
    }
}

/// Trimming takes keys out of the store and puts none in.
pub proof fn lemma_trimmed_keys(c: CacheView, now: u64, rounds: nat)
    ensures
        c.trimmed(now, rounds).storage.key_set().subset_of(c.storage.key_set()),
    decreases rounds,
{
    if rounds == 0 || !c.over_size() || c.eviction.victims_at(1, now).len() == 0 {
    } else {
        let v = c.eviction.victims_at(1, now);
        lemma_evicted_keys(c, v);
        lemma_trimmed_keys(c.evicted(v), now, (rounds - 1) as nat);
    }
}

/// No bookkeeping holds a key twice.
pub open spec fn in_order(v: EvictionView) -> bool {
    distinct(v.lru) && distinct(v.lfu) && distinct(v.ttl)
}

/// Every victim is a key that the bookkeeping knows, and no victim is
/// named twice.
pub proof fn lemma_victims_known(v: EvictionView, count: int, now: u64)
    requires
        in_order(v),
        count >= 0,
    ensures
        v.victims_at(count, now).no_duplicates(),
        v.victims_at(count, now).len() <= count,
        forall|i: int|
            0 <= i < v.victims_at(count, now).len() ==> v.known().contains(
                #[trigger] v.victims_at(count, now)[i],
            ),
{
    let expired = expired_keys(v.ttl, now);
    let all = v.victims_at(count, now);
    let more = v.primary_victims(count);
    lemma_first_keys(v.ttl, count_below(v.ttl, now));
    lemma_first_keys(v.lru, count);
    lemma_first_keys(v.lfu, count);
    let joined = expired + more;
    lemma_dedup(joined);
    let unique = dedup(joined);
    assert forall|i: int| 0 <= i < all.len() implies #[trigger] all[i] == unique[i] by {}
    assert forall|i: int, j: int| 0 <= i < all.len() && 0 <= j < all.len() && i != j implies all[i]
        != all[j] by {
        assert(all[i] == unique[i] && all[j] == unique[j]);
    }
    assert forall|i: int| 0 <= i < all.len() implies v.known().contains(#[trigger] all[i]) by {
        assert(all[i] == unique[i]);
        assert(unique.contains(unique[i]));
        assert(joined.contains(all[i]));
        let j = choose|j: int| 0 <= j < joined.len() && joined[j] == all[i];
        if j < expired.len() {
            assert(expired[j] == all[i]);
            assert(key_set(v.ttl).contains(expired[j]));
        } else {
            assert(more[j - expired.len()] == all[i]);
            if v.strategy.uses_lru() {
                assert(key_set(v.lru).contains(first_keys(v.lru, count)[j - expired.len()]));
            } else if v.strategy.uses_lfu() {
                assert(key_set(v.lfu).contains(first_keys(v.lfu, count)[j - expired.len()]));
            }
        }
    }
}

/// As many victims are named as were asked for, or as many as the
/// primary bookkeeping knows keys, whichever is less; more only where
/// deadlines have passed.
pub proof fn lemma_victims_count(v: EvictionView, count: int, now: u64)
    requires
        in_order(v),
        count >= 0,
    ensures
        v.victims_at(count, now).len() >= v.primary_victims(count).len(),
        v.strategy.uses_lru() ==> v.primary_victims(count).len() == if count >= v.lru.len() {
            v.lru.len() as int
        } else {
            count
        },
        v.strategy.uses_lfu() && !v.strategy.uses_lru() ==> v.primary_victims(count).len() == if count
            >= v.lfu.len() {
            v.lfu.len() as int
        } else {
            count
        },
{
    let expired = expired_keys(v.ttl, now);
    let more = v.primary_victims(count);
    lemma_first_keys(v.lru, count);
    lemma_first_keys(v.lfu, count);
    let joined = expired + more;
    lemma_dedup(joined);
    let unique = dedup(joined);
    assert(more.no_duplicates());
    assert(more.to_set().subset_of(unique.to_set())) by {
        assert forall|x: Seq<char>| more.to_set().contains(x) implies unique.to_set().contains(
            x,
        ) by {
            let i = choose|i: int| 0 <= i < more.len() && more[i] == x;
            assert(joined[expired.len() + i] == x);
            assert(joined.contains(x));
            assert(unique.contains(x));
        }
    }
    more.unique_seq_to_set();
    unique.unique_seq_to_set();
    vstd::seq_lib::seq_to_set_is_finite(unique);
    lemma_len_subset(more.to_set(), unique.to_set());
    assert(unique.len() >= more.len());
    assert(more.len() <= count);
}

/// Size bound: once room was made, the cache holds no more entries than
/// its limit allows. This is stated for a strategy that keeps recency or
/// frequency.
pub proof fn law_entry_bound(start: CacheView, after: CacheView, now: u64, limit: u64)
    requires
        start.coherent(),
        in_order(start.eviction),
        start.storage.key_set().finite(),
        start.storage.key_set().len() <= usize::MAX,
        start.config.max_entries == Some(limit),
        start.eviction.strategy.uses_lru() || start.eviction.strategy.uses_lfu(),
        start.after_evict(after, now),
    ensures
        after.storage.key_set().finite(),
        after.storage.key_set().len() <= limit,
        after.storage.key_set().subset_of(start.storage.key_set()),
{
    let k = start.storage.key_set();
    let n = k.len();
    let v = start.victims(now);
    let mid = start.evicted(v).recounted();
    let primary: Seq<Ranked> = if start.eviction.strategy.uses_lru() {
        start.eviction.lru
    } else {
        start.eviction.lfu
    };
    lemma_key_set_len(primary);
    assert(key_set(primary) == k);
    assert(primary.len() == n);
    let t = start.target();
    let wanted: int = if t > usize::MAX {
        usize::MAX as int
    } else {
        t as int
    };
    assert(v == start.eviction.victims_at(wanted, now));
    lemma_victims_known(start.eviction, wanted, now);
    lemma_victims_count(start.eviction, wanted, now);
    // the victims are keys of the store, each once
    let vs = v.to_set();
    v.unique_seq_to_set();
    assert(start.eviction.known().subset_of(k));
    assert(vs.subset_of(k)) by {
        assert forall|x: Seq<char>| vs.contains(x) implies k.contains(x) by {
            let i = choose|i: int| 0 <= i < v.len() && v[i] == x;
            assert(start.eviction.known().contains(v[i]));
        }
    }
    lemma_len_subset(vs, k);
    lemma_evicted_keys(start, v);
    let left = k.difference(vs);
    assert(mid.storage.key_set() == left);
    lemma_set_difference_len(k, vs);
    assert(k.intersect(vs) == vs);
    assert(left.len() == n - v.len());
    lemma_len_subset(left, k);
    assert(left.len() <= limit) by {
        if n > limit {
            let owed = n - limit + limit / 10;
            assert(capped_u64(n) == n);
            assert(t >= owed);
            assert(wanted >= owed);
            assert(owed <= n);
            assert(v.len() >= owed);
        }
    }
    let slim = start.slimmed(now);
    lemma_trimmed_keys(mid, now, mid.stats.entry_count as nat);
    assert(slim.storage.key_set().subset_of(left));
    lemma_len_subset(slim.storage.key_set(), left);
    if start.vacuum_due(now) {
        let lost = slim.storage.key_set().difference(after.storage.key_set());
        let u = StorageView { dropped: lost, ..after.storage };
        assert(slim.storage.after_vacuum(u, now));
        assert(after.storage.key_set().subset_of(slim.storage.key_set())) by {
            assert forall|x: Seq<char>|
                after.storage.key_set().contains(x) implies slim.storage.key_set().contains(
                x,
            ) by {
                if u.hot.dom().contains(x) {
                    assert(slim.storage.hot.dom().contains(x));
                }
                if u.cold.dom().contains(x) {
                    assert(slim.storage.cold.dom().contains(x));
                }
                if u.warm.dom().contains(x) {
                    let kept = slim.storage.warm.restrict(slim.storage.live_keys(now));
                    assert(kept.dom().contains(x));
                    assert(slim.storage.warm.dom().contains(x));
                }
            }
        }
        lemma_len_subset(after.storage.key_set(), slim.storage.key_set());
    }
}

/// Evicting keeps the bookkeeping in step with the store and in order.
pub proof fn lemma_evicted_in_step(c: CacheView, victims: Seq<Seq<char>>)
    requires
        c.eviction.covers(c.storage.key_set()),
        in_order(c.eviction),
    ensures
        c.evicted(victims).eviction.covers(c.evicted(victims).storage.key_set()),
        in_order(c.evicted(victims).eviction),
        c.evicted(victims).storage.dropped == c.storage.dropped,
    decreases victims.len(),
{
    if victims.len() > 0 {
        let rest = victims.drop_last();
        let last = victims.last();
        lemma_evicted_in_step(c, rest);
        let before = c.evicted(rest);
        lemma_covers_removed(before.eviction, before.storage.key_set(), last);
        assert(before.storage.deleted(last).key_set() == before.storage.key_set().remove(last));
        lemma_without_props(before.eviction.lru, last);
        lemma_without_props(before.eviction.lfu, last);
        lemma_without_props(before.eviction.ttl, last);
    }
}

/// A sequence whose keys are none has no entries.
proof fn lemma_no_keys_no_entries(s: Seq<Ranked>)
    requires
        key_set(s) == Set::<Seq<char>>::empty(),
    ensures
        s == Seq::<Ranked>::empty(),
{
    if s.len() > 0 {
        assert(has_key(s, s[0].key));
        assert(key_set(s).contains(s[0].key));
    }
}

/// What trimming leaves fits the size limit, or no victim is left to
/// name, provided the rounds are as many as the keys.
pub proof fn lemma_trimmed_fits(c: CacheView, now: u64, rounds: nat)
    requires
        c.eviction.covers(c.storage.key_set()),
        in_order(c.eviction),
        c.storage.key_set().finite(),
        c.storage.key_set().len() <= rounds,
    ensures
        !c.trimmed(now, rounds).over_size() || c.trimmed(now, rounds).eviction.victims_at(
            1,
            now,
        ).len() == 0,
    decreases rounds,
{
    let k = c.storage.key_set();
    if rounds == 0 {
        k.lemma_len0_is_empty();
        if c.eviction.strategy.uses_lru() {
            lemma_no_keys_no_entries(c.eviction.lru);
        }
        if c.eviction.strategy.uses_lfu() {
            lemma_no_keys_no_entries(c.eviction.lfu);
        }
        if c.eviction.strategy.spec_includes_ttl() {
            assert(key_set(c.eviction.ttl) == Set::<Seq<char>>::empty());
            lemma_no_keys_no_entries(c.eviction.ttl);
        }
        let none = Seq::<Ranked>::empty();
        assert(first_keys(none, 1) == Seq::<Seq<char>>::empty());
        assert(first_keys(none, count_below(none, now)) == Seq::<Seq<char>>::empty());
        let expired = expired_keys(c.eviction.ttl, now);
        assert(expired == Seq::<Seq<char>>::empty());
        assert(c.eviction.primary_victims(1) == Seq::<Seq<char>>::empty());
        assert(expired + c.eviction.primary_victims(1) == Seq::<Seq<char>>::empty());
        assert(dedup(Seq::<Seq<char>>::empty()) == Seq::<Seq<char>>::empty());
        assert(c.eviction.victims_at(1, now).len() == 0);
    } else if !c.over_size() || c.eviction.victims_at(1, now).len() == 0 {
    } else {
        let v = c.eviction.victims_at(1, now);
        lemma_victims_known(c.eviction, 1, now);
        lemma_evicted_in_step(c, v);
        lemma_evicted_keys(c, v);
        let next = c.evicted(v);
        let first = v[0];
        assert(c.eviction.known().contains(first));
        assert(k.contains(first));
        assert(v.to_set().contains(first)) by {
            assert(v.contains(v[0]));
        }
        assert(next.storage.key_set().subset_of(k.remove(first)));
        lemma_len_subset(next.storage.key_set(), k.remove(first));
        lemma_trimmed_fits(next, now, (rounds - 1) as nat);
    }
}

/// Size bound: once room was made, the entries take up no more bytes
/// than the size limit allows, unless the bookkeeping has no victim left
/// to name.
pub proof fn law_size_bound(start: CacheView, now: u64)
    requires
        start.coherent(),
        in_order(start.eviction),
        start.storage.key_set().finite(),
        start.storage.key_set().len() <= usize::MAX,
    ensures
        !start.slimmed(now).over_size() || start.slimmed(now).eviction.victims_at(1, now).len()
            == 0,
{
    let v = start.victims(now);
    let mid = start.evicted(v).recounted();
    lemma_evicted_in_step(start, v);
    lemma_evicted_keys(start, v);
    let k = start.storage.key_set();
    assert(mid.storage.key_set().subset_of(k));
    lemma_len_subset(mid.storage.key_set(), k);
    let rounds = mid.stats.entry_count as nat;
    assert(rounds == mid.storage.key_set().len());
    lemma_trimmed_fits(mid, now, rounds);
}

} // verus!
