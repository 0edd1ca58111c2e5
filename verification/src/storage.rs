//! Storage backends: what every backend offers, and the records of the
//! index document.

pub mod model;
pub mod optimized_backend;

use vstd::prelude::*;
use crate::error::CacheResult;
use crate::serialization::{strings_view, CacheEntry};
use crate::tiers::{lists_domain, FileInfo, FileInfoView};

verus! {

/// What every storage backend offers. File contents and the time are
/// handed in by the caller.
pub trait StorageBackend {
    /// The backend's bookkeeping is consistent.
    spec fn wf(&self) -> bool;

    /// The keys that the backend holds.
    spec fn stored_keys(&self) -> Set<Seq<char>>;

    /// The entry under the key, counted as read once more at `now`.
    /// `contents` is what the key's file holds, for a key whose entry
    /// lies on disk; `None` says that the file could not be read.
    fn get(&mut self, key: &str, contents: Option<Vec<u8>>, now: u64) -> (r: CacheResult<
        Option<CacheEntry>,
    >)
        requires
            old(self).wf(),
        ensures
            final(self).wf(),
            final(self).stored_keys().subset_of(old(self).stored_keys()),
            r matches Ok(Some(e)) ==> final(self).stored_keys().contains(key@),
            r matches Ok(None) ==> !final(self).stored_keys().contains(key@),
    ;

    /// Stores the entry under the key, in place of what was there.
    fn set(&mut self, key: &str, entry: CacheEntry, now: u64) -> (r: CacheResult<()>)
        requires
            old(self).wf(),
        ensures
            final(self).wf(),
            final(self).stored_keys().subset_of(old(self).stored_keys().insert(key@)),
            r is Ok ==> final(self).stored_keys().contains(key@),
            r is Err ==> final(self).stored_keys() == old(self).stored_keys(),
    ;

    /// Removes the key. Tells whether it was there.
    fn delete(&mut self, key: &str) -> (r: CacheResult<bool>)
        requires
            old(self).wf(),
        ensures
            final(self).wf(),
            r matches Ok(found) && found == old(self).stored_keys().contains(key@),
            final(self).stored_keys() == old(self).stored_keys().remove(key@),
    ;

    /// Whether the key has an entry that has not expired at `now`.
    fn contains(&self, key: &str, now: u64) -> (r: CacheResult<bool>)
        requires
            self.wf(),
        ensures
            r matches Ok(found) && (found ==> self.stored_keys().contains(key@)),
    ;

    /// Every key once, in no particular order.
    fn keys(&self) -> (r: CacheResult<Vec<String>>)
        requires
            self.wf(),
        ensures
            r matches Ok(v) && lists_domain(strings_view(v@), self.stored_keys()),
    ;

    /// Removes every key.
    fn clear(&mut self) -> (r: CacheResult<()>)
        requires
            old(self).wf(),
        ensures
            final(self).wf(),
            r is Ok,
            final(self).stored_keys() == Set::<Seq<char>>::empty(),
    ;

    /// The bytes that the entries take up.
    fn size(&self) -> (r: CacheResult<u64>)
        requires
            self.wf(),
        ensures
            r is Ok,
    ;

    /// Removes the entries that have expired at `now` and brings the
    /// backend's bookkeeping into order.
    fn vacuum(&mut self, now: u64) -> (r: CacheResult<()>)
        requires
            old(self).wf(),
        ensures
            final(self).wf(),
            r is Ok,
            final(self).stored_keys().subset_of(old(self).stored_keys()),
    ;
}

/// A key of the index with what the index knows of its file, as it is
/// written to the index document and read back from it.
#[derive(Debug)]
pub struct IndexRecord {
    pub key: String,
    pub info: FileInfo,
    /// Whether the file was found when the document was read. Written
    /// as `true`.
    pub file_exists: bool,
}

/// An index record as plain values.
pub struct IndexRecordView {
    pub key: Seq<char>,
    pub info: FileInfoView,
    pub file_exists: bool,
}

impl View for IndexRecord {
    type V = IndexRecordView;

    open spec fn view(&self) -> IndexRecordView {
        IndexRecordView { key: self.key@, info: self.info@, file_exists: self.file_exists }
    }
}

/// The views of a list of records.
pub open spec fn records_view(s: Seq<IndexRecord>) -> Seq<IndexRecordView> {
    Seq::new(s.len(), |i: int| s[i]@)
}

/// The index that a list of records stands for: each record whose file
/// exists, a later record in place of an earlier one with the same key.
pub open spec fn restored(records: Seq<IndexRecordView>) -> Map<Seq<char>, FileInfoView>
    decreases records.len(),
{
    if records.len() == 0 {
        Map::empty()
    } else {
        let m = restored(records.drop_last());
        if records.last().file_exists {
            m.insert(records.last().key, records.last().info)
        } else {
            m
        }
    }
}

} // verus!
