//! The three concurrent maps behind the tiers.
//!
//! The hot map holds encoded envelopes, the warm map what is known of
//! each mapped file, the cold map the file of each key on disk. The maps
//! themselves are `DashMap`s; what they hold is named here and every
//! access goes through one of the functions below.

use vstd::prelude::*;
use bytes::Bytes;
use dashmap::DashMap;
use crate::serialization::strings_view;

verus! {

/// `dashmap::DashMap`, of which nothing is known but what the functions
/// below say.
#[verifier::external_type_specification]
#[verifier::external_body]
#[verifier::reject_recursive_types(K)]
#[verifier::reject_recursive_types(V)]
#[verifier::reject_recursive_types(S)]
pub struct ExDashMap<K, V, S>(DashMap<K, V, S>);

/// `bytes::Bytes`, the form in which the hot map holds its values.
#[verifier::external_type_specification]
#[verifier::external_body]
pub struct ExBytes(Bytes);

/// What stands for a mapped file: its length and when it was last read.
#[derive(Debug, Clone, Copy, PartialEq, Eq, Structural)]
pub struct WarmEntry {
    pub size: u64,
    pub last_accessed: u64,
}

/// What the index knows of a key's file, as plain values.
pub struct FileInfoView {
    pub path: Seq<char>,
    pub size: u64,
    pub created_at: u64,
    pub compressed: bool,
    pub expire_time: Option<u64>,
}

/// What the index knows of a key's file.
#[derive(Debug)]
pub struct FileInfo {
    pub path: String,
    /// Length of the file in bytes.
    pub size: u64,
    pub created_at: u64,
    /// Whether the payload inside the envelope is an LZ4 frame.
    pub compressed: bool,
    /// The entry's deadline, kept here so that an expired entry is known
    /// without reading its file.
    pub expire_time: Option<u64>,
}

impl View for FileInfo {
    type V = FileInfoView;

    open spec fn view(&self) -> FileInfoView {
        FileInfoView {
            path: self.path@,
            size: self.size,
            created_at: self.created_at,
            compressed: self.compressed,
            expire_time: self.expire_time,
        }
    }
}

impl FileInfoView {
    /// The deadline has passed at `now`.
    pub open spec fn expired_at(self, now: u64) -> bool {
        match self.expire_time {
            Some(t) => now > t,
            None => false,
        }
    }
}

impl FileInfo {
    /// Whether the deadline has passed at `now`.
    pub fn is_expired_at(&self, now: u64) -> (r: bool)
        ensures
            r == self@.expired_at(now),
    {
        match self.expire_time {
            Some(t) => now > t,
            None => false,
        }
    }

    /// A copy with the same contents.
    pub fn duplicate(&self) -> (r: Self)
        ensures
            r@ == self@,
    {
        FileInfo {
            path: self.path.clone(),
            size: self.size,
            created_at: self.created_at,
            compressed: self.compressed,
            expire_time: self.expire_time,
        }
    }
}

/// What a hot map holds: for each key the bytes stored under it.
pub uninterp spec fn hot_contents(m: DashMap<String, Bytes>) -> Map<Seq<char>, Seq<u8>>;

/// What a warm map holds.
pub uninterp spec fn warm_contents(m: DashMap<String, WarmEntry>) -> Map<Seq<char>, WarmEntry>;

/// What a cold map holds.
pub uninterp spec fn cold_contents(m: DashMap<String, FileInfo>) -> Map<Seq<char>, FileInfoView>;

/// The keys are exactly those of the domain, each once.
pub open spec fn lists_domain(keys: Seq<Seq<char>>, dom: Set<Seq<char>>) -> bool {
    &&& keys.no_duplicates()
    &&& dom.finite()
    &&& forall|k: Seq<char>| keys.contains(k) <==> dom.contains(k)
}

/// The domain is finite and has `n` keys.
pub open spec fn counts(n: usize, dom: Set<Seq<char>>) -> bool {
    dom.finite() && dom.len() == n
}

/// A hot map without entries.
pub open spec fn no_hot() -> Map<Seq<char>, Seq<u8>> {
    Map::empty()
}

/// A warm map without entries.
pub open spec fn no_warm() -> Map<Seq<char>, WarmEntry> {
    Map::empty()
}

/// A cold map without entries.
pub open spec fn no_cold() -> Map<Seq<char>, FileInfoView> {
    Map::empty()
}

/// Most entries that a map makes room for when it is made. The room is
/// set aside at once, and a map grows beyond it as entries come in.
pub const MAX_CAPACITY_HINT: usize = 0x10_0000;

/// The room that a map for `wanted` entries is made with.
pub fn capacity_hint(wanted: usize) -> (r: usize)
    ensures
        r <= MAX_CAPACITY_HINT,
        r == if wanted > MAX_CAPACITY_HINT {
            MAX_CAPACITY_HINT
        } else {
            wanted
        },
{
    if wanted > MAX_CAPACITY_HINT {
        MAX_CAPACITY_HINT
    } else {
        wanted
    }
}

/// `DashMap::with_capacity`: a map without entries. The capacity is
/// rounded up to a multiple of the number of shards inside the call and
/// the room is set aside at once, so a capacity beyond
/// `MAX_CAPACITY_HINT` is left out.
#[verifier::external_body]
pub(crate) fn hot_new(capacity: usize) -> (r: DashMap<String, Bytes>)
    requires
        capacity <= MAX_CAPACITY_HINT,
    ensures
        hot_contents(r) == no_hot(),
{
    DashMap::with_capacity(capacity)
}

/// `DashMap::insert`, the value made by `Bytes::from`: the key now maps
/// to the given bytes, every other key is as before.
#[verifier::external_body]
pub(crate) fn hot_insert(m: &mut DashMap<String, Bytes>, key: String, data: Vec<u8>)
    ensures
        hot_contents(*final(m)) == hot_contents(*old(m)).insert(key@, data@),
{
    m.insert(key, Bytes::from(data));
}

/// `DashMap::get`: a copy of the bytes under the key, if it has any.
#[verifier::external_body]
pub(crate) fn hot_get(m: &DashMap<String, Bytes>, key: &str) -> (r: Option<Vec<u8>>)
    ensures
        match r {
            Some(v) => hot_contents(*m).contains_key(key@) && v@ == hot_contents(*m)[key@],
            None => !hot_contents(*m).contains_key(key@),
        },
{
    m.get(key).map(|e| e.value().to_vec())
}

/// `DashMap::remove`: the key maps to nothing any more; what it mapped
/// to is handed out.
#[verifier::external_body]
pub(crate) fn hot_remove(m: &mut DashMap<String, Bytes>, key: &str) -> (r: Option<Vec<u8>>)
    ensures
        hot_contents(*final(m)) == hot_contents(*old(m)).remove(key@),
        match r {
            Some(v) => hot_contents(*old(m)).contains_key(key@) && v@ == hot_contents(*old(m))[key@],
            None => !hot_contents(*old(m)).contains_key(key@),
        },
{
    m.remove(key).map(|kv| kv.1.to_vec())
}

/// `DashMap::contains_key`.
#[verifier::external_body]
pub(crate) fn hot_contains(m: &DashMap<String, Bytes>, key: &str) -> (r: bool)
    ensures
        r == hot_contents(*m).contains_key(key@),
{
    m.contains_key(key)
}

/// `DashMap::len`: the number of keys, which is finite.
#[verifier::external_body]
pub(crate) fn hot_len(m: &DashMap<String, Bytes>) -> (r: usize)
    ensures
        counts(r, hot_contents(*m).dom()),
{
    m.len()
}

/// `DashMap::clear`: no key maps to anything any more.
#[verifier::external_body]
pub(crate) fn hot_clear(m: &mut DashMap<String, Bytes>)
    ensures
        hot_contents(*final(m)) == no_hot(),
{
    m.clear();
}

/// `DashMap::iter`, a copy of each key taken: every key once, in the
/// order in which the map is walked, of which nothing is known.
#[verifier::external_body]
pub(crate) fn hot_keys(m: &DashMap<String, Bytes>) -> (r: Vec<String>)
    ensures
        lists_domain(strings_view(r@), hot_contents(*m).dom()),
{
    m.iter().map(|e| e.key().clone()).collect()
}

/// `DashMap::with_capacity`: a map without entries. A capacity beyond
/// `MAX_CAPACITY_HINT` is left out, as for `hot_new`.
#[verifier::external_body]
pub(crate) fn warm_new(capacity: usize) -> (r: DashMap<String, WarmEntry>)
    requires
        capacity <= MAX_CAPACITY_HINT,
    ensures
        warm_contents(r) == no_warm(),
{
    DashMap::with_capacity(capacity)
}

/// `DashMap::insert`: the key now maps to the given entry, every other
/// key is as before.
#[verifier::external_body]
pub(crate) fn warm_insert(m: &mut DashMap<String, WarmEntry>, key: String, entry: WarmEntry)
    ensures
        warm_contents(*final(m)) == warm_contents(*old(m)).insert(key@, entry),
{
    m.insert(key, entry);
}

/// `DashMap::get`: a copy of the entry under the key, if it has one.
#[verifier::external_body]
pub(crate) fn warm_get(m: &DashMap<String, WarmEntry>, key: &str) -> (r: Option<WarmEntry>)
    ensures
        match r {
            Some(v) => warm_contents(*m).contains_key(key@) && v == warm_contents(*m)[key@],
            None => !warm_contents(*m).contains_key(key@),
        },
{
    m.get(key).map(|e| *e.value())
}

/// `DashMap::remove`: the key maps to nothing any more; what it mapped
/// to is handed out.
#[verifier::external_body]
pub(crate) fn warm_remove(m: &mut DashMap<String, WarmEntry>, key: &str) -> (r: Option<WarmEntry>)
    ensures
        warm_contents(*final(m)) == warm_contents(*old(m)).remove(key@),
        match r {
            Some(v) => warm_contents(*old(m)).contains_key(key@) && v == warm_contents(*old(m))[key@],
            None => !warm_contents(*old(m)).contains_key(key@),
        },
{
    m.remove(key).map(|kv| kv.1)
}

/// `DashMap::len`: the number of keys, which is finite.
#[verifier::external_body]
pub(crate) fn warm_len(m: &DashMap<String, WarmEntry>) -> (r: usize)
    ensures
        counts(r, warm_contents(*m).dom()),
{
    m.len()
}

/// `DashMap::clear`: no key maps to anything any more.
#[verifier::external_body]
pub(crate) fn warm_clear(m: &mut DashMap<String, WarmEntry>)
    ensures
        warm_contents(*final(m)) == no_warm(),
{
    m.clear();
}

/// `DashMap::iter`, a copy of each key taken: every key once, in the
/// order in which the map is walked, of which nothing is known.
#[verifier::external_body]
pub(crate) fn warm_keys(m: &DashMap<String, WarmEntry>) -> (r: Vec<String>)
    ensures
        lists_domain(strings_view(r@), warm_contents(*m).dom()),
{
    m.iter().map(|e| e.key().clone()).collect()
}

/// `DashMap::new`: a map without entries.
#[verifier::external_body]
pub(crate) fn cold_new() -> (r: DashMap<String, FileInfo>)
    ensures
        cold_contents(r) == no_cold(),
{
    DashMap::new()
}

/// `DashMap::insert`: the key now maps to the given file, every other
/// key is as before.
#[verifier::external_body]
pub(crate) fn cold_insert(m: &mut DashMap<String, FileInfo>, key: String, info: FileInfo)
    ensures
        cold_contents(*final(m)) == cold_contents(*old(m)).insert(key@, info@),
{
    m.insert(key, info);
}

/// `DashMap::get`: a copy of what is known of the key's file, if it has
/// one.
#[verifier::external_body]
pub(crate) fn cold_get(m: &DashMap<String, FileInfo>, key: &str) -> (r: Option<FileInfo>)
    ensures
        match r {
            Some(v) => cold_contents(*m).contains_key(key@) && v@ == cold_contents(*m)[key@],
            None => !cold_contents(*m).contains_key(key@),
        },
{
    m.get(key).map(|e| e.value().duplicate())
}

/// `DashMap::remove`: the key maps to nothing any more; what it mapped
/// to is handed out.
#[verifier::external_body]
pub(crate) fn cold_remove(m: &mut DashMap<String, FileInfo>, key: &str) -> (r: Option<FileInfo>)
    ensures
        cold_contents(*final(m)) == cold_contents(*old(m)).remove(key@),
        match r {
            Some(v) => cold_contents(*old(m)).contains_key(key@) && v@ == cold_contents(*old(m))[key@],
            None => !cold_contents(*old(m)).contains_key(key@),
        },
{
    m.remove(key).map(|kv| kv.1)
}

/// `DashMap::contains_key`.
#[verifier::external_body]
pub(crate) fn cold_contains(m: &DashMap<String, FileInfo>, key: &str) -> (r: bool)
    ensures
        r == cold_contents(*m).contains_key(key@),
{
    m.contains_key(key)
}

/// `DashMap::len`: the number of keys, which is finite.
#[verifier::external_body]
pub(crate) fn cold_len(m: &DashMap<String, FileInfo>) -> (r: usize)
    ensures
        counts(r, cold_contents(*m).dom()),
{
    m.len()
}

/// `DashMap::clear`: no key maps to anything any more.
#[verifier::external_body]
pub(crate) fn cold_clear(m: &mut DashMap<String, FileInfo>)
    ensures
        cold_contents(*final(m)) == no_cold(),
{
    m.clear();
}

/// `DashMap::iter`, a copy of each key taken: every key once, in the
/// order in which the map is walked, of which nothing is known.
#[verifier::external_body]
pub(crate) fn cold_keys(m: &DashMap<String, FileInfo>) -> (r: Vec<String>)
    ensures
        lists_domain(strings_view(r@), cold_contents(*m).dom()),
{
    m.iter().map(|e| e.key().clone()).collect()
}

} // verus!
