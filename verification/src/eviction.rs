//! Victim selection by recency, frequency and deadline.

use vstd::prelude::*;
use crate::clock::current_timestamp;
use crate::ranked::{
    count_below,
    distinct,
    first_keys,
    has_key,
    key_set,
    lemma_first_keys,
    lemma_without_props,
    placed,
    slot,
    sorted,
    without,
    without_all,
    Ranked,
    RankedKeys,
};
use crate::serialization::{strings_view, CacheEntry};
use crate::utils::bump;

verus! {

/// What every eviction policy offers.
pub trait EvictionPolicy {
    /// The bookkeeping is consistent.
    spec fn wf(&self) -> bool;

    /// The keys that the policy knows of.
    spec fn known(&self) -> Set<Seq<char>>;

    /// An entry was read.
    fn on_access(&mut self, key: &str, entry: &CacheEntry)
        requires
            old(self).wf(),
        ensures
            final(self).wf(),
            final(self).known().subset_of(old(self).known().insert(key@)),
            old(self).known().remove(key@).subset_of(final(self).known()),
    ;

    /// An entry was stored.
    fn on_insert(&mut self, key: &str, entry: &CacheEntry)
        requires
            old(self).wf(),
        ensures
            final(self).wf(),
            final(self).known().subset_of(old(self).known().insert(key@)),
            old(self).known().remove(key@).subset_of(final(self).known()),
    ;

    /// An entry is gone.
    fn on_remove(&mut self, key: &str)
        requires
            old(self).wf(),
        ensures
            final(self).wf(),
            final(self).known() == old(self).known().remove(key@),
    ;

    /// At most `count` keys to remove next, each of them known to the
    /// policy, none twice.
    fn select_victims(&self, count: usize) -> (r: Vec<String>)
        requires
            self.wf(),
        ensures
            r@.len() <= count,
            strings_view(r@).no_duplicates(),
            forall|i: int| 0 <= i < r@.len() ==> self.known().contains(#[trigger] r@[i]@),
    ;

    /// Forgets everything.
    fn clear(&mut self)
        ensures
            final(self).wf(),
            final(self).known() == Set::<Seq<char>>::empty(),
    ;
}

/// Least recently used first.
pub struct LruEviction {
    order: RankedKeys,
    counter: u64,
}

impl View for LruEviction {
    type V = Seq<Ranked>;

    /// The keys from the least to the most recently used, each with the
    /// sequence number of its last use.
    closed spec fn view(&self) -> Seq<Ranked> {
        self.order@
    }
}

/// Every rank is at most `top`.
pub open spec fn ranks_at_most(s: Seq<Ranked>, top: u64) -> bool {
    forall|i: int| 0 <= i < s.len() ==> (#[trigger] s[i]).rank <= top
}

proof fn lemma_placed_last(s: Seq<Ranked>, e: Ranked)
    requires
        ranks_at_most(s, e.rank),
    ensures
        placed(s, e) == s.push(e),
{
    if s.len() > 0 {
        assert(s.last() == s[s.len() - 1]);
    }
    assert(slot(s, e.rank) == s.len());
}

proof fn lemma_without_ranks(s: Seq<Ranked>, k: Seq<char>, top: u64)
    requires
        ranks_at_most(s, top),
    ensures
        ranks_at_most(without(s, k), top),
{
    let w = without(s, k);
    lemma_without_props(s, k);
    assert forall|i: int| 0 <= i < w.len() implies (#[trigger] w[i]).rank <= top by {
        assert(w.contains(w[i]));
        let j = choose|j: int| 0 <= j < s.len() && s[j] == w[i];
        assert(s[j].rank <= top);
    }
}

impl LruEviction {
    /// The number handed to the last use.
    pub closed spec fn counter(&self) -> u64 {
        self.counter
    }

    pub fn new() -> (r: Self)
        ensures
            r@ == Seq::<Ranked>::empty(),
            r.counter() == 0,
            r.wf(),
    {
        LruEviction { order: RankedKeys::new(), counter: 0 }
    }

    fn get_next_counter(&mut self) -> (r: u64)
        ensures
            r == bump(old(self).counter()),
            final(self).counter() == r,
            final(self)@ == old(self)@,
    {
        self.counter = bump(self.counter);
        self.counter
    }
}

impl EvictionPolicy for LruEviction {
    closed spec fn wf(&self) -> bool {
        self.order.wf() && ranks_at_most(self.order@, self.counter)
    }

    open spec fn known(&self) -> Set<Seq<char>> {
        key_set(self@)
    }

    /// The key becomes the most recently used one.
    fn on_access(&mut self, key: &str, entry: &CacheEntry)
        ensures
            final(self)@ == without(old(self)@, key@).push(
                Ranked { key: key@, rank: bump(old(self).counter()) },
            ),
            final(self).counter() == bump(old(self).counter()),
    {
        let new_time = self.get_next_counter();
        proof {
            lemma_without_ranks(self@, key@, new_time);
            lemma_placed_last(without(self@, key@), Ranked { key: key@, rank: new_time });
        }
        self.order.place(key.to_owned(), new_time);
    }

    /// The key becomes the most recently used one.
    fn on_insert(&mut self, key: &str, entry: &CacheEntry)
        ensures
            final(self)@ == without(old(self)@, key@).push(
                Ranked { key: key@, rank: bump(old(self).counter()) },
            ),
            final(self).counter() == bump(old(self).counter()),
    {
        self.on_access(key, entry);
    }

    fn on_remove(&mut self, key: &str)
        ensures
            final(self)@ == without(old(self)@, key@),
            final(self).counter() == old(self).counter(),
    {
        proof {
            lemma_without_ranks(self@, key@, self.counter);
        }
        let k = key.to_owned();
        self.order.remove(&k);
    }

    /// The `count` least recently used keys, oldest first.
    fn select_victims(&self, count: usize) -> (r: Vec<String>)
        ensures
            strings_view(r@) == first_keys(self@, count as int),
    {
        proof {
            lemma_first_keys(self@, count as int);
        }
        let r = self.order.front_keys(count);
        assert forall|i: int| 0 <= i < r@.len() implies self.known().contains(
            #[trigger] r@[i]@,
        ) by {
            assert(strings_view(r@)[i] == r@[i]@);
        }
        r
    }

    fn clear(&mut self)
        ensures
            final(self)@ == Seq::<Ranked>::empty(),
            final(self).counter() == 0,
    {
        self.order.clear();
        self.counter = 0;
        assert(key_set(self@) == Set::<Seq<char>>::empty());
    }
}

/// Least frequently used first; among equally used keys the one that
/// reached its count first.
pub struct LfuEviction {
    frequency: RankedKeys,
}

impl View for LfuEviction {
    type V = Seq<Ranked>;

    /// The keys by ascending access count.
    closed spec fn view(&self) -> Seq<Ranked> {
        self.frequency@
    }
}

impl LfuEviction {
    pub fn new() -> (r: Self)
        ensures
            r@ == Seq::<Ranked>::empty(),
            r.wf(),
    {
        LfuEviction { frequency: RankedKeys::new() }
    }
}

impl EvictionPolicy for LfuEviction {
    closed spec fn wf(&self) -> bool {
        self.frequency.wf()
    }

    open spec fn known(&self) -> Set<Seq<char>> {
        key_set(self@)
    }

    /// The key moves behind the keys that were accessed as often as the
    /// entry, or less often.
    fn on_access(&mut self, key: &str, entry: &CacheEntry)
        ensures
            final(self)@ == placed(
                without(old(self)@, key@),
                Ranked { key: key@, rank: entry.access_count },
            ),
    {
        self.frequency.place(key.to_owned(), entry.access_count);
    }

    /// The key moves behind the keys that were accessed as often as the
    /// entry, or less often.
    fn on_insert(&mut self, key: &str, entry: &CacheEntry)
        ensures
            final(self)@ == placed(
                without(old(self)@, key@),
                Ranked { key: key@, rank: entry.access_count },
            ),
    {
        self.on_access(key, entry);
    }

    fn on_remove(&mut self, key: &str)
        ensures
            final(self)@ == without(old(self)@, key@),
    {
        let k = key.to_owned();
        self.frequency.remove(&k);
    }

    /// The `count` least used keys, least used first.
    fn select_victims(&self, count: usize) -> (r: Vec<String>)
        ensures
            strings_view(r@) == first_keys(self@, count as int),
    {
        proof {
            lemma_first_keys(self@, count as int);
        }
        let r = self.frequency.front_keys(count);
        assert forall|i: int| 0 <= i < r@.len() implies self.known().contains(
            #[trigger] r@[i]@,
        ) by {
            assert(strings_view(r@)[i] == r@[i]@);
        }
        r
    }

    fn clear(&mut self)
        ensures
            final(self)@ == Seq::<Ranked>::empty(),
    {
        self.frequency.clear();
        assert(key_set(self@) == Set::<Seq<char>>::empty());
    }
}

/// The keys whose deadline lies before `now`, earliest deadline first.
pub open spec fn expired_keys(s: Seq<Ranked>, now: u64) -> Seq<Seq<char>> {
    first_keys(s, count_below(s, now))
}

/// The first `n` of the keys, or all of them where there are fewer.
pub open spec fn capped(keys: Seq<Seq<char>>, n: int) -> Seq<Seq<char>> {
    if n >= keys.len() {
        keys
    } else if n <= 0 {
        Seq::empty()
    } else {
        keys.take(n)
    }
}

/// Cuts a list of keys down to its first `n`.
pub fn cap_keys(keys: Vec<String>, n: usize) -> (r: Vec<String>)
    ensures
        strings_view(r@) == capped(strings_view(keys@), n as int),
{
    let mut keys = keys;
    if n < keys.len() {
        let ghost before = strings_view(keys@);
        keys.truncate(n);
        assert(strings_view(keys@) == capped(before, n as int));
    }
    keys
}

/// Keys with a deadline, earliest first.
pub struct TtlEviction {
    expiry: RankedKeys,
}

impl View for TtlEviction {
    type V = Seq<Ranked>;

    /// The keys by ascending deadline.
    closed spec fn view(&self) -> Seq<Ranked> {
        self.expiry@
    }
}

impl TtlEviction {
    pub fn new() -> (r: Self)
        ensures
            r@ == Seq::<Ranked>::empty(),
            r.wf(),
    {
        TtlEviction { expiry: RankedKeys::new() }
    }

    /// The keys whose deadline has passed by the clock's reading.
    pub fn get_expired_keys(&self) -> (r: Vec<String>)
        requires
            self.wf(),
        ensures
            exists|now: u64| strings_view(r@) == #[trigger] expired_keys(self@, now),
    {
        let now = current_timestamp();
        self.get_expired_keys_at(now)
    }

    /// The keys whose deadline lies before `now`, earliest deadline
    /// first: exactly the entries with such a deadline.
    pub fn get_expired_keys_at(&self, now: u64) -> (r: Vec<String>)
        requires
            self.wf(),
        ensures
            strings_view(r@) == expired_keys(self@, now),
            r@.len() <= self@.len(),
            forall|j: int|
                0 <= j < self@.len() ==> (j < r@.len() <==> (#[trigger] self@[j]).rank < now),
            forall|j: int| 0 <= j < r@.len() ==> #[trigger] r@[j]@ == self@[j].key,
    {
        let n = self.expiry.below(now);
        let r = self.expiry.front_keys(n);
        proof {
            lemma_first_keys(self@, n as int);
            assert(r@.len() == strings_view(r@).len());
            assert forall|j: int| 0 <= j < r@.len() implies #[trigger] r@[j]@ == self@[j].key by {
                assert(strings_view(r@)[j] == r@[j]@);
            }
        }
        r
    }

    /// At most `count` keys whose deadline lies before `now`, earliest
    /// deadline first.
    pub fn select_victims_at(&self, count: usize, now: u64) -> (r: Vec<String>)
        requires
            self.wf(),
        ensures
            strings_view(r@) == capped(expired_keys(self@, now), count as int),
    {
        cap_keys(self.get_expired_keys_at(now), count)
    }
}

impl EvictionPolicy for TtlEviction {
    closed spec fn wf(&self) -> bool {
        self.expiry.wf()
    }

    open spec fn known(&self) -> Set<Seq<char>> {
        key_set(self@)
    }

    /// A deadline does not move when the entry is read.
    fn on_access(&mut self, key: &str, entry: &CacheEntry)
        ensures
            final(self)@ == old(self)@,
    {
    }

    /// The key stands under the entry's deadline. A key whose entry has
    /// none is not kept.
    fn on_insert(&mut self, key: &str, entry: &CacheEntry)
        ensures
            final(self)@ == match entry.expire_time {
                Some(t) => placed(without(old(self)@, key@), Ranked { key: key@, rank: t }),
                None => without(old(self)@, key@),
            },
    {
        match entry.expire_time {
            Some(t) => {
                self.expiry.place(key.to_owned(), t);
            },
            None => {
                let k = key.to_owned();
                self.expiry.remove(&k);
            },
        }
    }

    fn on_remove(&mut self, key: &str)
        ensures
            final(self)@ == without(old(self)@, key@),
    {
        let k = key.to_owned();
        self.expiry.remove(&k);
    }

    /// At most `count` keys whose deadline has passed by the clock's
    /// reading, earliest deadline first.
    fn select_victims(&self, count: usize) -> (r: Vec<String>)
        ensures
            exists|now: u64|
                strings_view(r@) == capped(#[trigger] expired_keys(self@, now), count as int),
    {
        let now = current_timestamp();
        let r = self.select_victims_at(count, now);
        proof {
            lemma_capped_expired(self@, now, count as int);
            assert forall|i: int| 0 <= i < r@.len() implies self.known().contains(
                #[trigger] r@[i]@,
            ) by {
                assert(strings_view(r@)[i] == r@[i]@);
            }
            assert(r@.len() == strings_view(r@).len());
        }
        r
    }

    fn clear(&mut self)
        ensures
            final(self)@ == Seq::<Ranked>::empty(),
    {
        self.expiry.clear();
        assert(key_set(self@) == Set::<Seq<char>>::empty());
    }
}

/// Expired keys, cut to a count, are keys of the sequence, each once.
pub proof fn lemma_capped_expired(s: Seq<Ranked>, now: u64, n: int)
    requires
        distinct(s),
        n >= 0,
    ensures
        capped(expired_keys(s, now), n).len() <= n,
        capped(expired_keys(s, now), n).no_duplicates(),
        forall|i: int|
            0 <= i < capped(expired_keys(s, now), n).len() ==> key_set(s).contains(
                #[trigger] capped(expired_keys(s, now), n)[i],
            ),
{
    let e = expired_keys(s, now);
    lemma_first_keys(s, count_below(s, now));
    let c = capped(e, n);
    assert forall|i: int| 0 <= i < c.len() implies #[trigger] c[i] == e[i] by {}
    assert forall|i: int| 0 <= i < c.len() implies key_set(s).contains(#[trigger] c[i]) by {
        assert(c[i] == e[i]);
    }
    assert forall|i: int, j: int| 0 <= i < c.len() && 0 <= j < c.len() && i != j implies c[i]
        != c[j] by {
        assert(c[i] == e[i] && c[j] == e[j]);
    }
}

/// The keys of `s`, each kept where it stands first.
pub open spec fn dedup(s: Seq<Seq<char>>) -> Seq<Seq<char>>
    decreases s.len(),
{
    if s.len() == 0 {
        s
    } else {
        let d = dedup(s.drop_last());
        if d.contains(s.last()) {
            d
        } else {
            d.push(s.last())
        }
    }
}

/// `dedup` holds no key twice, only keys of its argument, and each of
/// them.
pub proof fn lemma_dedup(s: Seq<Seq<char>>)
    ensures
        dedup(s).no_duplicates(),
        dedup(s).len() <= s.len(),
        forall|k: Seq<char>| #[trigger] dedup(s).contains(k) <==> s.contains(k),
        s.no_duplicates() ==> dedup(s) == s,
    decreases s.len(),
{
    if s.len() > 0 {
        let t = s.drop_last();
        let d = dedup(t);
        lemma_dedup(t);
        assert(s[s.len() - 1] == s.last());
        assert forall|k: Seq<char>| #[trigger] dedup(s).contains(k) <==> s.contains(k) by {
            let r = dedup(s);
            if r.contains(k) {
                let i = choose|i: int| 0 <= i < r.len() && r[i] == k;
                if i < d.len() {
                    assert(d[i] == k);
                    assert(d.contains(k));
                    assert(t.contains(k));
                    let j = choose|j: int| 0 <= j < t.len() && t[j] == k;
                    assert(s[j] == k);
                }
            }
            if s.contains(k) {
                let j = choose|j: int| 0 <= j < s.len() && s[j] == k;
                if j < t.len() {
                    assert(t[j] == k);
                    assert(d.contains(k));
                    let i = choose|i: int| 0 <= i < d.len() && d[i] == k;
                    assert(r[i] == k);
                } else {
                    if !d.contains(s.last()) {
                        assert(r[r.len() - 1] == k);
                    }
                }
            }
        }
        if s.no_duplicates() {
            assert(t.no_duplicates());
            assert(!t.contains(s.last())) by {
                if t.contains(s.last()) {
                    let j = choose|j: int| 0 <= j < t.len() && t[j] == s.last();
                    assert(s[j] == s[s.len() - 1]);
                }
            }
            assert(t.push(s.last()) == s);
        }
    }
}

/// Whether the list holds the key.
pub fn holds_key(keys: &Vec<String>, key: &String) -> (r: bool)
    ensures
        r == strings_view(keys@).contains(key@),
{
    let mut i: usize = 0;
    while i < keys.len()
        invariant
            i <= keys.len(),
            forall|j: int| 0 <= j < i ==> strings_view(keys@)[j] != key@,
        decreases keys.len() - i,
    {
        if keys[i] == *key {
            assert(strings_view(keys@)[i as int] == key@);
            return true;
        }
        i = i + 1;
    }
    false
}

/// The list with every key kept only where it stands first.
pub fn dedup_keys(keys: &Vec<String>) -> (r: Vec<String>)
    ensures
        strings_view(r@) == dedup(strings_view(keys@)),
{
    let ghost all = strings_view(keys@);
    let mut out: Vec<String> = Vec::new();
    let mut i: usize = 0;
    assert(all.take(0) == Seq::<Seq<char>>::empty());
    assert(strings_view(out@) == dedup(all.take(0)));
    while i < keys.len()
        invariant
            i <= keys.len(),
            all == strings_view(keys@),
            strings_view(out@) == dedup(all.take(i as int)),
        decreases keys.len() - i,
    {
        proof {
            let next = all.take(i as int + 1);
            assert(next.drop_last() == all.take(i as int));
            assert(next.last() == keys@[i as int]@);
        }
        if !holds_key(&out, &keys[i]) {
            let ghost before = strings_view(out@);
            let k = keys[i].clone();
            out.push(k);
            assert(strings_view(out@) == before.push(k@));
        }
        i = i + 1;
    }
    assert(all.take(keys@.len() as int) == all);
    out
}

/// Appends copies of the keys in `more` to `keys`.
pub fn append_keys(keys: &mut Vec<String>, more: &Vec<String>)
    ensures
        strings_view(final(keys)@) == strings_view(old(keys)@) + strings_view(more@),
{
    let mut i: usize = 0;
    assert(strings_view(keys@) == strings_view(old(keys)@) + strings_view(more@).take(0));
    while i < more.len()
        invariant
            i <= more.len(),
            strings_view(keys@) == strings_view(old(keys)@) + strings_view(more@).take(i as int),
        decreases more.len() - i,
    {
        let ghost before = strings_view(keys@);
        let k = more[i].clone();
        keys.push(k);
        assert(strings_view(keys@) == before.push(k@));
        assert(strings_view(more@).take(i as int + 1) == strings_view(more@).take(i as int).push(
            k@,
        ));
        i = i + 1;
    }
    assert(strings_view(more@).take(more@.len() as int) == strings_view(more@));
}

/// Which bookkeeping chooses the victims.
#[derive(Debug, Clone, Copy, PartialEq, Eq, Structural)]
pub enum EvictionStrategy {
    Lru,
    Lfu,
    Ttl,
    LruTtl,
    LfuTtl,
}

impl EvictionStrategy {
    /// Recency is kept and chooses after the expired keys.
    pub open spec fn uses_lru(self) -> bool {
        self == EvictionStrategy::Lru || self == EvictionStrategy::LruTtl
    }

    /// Frequency is kept and chooses after the expired keys.
    pub open spec fn uses_lfu(self) -> bool {
        self == EvictionStrategy::Lfu || self == EvictionStrategy::LfuTtl
    }

    /// Deadlines are kept.
    pub open spec fn spec_includes_ttl(self) -> bool {
        self == EvictionStrategy::Ttl || self == EvictionStrategy::LruTtl || self
            == EvictionStrategy::LfuTtl
    }

    #[verifier::when_used_as_spec(spec_includes_ttl)]
    pub fn includes_ttl(self) -> (r: bool)
        ensures
            r == self.spec_includes_ttl(),
    {
        match self {
            EvictionStrategy::Ttl => true,
            EvictionStrategy::LruTtl => true,
            EvictionStrategy::LfuTtl => true,
            _ => false,
        }
    }
}

/// The bookkeeping of a combined policy as plain values.
pub struct EvictionView {
    /// Keys from the least to the most recently used, each with the
    /// sequence number of its last use.
    pub lru: Seq<Ranked>,
    /// The sequence number handed out last.
    pub counter: u64,
    /// Keys by ascending access count.
    pub lfu: Seq<Ranked>,
    /// Keys by ascending deadline.
    pub ttl: Seq<Ranked>,
    pub strategy: EvictionStrategy,
}

impl EvictionView {
    /// The bookkeeping that knows no key.
    pub open spec fn empty(strategy: EvictionStrategy) -> EvictionView {
        EvictionView {
            lru: Seq::empty(),
            counter: 0,
            lfu: Seq::empty(),
            ttl: Seq::empty(),
            strategy,
        }
    }

    /// The keys that some bookkeeping knows.
    pub open spec fn known(self) -> Set<Seq<char>> {
        key_set(self.lru).union(key_set(self.lfu)).union(key_set(self.ttl))
    }

    /// The bookkeeping after the key's entry was read: recency or
    /// frequency, whichever the strategy names, takes note with the
    /// entry's access count. Deadlines stay.
    pub open spec fn accessed(self, key: Seq<char>, access_count: u64) -> EvictionView {
        EvictionView {
            lru: if self.strategy.uses_lru() {
                without(self.lru, key).push(Ranked { key, rank: bump(self.counter) })
            } else {
                self.lru
            },
            counter: if self.strategy.uses_lru() {
                bump(self.counter)
            } else {
                self.counter
            },
            lfu: if self.strategy.uses_lfu() {
                placed(without(self.lfu, key), Ranked { key, rank: access_count })
            } else {
                self.lfu
            },
            ..self
        }
    }

    /// The bookkeeping after an entry was stored under the key: as
    /// after a read, and where the strategy includes deadlines the key
    /// stands under the entry's deadline, or is not kept there where the
    /// entry has none.
    pub open spec fn inserted(
        self,
        key: Seq<char>,
        access_count: u64,
        expire_time: Option<u64>,
    ) -> EvictionView {
        EvictionView {
            ttl: if self.strategy.spec_includes_ttl() {
                match expire_time {
                    Some(t) => placed(without(self.ttl, key), Ranked { key, rank: t }),
                    None => without(self.ttl, key),
                }
            } else {
                self.ttl
            },
            ..self.accessed(key, access_count)
        }
    }

    /// The bookkeeping after the key's entry is gone.
    pub open spec fn removed(self, key: Seq<char>) -> EvictionView {
        EvictionView {
            lru: without(self.lru, key),
            lfu: without(self.lfu, key),
            ttl: without(self.ttl, key),
            ..self
        }
    }

    /// The bookkeeping after the entries of all these keys are gone.
    pub open spec fn removed_all(self, keys: Set<Seq<char>>) -> EvictionView {
        EvictionView {
            lru: without_all(self.lru, keys),
            lfu: without_all(self.lfu, keys),
            ttl: without_all(self.ttl, keys),
            ..self
        }
    }

    /// The keys that recency or frequency, whichever the strategy names,
    /// would give up first: at most `n` of them.
    pub open spec fn primary_victims(self, n: int) -> Seq<Seq<char>> {
        if self.strategy.uses_lru() {
            first_keys(self.lru, n)
        } else if self.strategy.uses_lfu() {
            first_keys(self.lfu, n)
        } else {
            Seq::empty()
        }
    }

    /// The victims at `now`: the expired keys first, then the keys that
    /// the primary bookkeeping would give up first; each key once, where
    /// it stands first; never more than `count`.
    pub open spec fn victims_at(self, count: int, now: u64) -> Seq<Seq<char>> {
        capped(dedup(expired_keys(self.ttl, now) + self.primary_victims(count)), count)
    }
}

impl EvictionView {
    /// The bookkeeping is in step with a set of stored keys: recency or
    /// frequency, whichever the strategy names, knows exactly these
    /// keys and the other of the two knows none; deadlines are known of
    /// stored keys only, and of none where the strategy leaves them out.
    pub open spec fn covers(self, keys: Set<Seq<char>>) -> bool {
        &&& if self.strategy.uses_lru() {
            key_set(self.lru) == keys
        } else {
            self.lru == Seq::<Ranked>::empty()
        }
        &&& if self.strategy.uses_lfu() {
            key_set(self.lfu) == keys
        } else {
            self.lfu == Seq::<Ranked>::empty()
        }
        &&& if self.strategy.spec_includes_ttl() {
            key_set(self.ttl).subset_of(keys)
        } else {
            self.ttl == Seq::<Ranked>::empty()
        }
    }
}

/// The bookkeeping that knows no key is in step with an empty store.
pub proof fn lemma_covers_empty(strategy: EvictionStrategy)
    ensures
        EvictionView::empty(strategy).covers(Set::empty()),
{
    assert(key_set(Seq::<Ranked>::empty()) == Set::<Seq<char>>::empty());
}

/// A key pushed behind the others joins the key set.
pub proof fn lemma_key_set_push(s: Seq<Ranked>, e: Ranked)
    ensures
        key_set(s.push(e)) == key_set(s).insert(e.key),
{
    let n = s.push(e);
    assert forall|q: Seq<char>| key_set(n).contains(q) <==> key_set(s).insert(e.key).contains(
        q,
    ) by {
        if has_key(n, q) {
            let i = choose|i: int| 0 <= i < n.len() && (#[trigger] n[i]).key == q;
            if i < s.len() {
                assert(s[i].key == q);
            }
        }
        if has_key(s, q) {
            let i = choose|i: int| 0 <= i < s.len() && (#[trigger] s[i]).key == q;
            assert(n[i].key == q);
        }
        assert(n[n.len() - 1].key == e.key);
    }
}

/// Reading a stored key keeps the bookkeeping in step.
pub proof fn lemma_covers_accessed(
    v: EvictionView,
    keys: Set<Seq<char>>,
    key: Seq<char>,
    access_count: u64,
)
    requires
        v.covers(keys),
        keys.contains(key),
    ensures
        v.accessed(key, access_count).covers(keys),
{
    crate::ranked::lemma_key_set_without(v.lru, key);
    lemma_key_set_push(without(v.lru, key), Ranked { key, rank: bump(v.counter) });
    crate::ranked::lemma_key_set_without(v.lfu, key);
    crate::ranked::lemma_key_set_placed(without(v.lfu, key), Ranked { key, rank: access_count });
    assert(keys.remove(key).insert(key) == keys);
}

/// Storing under a key keeps the bookkeeping in step with the stored
/// keys and this one.
pub proof fn lemma_covers_inserted(
    v: EvictionView,
    keys: Set<Seq<char>>,
    key: Seq<char>,
    access_count: u64,
    expire_time: Option<u64>,
)
    requires
        v.covers(keys),
    ensures
        v.inserted(key, access_count, expire_time).covers(keys.insert(key)),
{
    crate::ranked::lemma_key_set_without(v.lru, key);
    lemma_key_set_push(without(v.lru, key), Ranked { key, rank: bump(v.counter) });
    crate::ranked::lemma_key_set_without(v.lfu, key);
    crate::ranked::lemma_key_set_placed(without(v.lfu, key), Ranked { key, rank: access_count });
    crate::ranked::lemma_key_set_without(v.ttl, key);
    match expire_time {
        Some(t) => {
            crate::ranked::lemma_key_set_placed(without(v.ttl, key), Ranked { key, rank: t });
        },
        None => {},
    }
    assert(keys.remove(key).insert(key) == keys.insert(key));
}

/// Forgetting a key keeps the bookkeeping in step with the stored keys
/// less this one.
pub proof fn lemma_covers_removed(v: EvictionView, keys: Set<Seq<char>>, key: Seq<char>)
    requires
        v.covers(keys),
    ensures
        v.removed(key).covers(keys.remove(key)),
{
    crate::ranked::lemma_key_set_without(v.lru, key);
    crate::ranked::lemma_key_set_without(v.lfu, key);
    crate::ranked::lemma_key_set_without(v.ttl, key);
}

/// Forgetting keys keeps the bookkeeping in step with the stored keys
/// less these.
pub proof fn lemma_covers_removed_all(v: EvictionView, keys: Set<Seq<char>>, lost: Set<Seq<char>>)
    requires
        v.covers(keys),
    ensures
        v.removed_all(lost).covers(keys.difference(lost)),
{
    crate::ranked::lemma_key_set_without_all(v.lru, lost);
    crate::ranked::lemma_key_set_without_all(v.lfu, lost);
    crate::ranked::lemma_key_set_without_all(v.ttl, lost);
}

/// Recency or frequency, together with deadlines.
pub struct CombinedEviction {
    lru: LruEviction,
    lfu: LfuEviction,
    ttl: TtlEviction,
    primary_strategy: EvictionStrategy,
}

impl View for CombinedEviction {
    type V = EvictionView;

    closed spec fn view(&self) -> EvictionView {
        EvictionView {
            lru: self.lru@,
            counter: self.lru.counter(),
            lfu: self.lfu@,
            ttl: self.ttl@,
            strategy: self.primary_strategy,
        }
    }
}

impl CombinedEviction {
    pub fn new(strategy: EvictionStrategy) -> (r: Self)
        ensures
            r.wf(),
            r@ == EvictionView::empty(strategy),
    {
        CombinedEviction {
            lru: LruEviction::new(),
            lfu: LfuEviction::new(),
            ttl: TtlEviction::new(),
            primary_strategy: strategy,
        }
    }

    /// What `wf` says, for callers: every bookkeeping is in order and
    /// holds no key twice.
    pub proof fn lemma_wf(&self)
        requires
            self.wf(),
        ensures
            sorted(self@.lru) && distinct(self@.lru),
            sorted(self@.lfu) && distinct(self@.lfu),
            sorted(self@.ttl) && distinct(self@.ttl),
            ranks_at_most(self@.lru, self@.counter),
    {
    }

    pub fn strategy(&self) -> (r: EvictionStrategy)
        ensures
            r == self@.strategy,
    {
        self.primary_strategy
    }

    /// The victims at `now`.
    pub fn select_victims_at(&self, count: usize, now: u64) -> (r: Vec<String>)
        requires
            self.wf(),
        ensures
            strings_view(r@) == self@.victims_at(count as int, now),
            r@.len() <= count,
            strings_view(r@).no_duplicates(),
            forall|i: int| 0 <= i < r@.len() ==> self.known().contains(#[trigger] r@[i]@),
    {
        let mut victims = self.ttl.get_expired_keys_at(now);
        proof {
            lemma_first_keys(self.ttl@, count_below(self.ttl@, now));
        }
        let ghost expired = strings_view(victims@);
        let additional = match self.primary_strategy {
            EvictionStrategy::Lru => self.lru.select_victims(count),
            EvictionStrategy::LruTtl => self.lru.select_victims(count),
            EvictionStrategy::Lfu => self.lfu.select_victims(count),
            EvictionStrategy::LfuTtl => self.lfu.select_victims(count),
            EvictionStrategy::Ttl => Vec::new(),
        };
        assert(strings_view(additional@) == self@.primary_victims(count as int));
        append_keys(&mut victims, &additional);
        let unique = dedup_keys(&victims);
        let r = cap_keys(unique, count);
        proof {
            let all = expired + strings_view(additional@);
            lemma_dedup(all);
            assert(strings_view(r@) == capped(dedup(all), count as int));
            assert(r@.len() == strings_view(r@).len());
            let d = dedup(all);
            let c = strings_view(r@);
            assert forall|i: int| 0 <= i < c.len() implies #[trigger] c[i] == d[i] by {}
            assert forall|i: int, j: int| 0 <= i < c.len() && 0 <= j < c.len() && i != j implies c[i]
                != c[j] by {
                assert(c[i] == d[i] && c[j] == d[j]);
            }
            assert forall|i: int| 0 <= i < r@.len() implies self.known().contains(
                #[trigger] r@[i]@,
            ) by {
                let k = r@[i]@;
                assert(strings_view(r@)[i] == k);
                assert(d[i] == k);
                assert(dedup(all).contains(k));
                assert(all.contains(k));
                let j = choose|j: int| 0 <= j < all.len() && all[j] == k;
                if j < expired.len() {
                    assert(expired[j] == k);
                    assert(key_set(self.ttl@).contains(k));
                } else {
                    let a = strings_view(additional@);
                    assert(a[j - expired.len()] == k);
                    assert(additional@[j - expired.len()]@ == k);
                }
            }
        }
        r
    }
}

impl EvictionPolicy for CombinedEviction {
    closed spec fn wf(&self) -> bool {
        self.lru.wf() && self.lfu.wf() && self.ttl.wf()
    }

    open spec fn known(&self) -> Set<Seq<char>> {
        self@.known()
    }

    /// See `EvictionView::accessed`.
    fn on_access(&mut self, key: &str, entry: &CacheEntry)
        ensures
            final(self)@ == old(self)@.accessed(key@, entry.access_count),
    {
        match self.primary_strategy {
            EvictionStrategy::Lru => {
                self.lru.on_access(key, entry);
            },
            EvictionStrategy::LruTtl => {
                self.lru.on_access(key, entry);
            },
            EvictionStrategy::Lfu => {
                self.lfu.on_access(key, entry);
            },
            EvictionStrategy::LfuTtl => {
                self.lfu.on_access(key, entry);
            },
            EvictionStrategy::Ttl => {},
        }
        if self.primary_strategy.includes_ttl() {
            self.ttl.on_access(key, entry);
        }
    }

    /// See `EvictionView::inserted`.
    fn on_insert(&mut self, key: &str, entry: &CacheEntry)
        ensures
            final(self)@ == old(self)@.inserted(key@, entry.access_count, entry.expire_time),
    {
        match self.primary_strategy {
            EvictionStrategy::Lru => {
                self.lru.on_insert(key, entry);
            },
            EvictionStrategy::LruTtl => {
                self.lru.on_insert(key, entry);
            },
            EvictionStrategy::Lfu => {
                self.lfu.on_insert(key, entry);
            },
            EvictionStrategy::LfuTtl => {
                self.lfu.on_insert(key, entry);
            },
            EvictionStrategy::Ttl => {},
        }
        if self.primary_strategy.includes_ttl() {
            self.ttl.on_insert(key, entry);
        }
    }

    /// See `EvictionView::removed`.
    fn on_remove(&mut self, key: &str)
        ensures
            final(self)@ == old(self)@.removed(key@),
    {
        self.lru.on_remove(key);
        self.lfu.on_remove(key);
        self.ttl.on_remove(key);
        assert(self.known() == old(self).known().remove(key@));
    }

    /// The victims by the clock's reading.
    fn select_victims(&self, count: usize) -> (r: Vec<String>)
        ensures
            exists|now: u64| strings_view(r@) == #[trigger] self@.victims_at(count as int, now),
    {
        let now = current_timestamp();
        self.select_victims_at(count, now)
    }

    fn clear(&mut self)
        ensures
            final(self)@ == EvictionView::empty(old(self)@.strategy),
    {
        self.lru.clear();
        self.lfu.clear();
        self.ttl.clear();
        assert(self.known() == Set::<Seq<char>>::empty());
    }
}

} // verus!
