//! Keys held in rank order, the bookkeeping shared by the eviction
//! policies.
//!
//! Entries stand in ascending rank. Among equal ranks the one that was
//! placed first comes first. No key stands twice.
//!
//! The keys are strings, and of a std map keyed by strings vstd lets
//! nothing be proved, neither of an ordered map nor of a hashed one. So
//! the order is kept in a vector, and what a map would give (each key
//! once, found again by its name, walked by ascending rank) is stated as
//! the invariant and proved of every operation.

use vstd::prelude::*;

verus! {

/// A key with the rank by which it is ordered, as plain values.
pub struct Ranked {
    pub key: Seq<char>,
    pub rank: u64,
}

/// A key with the rank by which it is ordered.
pub struct RankedKey {
    pub key: String,
    pub rank: u64,
}

impl View for RankedKey {
    type V = Ranked;

    open spec fn view(&self) -> Ranked {
        Ranked { key: self.key@, rank: self.rank }
    }
}

/// The views of the entries.
pub open spec fn ranked_view(s: Seq<RankedKey>) -> Seq<Ranked> {
    Seq::new(s.len(), |i: int| s[i]@)
}

/// The keys of the entries, in their order.
pub open spec fn keys_of(s: Seq<Ranked>) -> Seq<Seq<char>> {
    Seq::new(s.len(), |i: int| s[i].key)
}

/// Ranks never fall from one entry to the next.
pub open spec fn sorted(s: Seq<Ranked>) -> bool {
    forall|i: int, j: int| 0 <= i <= j < s.len() ==> s[i].rank <= s[j].rank
}

/// No key stands twice.
pub open spec fn distinct(s: Seq<Ranked>) -> bool {
    forall|i: int, j: int| 0 <= i < j < s.len() ==> s[i].key != s[j].key
}

/// Some entry has this key.
pub open spec fn has_key(s: Seq<Ranked>, k: Seq<char>) -> bool {
    exists|i: int| 0 <= i < s.len() && (#[trigger] s[i]).key == k
}

/// The entries whose key is not `k`, in their order.
pub open spec fn without(s: Seq<Ranked>, k: Seq<char>) -> Seq<Ranked>
    decreases s.len(),
{
    if s.len() == 0 {
        s
    } else if s.last().key == k {
        without(s.drop_last(), k)
    } else {
        without(s.drop_last(), k).push(s.last())
    }
}

/// Where an entry of rank `r` is placed: behind the last entry whose rank
/// is `r` or less.
pub open spec fn slot(s: Seq<Ranked>, r: u64) -> int
    decreases s.len(),
{
    if s.len() == 0 {
        0
    } else if s.last().rank <= r {
        s.len() as int
    } else {
        slot(s.drop_last(), r)
    }
}

/// The entries with `e` placed by its rank.
pub open spec fn placed(s: Seq<Ranked>, e: Ranked) -> Seq<Ranked> {
    s.insert(slot(s, e.rank), e)
}

/// How many entries, from the front, have a rank below `bound`.
pub open spec fn count_below(s: Seq<Ranked>, bound: u64) -> int {
    if bound == 0 {
        0
    } else {
        slot(s, (bound - 1) as u64)
    }
}

/// The first `n` keys, or all of them where there are fewer.
pub open spec fn first_keys(s: Seq<Ranked>, n: int) -> Seq<Seq<char>> {
    if n <= 0 {
        Seq::empty()
    } else if n >= s.len() {
        keys_of(s)
    } else {
        keys_of(s.take(n))
    }
}

/// The slot lies within the sequence; every entry from it on has a
/// higher rank, and in a sorted sequence every entry before it has not.
pub proof fn lemma_slot_bounds(s: Seq<Ranked>, r: u64)
    ensures
        0 <= slot(s, r) <= s.len(),
        forall|j: int| slot(s, r) <= j < s.len() ==> (#[trigger] s[j]).rank > r,
        slot(s, r) > 0 ==> s[slot(s, r) - 1].rank <= r,
        sorted(s) ==> forall|j: int| 0 <= j < slot(s, r) ==> (#[trigger] s[j]).rank <= r,
    decreases s.len(),
{
    if s.len() == 0 {
    } else if s.last().rank <= r {
    } else {
        let t = s.drop_last();
        lemma_slot_bounds(t, r);
        assert forall|j: int| slot(s, r) <= j < s.len() implies (#[trigger] s[j]).rank > r by {
            if j < t.len() {
                assert(t[j] == s[j]);
            }
        }
        if slot(s, r) > 0 {
            assert(t[slot(t, r) - 1] == s[slot(s, r) - 1]);
        }
        if sorted(s) {
            assert forall|j: int| 0 <= j < slot(s, r) implies (#[trigger] s[j]).rank <= r by {
                assert(s[j].rank <= s[slot(s, r) - 1].rank);
            }
        }
    }
}

/// Removing a key that no entry has changes nothing.
pub proof fn lemma_without_absent(s: Seq<Ranked>, k: Seq<char>)
    requires
        !has_key(s, k),
    ensures
        without(s, k) == s,
    decreases s.len(),
{
    if s.len() > 0 {
        let t = s.drop_last();
        assert(s[s.len() - 1].key != k);
        assert(!has_key(t, k)) by {
            if has_key(t, k) {
                let i = choose|i: int| 0 <= i < t.len() && (#[trigger] t[i]).key == k;
                assert(s[i].key == k);
            }
        }
        lemma_without_absent(t, k);
        assert(t.push(s.last()) == s);
    }
}

/// Removing the key of the one entry that has it takes that entry out.
pub proof fn lemma_without_at(s: Seq<Ranked>, k: Seq<char>, i: int)
    requires
        0 <= i < s.len(),
        s[i].key == k,
        forall|j: int| 0 <= j < s.len() && j != i ==> (#[trigger] s[j]).key != k,
    ensures
        without(s, k) == s.remove(i),
    decreases s.len(),
{
    let t = s.drop_last();
    if i == s.len() - 1 {
        assert(!has_key(t, k)) by {
            if has_key(t, k) {
                let j = choose|j: int| 0 <= j < t.len() && (#[trigger] t[j]).key == k;
                assert(s[j].key == k);
            }
        }
        lemma_without_absent(t, k);
        assert(s.remove(i) == t);
    } else {
        assert(s[s.len() - 1].key != k);
        assert forall|j: int| 0 <= j < t.len() && j != i implies (#[trigger] t[j]).key != k by {
            assert(t[j] == s[j]);
        }
        lemma_without_at(t, k, i);
        assert(t.remove(i).push(s.last()) == s.remove(i));
    }
}

/// What `without` leaves: no entry with the key, order and distinctness
/// kept, every other entry still there.
pub proof fn lemma_without_props(s: Seq<Ranked>, k: Seq<char>)
    ensures
        !has_key(without(s, k), k),
        without(s, k).len() <= s.len(),
        sorted(s) ==> sorted(without(s, k)),
        distinct(s) ==> distinct(without(s, k)),
        forall|e: Ranked| #[trigger] without(s, k).contains(e) <==> (s.contains(e) && e.key != k),
    decreases s.len(),
{
    let w = without(s, k);
    if s.len() == 0 {
        assert forall|e: Ranked| #[trigger] w.contains(e) <==> (s.contains(e) && e.key != k) by {}
    } else {
        let t = s.drop_last();
        let wt = without(t, k);
        lemma_without_props(t, k);
        assert forall|e: Ranked| t.contains(e) implies s.contains(e) by {
            let i = choose|i: int| 0 <= i < t.len() && t[i] == e;
            assert(s[i] == e);
        }
        assert forall|e: Ranked| s.contains(e) implies (t.contains(e) || e == s.last()) by {
            let i = choose|i: int| 0 <= i < s.len() && s[i] == e;
            if i < t.len() {
                assert(t[i] == e);
            }
        }
        assert(s.contains(s.last())) by {
            assert(s[s.len() - 1] == s.last());
        }
        if s.last().key == k {
            assert forall|e: Ranked| #[trigger] w.contains(e) <==> (s.contains(e) && e.key != k) by {}
            if sorted(s) {
                assert(sorted(t)) by {
                    assert forall|i: int, j: int| 0 <= i <= j < t.len() implies t[i].rank
                        <= t[j].rank by {
                        assert(t[i] == s[i] && t[j] == s[j]);
                    }
                }
            }
            if distinct(s) {
                assert(distinct(t)) by {
                    assert forall|i: int, j: int| 0 <= i < j < t.len() implies t[i].key
                        != t[j].key by {
                        assert(t[i] == s[i] && t[j] == s[j]);
                    }
                }
            }
        } else {
            let last = s.last();
            assert(w == wt.push(last));
            assert forall|e: Ranked| #[trigger] w.contains(e) <==> (s.contains(e) && e.key != k) by {
                if w.contains(e) {
                    let i = choose|i: int| 0 <= i < w.len() && w[i] == e;
                    if i < wt.len() {
                        assert(wt[i] == e);
                        assert(wt.contains(e));
                    }
                }
                if s.contains(e) && e.key != k {
                    if t.contains(e) {
                        assert(wt.contains(e));
                        let i = choose|i: int| 0 <= i < wt.len() && wt[i] == e;
                        assert(w[i] == e);
                    } else {
                        assert(w[w.len() - 1] == e);
                    }
                }
            }
            assert(!has_key(w, k)) by {
                if has_key(w, k) {
                    let i = choose|i: int| 0 <= i < w.len() && (#[trigger] w[i]).key == k;
                    if i < wt.len() {
                        assert(wt[i].key == k);
                    }
                }
            }
            if sorted(s) {
                assert(sorted(t)) by {
                    assert forall|i: int, j: int| 0 <= i <= j < t.len() implies t[i].rank
                        <= t[j].rank by {
                        assert(t[i] == s[i] && t[j] == s[j]);
                    }
                }
                assert forall|i: int, j: int| 0 <= i <= j < w.len() implies w[i].rank
                    <= w[j].rank by {
                    if j == w.len() - 1 && i < j {
                        assert(wt.contains(wt[i]));
                        assert(s.contains(wt[i]));
                        let p = choose|p: int| 0 <= p < s.len() && s[p] == wt[i];
                        assert(s[p].rank <= s[s.len() - 1].rank);
                    }
                }
            }
            if distinct(s) {
                assert(distinct(t)) by {
                    assert forall|i: int, j: int| 0 <= i < j < t.len() implies t[i].key
                        != t[j].key by {
                        assert(t[i] == s[i] && t[j] == s[j]);
                    }
                }
                assert forall|i: int, j: int| 0 <= i < j < w.len() implies w[i].key
                    != w[j].key by {
                    if j == w.len() - 1 {
                        assert(wt.contains(wt[i]));
                        assert(t.contains(wt[i]));
                        let p = choose|p: int| 0 <= p < t.len() && t[p] == wt[i];
                        assert(s[p] == t[p]);
                        assert(s[p].key != s[s.len() - 1].key);
                    }
                }
            }
        }
    }
}

/// Placing an entry whose key is new keeps order and distinctness.
pub proof fn lemma_placed_props(s: Seq<Ranked>, e: Ranked)
    requires
        sorted(s),
        distinct(s),
        !has_key(s, e.key),
    ensures
        sorted(placed(s, e)),
        distinct(placed(s, e)),
        has_key(placed(s, e), e.key),
        placed(s, e).len() == s.len() + 1,
        forall|x: Ranked| #[trigger] placed(s, e).contains(x) <==> (s.contains(x) || x == e),
{
    let p = slot(s, e.rank);
    lemma_slot_bounds(s, e.rank);
    let n = placed(s, e);
    assert(n[p] == e);
    assert forall|i: int, j: int| 0 <= i <= j < n.len() implies n[i].rank <= n[j].rank by {
        if i < p && j > p {
            assert(n[i] == s[i] && n[j] == s[j - 1]);
        } else if i < p && j < p {
            assert(n[i] == s[i] && n[j] == s[j]);
        } else if i > p && j > p {
            assert(n[i] == s[i - 1] && n[j] == s[j - 1]);
        } else if i == p && j > p {
            assert(n[j] == s[j - 1]);
        } else if i < p && j == p {
            assert(n[i] == s[i]);
        }
    }
    assert forall|i: int, j: int| 0 <= i < j < n.len() implies n[i].key != n[j].key by {
        let a = if i < p {
            i
        } else {
            i - 1
        };
        let b = if j < p {
            j
        } else {
            j - 1
        };
        if i != p && j != p {
            assert(n[i] == s[a] && n[j] == s[b]);
        } else if i == p {
            assert(n[j] == s[b]);
        } else {
            assert(n[i] == s[a]);
        }
    }
    assert forall|x: Ranked| #[trigger] n.contains(x) <==> (s.contains(x) || x == e) by {
        if n.contains(x) {
            let i = choose|i: int| 0 <= i < n.len() && n[i] == x;
            if i < p {
                assert(s[i] == x);
            } else if i > p {
                assert(s[i - 1] == x);
            }
        }
        if s.contains(x) {
            let i = choose|i: int| 0 <= i < s.len() && s[i] == x;
            if i < p {
                assert(n[i] == x);
            } else {
                assert(n[i + 1] == x);
            }
        }
    }
}

/// The keys that some entry has.
pub open spec fn key_set(s: Seq<Ranked>) -> Set<Seq<char>> {
    Set::new(|k: Seq<char>| has_key(s, k))
}

/// Taking a key out takes it out of the key set, and nothing else.
pub proof fn lemma_key_set_without(s: Seq<Ranked>, k: Seq<char>)
    ensures
        key_set(without(s, k)) == key_set(s).remove(k),
{
    let w = without(s, k);
    lemma_without_props(s, k);
    assert forall|x: Seq<char>| key_set(w).contains(x) <==> key_set(s).remove(k).contains(x) by {
        if has_key(w, x) {
            let i = choose|i: int| 0 <= i < w.len() && (#[trigger] w[i]).key == x;
            assert(w.contains(w[i]));
            let j = choose|j: int| 0 <= j < s.len() && s[j] == w[i];
            assert(s[j].key == x);
        }
        if has_key(s, x) && x != k {
            let j = choose|j: int| 0 <= j < s.len() && (#[trigger] s[j]).key == x;
            assert(s.contains(s[j]));
            assert(w.contains(s[j]));
            let i = choose|i: int| 0 <= i < w.len() && w[i] == s[j];
            assert(w[i].key == x);
        }
    }
}

/// Placing an entry adds its key to the key set, and nothing else.
pub proof fn lemma_key_set_placed(s: Seq<Ranked>, e: Ranked)
    ensures
        key_set(placed(s, e)) == key_set(s).insert(e.key),
{
    let p = slot(s, e.rank);
    lemma_slot_bounds(s, e.rank);
    let n = placed(s, e);
    assert(n[p] == e);
    assert forall|x: Seq<char>| key_set(n).contains(x) <==> key_set(s).insert(e.key).contains(
        x,
    ) by {
        if has_key(n, x) {
            let i = choose|i: int| 0 <= i < n.len() && (#[trigger] n[i]).key == x;
            if i < p {
                assert(s[i].key == x);
            } else if i > p {
                assert(s[i - 1].key == x);
            }
        }
        if has_key(s, x) {
            let i = choose|i: int| 0 <= i < s.len() && (#[trigger] s[i]).key == x;
            if i < p {
                assert(n[i].key == x);
            } else {
                assert(n[i + 1].key == x);
            }
        }
    }
}

/// The first keys are keys of the sequence, each once.
pub proof fn lemma_first_keys(s: Seq<Ranked>, n: int)
    requires
        distinct(s),
    ensures
        first_keys(s, n).len() == if n <= 0 {
            0
        } else if n >= s.len() {
            s.len() as int
        } else {
            n
        },
        first_keys(s, n).no_duplicates(),
        forall|i: int|
            0 <= i < first_keys(s, n).len() ==> #[trigger] first_keys(s, n)[i] == s[i].key,
        forall|i: int|
            0 <= i < first_keys(s, n).len() ==> key_set(s).contains(#[trigger] first_keys(s, n)[i]),
{
    let f = first_keys(s, n);
    assert forall|i: int| 0 <= i < f.len() implies #[trigger] f[i] == s[i].key by {}
    assert forall|i: int| 0 <= i < f.len() implies key_set(s).contains(#[trigger] f[i]) by {
        assert(s[i].key == f[i]);
    }
}

/// The entries whose key is none of `keys`, in their order.
pub open spec fn without_all(s: Seq<Ranked>, keys: Set<Seq<char>>) -> Seq<Ranked>
    decreases s.len(),
{
    if s.len() == 0 {
        s
    } else if keys.contains(s.last().key) {
        without_all(s.drop_last(), keys)
    } else {
        without_all(s.drop_last(), keys).push(s.last())
    }
}

/// Taking no key out changes nothing.
pub proof fn lemma_without_all_empty(s: Seq<Ranked>)
    ensures
        without_all(s, Set::empty()) == s,
    decreases s.len(),
{
    if s.len() > 0 {
        lemma_without_all_empty(s.drop_last());
        assert(s.drop_last().push(s.last()) == s);
    }
}

/// Taking keys out and then one more is taking all of them out.
pub proof fn lemma_without_all_insert(s: Seq<Ranked>, keys: Set<Seq<char>>, k: Seq<char>)
    ensures
        without(without_all(s, keys), k) == without_all(s, keys.insert(k)),
    decreases s.len(),
{
    if s.len() > 0 {
        let t = s.drop_last();
        let x = s.last();
        lemma_without_all_insert(t, keys, k);
        if !keys.contains(x.key) {
            let w = without_all(t, keys);
            assert(w.push(x).drop_last() == w);
            assert(w.push(x).last() == x);
        }
    }
}

/// Taking keys out takes them out of the key set, and nothing else.
pub proof fn lemma_key_set_without_all(s: Seq<Ranked>, keys: Set<Seq<char>>)
    ensures
        key_set(without_all(s, keys)) == key_set(s).difference(keys),
    decreases s.len(),
{
    let w = without_all(s, keys);
    if s.len() == 0 {
        assert(key_set(w) == key_set(s).difference(keys));
    } else {
        let t = s.drop_last();
        let x = s.last();
        let wt = without_all(t, keys);
        lemma_key_set_without_all(t, keys);
        assert forall|q: Seq<char>| key_set(w).contains(q) <==> key_set(s).difference(
            keys,
        ).contains(q) by {
            if has_key(w, q) {
                let i = choose|i: int| 0 <= i < w.len() && (#[trigger] w[i]).key == q;
                if i < wt.len() {
                    assert(wt[i].key == q);
                    assert(key_set(wt).contains(q));
                    assert(has_key(t, q));
                    let j = choose|j: int| 0 <= j < t.len() && (#[trigger] t[j]).key == q;
                    assert(s[j].key == q);
                } else {
                    assert(s[s.len() - 1].key == q);
                }
            }
            if has_key(s, q) && !keys.contains(q) {
                let j = choose|j: int| 0 <= j < s.len() && (#[trigger] s[j]).key == q;
                if j < t.len() {
                    assert(t[j].key == q);
                    assert(key_set(t).contains(q));
                    assert(key_set(wt).contains(q));
                    let i = choose|i: int| 0 <= i < wt.len() && (#[trigger] wt[i]).key == q;
                    assert(w[i].key == q);
                } else {
                    assert(w[w.len() - 1].key == q);
                }
            }
        }
    }
}

/// A sequence without repeated keys has as many keys as entries.
pub proof fn lemma_key_set_len(s: Seq<Ranked>)
    requires
        distinct(s),
    ensures
        key_set(s).finite(),
        key_set(s).len() == s.len(),
    decreases s.len(),
{
    if s.len() == 0 {
        assert(key_set(s) == Set::<Seq<char>>::empty());
    } else {
        let t = s.drop_last();
        assert(distinct(t)) by {
            assert forall|i: int, j: int| 0 <= i < j < t.len() implies t[i].key != t[j].key by {
                assert(t[i] == s[i] && t[j] == s[j]);
            }
        }
        lemma_key_set_len(t);
        assert(!key_set(t).contains(s.last().key)) by {
            if has_key(t, s.last().key) {
                let j = choose|j: int| 0 <= j < t.len() && (#[trigger] t[j]).key == s.last().key;
                assert(s[j].key == s[s.len() - 1].key);
            }
        }
        assert(key_set(s) == key_set(t).insert(s.last().key)) by {
            assert forall|q: Seq<char>| key_set(s).contains(q) <==> key_set(t).insert(
                s.last().key,
            ).contains(q) by {
                if has_key(s, q) {
                    let j = choose|j: int| 0 <= j < s.len() && (#[trigger] s[j]).key == q;
                    if j < t.len() {
                        assert(t[j].key == q);
                    }
                }
                if has_key(t, q) {
                    let j = choose|j: int| 0 <= j < t.len() && (#[trigger] t[j]).key == q;
                    assert(s[j].key == q);
                }
                assert(s[s.len() - 1].key == s.last().key);
            }
        }
    }
}

/// Keys held in rank order.
pub struct RankedKeys {
    entries: Vec<RankedKey>,
}

impl View for RankedKeys {
    type V = Seq<Ranked>;

    closed spec fn view(&self) -> Seq<Ranked> {
        ranked_view(self.entries@)
    }
}

impl RankedKeys {
    /// Ascending ranks and no key twice.
    pub open spec fn wf(&self) -> bool {
        sorted(self@) && distinct(self@)
    }

    pub fn new() -> (r: Self)
        ensures
            r@ == Seq::<Ranked>::empty(),
            r.wf(),
    {
        let r = RankedKeys { entries: Vec::new() };
        assert(r@ == Seq::<Ranked>::empty());
        r
    }

    pub fn len(&self) -> (n: usize)
        ensures
            n == self@.len(),
    {
        self.entries.len()
    }

    /// Where the key stands, if it does.
    pub fn find(&self, key: &String) -> (r: Option<usize>)
        ensures
            match r {
                Some(i) => i < self@.len() && self@[i as int].key == key@,
                None => !has_key(self@, key@),
            },
    {
        let mut i: usize = 0;
        while i < self.entries.len()
            invariant
                i <= self.entries.len(),
                forall|j: int| 0 <= j < i ==> (#[trigger] self@[j]).key != key@,
            decreases self.entries.len() - i,
        {
            if self.entries[i].key == *key {
                return Some(i);
            }
            i = i + 1;
        }
        None
    }

    /// The rank under which the key stands, if it does.
    pub fn rank_of(&self, key: &String) -> (r: Option<u64>)
        ensures
            match r {
                Some(v) => self@.contains(Ranked { key: key@, rank: v }),
                None => !has_key(self@, key@),
            },
    {
        match self.find(key) {
            Some(i) => {
                assert(self@[i as int] == Ranked { key: key@, rank: self.entries[i as int].rank });
                Some(self.entries[i].rank)
            },
            None => None,
        }
    }

    /// Takes the key out. Tells whether it was there.
    pub fn remove(&mut self, key: &String) -> (found: bool)
        requires
            old(self).wf(),
        ensures
            final(self).wf(),
            final(self)@ == without(old(self)@, key@),
            found == has_key(old(self)@, key@),
            key_set(final(self)@) == key_set(old(self)@).remove(key@),
    {
        proof {
            lemma_without_props(self@, key@);
            lemma_key_set_without(self@, key@);
        }
        match self.find(key) {
            Some(i) => {
                proof {
                    assert forall|j: int| 0 <= j < self@.len() && j != i implies (
                    #[trigger] self@[j]).key != key@ by {}
                    lemma_without_at(self@, key@, i as int);
                }
                let ghost before = self@;
                self.entries.remove(i);
                assert(self@ == before.remove(i as int));
                true
            },
            None => {
                proof {
                    lemma_without_absent(self@, key@);
                }
                false
            },
        }
    }

    /// Puts the key in under the given rank, behind every entry of that
    /// rank or less. A key that was there before moves.
    pub fn place(&mut self, key: String, rank: u64)
        requires
            old(self).wf(),
        ensures
            final(self).wf(),
            final(self)@ == placed(without(old(self)@, key@), Ranked { key: key@, rank }),
            key_set(final(self)@) == key_set(old(self)@).insert(key@),
    {
        proof {
            lemma_key_set_placed(without(self@, key@), Ranked { key: key@, rank });
            assert(key_set(self@).remove(key@).insert(key@) == key_set(self@).insert(key@));
        }
        self.remove(&key);
        let ghost base = self@;
        let ghost e = Ranked { key: key@, rank };
        let mut p: usize = self.entries.len();
        assert(base.take(p as int) == base);
        while p > 0 && self.entries[p - 1].rank > rank
            invariant
                p <= self.entries.len(),
                self@ == base,
                slot(base, rank) == slot(base.take(p as int), rank),
            decreases p,
        {
            proof {
                let t = base.take(p as int);
                assert(t.last() == base[p - 1]);
                assert(t.drop_last() == base.take(p - 1));
            }
            p = p - 1;
        }
        proof {
            let t = base.take(p as int);
            if p > 0 {
                assert(t.last() == base[p - 1]);
            }
            assert(slot(base, rank) == p);
            assert(!has_key(base, key@)) by {
                assert(!key_set(base).contains(key@));
            }
            lemma_placed_props(base, e);
        }
        self.entries.insert(p, RankedKey { key, rank });
        assert(self@ == base.insert(p as int, e));
    }

    /// The first `count` keys, or all of them where there are fewer.
    pub fn front_keys(&self, count: usize) -> (r: Vec<String>)
        ensures
            crate::serialization::strings_view(r@) == first_keys(self@, count as int),
    {
        let n = if count < self.entries.len() {
            count
        } else {
            self.entries.len()
        };
        let mut out: Vec<String> = Vec::new();
        let mut i: usize = 0;
        assert(crate::serialization::strings_view(out@) == keys_of(self@.take(0)));
        while i < n
            invariant
                i <= n <= self.entries.len(),
                crate::serialization::strings_view(out@) == keys_of(self@.take(i as int)),
            decreases n - i,
        {
            let k = self.entries[i].key.clone();
            let ghost before = crate::serialization::strings_view(out@);
            out.push(k);
            assert(self@[i as int].key == k@);
            assert(crate::serialization::strings_view(out@) == before.push(k@));
            assert(keys_of(self@.take(i as int + 1)) == keys_of(self@.take(i as int)).push(k@));
            i = i + 1;
        }
        assert(self@.take(self@.len() as int) == self@);
        assert(crate::serialization::strings_view(out@) == first_keys(self@, count as int));
        out
    }

    /// How many entries, from the front, have a rank below `bound`.
    pub fn below(&self, bound: u64) -> (n: usize)
        requires
            self.wf(),
        ensures
            n == count_below(self@, bound),
            n <= self@.len(),
            forall|j: int| 0 <= j < self@.len() ==> (j < n <==> (#[trigger] self@[j]).rank < bound),
    {
        if bound == 0 {
            return 0;
        }
        let r: u64 = bound - 1;
        let mut p: usize = self.entries.len();
        assert(self@.take(p as int) == self@);
        while p > 0 && self.entries[p - 1].rank > r
            invariant
                p <= self.entries.len(),
                slot(self@, r) == slot(self@.take(p as int), r),
            decreases p,
        {
            proof {
                let t = self@.take(p as int);
                assert(t.last() == self@[p - 1]);
                assert(t.drop_last() == self@.take(p - 1));
            }
            p = p - 1;
        }
        proof {
            let t = self@.take(p as int);
            if p > 0 {
                assert(t.last() == self@[p - 1]);
            }
            assert(self@.take(self@.len() as int) == self@);
            lemma_slot_bounds(self@, r);
        }
        p
    }

    /// Forgets every key.
    pub fn clear(&mut self)
        ensures
            final(self)@ == Seq::<Ranked>::empty(),
            final(self).wf(),
    {
        self.entries.clear();
        assert(self@ == Seq::<Ranked>::empty());
    }
}

} // verus!
