//! Bounded least-recently-used content cache mapping file paths to file
//! bytes. The store itself is `lru::LruCache`; its observable behaviour is
//! stated over a recency-ordered sequence model (most recently used first).
use vstd::prelude::*;

verus! {

#[verifier::external_type_specification]
#[verifier::external_body]
#[verifier::reject_recursive_types(K)]
#[verifier::reject_recursive_types(V)]
#[verifier::reject_recursive_types(S)]
pub struct ExLruCache<K, V, S>(lru::LruCache<K, V, S>);

/// The entries of an LRU cache as a sequence of (key, value) pairs,
/// ordered from most recently used to least recently used.
pub uninterp spec fn lru_entries(c: lru::LruCache<String, Vec<u8>>) -> Seq<(Seq<char>, Seq<u8>)>;

/// The capacity that an LRU cache was created with.
pub uninterp spec fn lru_capacity(c: lru::LruCache<String, Vec<u8>>) -> nat;

/// Whether some entry of `s` has key `k`.
pub open spec fn has_key(s: Seq<(Seq<char>, Seq<u8>)>, k: Seq<char>) -> bool {
    exists|i: int| 0 <= i < s.len() && s[i].0 == k
}

/// The index of the entry with key `k`.
pub open spec fn key_index(s: Seq<(Seq<char>, Seq<u8>)>, k: Seq<char>) -> int {
    choose|i: int| 0 <= i < s.len() && s[i].0 == k
}

/// The value stored under key `k`.
pub open spec fn value_of(s: Seq<(Seq<char>, Seq<u8>)>, k: Seq<char>) -> Seq<u8> {
    s[key_index(s, k)].1
}

/// `s` with every entry keyed `k` removed; the order of the rest is kept.
pub open spec fn remove_key(s: Seq<(Seq<char>, Seq<u8>)>, k: Seq<char>) -> Seq<
    (Seq<char>, Seq<u8>),
>
    decreases s.len(),
{
    if s.len() == 0 {
        Seq::empty()
    } else {
        let rest = remove_key(s.drop_last(), k);
        if s.last().0 == k {
            rest
        } else {
            rest.push(s.last())
        }
    }
}

/// The entries after a hit on key `k`: the entry moves to the front and
/// keeps its value.
pub open spec fn promote(s: Seq<(Seq<char>, Seq<u8>)>, k: Seq<char>) -> Seq<(Seq<char>, Seq<u8>)> {
    seq![(k, value_of(s, k))] + remove_key(s, k)
}

/// The entries after inserting `(k, v)`: the pair moves to the front,
/// replacing any entry with the same key; if that exceeds the capacity the
/// least recently used entry is dropped from the back.
pub open spec fn model_put(
    s: Seq<(Seq<char>, Seq<u8>)>,
    cap: nat,
    k: Seq<char>,
    v: Seq<u8>,
) -> Seq<(Seq<char>, Seq<u8>)> {
    let fronted = seq![(k, v)] + remove_key(s, k);
    if fronted.len() > cap {
        fronted.take(cap as int)
    } else {
        fronted
    }
}

/// No two entries share a key.
pub open spec fn distinct_keys(s: Seq<(Seq<char>, Seq<u8>)>) -> bool {
    forall|i: int, j: int| 0 <= i < j < s.len() ==> s[i].0 != s[j].0
}

/// The first value stored under key `k` in an association list, if any.
pub open spec fn assoc_lookup(s: Seq<(Seq<char>, Seq<u8>)>, k: Seq<char>) -> Option<Seq<u8>>
    decreases s.len(),
{
    if s.len() == 0 {
        None
    } else if s[0].0 == k {
        Some(s[0].1)
    } else {
        assoc_lookup(s.drop_first(), k)
    }
}

/// The views of an association list of owned paths and contents.
pub open spec fn storage_view(s: Seq<(String, Vec<u8>)>) -> Seq<(Seq<char>, Seq<u8>)> {
    s.map_values(|p: (String, Vec<u8>)| (p.0@, p.1@))
}

/// The abstract state of a `ContentCache`.
pub ghost struct CacheModel {
    pub entries: Seq<(Seq<char>, Seq<u8>)>,
    pub cap: nat,
}

/// Well-formedness of a cache model: distinct keys, within capacity.
pub open spec fn cache_wf(m: CacheModel) -> bool {
    &&& distinct_keys(m.entries)
    &&& m.entries.len() <= m.cap
    &&& 1 <= m.cap
}

/// What `get_or_load` does to the cache and returns: a hit promotes the
/// entry and returns its value; a miss consults the storage list, and on
/// success inserts the content; on failure the cache is left unchanged.
pub open spec fn spec_get_or_load(
    m: CacheModel,
    st: Seq<(Seq<char>, Seq<u8>)>,
    k: Seq<char>,
) -> (CacheModel, Option<Seq<u8>>) {
    if has_key(m.entries, k) {
        (CacheModel { entries: promote(m.entries, k), cap: m.cap }, Some(value_of(m.entries, k)))
    } else {
        match assoc_lookup(st, k) {
            Some(v) => (
                CacheModel { entries: model_put(m.entries, m.cap, k, v), cap: m.cap },
                Some(v),
            ),
            None => (m, None),
        }
    }
}

/// Removing a key never lengthens the list, removes every entry with that
/// key, keeps every other entry, and preserves key distinctness.
pub proof fn lemma_remove_key(s: Seq<(Seq<char>, Seq<u8>)>, k: Seq<char>)
    ensures
        remove_key(s, k).len() <= s.len(),
        !has_key(remove_key(s, k), k),
        distinct_keys(s) ==> distinct_keys(remove_key(s, k)),
        distinct_keys(s) && has_key(s, k) ==> remove_key(s, k).len() == s.len() - 1,
        !has_key(s, k) ==> remove_key(s, k) == s,
        forall|k2: Seq<char>|
            k2 != k ==> (#[trigger] has_key(remove_key(s, k), k2) <==> has_key(s, k2)),
    decreases s.len(),
{
    if s.len() == 0 {
        assert(remove_key(s, k) =~= s);
        assert forall|k2: Seq<char>| k2 != k implies (#[trigger] has_key(remove_key(s, k), k2)
            <==> has_key(s, k2)) by {}
    } else {
        let pre = s.drop_last();
        lemma_remove_key(pre, k);
        let rest = remove_key(pre, k);
        if distinct_keys(s) {
            assert(distinct_keys(pre));
        }
        if s.last().0 == k {
            assert(has_key(s, k)) by {
                assert(s[s.len() - 1].0 == k);
            }
            if distinct_keys(s) {
                assert(!has_key(pre, k)) by {
                    if has_key(pre, k) {
                        let i = key_index(pre, k);
                        assert(s[i].0 == s[s.len() - 1].0);
                    }
                }
                assert(remove_key(s, k) == pre);
            }
        } else {
            assert(remove_key(s, k) == rest.push(s.last()));
            assert(!has_key(rest.push(s.last()), k)) by {
                if has_key(rest.push(s.last()), k) {
                    let i = key_index(rest.push(s.last()), k);
                    if i < rest.len() {
                        assert(has_key(rest, k)) by {
                            assert(rest[i].0 == k);
                        }
                    }
                }
            }
            if distinct_keys(s) {
                assert forall|i: int, j: int|
                    0 <= i < j < rest.push(s.last()).len() implies rest.push(s.last())[i].0
                    != rest.push(s.last())[j].0 by {
                    if j < rest.len() {
                        assert(distinct_keys(rest));
                    } else {
                        assert(rest.push(s.last())[j] == s.last());
                        assert(rest[i] == rest.push(s.last())[i]);
                        assert(has_key(rest, rest[i].0)) by {
                            assert(rest[i].0 == rest[i].0);
                        }
                        assert(has_key(pre, rest[i].0) ==> rest[i].0 != s.last().0) by {
                            if has_key(pre, rest[i].0) {
                                let m = key_index(pre, rest[i].0);
                                assert(s[m] == pre[m]);
                                assert(s[m].0 != s[s.len() - 1].0);
                            }
                        }
                    }
                }
            }
            if !has_key(s, k) {
                assert(!has_key(pre, k)) by {
                    if has_key(pre, k) {
                        let i = key_index(pre, k);
                        assert(s[i].0 == k);
                    }
                }
                assert(remove_key(s, k) =~= s);
            }
            if distinct_keys(s) && has_key(s, k) {
                assert(has_key(pre, k)) by {
                    let i = key_index(s, k);
                    assert(i < s.len() - 1);
                    assert(pre[i].0 == k);
                }
            }
        }
        assert forall|k2: Seq<char>| k2 != k implies (#[trigger] has_key(remove_key(s, k), k2)
            <==> has_key(s, k2)) by {
            let r = remove_key(s, k);
            if has_key(r, k2) {
                let i = key_index(r, k2);
                if s.last().0 != k && i == r.len() - 1 {
                    assert(s[s.len() - 1].0 == k2);
                } else {
                    assert(rest[i].0 == k2);
                    assert(has_key(rest, k2));
                    assert(has_key(pre, k2));
                    let m = key_index(pre, k2);
                    assert(s[m].0 == k2);
                }
            }
            if has_key(s, k2) {
                let i = key_index(s, k2);
                if i == s.len() - 1 {
                    assert(r[r.len() - 1].0 == k2);
                } else {
                    assert(pre[i].0 == k2);
                    assert(has_key(pre, k2));
                    assert(has_key(rest, k2));
                    let m = key_index(rest, k2);
                    if s.last().0 == k {
                        assert(r[m].0 == k2);
                    } else {
                        assert(r[m] == rest[m]);
                        assert(r[m].0 == k2);
                    }
                }
            }
        }
    }
}

/// A hit keeps the cache well formed and its size unchanged.
pub proof fn lemma_promote_wf(m: CacheModel, k: Seq<char>)
    requires
        cache_wf(m),
        has_key(m.entries, k),
    ensures
        cache_wf(CacheModel { entries: promote(m.entries, k), cap: m.cap }),
        promote(m.entries, k).len() == m.entries.len(),
        forall|k2: Seq<char>| #[trigger]
            has_key(promote(m.entries, k), k2) <==> has_key(m.entries, k2),
{
    lemma_remove_key(m.entries, k);
    let p = promote(m.entries, k);
    let rest = remove_key(m.entries, k);
    assert(p.len() == 1 + rest.len());
    assert forall|i: int, j: int| 0 <= i < j < p.len() implies p[i].0 != p[j].0 by {
        if i == 0 {
            assert(p[j] == rest[j - 1]);
            assert(has_key(rest, rest[j - 1].0) ==> rest[j - 1].0 == rest[j - 1].0);
            if p[j].0 == k {
                assert(has_key(rest, k)) by {
                    assert(rest[j - 1].0 == k);
                }
            }
        } else {
            assert(p[i] == rest[i - 1] && p[j] == rest[j - 1]);
            assert(distinct_keys(rest));
        }
    }
    assert forall|k2: Seq<char>| #[trigger] has_key(p, k2) <==> has_key(m.entries, k2) by {
        if has_key(p, k2) {
            let i = key_index(p, k2);
            if i == 0 {
                assert(p[0].0 == k);
            } else {
                assert(rest[i - 1].0 == k2);
                assert(has_key(rest, k2));
            }
        }
        if has_key(m.entries, k2) {
            if k2 == k {
                assert(p[0].0 == k);
            } else {
                assert(has_key(rest, k2));
                let i = key_index(rest, k2);
                assert(p[i + 1].0 == k2);
            }
        }
    }
}

/// An insertion keeps the cache well formed.
pub proof fn lemma_put_wf(m: CacheModel, k: Seq<char>, v: Seq<u8>)
    requires
        cache_wf(m),
    ensures
        cache_wf(CacheModel { entries: model_put(m.entries, m.cap, k, v), cap: m.cap }),
        has_key(model_put(m.entries, m.cap, k, v), k),
        value_of(model_put(m.entries, m.cap, k, v), k) == v,
{
    lemma_remove_key(m.entries, k);
    let rest = remove_key(m.entries, k);
    let fronted = seq![(k, v)] + rest;
    let p = model_put(m.entries, m.cap, k, v);
    assert(distinct_keys(fronted)) by {
        assert forall|i: int, j: int| 0 <= i < j < fronted.len() implies fronted[i].0
            != fronted[j].0 by {
            if i == 0 {
                assert(fronted[j] == rest[j - 1]);
                if fronted[j].0 == k {
                    assert(has_key(rest, k)) by {
                        assert(rest[j - 1].0 == k);
                    }
                }
            } else {
                assert(fronted[i] == rest[i - 1] && fronted[j] == rest[j - 1]);
                assert(distinct_keys(rest));
            }
        }
    }
    assert(distinct_keys(p)) by {
        if fronted.len() > m.cap {
            assert forall|i: int, j: int| 0 <= i < j < p.len() implies p[i].0 != p[j].0 by {
                assert(p[i] == fronted[i] && p[j] == fronted[j]);
            }
        }
    }
    assert(p.len() <= m.cap);
    assert(p[0] == fronted[0]);
    assert(has_key(p, k)) by {
        assert(p[0].0 == k);
    }
    assert(value_of(p, k) == v) by {
        let i = key_index(p, k);
        if i > 0 {
            assert(p[i] == rest[i - 1]);
            assert(has_key(rest, k)) by {
                assert(rest[i - 1].0 == k);
            }
        }
    }
}

/// Every element of `remove_key(s, k)` is an element of `s`.
pub proof fn lemma_remove_key_members(s: Seq<(Seq<char>, Seq<u8>)>, k: Seq<char>)
    ensures
        forall|i: int|
            0 <= i < remove_key(s, k).len() ==> exists|j: int|
                0 <= j < s.len() && #[trigger] remove_key(s, k)[i] == s[j],
    decreases s.len(),
{
    if s.len() > 0 {
        let pre = s.drop_last();
        lemma_remove_key_members(pre, k);
        let rest = remove_key(pre, k);
        let r = remove_key(s, k);
        assert forall|i: int| 0 <= i < r.len() implies exists|j: int|
            0 <= j < s.len() && #[trigger] r[i] == s[j] by {
            if s.last().0 == k || i < rest.len() {
                assert(r[i] == rest[i]);
                let j = choose|j: int| 0 <= j < pre.len() && rest[i] == pre[j];
                assert(r[i] == s[j]);
            } else {
                assert(r[i] == s[s.len() - 1]);
            }
        }
    }
}

/// Removing a key that does not occur in the first `t` entries keeps that
/// prefix in place.
proof fn lemma_remove_key_prefix(s: Seq<(Seq<char>, Seq<u8>)>, k: Seq<char>, t: int)
    requires
        0 <= t <= s.len(),
        forall|i: int| 0 <= i < t ==> s[i].0 != k,
    ensures
        remove_key(s, k).len() >= t,
        forall|i: int| 0 <= i < t ==> remove_key(s, k)[i] == s[i],
    decreases s.len(),
{
    if t == s.len() {
        assert(!has_key(s, k)) by {
            if has_key(s, k) {
                let i = key_index(s, k);
                assert(s[i].0 == k);
            }
        }
        lemma_remove_key(s, k);
    } else if s.len() > 0 {
        let pre = s.drop_last();
        assert(forall|i: int| 0 <= i < t ==> pre[i] == s[i]);
        lemma_remove_key_prefix(pre, k, t);
        let rest = remove_key(pre, k);
        if s.last().0 != k {
            assert(forall|i: int| 0 <= i < t ==> remove_key(s, k)[i] == rest[i]);
        }
    }
}

/// The cache after inserting a sequence of entries, one after the other.
pub open spec fn insert_all(
    s: Seq<(Seq<char>, Seq<u8>)>,
    cap: nat,
    items: Seq<(Seq<char>, Seq<u8>)>,
) -> Seq<(Seq<char>, Seq<u8>)>
    decreases items.len(),
{
    if items.len() == 0 {
        s
    } else {
        model_put(insert_all(s, cap, items.drop_last()), cap, items.last().0, items.last().1)
    }
}

proof fn lemma_insert_all_general(
    s: Seq<(Seq<char>, Seq<u8>)>,
    cap: nat,
    items: Seq<(Seq<char>, Seq<u8>)>,
)
    requires
        distinct_keys(items),
        distinct_keys(s),
        s.len() <= cap,
        1 <= cap,
    ensures
        distinct_keys(insert_all(s, cap, items)),
        insert_all(s, cap, items).len() <= cap,
        insert_all(s, cap, items).len() >= vstd::math::min(items.len() as int, cap as int),
        forall|i: int|
            0 <= i < vstd::math::min(items.len() as int, cap as int)
                ==> #[trigger] insert_all(s, cap, items)[i] == items[items.len() - 1 - i],
    decreases items.len(),
{
    if items.len() > 0 {
        let j = items.len() - 1;
        let pre = items.drop_last();
        assert(forall|a: int, b: int| 0 <= a < b < pre.len() ==> pre[a].0 != pre[b].0);
        lemma_insert_all_general(s, cap, pre);
        let prev = insert_all(s, cap, pre);
        let k = items.last().0;
        let v = items.last().1;
        let r = insert_all(s, cap, items);
        lemma_put_wf(CacheModel { entries: prev, cap }, k, v);
        assert(r == model_put(prev, cap, k, v));
        let t = vstd::math::min(j as int, cap as int);
        assert forall|i: int| 0 <= i < t implies prev[i].0 != k by {
            assert(prev[i] == pre[j - 1 - i]);
            assert(items[j - 1 - i].0 != items[j as int].0);
        }
        lemma_remove_key_prefix(prev, k, t);
        let rest = remove_key(prev, k);
        let fronted = seq![(k, v)] + rest;
        assert(fronted.len() >= t + 1);
        assert(vstd::math::min(items.len() as int, cap as int) <= t + 1);
        assert forall|i: int| 0 <= i < vstd::math::min(items.len() as int, cap as int) implies #[
            trigger] r[i] == items[items.len() - 1 - i] by {
            assert(r[i] == fronted[i]);
            if i == 0 {
                assert(fronted[0] == (k, v));
                assert(items[items.len() - 1] == (k, v));
            } else {
                assert(fronted[i] == rest[i - 1]);
                assert(i - 1 < t);
                assert(rest[i - 1] == prev[i - 1]);
                assert(prev[i - 1] == pre[j - 1 - (i - 1)]);
                assert(pre[j - i] == items[j - i]);
            }
        }
    }
}

/// After inserting `n >= capacity` entries with pairwise distinct keys
/// into a well-formed cache, the cache holds exactly `capacity` entries:
/// the `capacity` most recently inserted ones, most recent first.
pub proof fn lemma_insert_all_keeps_recent(
    s: Seq<(Seq<char>, Seq<u8>)>,
    cap: nat,
    items: Seq<(Seq<char>, Seq<u8>)>,
)
    requires
        distinct_keys(items),
        distinct_keys(s),
        s.len() <= cap,
        1 <= cap <= items.len(),
    ensures
        insert_all(s, cap, items).len() == cap,
        forall|i: int|
            0 <= i < cap ==> #[trigger] insert_all(s, cap, items)[i] == items[items.len() - 1
                - i],
{
    lemma_insert_all_general(s, cap, items);
}

/// A bounded LRU store from file path to file bytes.
pub struct ContentCache {
    lru: lru::LruCache<String, Vec<u8>>,
}

impl View for ContentCache {
    type V = CacheModel;

    closed spec fn view(&self) -> CacheModel {
        CacheModel { entries: lru_entries(self.lru), cap: lru_capacity(self.lru) }
    }
}

impl ContentCache {
    /// Relies on `lru::LruCache::new`: a fresh cache is empty and remembers
    /// the given capacity.
    #[verifier::external_body]
    fn raw_new(capacity: usize) -> (r: Self)
        requires
            1 <= capacity,
        ensures
            lru_entries(r.lru) == Seq::<(Seq<char>, Seq<u8>)>::empty(),
            lru_capacity(r.lru) == capacity,
    {
        ContentCache {
            lru: lru::LruCache::new(std::num::NonZeroUsize::new(capacity).unwrap()),
        }
    }

    /// Relies on `lru::LruCache::get`: returns the value stored under the
    /// key and moves the entry to the head of the recency list, or returns
    /// `None` leaving the cache unchanged.
    #[verifier::external_body]
    fn raw_get(&mut self, path: &String) -> (r: Option<Vec<u8>>)
        ensures
            lru_capacity(final(self).lru) == lru_capacity(old(self).lru),
            (match r {
                Some(v) => has_key(lru_entries(old(self).lru), path@) && v@ == value_of(
                    lru_entries(old(self).lru),
                    path@,
                ) && lru_entries(final(self).lru) == promote(lru_entries(old(self).lru), path@),
                None => !has_key(lru_entries(old(self).lru), path@) && lru_entries(
                    final(self).lru,
                ) == lru_entries(old(self).lru),
            }),
    {
        self.lru.get(path).cloned()
    }

    /// Relies on `lru::LruCache::put`: the pair becomes the most recently
    /// used entry, replacing any entry with the same key; when a new key
    /// overflows the capacity the least recently used entry is evicted.
    #[verifier::external_body]
    fn raw_put(&mut self, path: String, content: Vec<u8>)
        ensures
            lru_capacity(final(self).lru) == lru_capacity(old(self).lru),
            lru_entries(final(self).lru) == model_put(
                lru_entries(old(self).lru),
                lru_capacity(old(self).lru),
                path@,
                content@,
            ),
    {
        self.lru.put(path, content);
    }

    /// Relies on `lru::LruCache::len`: the number of entries held.
    #[verifier::external_body]
    fn raw_len(&self) -> (n: usize)
        ensures
            n == lru_entries(self.lru).len(),
    {
        self.lru.len()
    }

    /// Relies on `lru::LruCache::cap`: the capacity given at creation.
    #[verifier::external_body]
    fn raw_capacity(&self) -> (n: usize)
        ensures
            n == lru_capacity(self.lru),
    {
        self.lru.cap().get()
    }

    /// Relies on `lru::LruCache::contains`: whether the key is present;
    /// recency is not touched.
    #[verifier::external_body]
    fn raw_contains(&self, path: &String) -> (b: bool)
        ensures
            b == has_key(lru_entries(self.lru), path@),
    {
        self.lru.contains(path)
    }

    /// A fresh, empty cache with the given capacity.
    pub fn new(capacity: usize) -> (r: Self)
        requires
            1 <= capacity,
        ensures
            r@.entries == Seq::<(Seq<char>, Seq<u8>)>::empty(),
            r@.cap == capacity,
            cache_wf(r@),
    {
        Self::raw_new(capacity)
    }

    /// The number of entries held.
    pub fn len(&self) -> (n: usize)
        ensures
            n == self@.entries.len(),
    {
        self.raw_len()
    }

    /// The capacity the cache was created with.
    pub fn capacity(&self) -> (n: usize)
        ensures
            n == self@.cap,
    {
        self.raw_capacity()
    }

    /// Whether an entry for the path is present; recency is not touched.
    pub fn contains(&self, path: &String) -> (b: bool)
        ensures
            b == has_key(self@.entries, path@),
    {
        self.raw_contains(path)
    }

    /// A cache hit returns the stored content and marks the entry most
    /// recently used; a miss returns `None` and changes nothing.
    pub fn lookup(&mut self, path: &String) -> (r: Option<Vec<u8>>)
        requires
            cache_wf(old(self)@),
        ensures
            cache_wf(final(self)@),
            final(self)@.cap == old(self)@.cap,
            (match r {
                Some(v) => has_key(old(self)@.entries, path@) && v@ == value_of(
                    old(self)@.entries,
                    path@,
                ) && final(self)@.entries == promote(old(self)@.entries, path@),
                None => !has_key(old(self)@.entries, path@) && final(self)@.entries == old(
                    self,
                )@.entries,
            }),
    {
        let r = self.raw_get(path);
        proof {
            if has_key(old(self)@.entries, path@) {
                lemma_promote_wf(old(self)@, path@);
            }
        }
        r
    }

    /// Inserts content for a path as the most recently used entry,
    /// evicting the least recently used entry on overflow.
    pub fn store(&mut self, path: String, content: Vec<u8>)
        requires
            cache_wf(old(self)@),
        ensures
            cache_wf(final(self)@),
            final(self)@.cap == old(self)@.cap,
            final(self)@.entries == model_put(
                old(self)@.entries,
                old(self)@.cap,
                path@,
                content@,
            ),
            has_key(final(self)@.entries, path@),
            value_of(final(self)@.entries, path@) == content@,
    {
        proof {
            lemma_put_wf(old(self)@, path@, content@);
        }
        self.raw_put(path, content);
    }

    /// On a hit, returns the cached content and promotes the entry. On a
    /// miss, reads the path from the storage association list; on success
    /// the content is inserted and returned, on failure the cache is left
    /// unchanged and `None` is returned.
    pub fn get_or_load(&mut self, path: &String, storage: &Vec<(String, Vec<u8>)>) -> (r: Option<
        Vec<u8>,
    >)
        requires
            cache_wf(old(self)@),
        ensures
            cache_wf(final(self)@),
            final(self)@ == spec_get_or_load(old(self)@, storage_view(storage@), path@).0,
            (match r {
                Some(v) => spec_get_or_load(old(self)@, storage_view(storage@), path@).1
                    == Some(v@),
                None => spec_get_or_load(old(self)@, storage_view(storage@), path@).1 is None,
            }),
    {
        let hit = self.lookup(path);
        match hit {
            Some(v) => Some(v),
            None => {
                let st = Ghost(storage_view(storage@));
                let mut i: usize = 0;
                let n = storage.len();
                proof {
                    assert(st@.skip(0) =~= st@);
                }
                loop
                    invariant
                        0 <= i <= n,
                        n == storage.len(),
                        st@ == storage_view(storage@),
                        assoc_lookup(st@, path@) == assoc_lookup(st@.skip(i as int), path@),
                        cache_wf(self@),
                        self@ == old(self)@,
                        !has_key(self@.entries, path@),
                    decreases n - i,
                {
                    if i >= n {
                        assert(st@.skip(i as int) =~= Seq::<(Seq<char>, Seq<u8>)>::empty());
                        return None;
                    }
                    let entry = &storage[i];
                    proof {
                        assert(st@[i as int] == (storage@[i as int].0@, storage@[i as int].1@));
                        assert(st@.skip(i as int)[0] == st@[i as int]);
                    }
                    if entry.0 == *path {
                        let content = entry.1.clone();
                        assert(assoc_lookup(st@.skip(i as int), path@) == Some(content@));
                        self.store(path.clone(), content.clone());
                        return Some(content);
                    }
                    proof {
                        assert(st@.skip(i as int).drop_first() =~= st@.skip(i + 1));
                    }
                    i = i + 1;
                }
            },
        }
    }
}

} // verus!
