//! The two bounded caches: query results keyed by normalized query text, and
//! resolved definitions keyed by structural identity. Both keep their pairs
//! in insertion order and evict from the front; overwriting a key replaces
//! its value in place and never reorders the queue.

use vstd::prelude::*;

use crate::dictionary::{
    full_range, ranked, DictError, DictionaryStore, Entry,
};
use crate::text::{all_space, lower_to_string, normalized, str_eq, trim_to_string};

verus! {

/// The default capacity of the query-result cache.
pub const SEARCH_CACHE_CAPACITY: usize = 2048;

/// The default capacity of the definition cache.
pub const DEFINITION_CACHE_CAPACITY: usize = 4096;

// ----------------------------------------------------------------------------
// The insertion-order bounded map, modelled as a sequence of pairs.
// ----------------------------------------------------------------------------

/// `k` is one of the keys of `m`.
pub open spec fn has_key<K, V>(m: Seq<(K, V)>, k: K) -> bool {
    exists|i: int| 0 <= i < m.len() && (#[trigger] m[i]).0 == k
}

/// The position of key `k` in `m` (meaningful when the keys are distinct).
pub open spec fn key_index<K, V>(m: Seq<(K, V)>, k: K) -> int {
    choose|i: int| 0 <= i < m.len() && (#[trigger] m[i]).0 == k
}

/// The value stored under key `k`.
pub open spec fn value_of<K, V>(m: Seq<(K, V)>, k: K) -> V {
    m[key_index(m, k)].1
}

/// No key occurs twice.
pub open spec fn keys_distinct<K, V>(m: Seq<(K, V)>) -> bool {
    forall|i: int, j: int| 0 <= i < j < m.len() ==> (#[trigger] m[i]).0 != (#[trigger] m[j]).0
}

/// Drop the oldest pairs until at most `cap` remain.
pub open spec fn trim_to_cap<K, V>(m: Seq<(K, V)>, cap: nat) -> Seq<(K, V)> {
    if m.len() <= cap {
        m
    } else {
        m.subrange(m.len() - cap, m.len() as int)
    }
}

/// What storing `k -> v` does: an existing key keeps its place in the
/// eviction queue and gets the new value; a new key goes to the back, and the
/// oldest pairs leave until the bound holds again.
pub open spec fn store_model<K, V>(m: Seq<(K, V)>, k: K, v: V, cap: nat) -> Seq<(K, V)> {
    if has_key(m, k) {
        m.update(key_index(m, k), (k, v))
    } else {
        trim_to_cap(m.push((k, v)), cap)
    }
}

/// With distinct keys, the key at a position is found exactly there.
pub proof fn lemma_key_at<K, V>(m: Seq<(K, V)>, i: int)
    requires
        keys_distinct(m),
        0 <= i < m.len(),
    ensures
        has_key(m, m[i].0),
        key_index(m, m[i].0) == i,
        value_of(m, m[i].0) == m[i].1,
{
    let k = m[i].0;
    assert(has_key(m, k));
    let j = key_index(m, k);
    assert(0 <= j < m.len() && m[j].0 == k);
    if i != j {
        assert(false);
    }
}

// ----------------------------------------------------------------------------
// Bounded index lists (what ties cached results to one corpus).
// ----------------------------------------------------------------------------

/// Every index in `v` lies below `n`.
pub open spec fn indices_below(v: Seq<usize>, n: nat) -> bool {
    forall|t: int| 0 <= t < v.len() ==> (#[trigger] v[t]) < n
}

/// Every cached result of `m` only holds indices below `n`.
pub open spec fn values_below(m: Seq<(Seq<char>, Seq<usize>)>, n: nat) -> bool {
    forall|i: int| 0 <= i < m.len() ==> indices_below((#[trigger] m[i]).1, n)
}

/// Storing a bounded value into a bounded cache keeps it bounded.
proof fn lemma_store_model_below(
    m: Seq<(Seq<char>, Seq<usize>)>,
    k: Seq<char>,
    v: Seq<usize>,
    cap: nat,
    n: nat,
)
    requires
        values_below(m, n),
        indices_below(v, n),
    ensures
        values_below(store_model(m, k, v, cap), n),
{
    let m1 = store_model(m, k, v, cap);
    assert forall|i: int| 0 <= i < m1.len() implies indices_below(m1[i].1, n) by {
        if has_key(m, k) {
            if i != key_index(m, k) {
                assert(m1[i] == m[i]);
            }
        } else {
            let pushed = m.push((k, v));
            if pushed.len() <= cap {
                if i < m.len() {
                    assert(m1[i] == m[i]);
                }
            } else {
                let off = pushed.len() - cap;
                assert(m1[i] == pushed[i + off]);
                if i + off < m.len() {
                    assert(pushed[i + off] == m[i + off]);
                }
            }
        }
    }
}

/// Copy an index list.
fn copy_indices(v: &Vec<usize>) -> (r: Vec<usize>)
    ensures
        r@ == v@,
{
    let mut out: Vec<usize> = Vec::new();
    let mut i: usize = 0;
    while i < v.len()
        invariant
            i <= v@.len(),
            out@ == v@.subrange(0, i as int),
        decreases v@.len() - i,
    {
        out.push(v[i]);
        proof {
            assert(v@.subrange(0, i + 1) =~= v@.subrange(0, i as int).push(v@[i as int]));
        }
        i = i + 1;
    }
    proof {
        assert(v@.subrange(0, v@.len() as int) =~= v@);
    }
    out
}

// ----------------------------------------------------------------------------
// The query-result cache.
// ----------------------------------------------------------------------------

/// Bounded cache from normalized query text to the ordered list of matching
/// entry indices, evicted in insertion order.
pub struct QueryResultCache {
    slots: Vec<(String, Vec<usize>)>,
    capacity: usize,
}

/// How far the longest cached proper prefix of `n` reaches: the largest
/// `l <= k` such that the first `l` characters of `n` are a cache key, or 0.
pub open spec fn longest_cached_prefix_len(
    m: Seq<(Seq<char>, Seq<usize>)>,
    n: Seq<char>,
    k: int,
) -> int
    decreases k,
{
    if k <= 0 {
        0
    } else if has_key(m, n.subrange(0, k)) {
        k
    } else {
        longest_cached_prefix_len(m, n, k - 1)
    }
}

/// The candidate scope a fresh query is matched against: the result cached
/// under the longest proper prefix of `n`, or the whole corpus.
pub open spec fn candidate_scope(
    m: Seq<(Seq<char>, Seq<usize>)>,
    corpus_len: nat,
    n: Seq<char>,
) -> Seq<usize> {
    let l = longest_cached_prefix_len(m, n, n.len() - 1);
    if l > 0 {
        value_of(m, n.subrange(0, l))
    } else {
        full_range(corpus_len)
    }
}

/// What `query` returns on a cache holding `m`: nothing for an empty
/// normalized query, the cached list on a hit, and otherwise the tiered match
/// over the candidate scope.
pub open spec fn query_result_model(
    m: Seq<(Seq<char>, Seq<usize>)>,
    words: Seq<Seq<char>>,
    n: Seq<char>,
) -> Seq<usize> {
    if n.len() == 0 {
        Seq::empty()
    } else if has_key(m, n) {
        value_of(m, n)
    } else {
        ranked(words, candidate_scope(m, words.len(), n), n)
    }
}

/// What `query` leaves in the cache: untouched on an empty query or a hit,
/// and otherwise the fresh result stored under the normalized query.
pub open spec fn query_cache_model(
    m: Seq<(Seq<char>, Seq<usize>)>,
    words: Seq<Seq<char>>,
    n: Seq<char>,
    cap: nat,
) -> Seq<(Seq<char>, Seq<usize>)> {
    if n.len() == 0 || has_key(m, n) {
        m
    } else {
        store_model(m, n, query_result_model(m, words, n), cap)
    }
}

impl QueryResultCache {
    /// The cache content: key text and stored index list of each slot, oldest
    /// first.
    pub closed spec fn model(self) -> Seq<(Seq<char>, Seq<usize>)> {
        self.slots@.map_values(|p: (String, Vec<usize>)| (p.0@, p.1@))
    }

    /// The fixed capacity.
    pub closed spec fn cap(self) -> nat {
        self.capacity as nat
    }

    /// Keys are distinct and the bound holds.
    pub open spec fn wf(self) -> bool {
        &&& keys_distinct(self.model())
        &&& self.model().len() <= self.cap()
    }

    /// An empty cache with the given fixed capacity.
    pub fn new(capacity: usize) -> (r: Self)
        ensures
            r.wf(),
            r.cap() == capacity,
            r.model() == Seq::<(Seq<char>, Seq<usize>)>::empty(),
    {
        let r = QueryResultCache { slots: Vec::new(), capacity };
        proof {
            assert(r.model() =~= Seq::<(Seq<char>, Seq<usize>)>::empty());
        }
        r
    }

    /// The slot index holding `key`, if any.
    fn position_of(&self, key: &str) -> (r: Option<usize>)
        ensures
            match r {
                Some(i) => i < self.model().len() && self.model()[i as int].0 == key@,
                None => !has_key(self.model(), key@),
            },
    {
        let mut i: usize = 0;
        while i < self.slots.len()
            invariant
                i <= self.slots@.len(),
                forall|j: int| 0 <= j < i ==> (#[trigger] self.model()[j]).0 != key@,
            decreases self.slots@.len() - i,
        {
            if str_eq(self.slots[i].0.as_str(), key) {
                proof {
                    assert(self.model()[i as int].0 == self.slots@[i as int].0@);
                }
                return Some(i);
            }
            proof {
                assert(self.model()[i as int].0 == self.slots@[i as int].0@);
            }
            i = i + 1;
        }
        None
    }

    /// The result cached under `key`, if any; reading does not touch the
    /// eviction queue.
    pub fn cached_result(&self, key: &str) -> (r: Option<Vec<usize>>)
        requires
            self.wf(),
        ensures
            match r {
                Some(v) => has_key(self.model(), key@) && v@ == value_of(self.model(), key@),
                None => !has_key(self.model(), key@),
            },
    {
        match self.position_of(key) {
            Some(i) => {
                proof {
                    lemma_key_at(self.model(), i as int);
                }
                Some(copy_indices(&self.slots[i].1))
            },
            None => None,
        }
    }

    /// How many results are cached.
    pub fn len(&self) -> (r: usize)
        ensures
            r == self.model().len(),
    {
        self.slots.len()
    }

    /// Store `key -> value`: replace in place on a key collision, else push
    /// to the back of the eviction queue and drop the oldest pairs while the
    /// cache overflows.
    pub fn insert(&mut self, key: String, value: Vec<usize>)
        requires
            old(self).wf(),
        ensures
            final(self).wf(),
            final(self).cap() == old(self).cap(),
            final(self).model() == store_model(
                old(self).model(),
                key@,
                value@,
                old(self).cap(),
            ),
    {
        let ghost m0 = self.model();
        match self.position_of(key.as_str()) {
            Some(i) => {
                proof {
                    lemma_key_at(m0, i as int);
                }
                self.slots[i] = (key, value);
                proof {
                    assert(self.model() =~= m0.update(key_index(m0, key@), (key@, value@)));
                    assert forall|x: int, y: int|
                        0 <= x < y < self.model().len() implies (#[trigger] self.model()[x]).0 != (
                    #[trigger] self.model()[y]).0 by {
                        if x != i as int && y != i as int {
                            assert(self.model()[x] == m0[x] && self.model()[y] == m0[y]);
                        }
                    }
                }
            },
            None => {
                self.slots.push((key, value));
                proof {
                    assert(self.model() =~= m0.push((key@, value@)));
                    assert forall|x: int, y: int|
                        0 <= x < y < self.model().len() implies (#[trigger] self.model()[x]).0 != (
                    #[trigger] self.model()[y]).0 by {
                        if y < m0.len() {
                            assert(self.model()[x] == m0[x] && self.model()[y] == m0[y]);
                        } else {
                            assert(self.model()[y] == (key@, value@));
                            if x < m0.len() {
                                assert(self.model()[x] == m0[x]);
                                assert(has_key(m0, m0[x].0));
                            }
                        }
                    }
                }
                let ghost pushed = self.model();
                while self.slots.len() > self.capacity
                    invariant
                        keys_distinct(self.model()),
                        self.capacity == old(self).cap(),
                        trim_to_cap(self.model(), self.capacity as nat) == trim_to_cap(
                            pushed,
                            self.capacity as nat,
                        ),
                    decreases self.slots@.len(),
                {
                    let ghost before = self.model();
                    self.slots.remove(0);
                    proof {
                        assert(self.model() =~= before.subrange(1, before.len() as int));
                        assert(trim_to_cap(self.model(), self.capacity as nat) =~= trim_to_cap(
                            before,
                            self.capacity as nat,
                        ));
                        assert forall|x: int, y: int|
                            0 <= x < y < self.model().len() implies (
                        #[trigger] self.model()[x]).0 != (#[trigger] self.model()[y]).0 by {
                            assert(self.model()[x] == before[x + 1]);
                            assert(self.model()[y] == before[y + 1]);
                        }
                    }
                }
                proof {
                    assert(self.model().len() <= self.capacity as nat);
                    assert(self.model() == trim_to_cap(pushed, self.capacity as nat));
                }
            },
        }
    }

    /// Walk the proper prefixes of `needle`, longest first, and hand back the
    /// result cached under the first one that is a key.
    pub fn find_longest_prefix_result(&self, needle: &str) -> (r: Option<Vec<usize>>)
        requires
            self.wf(),
        ensures
            ({
                let l = longest_cached_prefix_len(self.model(), needle@, needle@.len() - 1);
                match r {
                    Some(v) => l > 0 && v@ == value_of(self.model(), needle@.subrange(0, l)),
                    None => l == 0,
                }
            }),
    {
        let n: usize = needle.unicode_len();
        if n == 0 {
            return None;
        }
        let mut k: usize = n - 1;
        while k >= 1
            invariant
                self.wf(),
                k <= n - 1,
                n == needle@.len(),
                longest_cached_prefix_len(self.model(), needle@, needle@.len() - 1)
                    == longest_cached_prefix_len(self.model(), needle@, k as int),
            decreases k,
        {
            let p: &str = needle.substring_char(0, k);
            proof {
                assert(p@ == needle@.subrange(0, k as int));
            }
            match self.position_of(p) {
                Some(i) => {
                    proof {
                        assert(has_key(self.model(), needle@.subrange(0, k as int)));
                        lemma_key_at(self.model(), i as int);
                    }
                    return Some(copy_indices(&self.slots[i].1));
                },
                None => {
                },
            }
            k = k - 1;
        }
        None
    }

    /// Answer a raw query. Normalize it (trim, lowercase); an empty
    /// normalized query is answered with nothing and touches no cache state.
    /// A cached query is answered from the cache. Otherwise the match engine
    /// scans the result cached under the longest cached proper prefix of the
    /// query — or the whole corpus — and the fresh result is stored.
    pub fn query(&mut self, dict: &DictionaryStore, query: &str) -> (r: Vec<usize>)
        requires
            old(self).wf(),
            values_below(old(self).model(), dict.entries@.len() as nat),
        ensures
            final(self).wf(),
            final(self).cap() == old(self).cap(),
            values_below(final(self).model(), dict.entries@.len() as nat),
            r@ == query_result_model(old(self).model(), dict.words_lower(), normalized(query@)),
            final(self).model() == query_cache_model(
                old(self).model(),
                dict.words_lower(),
                normalized(query@),
                old(self).cap(),
            ),
            indices_below(r@, dict.entries@.len() as nat),
            all_space(query@) ==> r@ == Seq::<usize>::empty() && final(self).model() == old(
                self,
            ).model(),
    {
        let ghost m0 = self.model();
        let ghost words = dict.words_lower();
        let ghost len = dict.entries@.len() as nat;
        let t = trim_to_string(query);
        let needle = lower_to_string(t.as_str());
        proof {
            assert(needle@ == normalized(query@));
            assert(words.len() == len);
        }
        if needle.as_str().is_empty() {
            return Vec::new();
        }
        match self.position_of(needle.as_str()) {
            Some(i) => {
                proof {
                    lemma_key_at(m0, i as int);
                    assert(indices_below(m0[i as int].1, len));
                }
                return copy_indices(&self.slots[i].1);
            },
            None => {
            },
        }
        let cached = self.find_longest_prefix_result(needle.as_str());
        proof {
            let l = longest_cached_prefix_len(m0, needle@, needle@.len() - 1);
            lemma_longest_prefix_bounds(m0, needle@, needle@.len() - 1);
            if l > 0 {
                let key = needle@.subrange(0, l);
                let j = key_index(m0, key);
                assert(0 <= j < m0.len() && m0[j].0 == key);
                assert(indices_below(m0[j].1, len));
            }
        }
        let result = match &cached {
            Some(v) => {
                proof {
                    assert forall|u: int| 0 <= u < v@.len() implies (#[trigger] v@[u])
                        < dict.entries@.len() by {
                        assert(indices_below(v@, len));
                    }
                }
                dict.search(needle.as_str(), Some(v.as_slice()))
            },
            None => dict.search(needle.as_str(), None),
        };
        let stored = copy_indices(&result);
        proof {
            assert forall|u: int| 0 <= u < result@.len() implies (#[trigger] result@[u])
                < len by {
                assert(dict.valid_indices(result@));
            }
            lemma_store_model_below(m0, needle@, result@, self.cap(), len);
        }
        self.insert(needle, stored);
        result
    }
}

/// A positive longest-cached-prefix length really is a cached key, and stays
/// within the range that was walked.
pub proof fn lemma_longest_prefix_bounds(
    m: Seq<(Seq<char>, Seq<usize>)>,
    n: Seq<char>,
    k: int,
)
    ensures
        ({
            let l = longest_cached_prefix_len(m, n, k);
            &&& 0 <= l <= k || (k < 0 && l == 0)
            &&& l > 0 ==> has_key(m, n.subrange(0, l))
        }),
    decreases k,
{
    if k > 0 && !has_key(m, n.subrange(0, k)) {
        lemma_longest_prefix_bounds(m, n, k - 1);
    }
}

/// Storing under a key leaves that key present with the stored value, as
/// long as the cache can hold one pair at all.
pub proof fn lemma_store_model_found<K, V>(m: Seq<(K, V)>, k: K, v: V, cap: nat)
    requires
        keys_distinct(m),
        m.len() <= cap,
        1 <= cap,
    ensures
        has_key(store_model(m, k, v, cap), k),
        keys_distinct(store_model(m, k, v, cap)),
        store_model(m, k, v, cap).len() <= cap,
        value_of(store_model(m, k, v, cap), k) == v,
{
    let m1 = store_model(m, k, v, cap);
    if has_key(m, k) {
        let i = key_index(m, k);
        assert(0 <= i < m.len() && m[i].0 == k);
        assert(m1 == m.update(i, (k, v)));
        assert forall|x: int, y: int| 0 <= x < y < m1.len() implies (#[trigger] m1[x]).0 != (
        #[trigger] m1[y]).0 by {
            if x != i && y != i {
                assert(m1[x] == m[x] && m1[y] == m[y]);
            }
        }
        lemma_key_at(m1, i);
    } else {
        let pushed = m.push((k, v));
        assert forall|x: int, y: int| 0 <= x < y < pushed.len() implies (
        #[trigger] pushed[x]).0 != (#[trigger] pushed[y]).0 by {
            if y < m.len() {
                assert(pushed[x] == m[x] && pushed[y] == m[y]);
            } else {
                if x < m.len() {
                    assert(pushed[x] == m[x]);
                    assert(has_key(m, m[x].0));
                }
            }
        }
        if pushed.len() <= cap {
            assert(m1 == pushed);
            lemma_key_at(m1, m.len() as int);
        } else {
            assert(m.len() == cap);
            assert(m1 =~= pushed.subrange(1, pushed.len() as int));
            assert forall|x: int, y: int| 0 <= x < y < m1.len() implies (#[trigger] m1[x]).0
                != (#[trigger] m1[y]).0 by {
                assert(m1[x] == pushed[x + 1] && m1[y] == pushed[y + 1]);
            }
            assert(m1[m1.len() - 1] == (k, v));
            lemma_key_at(m1, m1.len() - 1);
        }
    }
}

// ----------------------------------------------------------------------------
// The definition cache.
// ----------------------------------------------------------------------------

/// The structural identity of a definition: which source it lives in and
/// which keyword slot it occupies there. Two corpus entries that address the
/// same underlying item share this key, whatever their corpus positions.
#[derive(Debug, Clone, Copy, PartialEq, Eq, Hash, Structural)]
pub struct DefinitionKey {
    pub dict_idx: usize,
    pub keyword_idx: usize,
}

impl DefinitionKey {
    /// The key an entry resolves under.
    pub open spec fn of_spec(e: Entry) -> DefinitionKey {
        DefinitionKey { dict_idx: e.dict_idx, keyword_idx: e.keyword_idx }
    }

    /// Build the key of an entry.
    pub fn of_entry(e: &Entry) -> (r: DefinitionKey)
        ensures
            r == DefinitionKey::of_spec(*e),
    {
        DefinitionKey { dict_idx: e.dict_idx, keyword_idx: e.keyword_idx }
    }
}

/// Bounded cache from structural key to resolved definition text, evicted in
/// insertion order exactly like the query-result cache.
pub struct DefinitionCache {
    slots: Vec<(DefinitionKey, String)>,
    capacity: usize,
}

impl DefinitionCache {
    /// The cache content, oldest pair first.
    pub closed spec fn model(self) -> Seq<(DefinitionKey, Seq<char>)> {
        self.slots@.map_values(|p: (DefinitionKey, String)| (p.0, p.1@))
    }

    /// The fixed capacity.
    pub closed spec fn cap(self) -> nat {
        self.capacity as nat
    }

    /// Keys are distinct and the bound holds.
    pub open spec fn wf(self) -> bool {
        &&& keys_distinct(self.model())
        &&& self.model().len() <= self.cap()
    }

    /// An empty cache with the given fixed capacity.
    pub fn new(capacity: usize) -> (r: Self)
        ensures
            r.wf(),
            r.cap() == capacity,
            r.model() == Seq::<(DefinitionKey, Seq<char>)>::empty(),
    {
        let r = DefinitionCache { slots: Vec::new(), capacity };
        proof {
            assert(r.model() =~= Seq::<(DefinitionKey, Seq<char>)>::empty());
        }
        r
    }

    /// The slot index holding `key`, if any.
    fn position_of(&self, key: DefinitionKey) -> (r: Option<usize>)
        ensures
            match r {
                Some(i) => i < self.model().len() && self.model()[i as int].0 == key,
                None => !has_key(self.model(), key),
            },
    {
        let mut i: usize = 0;
        while i < self.slots.len()
            invariant
                i <= self.slots@.len(),
                forall|j: int| 0 <= j < i ==> (#[trigger] self.model()[j]).0 != key,
            decreases self.slots@.len() - i,
        {
            let k = self.slots[i].0;
            if k.dict_idx == key.dict_idx && k.keyword_idx == key.keyword_idx {
                proof {
                    assert(self.model()[i as int].0 == self.slots@[i as int].0);
                }
                return Some(i);
            }
            proof {
                assert(self.model()[i as int].0 == self.slots@[i as int].0);
            }
            i = i + 1;
        }
        None
    }

    /// The definition cached under `key`, if any; reading does not touch the
    /// eviction queue.
    pub fn cached_definition(&self, key: DefinitionKey) -> (r: Option<String>)
        requires
            self.wf(),
        ensures
            match r {
                Some(v) => has_key(self.model(), key) && v@ == value_of(self.model(), key),
                None => !has_key(self.model(), key),
            },
    {
        match self.position_of(key) {
            Some(i) => {
                proof {
                    lemma_key_at(self.model(), i as int);
                }
                Some(self.slots[i].1.clone())
            },
            None => None,
        }
    }

    /// How many definitions are cached.
    pub fn len(&self) -> (r: usize)
        ensures
            r == self.model().len(),
    {
        self.slots.len()
    }

    /// Store `key -> value` under the same insertion-order eviction policy as
    /// the query-result cache.
    pub fn insert(&mut self, key: DefinitionKey, value: String)
        requires
            old(self).wf(),
        ensures
            final(self).wf(),
            final(self).cap() == old(self).cap(),
            final(self).model() == store_model(
                old(self).model(),
                key,
                value@,
                old(self).cap(),
            ),
    {
        let ghost m0 = self.model();
        match self.position_of(key) {
            Some(i) => {
                proof {
                    lemma_key_at(m0, i as int);
                }
                self.slots[i] = (key, value);
                proof {
                    assert(self.model() =~= m0.update(key_index(m0, key), (key, value@)));
                    assert forall|x: int, y: int|
                        0 <= x < y < self.model().len() implies (#[trigger] self.model()[x]).0 != (
                    #[trigger] self.model()[y]).0 by {
                        if x != i as int && y != i as int {
                            assert(self.model()[x] == m0[x] && self.model()[y] == m0[y]);
                        }
                    }
                }
            },
            None => {
                self.slots.push((key, value));
                proof {
                    assert(self.model() =~= m0.push((key, value@)));
                    assert forall|x: int, y: int|
                        0 <= x < y < self.model().len() implies (#[trigger] self.model()[x]).0 != (
                    #[trigger] self.model()[y]).0 by {
                        if y < m0.len() {
                            assert(self.model()[x] == m0[x] && self.model()[y] == m0[y]);
                        } else {
                            assert(self.model()[y] == (key, value@));
                            if x < m0.len() {
                                assert(self.model()[x] == m0[x]);
                                assert(has_key(m0, m0[x].0));
                            }
                        }
                    }
                }
                let ghost pushed = self.model();
                while self.slots.len() > self.capacity
                    invariant
                        keys_distinct(self.model()),
                        self.capacity == old(self).cap(),
                        trim_to_cap(self.model(), self.capacity as nat) == trim_to_cap(
                            pushed,
                            self.capacity as nat,
                        ),
                    decreases self.slots@.len(),
                {
                    let ghost before = self.model();
                    self.slots.remove(0);
                    proof {
                        assert(self.model() =~= before.subrange(1, before.len() as int));
                        assert(trim_to_cap(self.model(), self.capacity as nat) =~= trim_to_cap(
                            before,
                            self.capacity as nat,
                        ));
                        assert forall|x: int, y: int|
                            0 <= x < y < self.model().len() implies (
                        #[trigger] self.model()[x]).0 != (#[trigger] self.model()[y]).0 by {
                            assert(self.model()[x] == before[x + 1]);
                            assert(self.model()[y] == before[y + 1]);
                        }
                    }
                }
                proof {
                    assert(self.model().len() <= self.capacity as nat);
                    assert(self.model() == trim_to_cap(pushed, self.capacity as nat));
                }
            },
        }
    }

    /// The first half of a definition request: reject a bad entry index, and
    /// answer from the cache when the entry's structural key is present. An
    /// `Ok(None)` asks the caller to fetch the content externally and hand it
    /// to `store_fetched`; only then is the resolver ever invoked.
    pub fn lookup(&self, dict: &DictionaryStore, entry_idx: usize) -> (r: Result<
        Option<String>,
        DictError,
    >)
        requires
            self.wf(),
        ensures
            entry_idx >= dict.entries@.len() ==> r is Err && r->Err_0 == DictError::InvalidIndex,
            entry_idx < dict.entries@.len() ==> {
                let key = DefinitionKey::of_spec(dict.entries@[entry_idx as int]);
                if has_key(self.model(), key) {
                    r is Ok && r->Ok_0 is Some && r->Ok_0->0@ == value_of(self.model(), key)
                } else {
                    r is Ok && r->Ok_0 is None
                }
            },
    {
        if entry_idx >= dict.entries.len() {
            return Err(DictError::InvalidIndex);
        }
        let key = DefinitionKey::of_entry(&dict.entries[entry_idx]);
        Ok(self.cached_definition(key))
    }

    /// The second half of a definition request: record what the external
    /// resolver produced. Content is stored under the entry's structural key
    /// and returned; a fetch that produced nothing is a `ResolutionFailed`
    /// and leaves the cache untouched.
    pub fn store_fetched(
        &mut self,
        dict: &DictionaryStore,
        entry_idx: usize,
        fetched: Option<String>,
    ) -> (r: Result<String, DictError>)
        requires
            old(self).wf(),
        ensures
            final(self).wf(),
            final(self).cap() == old(self).cap(),
            entry_idx >= dict.entries@.len() ==> r is Err && r->Err_0 == DictError::InvalidIndex
                && final(self).model() == old(self).model(),
            entry_idx < dict.entries@.len() ==> {
                let key = DefinitionKey::of_spec(dict.entries@[entry_idx as int]);
                match fetched {
                    Some(text) => r is Ok && r->Ok_0@ == text@ && final(self).model()
                        == store_model(old(self).model(), key, text@, old(self).cap()),
                    None => r is Err && r->Err_0 == DictError::ResolutionFailed
                        && final(self).model() == old(self).model(),
                }
            },
    {
        if entry_idx >= dict.entries.len() {
            return Err(DictError::InvalidIndex);
        }
        let key = DefinitionKey::of_entry(&dict.entries[entry_idx]);
        match fetched {
            Some(text) => {
                let kept = text.clone();
                self.insert(key, text);
                Ok(kept)
            },
            None => Err(DictError::ResolutionFailed),
        }
    }
}

} // verus!
