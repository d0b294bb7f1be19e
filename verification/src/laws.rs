//! The laws of the match engine and the caches: the tier partition, the
//! correctness of prefix-narrowed rescans, the idempotence of `query`, and
//! the insertion-order eviction discipline.

use vstd::prelude::*;
use vstd::seq_lib::lemma_multiset_commutative;

use crate::cache::{
    candidate_scope, has_key, key_index, keys_distinct, lemma_longest_prefix_bounds, lemma_store_model_found,
    longest_cached_prefix_len, query_cache_model, query_result_model, store_model, value_of,
};
use crate::dictionary::{
    contains_pred, exact_pred, full_range, is_contains_hit, is_exact, is_prefix_hit,
    prefix_pred, ranked,
};
use crate::text::{contains_at, seq_contains};

verus! {

broadcast use {
    vstd::seq_lib::group_to_multiset_ensures,
    vstd::multiset::group_multiset_axioms,
};

// ----------------------------------------------------------------------------
// Facts about the three tiers of a single needle.
// ----------------------------------------------------------------------------

/// A word can match a needle in at most one tier, and the tiers are ordered
/// by strength: an exact match starts with the needle, and a word starting
/// with the needle contains it.
pub proof fn lemma_tier_partition(w: Seq<char>, n: Seq<char>)
    ensures
        is_exact(w, n) ==> n.is_prefix_of(w),
        n.is_prefix_of(w) ==> seq_contains(w, n),
        !(is_exact(w, n) && is_prefix_hit(w, n)),
        !(is_exact(w, n) && is_contains_hit(w, n)),
        !(is_prefix_hit(w, n) && is_contains_hit(w, n)),
{
    if is_exact(w, n) {
        assert(w.subrange(0, n.len() as int) =~= n);
        assert(n.is_prefix_of(w));
    }
    if n.is_prefix_of(w) {
        assert(w.subrange(0, n.len() as int) == n);
        assert(contains_at(w, n, 0));
    }
}

/// A contained needle never exceeds the word.
proof fn lemma_contains_len(w: Seq<char>, n: Seq<char>)
    ensures
        seq_contains(w, n) ==> n.len() <= w.len(),
{
    if seq_contains(w, n) {
        let k = choose|k: int| contains_at(w, n, k);
        assert(k + n.len() <= w.len());
    }
}

/// How the tiers of a query relate to the tiers of a proper prefix of it:
/// every exact or prefix match of the longer needle is a prefix match of the
/// shorter one; every substring match of the longer needle still contains
/// the shorter one; and the shorter needle's own exact match is too short to
/// match the longer needle at all.
pub proof fn lemma_tier_refinement(n1: Seq<char>, n2: Seq<char>)
    requires
        n1.len() > 0,
        n1.len() < n2.len(),
        n1.is_prefix_of(n2),
    ensures
        forall|w: Seq<char>| is_exact(w, n2) ==> is_prefix_hit(w, n1),
        forall|w: Seq<char>| is_prefix_hit(w, n2) ==> is_prefix_hit(w, n1),
        forall|w: Seq<char>|
            is_contains_hit(w, n2) ==> (is_prefix_hit(w, n1) || is_contains_hit(w, n1)),
        forall|w: Seq<char>|
            is_exact(w, n1) ==> !(is_exact(w, n2) || is_prefix_hit(w, n2) || is_contains_hit(
                w,
                n2,
            )),
        forall|w: Seq<char>|
            is_contains_hit(w, n1) ==> !(is_exact(w, n2) || is_prefix_hit(w, n2)),
{
    assert forall|w: Seq<char>| is_exact(w, n2) implies is_prefix_hit(w, n1) by {
        assert(w.subrange(0, n1.len() as int) =~= n1);
        assert(w.len() > n1.len());
    }
    assert forall|w: Seq<char>| is_prefix_hit(w, n2) implies is_prefix_hit(w, n1) by {
        assert(w.subrange(0, n2.len() as int) == n2);
        assert(w.subrange(0, n1.len() as int) =~= n1);
        assert(w.len() > n1.len());
    }
    assert forall|w: Seq<char>| is_contains_hit(w, n2) implies (is_prefix_hit(w, n1)
        || is_contains_hit(w, n1)) by {
        let k = choose|k: int| contains_at(w, n2, k);
        assert(w.subrange(k, k + n2.len()) == n2);
        assert(w.subrange(k, k + n1.len()) =~= n1);
        assert(contains_at(w, n1, k));
        lemma_contains_len(w, n2);
        if n1.is_prefix_of(w) {
            assert(w.len() >= n2.len() > n1.len());
        }
    }
    assert forall|w: Seq<char>| is_exact(w, n1) implies !(is_exact(w, n2) || is_prefix_hit(
        w,
        n2,
    ) || is_contains_hit(w, n2)) by {
        lemma_contains_len(w, n2);
        if n2.is_prefix_of(w) {
            assert(n2.len() <= w.len());
        }
    }
    assert forall|w: Seq<char>| is_contains_hit(w, n1) implies !(is_exact(w, n2)
        || is_prefix_hit(w, n2)) by {
        if n2.is_prefix_of(w) {
            assert(w.subrange(0, n2.len() as int) == n2);
            assert(w.subrange(0, n1.len() as int) =~= n1);
        }
        if is_exact(w, n2) {
            assert(w.subrange(0, n2.len() as int) =~= n2);
            assert(w.subrange(0, n1.len() as int) =~= n1);
        }
    }
}

// ----------------------------------------------------------------------------
// The partition law of a single search (tiers are disjoint, no duplicates).
// ----------------------------------------------------------------------------

/// A filter of a duplicate-free sequence is duplicate-free.
proof fn lemma_filter_no_dup<A>(s: Seq<A>, p: spec_fn(A) -> bool)
    requires
        s.no_duplicates(),
    ensures
        s.filter(p).no_duplicates(),
    decreases s.len(),
{
    if s.len() > 0 {
        let d = s.drop_last();
        let e = s.last();
        assert(d.no_duplicates());
        lemma_filter_no_dup(d, p);
        d.lemma_filter_push(e, p);
        assert(d.push(e) =~= s);
        if p(e) {
            assert(!d.contains(e));
            if d.filter(p).contains(e) {
                d.lemma_filter_contains_rev(p, e);
            }
            let out = d.filter(p).push(e);
            assert forall|i: int, j: int|
                0 <= i < out.len() && 0 <= j < out.len() && i != j implies out[i] != out[j] by {
                if i < out.len() - 1 && j < out.len() - 1 {
                    assert(out[i] == d.filter(p)[i] && out[j] == d.filter(p)[j]);
                } else if j == out.len() - 1 {
                    assert(out[j] == e && out[i] == d.filter(p)[i]);
                    assert(d.filter(p).contains(d.filter(p)[i]));
                } else {
                    assert(out[i] == e && out[j] == d.filter(p)[j]);
                    assert(d.filter(p).contains(d.filter(p)[j]));
                }
            }
        }
    }
}

/// The whole-corpus scan order has no duplicates.
pub proof fn lemma_full_range_no_dup(n: nat)
    requires
        n <= usize::MAX,
    ensures
        full_range(n).no_duplicates(),
{
    assert forall|i: int, j: int|
        0 <= i < full_range(n).len() && 0 <= j < full_range(n).len() && i != j implies full_range(
        n,
    )[i] != full_range(n)[j] by {
        assert(full_range(n)[i] == i as usize);
        assert(full_range(n)[j] == j as usize);
    }
}

/// The partition law: over a duplicate-free candidate list, the three tiers
/// of a search result are pairwise disjoint and the merged result holds no
/// index twice.
pub proof fn lemma_search_partition(words: Seq<Seq<char>>, cand: Seq<usize>, n: Seq<char>)
    requires
        cand.no_duplicates(),
    ensures
        ({
            let e = cand.filter(exact_pred(words, n));
            let p = cand.filter(prefix_pred(words, n));
            let c = cand.filter(contains_pred(words, n));
            &&& forall|x: usize| !(e.contains(x) && p.contains(x))
            &&& forall|x: usize| !(e.contains(x) && c.contains(x))
            &&& forall|x: usize| !(p.contains(x) && c.contains(x))
            &&& ranked(words, cand, n).no_duplicates()
        }),
{
    broadcast use vstd::seq_lib::group_filter_ensures;

    let e = cand.filter(exact_pred(words, n));
    let p = cand.filter(prefix_pred(words, n));
    let c = cand.filter(contains_pred(words, n));
    lemma_filter_no_dup(cand, exact_pred(words, n));
    lemma_filter_no_dup(cand, prefix_pred(words, n));
    lemma_filter_no_dup(cand, contains_pred(words, n));
    assert forall|x: usize| !(e.contains(x) && p.contains(x)) by {
        if e.contains(x) && p.contains(x) {
            let i = choose|i: int| 0 <= i < e.len() && e[i] == x;
            let j = choose|j: int| 0 <= j < p.len() && p[j] == x;
            assert(exact_pred(words, n)(x));
            assert(prefix_pred(words, n)(x));
            lemma_tier_partition(words[x as int], n);
        }
    }
    assert forall|x: usize| !(e.contains(x) && c.contains(x)) by {
        if e.contains(x) && c.contains(x) {
            let i = choose|i: int| 0 <= i < e.len() && e[i] == x;
            let j = choose|j: int| 0 <= j < c.len() && c[j] == x;
            assert(exact_pred(words, n)(x));
            assert(contains_pred(words, n)(x));
            lemma_tier_partition(words[x as int], n);
        }
    }
    assert forall|x: usize| !(p.contains(x) && c.contains(x)) by {
        if p.contains(x) && c.contains(x) {
            let i = choose|i: int| 0 <= i < p.len() && p[i] == x;
            let j = choose|j: int| 0 <= j < c.len() && c[j] == x;
            assert(prefix_pred(words, n)(x));
            assert(contains_pred(words, n)(x));
            lemma_tier_partition(words[x as int], n);
        }
    }
    let out = ranked(words, cand, n);
    assert forall|i: int, j: int|
        0 <= i < out.len() && 0 <= j < out.len() && i != j implies out[i] != out[j] by {
        assert(out == e + p + c);
        if out[i] == out[j] {
            let x = out[i];
            if i < e.len() {
                assert(e[i] == x && e.contains(x));
            } else if i < e.len() + p.len() {
                assert(p[i - e.len()] == x && p.contains(x));
            } else {
                assert(c[i - e.len() - p.len()] == x && c.contains(x));
            }
            if j < e.len() {
                assert(e[j] == x && e.contains(x));
            } else if j < e.len() + p.len() {
                assert(p[j - e.len()] == x && p.contains(x));
            } else {
                assert(c[j - e.len() - p.len()] == x && c.contains(x));
            }
        }
    }
}

// ----------------------------------------------------------------------------
// Filter algebra.
// ----------------------------------------------------------------------------

/// Both tests at once.
pub open spec fn pred_and<A>(p: spec_fn(A) -> bool, q: spec_fn(A) -> bool) -> spec_fn(A) -> bool {
    |x: A| p(x) && q(x)
}

/// Filters by tests that agree everywhere are equal.
proof fn lemma_filter_congruent<A>(s: Seq<A>, p: spec_fn(A) -> bool, q: spec_fn(A) -> bool)
    requires
        forall|x: A| #[trigger] p(x) <==> #[trigger] q(x),
    ensures
        s.filter(p) == s.filter(q),
    decreases s.len(),
{
    if s.len() > 0 {
        let d = s.drop_last();
        let e = s.last();
        lemma_filter_congruent(d, p, q);
        d.lemma_filter_push(e, p);
        d.lemma_filter_push(e, q);
        assert(d.push(e) =~= s);
    }
}

/// Filtering twice filters by the conjunction.
proof fn lemma_filter_filter<A>(s: Seq<A>, q: spec_fn(A) -> bool, p: spec_fn(A) -> bool)
    ensures
        s.filter(q).filter(p) == s.filter(pred_and(q, p)),
    decreases s.len(),
{
    if s.len() > 0 {
        let d = s.drop_last();
        let e = s.last();
        lemma_filter_filter(d, q, p);
        d.lemma_filter_push(e, q);
        d.lemma_filter_push(e, pred_and(q, p));
        d.filter(q).lemma_filter_push(e, p);
        assert(d.push(e) =~= s);
    }
}

/// A filter by a test that fails on every element of `s` is empty.
proof fn lemma_filter_none<A>(s: Seq<A>, p: spec_fn(A) -> bool)
    requires
        forall|i: int| 0 <= i < s.len() ==> !p(#[trigger] s[i]),
    ensures
        s.filter(p) == Seq::<A>::empty(),
{
    assert(s.all(|x: A| !p(x)));
    s.lemma_all_neg_filter_empty(p);
    assert(s.filter(p) =~= Seq::<A>::empty());
}

/// Pushing onto the left part of a concatenation inserts into its multiset.
proof fn lemma_push_add_multiset<A>(a: Seq<A>, b: Seq<A>, e: A)
    ensures
        (a.push(e) + b).to_multiset() == (a + b).to_multiset().insert(e),
{
    lemma_multiset_commutative(a.push(e), b);
    lemma_multiset_commutative(a, b);
    assert((a.push(e) + b).to_multiset() =~= (a + b).to_multiset().insert(e));
}

/// Pushing onto the right part of a concatenation inserts into its multiset.
proof fn lemma_add_push_multiset<A>(a: Seq<A>, b: Seq<A>, e: A)
    ensures
        (a + b.push(e)).to_multiset() == (a + b).to_multiset().insert(e),
{
    lemma_multiset_commutative(a, b.push(e));
    lemma_multiset_commutative(a, b);
    assert((a + b.push(e)).to_multiset() =~= (a + b).to_multiset().insert(e));
}

/// Splitting a filter along two mutually exclusive tests that cover it keeps
/// the multiset of results.
proof fn lemma_filter_split_multiset<A>(
    s: Seq<A>,
    p: spec_fn(A) -> bool,
    q: spec_fn(A) -> bool,
    r: spec_fn(A) -> bool,
)
    requires
        forall|x: A| #[trigger] p(x) ==> q(x) || r(x),
        forall|x: A| !(#[trigger] q(x) && #[trigger] r(x)),
    ensures
        (s.filter(pred_and(q, p)) + s.filter(pred_and(r, p))).to_multiset() == s.filter(
            p,
        ).to_multiset(),
    decreases s.len(),
{
    if s.len() == 0 {
        broadcast use vstd::seq_lib::group_filter_ensures;

        assert(s.filter(pred_and(q, p)) =~= Seq::<A>::empty());
        assert(s.filter(pred_and(r, p)) =~= Seq::<A>::empty());
        assert(s.filter(p) =~= Seq::<A>::empty());
        assert(s.filter(pred_and(q, p)) + s.filter(pred_and(r, p)) =~= s.filter(p));
    } else {
        let d = s.drop_last();
        let e = s.last();
        lemma_filter_split_multiset(d, p, q, r);
        d.lemma_filter_push(e, p);
        d.lemma_filter_push(e, pred_and(q, p));
        d.lemma_filter_push(e, pred_and(r, p));
        assert(d.push(e) =~= s);
        let fq = d.filter(pred_and(q, p));
        let fr = d.filter(pred_and(r, p));
        let fp = d.filter(p);
        if p(e) && q(e) {
            lemma_push_add_multiset(fq, fr, e);
        } else if p(e) && r(e) {
            lemma_add_push_multiset(fq, fr, e);
        }
    }
}

// ----------------------------------------------------------------------------
// Prefix narrowing: rescanning a cached prefix result is as good as a full
// rescan.
// ----------------------------------------------------------------------------

/// Narrowing the scan of `n2` to the tiers of a proper prefix `n1` keeps the
/// exact and prefix tiers exactly — same indices, same order — and keeps the
/// substring tier up to order: the narrowed result and a full rescan hold
/// the same indices.
pub proof fn lemma_prefix_narrowing(words: Seq<Seq<char>>, n1: Seq<char>, n2: Seq<char>)
    requires
        n1.len() > 0,
        n1.len() < n2.len(),
        n1.is_prefix_of(n2),
    ensures
        ({
            let full = full_range(words.len());
            let cand = ranked(words, full, n1);
            &&& cand.filter(exact_pred(words, n2)) == full.filter(exact_pred(words, n2))
            &&& cand.filter(prefix_pred(words, n2)) == full.filter(prefix_pred(words, n2))
            &&& ranked(words, cand, n2).to_multiset() == ranked(words, full, n2).to_multiset()
        }),
{
    broadcast use vstd::seq_lib::group_filter_ensures;

    lemma_tier_refinement(n1, n2);
    let full = full_range(words.len());
    let ex1 = exact_pred(words, n1);
    let pf1 = prefix_pred(words, n1);
    let ct1 = contains_pred(words, n1);
    let ex2 = exact_pred(words, n2);
    let pf2 = prefix_pred(words, n2);
    let ct2 = contains_pred(words, n2);
    let e1 = full.filter(ex1);
    let p1 = full.filter(pf1);
    let c1 = full.filter(ct1);
    let cand = ranked(words, full, n1);
    assert(cand == e1 + p1 + c1);

    // Index-level versions of the tier refinement facts.
    assert forall|x: usize| #[trigger] ex2(x) implies pf1(x) by {
        assert(is_exact(words[x as int], n2) ==> is_prefix_hit(words[x as int], n1));
    }
    assert forall|x: usize| #[trigger] pf2(x) implies pf1(x) by {
        assert(is_prefix_hit(words[x as int], n2) ==> is_prefix_hit(words[x as int], n1));
    }
    assert forall|x: usize| #[trigger] ct2(x) implies pf1(x) || ct1(x) by {
        assert(is_contains_hit(words[x as int], n2) ==> (is_prefix_hit(words[x as int], n1)
            || is_contains_hit(words[x as int], n1)));
    }
    assert forall|x: usize| !(#[trigger] pf1(x) && #[trigger] ct1(x)) by {
        lemma_tier_partition(words[x as int], n1);
    }
    assert forall|x: usize| #[trigger] ex1(x) implies !ex2(x) && !pf2(x) && !ct2(x) by {
        assert(is_exact(words[x as int], n1) ==> !(is_exact(words[x as int], n2)
            || is_prefix_hit(words[x as int], n2) || is_contains_hit(words[x as int], n2)));
    }
    assert forall|x: usize| #[trigger] ct1(x) implies !ex2(x) && !pf2(x) by {
        assert(is_contains_hit(words[x as int], n1) ==> !(is_exact(words[x as int], n2)
            || is_prefix_hit(words[x as int], n2)));
    }

    // The filter of the concatenation splits into the three parts.
    Seq::filter_distributes_over_add(e1 + p1, c1, ex2);
    Seq::filter_distributes_over_add(e1, p1, ex2);
    Seq::filter_distributes_over_add(e1 + p1, c1, pf2);
    Seq::filter_distributes_over_add(e1, p1, pf2);
    Seq::filter_distributes_over_add(e1 + p1, c1, ct2);
    Seq::filter_distributes_over_add(e1, p1, ct2);
    assert((e1 + p1) + c1 == cand);

    // Exact tier: only the prefix part of the candidates contributes, and it
    // contributes the full scan's exact tier.
    assert(forall|i: int| 0 <= i < e1.len() ==> ex1(#[trigger] e1[i]));
    assert(forall|i: int| 0 <= i < c1.len() ==> ct1(#[trigger] c1[i]));
    lemma_filter_none(e1, ex2);
    lemma_filter_none(c1, ex2);
    lemma_filter_filter(full, pf1, ex2);
    lemma_filter_congruent(full, pred_and(pf1, ex2), ex2);
    assert(p1.filter(ex2) == full.filter(ex2));
    assert(cand.filter(ex2) =~= full.filter(ex2));

    // Prefix tier: the same.
    lemma_filter_none(e1, pf2);
    lemma_filter_none(c1, pf2);
    lemma_filter_filter(full, pf1, pf2);
    lemma_filter_congruent(full, pred_and(pf1, pf2), pf2);
    assert(p1.filter(pf2) == full.filter(pf2));
    assert(cand.filter(pf2) =~= full.filter(pf2));

    // Substring tier: both the prefix and the substring parts contribute;
    // together they are the full scan's substring tier, up to order.
    lemma_filter_none(e1, ct2);
    lemma_filter_filter(full, pf1, ct2);
    lemma_filter_filter(full, ct1, ct2);
    lemma_filter_split_multiset(full, ct2, pf1, ct1);
    assert(cand.filter(ct2) =~= p1.filter(ct2) + c1.filter(ct2));
    assert((p1.filter(ct2) + c1.filter(ct2)).to_multiset() == full.filter(ct2).to_multiset());

    // Assemble the three tiers.
    let narrowed = ranked(words, cand, n2);
    let fresh = ranked(words, full, n2);
    assert(narrowed == cand.filter(ex2) + cand.filter(pf2) + cand.filter(ct2));
    assert(fresh == full.filter(ex2) + full.filter(pf2) + full.filter(ct2));
    lemma_multiset_commutative(cand.filter(ex2) + cand.filter(pf2), cand.filter(ct2));
    lemma_multiset_commutative(cand.filter(ex2), cand.filter(pf2));
    lemma_multiset_commutative(full.filter(ex2) + full.filter(pf2), full.filter(ct2));
    lemma_multiset_commutative(full.filter(ex2), full.filter(pf2));
    assert(narrowed.to_multiset() =~= fresh.to_multiset());
}

// ----------------------------------------------------------------------------
// Soundness of every reachable cache: a cached value may come from a chain
// of narrowed rescans, but it always lists the full scan's exact tier, then
// its prefix tier, then some ordering of its substring tier.
// ----------------------------------------------------------------------------

/// What a result list cached under needle `k` always looks like.
pub open spec fn value_ok(words: Seq<Seq<char>>, k: Seq<char>, v: Seq<usize>) -> bool {
    let full = full_range(words.len());
    let a = full.filter(exact_pred(words, k));
    let b = full.filter(prefix_pred(words, k));
    let c = full.filter(contains_pred(words, k));
    &&& v.len() == a.len() + b.len() + c.len()
    &&& v.subrange(0, (a.len() + b.len()) as int) == a + b
    &&& v.skip((a.len() + b.len()) as int).to_multiset() == c.to_multiset()
}

/// Every pair of the cache is sound for this corpus.
pub open spec fn cache_sound(m: Seq<(Seq<char>, Seq<usize>)>, words: Seq<Seq<char>>) -> bool {
    forall|i: int| 0 <= i < m.len() ==> value_ok(words, (#[trigger] m[i]).0, m[i].1)
}

/// A full scan's own result is sound for its needle.
proof fn lemma_full_scan_ok(words: Seq<Seq<char>>, n: Seq<char>)
    ensures
        value_ok(words, n, ranked(words, full_range(words.len()), n)),
{
    let full = full_range(words.len());
    let a = full.filter(exact_pred(words, n));
    let b = full.filter(prefix_pred(words, n));
    let c = full.filter(contains_pred(words, n));
    let v = ranked(words, full, n);
    assert(v == a + b + c);
    assert(v.subrange(0, (a.len() + b.len()) as int) =~= a + b);
    assert(v.skip((a.len() + b.len()) as int) =~= c);
}

/// A sound value holds exactly the indices of a full scan, as a multiset.
proof fn lemma_value_ok_multiset(words: Seq<Seq<char>>, k: Seq<char>, v: Seq<usize>)
    requires
        value_ok(words, k, v),
    ensures
        v.to_multiset() == ranked(words, full_range(words.len()), k).to_multiset(),
{
    let full = full_range(words.len());
    let a = full.filter(exact_pred(words, k));
    let b = full.filter(prefix_pred(words, k));
    let c = full.filter(contains_pred(words, k));
    let ab = a.len() + b.len();
    assert(v =~= v.subrange(0, ab as int) + v.skip(ab as int));
    lemma_multiset_commutative(v.subrange(0, ab as int), v.skip(ab as int));
    lemma_multiset_commutative(a + b, c);
    assert(ranked(words, full, k) == (a + b) + c);
    assert(v.to_multiset() =~= ranked(words, full, k).to_multiset());
}

/// Filtering a sequence is filtering its multiset.
proof fn lemma_seq_filter_to_multiset<A>(s: Seq<A>, p: spec_fn(A) -> bool)
    ensures
        s.filter(p).to_multiset() == s.to_multiset().filter(p),
    decreases s.len(),
{
    if s.len() == 0 {
        broadcast use vstd::seq_lib::group_filter_ensures;

        assert(s.filter(p) =~= Seq::<A>::empty());
        assert(s.filter(p).to_multiset() =~= s.to_multiset().filter(p));
    } else {
        let d = s.drop_last();
        let e = s.last();
        lemma_seq_filter_to_multiset(d, p);
        d.lemma_filter_push(e, p);
        assert(d.push(e) =~= s);
        assert(s.to_multiset() == d.to_multiset().insert(e));
        if p(e) {
            assert(d.filter(p).push(e).to_multiset() == d.filter(p).to_multiset().insert(e));
        }
        assert(s.filter(p).to_multiset() =~= s.to_multiset().filter(p));
    }
}

/// Sequences with one multiset have equal filters, as multisets.
proof fn lemma_filter_respects_multiset<A>(s1: Seq<A>, s2: Seq<A>, p: spec_fn(A) -> bool)
    requires
        s1.to_multiset() == s2.to_multiset(),
    ensures
        s1.filter(p).to_multiset() == s2.filter(p).to_multiset(),
{
    lemma_seq_filter_to_multiset(s1, p);
    lemma_seq_filter_to_multiset(s2, p);
}

/// Narrowing from any sound candidate list: rescanning a sound cached value
/// of a proper prefix gives a sound value for the longer needle, with
/// exactly the indices of a full rescan.
proof fn lemma_narrow_sound(
    words: Seq<Seq<char>>,
    n1: Seq<char>,
    n2: Seq<char>,
    cand: Seq<usize>,
)
    requires
        n1.len() > 0,
        n1.len() < n2.len(),
        n1.is_prefix_of(n2),
        value_ok(words, n1, cand),
    ensures
        value_ok(words, n2, ranked(words, cand, n2)),
        ranked(words, cand, n2).to_multiset() == ranked(
            words,
            full_range(words.len()),
            n2,
        ).to_multiset(),
{
    broadcast use vstd::seq_lib::group_filter_ensures;

    lemma_tier_refinement(n1, n2);
    let full = full_range(words.len());
    let ex1 = exact_pred(words, n1);
    let pf1 = prefix_pred(words, n1);
    let ct1 = contains_pred(words, n1);
    let ex2 = exact_pred(words, n2);
    let pf2 = prefix_pred(words, n2);
    let ct2 = contains_pred(words, n2);
    let a1 = full.filter(ex1);
    let b1 = full.filter(pf1);
    let c1 = full.filter(ct1);
    let ab = a1.len() + b1.len();
    let d = cand.skip(ab as int);
    assert(cand =~= (a1 + b1) + d);
    assert(d.to_multiset() == c1.to_multiset());

    // Index-level refinement facts.
    assert forall|x: usize| #[trigger] ex2(x) implies pf1(x) by {
        assert(is_exact(words[x as int], n2) ==> is_prefix_hit(words[x as int], n1));
    }
    assert forall|x: usize| #[trigger] pf2(x) implies pf1(x) by {
        assert(is_prefix_hit(words[x as int], n2) ==> is_prefix_hit(words[x as int], n1));
    }
    assert forall|x: usize| #[trigger] ct2(x) implies pf1(x) || ct1(x) by {
        assert(is_contains_hit(words[x as int], n2) ==> (is_prefix_hit(words[x as int], n1)
            || is_contains_hit(words[x as int], n1)));
    }
    assert forall|x: usize| !(#[trigger] pf1(x) && #[trigger] ct1(x)) by {
        lemma_tier_partition(words[x as int], n1);
    }
    assert forall|x: usize| #[trigger] ex1(x) implies !ex2(x) && !pf2(x) && !ct2(x) by {
        assert(is_exact(words[x as int], n1) ==> !(is_exact(words[x as int], n2)
            || is_prefix_hit(words[x as int], n2) || is_contains_hit(words[x as int], n2)));
    }
    assert forall|x: usize| #[trigger] ct1(x) implies !ex2(x) && !pf2(x) by {
        assert(is_contains_hit(words[x as int], n1) ==> !(is_exact(words[x as int], n2)
            || is_prefix_hit(words[x as int], n2)));
    }

    // Every element of the tail satisfies the substring tier of the prefix.
    assert forall|i: int| 0 <= i < d.len() implies ct1(#[trigger] d[i]) by {
        vstd::seq_lib::to_multiset_contains(d, d[i]);
        vstd::seq_lib::to_multiset_contains(c1, d[i]);
        assert(d.contains(d[i]));
        assert(c1.contains(d[i]));
        let j = choose|j: int| 0 <= j < c1.len() && c1[j] == d[i];
        assert(ct1(c1[j]));
    }

    // Split each tier filter over the three segments of the candidates.
    Seq::filter_distributes_over_add(a1 + b1, d, ex2);
    Seq::filter_distributes_over_add(a1, b1, ex2);
    Seq::filter_distributes_over_add(a1 + b1, d, pf2);
    Seq::filter_distributes_over_add(a1, b1, pf2);
    Seq::filter_distributes_over_add(a1 + b1, d, ct2);
    Seq::filter_distributes_over_add(a1, b1, ct2);

    assert(forall|i: int| 0 <= i < a1.len() ==> ex1(#[trigger] a1[i]));

    // Exact tier.
    lemma_filter_none(a1, ex2);
    lemma_filter_none(d, ex2);
    lemma_filter_filter(full, pf1, ex2);
    lemma_filter_congruent(full, pred_and(pf1, ex2), ex2);
    assert(b1.filter(ex2) == full.filter(ex2));
    assert(cand.filter(ex2) =~= full.filter(ex2));

    // Prefix tier.
    lemma_filter_none(a1, pf2);
    lemma_filter_none(d, pf2);
    lemma_filter_filter(full, pf1, pf2);
    lemma_filter_congruent(full, pred_and(pf1, pf2), pf2);
    assert(b1.filter(pf2) == full.filter(pf2));
    assert(cand.filter(pf2) =~= full.filter(pf2));

    // Substring tier, up to order.
    lemma_filter_none(a1, ct2);
    lemma_filter_filter(full, pf1, ct2);
    lemma_filter_filter(full, ct1, ct2);
    lemma_filter_respects_multiset(d, c1, ct2);
    assert(d.filter(ct2).to_multiset() == full.filter(pred_and(ct1, ct2)).to_multiset()) by {
        lemma_filter_filter(full, ct1, ct2);
        assert(c1.filter(ct2) == full.filter(pred_and(ct1, ct2)));
    }
    lemma_filter_split_multiset(full, ct2, pf1, ct1);
    assert(cand.filter(ct2) =~= b1.filter(ct2) + d.filter(ct2));
    assert(cand.filter(ct2).to_multiset() == full.filter(ct2).to_multiset()) by {
        lemma_multiset_commutative(b1.filter(ct2), d.filter(ct2));
        lemma_multiset_commutative(
            full.filter(pred_and(pf1, ct2)),
            full.filter(pred_and(ct1, ct2)),
        );
        assert(b1.filter(ct2) == full.filter(pred_and(pf1, ct2)));
        assert((full.filter(pred_and(pf1, ct2)) + full.filter(
            pred_and(ct1, ct2),
        )).to_multiset() == full.filter(ct2).to_multiset());
    }

    // The narrowed result is sound for the longer needle.
    let out = ranked(words, cand, n2);
    let a2 = full.filter(ex2);
    let b2 = full.filter(pf2);
    let c2 = full.filter(ct2);
    assert(out == cand.filter(ex2) + cand.filter(pf2) + cand.filter(ct2));
    assert(out.subrange(0, (a2.len() + b2.len()) as int) =~= a2 + b2);
    assert(out.skip((a2.len() + b2.len()) as int) =~= cand.filter(ct2));
    assert(out.len() == a2.len() + b2.len() + c2.len()) by {
        vstd::seq_lib::to_multiset_len(cand.filter(ct2));
        vstd::seq_lib::to_multiset_len(c2);
    }

    // And it holds exactly the full rescan's indices.
    lemma_value_ok_multiset(words, n2, out);
    lemma_full_scan_ok(words, n2);
    lemma_value_ok_multiset(words, n2, ranked(words, full, n2));
}

/// Storing a sound value keeps every cached value sound.
proof fn lemma_store_model_sound(
    m: Seq<(Seq<char>, Seq<usize>)>,
    words: Seq<Seq<char>>,
    k: Seq<char>,
    v: Seq<usize>,
    cap: nat,
)
    requires
        cache_sound(m, words),
        value_ok(words, k, v),
    ensures
        cache_sound(store_model(m, k, v, cap), words),
{
    let m1 = store_model(m, k, v, cap);
    assert forall|i: int| 0 <= i < m1.len() implies value_ok(words, m1[i].0, m1[i].1) by {
        if has_key(m, k) {
            if i != key_index(m, k) {
                assert(m1[i] == m[i]);
            }
        } else {
            let pushed = m.push((k, v));
            if pushed.len() <= cap {
                if i < m.len() {
                    assert(m1[i] == m[i]);
                }
            } else {
                let off = pushed.len() - cap;
                assert(m1[i] == pushed[i + off]);
                if i + off < m.len() {
                    assert(pushed[i + off] == m[i + off]);
                }
            }
        }
    }
}

/// A sound cached value lists each matching index exactly once: duplicates
/// are never present in a cached result.
pub proof fn lemma_value_ok_no_duplicates(words: Seq<Seq<char>>, k: Seq<char>, v: Seq<usize>)
    requires
        value_ok(words, k, v),
        words.len() <= usize::MAX,
    ensures
        v.no_duplicates(),
{
    broadcast use vstd::seq_lib::group_filter_ensures;

    let full = full_range(words.len());
    let ex = exact_pred(words, k);
    let pf = prefix_pred(words, k);
    let ct = contains_pred(words, k);
    let a = full.filter(ex);
    let b = full.filter(pf);
    let c = full.filter(ct);
    lemma_full_range_no_dup(words.len());
    lemma_filter_no_dup(full, ex);
    lemma_filter_no_dup(full, pf);
    lemma_filter_no_dup(full, ct);
    let ab = (a.len() + b.len()) as int;
    let d = v.skip(ab);
    c.lemma_multiset_has_no_duplicates();
    d.lemma_multiset_has_no_duplicates_conv();
    assert forall|i: int| 0 <= i < d.len() implies ct(#[trigger] d[i]) by {
        vstd::seq_lib::to_multiset_contains(d, d[i]);
        vstd::seq_lib::to_multiset_contains(c, d[i]);
        assert(d.contains(d[i]));
        assert(c.contains(d[i]));
        let j = choose|j: int| 0 <= j < c.len() && c[j] == d[i];
        assert(ct(c[j]));
    }
    assert(v =~= (a + b) + d);
    assert forall|i: int, j: int|
        0 <= i < v.len() && 0 <= j < v.len() && i != j implies v[i] != v[j] by {
        if v[i] == v[j] {
            let x = v[i];
            assert(ex(x) || pf(x) || ct(x)) by {
                if i < a.len() {
                    assert(v[i] == a[i]);
                } else if i < ab {
                    assert(v[i] == b[i - a.len()]);
                } else {
                    assert(v[i] == d[i - ab]);
                }
            }
            lemma_tier_partition(words[x as int], k);
            // The two positions cannot sit in two different segments, since
            // the segments' tiers exclude each other; within one segment the
            // segment's own freedom from duplicates decides.
            if i < a.len() {
                assert(ex(a[i]));
                if j < a.len() {
                    assert(a[i] != a[j]);
                } else if j < ab {
                    assert(pf(b[j - a.len()]));
                } else {
                    assert(ct(d[j - ab]));
                }
            } else if i < ab {
                assert(pf(b[i - a.len()]));
                if j < a.len() {
                    assert(ex(a[j]));
                } else if j < ab {
                    assert(b[i - a.len()] != b[j - a.len()]);
                } else {
                    assert(ct(d[j - ab]));
                }
            } else {
                assert(ct(d[i - ab]));
                if j < a.len() {
                    assert(ex(a[j]));
                } else if j < ab {
                    assert(pf(b[j - a.len()]));
                } else {
                    assert(d[i - ab] != d[j - ab]);
                }
            }
        }
    }
}

/// The central law of the incremental search: on any sound cache — the empty
/// cache is sound, and every `query` keeps soundness — a query is answered
/// with exactly the indices a full rescan of the corpus would give, in some
/// tier-respecting order, however long the chain of cached prefixes it was
/// narrowed through.
pub proof fn lemma_query_sound_and_complete(
    m: Seq<(Seq<char>, Seq<usize>)>,
    words: Seq<Seq<char>>,
    n: Seq<char>,
    cap: nat,
)
    requires
        keys_distinct(m),
        cache_sound(m, words),
        n.len() > 0,
    ensures
        query_result_model(m, words, n).to_multiset() == ranked(
            words,
            full_range(words.len()),
            n,
        ).to_multiset(),
        value_ok(words, n, query_result_model(m, words, n)),
        cache_sound(query_cache_model(m, words, n, cap), words),
{
    let full = full_range(words.len());
    if has_key(m, n) {
        let i = key_index(m, n);
        assert(0 <= i < m.len() && m[i].0 == n);
        assert(value_ok(words, n, m[i].1));
        lemma_value_ok_multiset(words, n, value_of(m, n));
        lemma_full_scan_ok(words, n);
        lemma_value_ok_multiset(words, n, ranked(words, full, n));
    } else {
        let l = longest_cached_prefix_len(m, n, n.len() - 1);
        lemma_longest_prefix_bounds(m, n, n.len() - 1);
        let fresh = query_result_model(m, words, n);
        if l > 0 {
            let key = n.subrange(0, l);
            assert(has_key(m, key));
            let j = key_index(m, key);
            assert(0 <= j < m.len() && m[j].0 == key);
            assert(value_ok(words, key, m[j].1));
            assert(key.is_prefix_of(n));
            lemma_narrow_sound(words, key, n, value_of(m, key));
            assert(value_ok(words, n, fresh));
        } else {
            assert(fresh == ranked(words, full, n));
            lemma_full_scan_ok(words, n);
        }
        lemma_value_ok_multiset(words, n, fresh);
        lemma_full_scan_ok(words, n);
        lemma_value_ok_multiset(words, n, ranked(words, full, n));
        lemma_store_model_sound(m, words, n, fresh, cap);
    }
}

// ----------------------------------------------------------------------------
// The cache laws: idempotence and eviction.
// ----------------------------------------------------------------------------

/// Answering the same query twice in a row gives the same list both times,
/// and the second answer leaves the cache exactly as the first did.
pub proof fn lemma_query_idempotent(
    m: Seq<(Seq<char>, Seq<usize>)>,
    words: Seq<Seq<char>>,
    n: Seq<char>,
    cap: nat,
)
    requires
        keys_distinct(m),
        m.len() <= cap,
    ensures
        ({
            let m1 = query_cache_model(m, words, n, cap);
            &&& query_result_model(m1, words, n) == query_result_model(m, words, n)
            &&& query_cache_model(m1, words, n, cap) == m1
        }),
{
    let m1 = query_cache_model(m, words, n, cap);
    if n.len() == 0 || has_key(m, n) {
    } else {
        let v = query_result_model(m, words, n);
        if cap == 0 {
            assert(m =~= Seq::<(Seq<char>, Seq<usize>)>::empty());
            assert(m1 =~= m);
        } else {
            lemma_store_model_found(m, n, v, cap);
            assert(has_key(m1, n));
            assert(query_result_model(m1, words, n) == value_of(m1, n));
        }
    }
}

/// In a cache whose only key is the prefix `n2.subrange(0, l)`, the walk
/// down the proper prefixes of `n2` stops exactly at length `l`.
proof fn lemma_longest_prefix_single(
    m: Seq<(Seq<char>, Seq<usize>)>,
    n2: Seq<char>,
    l: int,
    k: int,
)
    requires
        m.len() == 1,
        m[0].0 == n2.subrange(0, l),
        0 < l <= k < n2.len(),
    ensures
        longest_cached_prefix_len(m, n2, k) == l,
    decreases k,
{
    if k > l {
        if has_key(m, n2.subrange(0, k)) {
            let i = choose|i: int| 0 <= i < m.len() && m[i].0 == n2.subrange(0, k);
            assert(i == 0);
            assert(n2.subrange(0, l).len() == n2.subrange(0, k).len());
            assert(false);
        }
        lemma_longest_prefix_single(m, n2, l, k - 1);
    } else {
        assert(has_key(m, n2.subrange(0, k))) by {
            assert(m[0].0 == n2.subrange(0, k));
        }
    }
}

/// Incremental completeness: answer `q` on an empty cache, then extend the
/// query to any `q + suffix`. The second answer — computed by rescanning only
/// the first answer's matches — holds exactly the indices a full rescan of
/// the corpus with the longer needle yields.
pub proof fn lemma_incremental_query_complete(
    words: Seq<Seq<char>>,
    n1: Seq<char>,
    n2: Seq<char>,
    cap: nat,
)
    requires
        n1.len() > 0,
        n1.len() < n2.len(),
        n1.is_prefix_of(n2),
        cap >= 1,
    ensures
        ({
            let m0 = Seq::<(Seq<char>, Seq<usize>)>::empty();
            let m1 = query_cache_model(m0, words, n1, cap);
            query_result_model(m1, words, n2).to_multiset() == ranked(
                words,
                full_range(words.len()),
                n2,
            ).to_multiset()
        }),
{
    let m0 = Seq::<(Seq<char>, Seq<usize>)>::empty();
    let full = full_range(words.len());
    assert(!has_key(m0, n1));
    lemma_longest_prefix_bounds(m0, n1, n1.len() - 1);
    assert(longest_cached_prefix_len(m0, n1, n1.len() - 1) == 0) by {
        let l = longest_cached_prefix_len(m0, n1, n1.len() - 1);
        if l > 0 {
            assert(has_key(m0, n1.subrange(0, l)));
        }
    }
    let r1 = query_result_model(m0, words, n1);
    assert(r1 == ranked(words, full, n1));
    let m1 = query_cache_model(m0, words, n1, cap);
    assert(m1 == store_model(m0, n1, r1, cap));
    assert(m1 =~= m0.push((n1, r1)));
    assert(m1.len() == 1 && m1[0].0 == n1 && m1[0].1 == r1);

    assert(!has_key(m1, n2)) by {
        if has_key(m1, n2) {
            let i = choose|i: int| 0 <= i < m1.len() && m1[i].0 == n2;
            assert(i == 0);
            assert(false);
        }
    }
    assert(n1 == n2.subrange(0, n1.len() as int));
    lemma_longest_prefix_single(m1, n2, n1.len() as int, n2.len() - 1);
    assert(keys_distinct(m1));
    crate::cache::lemma_key_at(m1, 0);
    assert(value_of(m1, n1) == r1);
    assert(candidate_scope(m1, words.len(), n2) == r1);
    assert(query_result_model(m1, words, n2) == ranked(words, r1, n2));
    lemma_prefix_narrowing(words, n1, n2);
}

/// The eviction discipline: a new key stored into a full cache evicts
/// exactly the oldest pair and nothing else; overwriting an existing key
/// never evicts and never reorders the queue.
pub proof fn lemma_eviction_policy<K, V>(m: Seq<(K, V)>, k: K, v: V, cap: nat)
    requires
        keys_distinct(m),
    ensures
        (!has_key(m, k) && m.len() == cap && cap >= 1) ==> store_model(m, k, v, cap)
            == m.subrange(1, m.len() as int).push((k, v)),
        has_key(m, k) ==> {
            let m1 = store_model(m, k, v, cap);
            &&& m1.len() == m.len()
            &&& forall|i: int| 0 <= i < m.len() ==> (#[trigger] m1[i]).0 == m[i].0
        },
{
    if !has_key(m, k) && m.len() == cap && cap >= 1 {
        assert(store_model(m, k, v, cap) =~= m.subrange(1, m.len() as int).push((k, v)));
    }
    if has_key(m, k) {
        let i = key_index(m, k);
        assert(0 <= i < m.len() && m[i].0 == k);
        let m1 = store_model(m, k, v, cap);
        assert forall|j: int| 0 <= j < m.len() implies (#[trigger] m1[j]).0 == m[j].0 by {
            if j != i {
                assert(m1[j] == m[j]);
            }
        }
    }
}

} // verus!
