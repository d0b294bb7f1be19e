//! The match engine and the query cache, exercised end to end.

use dict_search::cache::QueryResultCache;
use dict_search::dictionary::{entries_from_words, from_entries, DictionaryStore};

fn store_from_words(words: &[&str]) -> DictionaryStore {
    let owned: Vec<String> = words.iter().map(|w| w.to_string()).collect();
    let entries = entries_from_words(&owned, "test", 0);
    from_entries(entries, Vec::new()).unwrap()
}

#[test]
fn search_ranks_exact_prefix_contains() {
    // Sorted corpus: cat(0), category(1), scatter(2).
    let store = store_from_words(&["cat", "category", "scatter"]);
    assert_eq!(store.entries[0].word, "cat");
    assert_eq!(store.entries[1].word, "category");
    assert_eq!(store.entries[2].word, "scatter");
    let hits = store.search("cat", None);
    assert_eq!(hits, vec![0, 1, 2]);
}

#[test]
fn search_outranks_corpus_order() {
    // Sorted corpus: aaxcat(0), cat(1): the exact match comes first even
    // though the substring match sits earlier in the corpus.
    let store = store_from_words(&["aaxcat", "cat"]);
    let hits = store.search("cat", None);
    assert_eq!(hits, vec![1, 0]);
}

#[test]
fn search_empty_needle_is_empty() {
    let store = store_from_words(&["cat"]);
    assert_eq!(store.search("", None), Vec::<usize>::new());
}

#[test]
fn search_candidates_keep_given_order() {
    let store = store_from_words(&["ant", "anteater", "pants"]);
    // Scan candidates in the order handed in: pants(2) before ant(0).
    let hits = store.search("ant", Some(&[2, 0]));
    assert_eq!(hits, vec![0, 2]);
}

#[test]
fn narrowed_rescan_matches_example() {
    let store = store_from_words(&["cat", "category", "scatter"]);
    let first = store.search("cat", None);
    assert_eq!(first, vec![0, 1, 2]);
    let narrowed = store.search("cate", Some(&first));
    assert_eq!(narrowed, vec![1]);
}

#[test]
fn query_uses_cached_prefix_and_agrees_with_full_scan() {
    let store = store_from_words(&["cat", "category", "scatter"]);
    let mut cache = QueryResultCache::new(16);
    let short = cache.query(&store, "ca");
    assert_eq!(short, vec![0, 1, 2]);
    let narrowed = cache.query(&store, "cat");
    let fresh = store.search("cat", None);
    assert_eq!(narrowed, fresh);
}

#[test]
fn query_is_idempotent() {
    let store = store_from_words(&["cat", "category", "scatter"]);
    let mut cache = QueryResultCache::new(16);
    let first = cache.query(&store, "cat");
    let second = cache.query(&store, "cat");
    assert_eq!(first, second);
    assert_eq!(cache.len(), 1);
}

#[test]
fn query_normalizes_raw_text() {
    let store = store_from_words(&["cat", "category", "scatter"]);
    let mut cache = QueryResultCache::new(16);
    let hits = cache.query(&store, "  CaT  ");
    assert_eq!(hits, vec![0, 1, 2]);
    // The cache key is the normalized text.
    assert_eq!(cache.cached_result("cat"), Some(vec![0, 1, 2]));
}

#[test]
fn empty_and_whitespace_queries_touch_nothing() {
    let store = store_from_words(&["cat"]);
    let mut cache = QueryResultCache::new(16);
    assert_eq!(cache.query(&store, ""), Vec::<usize>::new());
    assert_eq!(cache.query(&store, "   \t  "), Vec::<usize>::new());
    assert_eq!(cache.len(), 0);
}

#[test]
fn prefix_reuse_respects_multibyte_boundaries() {
    // Lowercased CJK words; the prefix walk must cut at character
    // boundaries, not bytes.
    let store = store_from_words(&["你好", "你们好"]);
    let mut cache = QueryResultCache::new(16);
    let first = cache.query(&store, "你");
    assert_eq!(first.len(), 2);
    let narrowed = cache.query(&store, "你好");
    let fresh = store.search("你好", None);
    assert_eq!(narrowed, fresh);
    // The corpus sorts 你们好(0) before 你好(1); only 你好 matches exactly,
    // and 你们好 does not contain 你好 as a contiguous run.
    assert_eq!(narrowed, vec![1]);
}

#[test]
fn narrowed_rescan_may_reorder_the_substring_tier() {
    // Sorted corpus: 1ab(0), acab(1). For "a" the prefix match acab outranks
    // the substring match 1ab, so the cached candidates are [1, 0]. For "ab"
    // both are substring matches: the narrowed rescan keeps candidate order,
    // a fresh full scan keeps corpus order — same indices either way.
    let store = store_from_words(&["1ab", "acab"]);
    let mut cache = QueryResultCache::new(16);
    let first = cache.query(&store, "a");
    assert_eq!(first, vec![1, 0]);
    let narrowed = cache.query(&store, "ab");
    let fresh = store.search("ab", None);
    assert_eq!(narrowed, vec![1, 0]);
    assert_eq!(fresh, vec![0, 1]);
    let mut narrowed_sorted = narrowed.clone();
    narrowed_sorted.sort_unstable();
    let mut fresh_sorted = fresh.clone();
    fresh_sorted.sort_unstable();
    assert_eq!(narrowed_sorted, fresh_sorted);
}

#[test]
fn chained_prefix_reuse_stays_complete() {
    let store = store_from_words(&["1ab", "abacus", "abc", "acab", "cab"]);
    let mut cache = QueryResultCache::new(16);
    cache.query(&store, "a");
    cache.query(&store, "ab");
    // "aba" narrows the already-narrowed "ab" result.
    let mut chained = cache.query(&store, "aba");
    let mut fresh = store.search("aba", None);
    chained.sort_unstable();
    fresh.sort_unstable();
    assert_eq!(chained, fresh);
}

#[test]
fn cached_prefix_result_is_found_longest_first() {
    let store = store_from_words(&["cart", "carton", "cat"]);
    let mut cache = QueryResultCache::new(16);
    cache.query(&store, "c");
    cache.query(&store, "car");
    // For "cart" the longest cached proper prefix is "car", not "c".
    let via_prefix = cache.find_longest_prefix_result("cart");
    assert_eq!(via_prefix, Some(store.search("car", None)));
}
