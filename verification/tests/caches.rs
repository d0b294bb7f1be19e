//! Eviction discipline of the bounded caches, and the definition cache's
//! structural keying.

use dict_search::cache::{DefinitionCache, DefinitionKey, QueryResultCache};
use dict_search::dictionary::{entries_from_words, from_entries, DictError, DictionaryStore, Entry};

fn store_from_words(words: &[&str]) -> DictionaryStore {
    let owned: Vec<String> = words.iter().map(|w| w.to_string()).collect();
    let entries = entries_from_words(&owned, "test", 0);
    from_entries(entries, Vec::new()).unwrap()
}

fn entry(word: &str, dict_idx: usize, keyword_idx: usize) -> Entry {
    Entry {
        word: word.to_string(),
        word_lower: word.to_lowercase(),
        source: "test".to_string(),
        dict_idx,
        keyword_idx,
    }
}

#[test]
fn eviction_drops_exactly_the_oldest_key() {
    let store = store_from_words(&["ant", "bee", "cow"]);
    let mut cache = QueryResultCache::new(2);
    cache.query(&store, "ant");
    cache.query(&store, "bee");
    assert_eq!(cache.len(), 2);
    cache.query(&store, "cow");
    assert_eq!(cache.len(), 2);
    assert_eq!(cache.cached_result("ant"), None);
    assert!(cache.cached_result("bee").is_some());
    assert!(cache.cached_result("cow").is_some());
}

#[test]
fn overwrite_never_evicts_and_never_reorders() {
    let mut cache = QueryResultCache::new(2);
    cache.insert("ant".to_string(), vec![1]);
    cache.insert("bee".to_string(), vec![2]);
    // Overwrite the oldest key: value replaced, position kept.
    cache.insert("ant".to_string(), vec![9]);
    assert_eq!(cache.len(), 2);
    assert_eq!(cache.cached_result("ant"), Some(vec![9]));
    // A genuinely new key now evicts "ant": its overwrite did not refresh it.
    cache.insert("cow".to_string(), vec![3]);
    assert_eq!(cache.cached_result("ant"), None);
    assert_eq!(cache.cached_result("bee"), Some(vec![2]));
    assert_eq!(cache.cached_result("cow"), Some(vec![3]));
}

#[test]
fn cache_hits_do_not_refresh_position() {
    let store = store_from_words(&["ant", "bee", "cow"]);
    let mut cache = QueryResultCache::new(2);
    cache.query(&store, "ant");
    cache.query(&store, "bee");
    // A read of the oldest key is no protection from eviction.
    cache.query(&store, "ant");
    cache.query(&store, "cow");
    assert_eq!(cache.cached_result("ant"), None);
}

#[test]
fn definition_cache_shares_slot_by_structural_key() {
    // Two corpus entries addressing the same (source, keyword) item.
    let entries = vec![entry("color", 0, 5), entry("colour", 0, 5)];
    let store = from_entries(entries, Vec::new()).unwrap();
    let mut cache = DefinitionCache::new(4);

    // First request misses: the caller is asked to fetch.
    assert_eq!(cache.lookup(&store, 0), Ok(None));
    let text = cache.store_fetched(&store, 0, Some("a hue".to_string()));
    assert_eq!(text, Ok("a hue".to_string()));

    // The second entry hits the same slot: no fetch is asked for.
    assert_eq!(cache.lookup(&store, 1), Ok(Some("a hue".to_string())));
    assert_eq!(cache.len(), 1);
}

#[test]
fn definition_cache_rejects_bad_index() {
    let store = store_from_words(&["ant"]);
    let cache = DefinitionCache::new(4);
    assert_eq!(cache.lookup(&store, 7), Err(DictError::InvalidIndex));
}

#[test]
fn failed_resolution_leaves_cache_untouched() {
    let store = store_from_words(&["ant"]);
    let mut cache = DefinitionCache::new(4);
    assert_eq!(
        cache.store_fetched(&store, 0, None),
        Err(DictError::ResolutionFailed)
    );
    assert_eq!(cache.len(), 0);
}

#[test]
fn definition_cache_evicts_in_insertion_order() {
    let entries = vec![entry("a", 0, 0), entry("b", 0, 1), entry("c", 0, 2)];
    let store = from_entries(entries, Vec::new()).unwrap();
    let mut cache = DefinitionCache::new(2);
    // The corpus is sorted a(0), b(1), c(2).
    cache.store_fetched(&store, 0, Some("da".to_string())).unwrap();
    cache.store_fetched(&store, 1, Some("db".to_string())).unwrap();
    cache.store_fetched(&store, 2, Some("dc".to_string())).unwrap();
    assert_eq!(cache.len(), 2);
    let oldest = DefinitionKey::of_entry(&store.entries[0]);
    assert_eq!(cache.cached_definition(oldest), None);
    assert_eq!(cache.lookup(&store, 1), Ok(Some("db".to_string())));
    assert_eq!(cache.lookup(&store, 2), Ok(Some("dc".to_string())));
}

#[test]
fn definition_key_ignores_word_text() {
    let a = entry("color", 3, 9);
    let b = entry("colour", 3, 9);
    assert_eq!(DefinitionKey::of_entry(&a), DefinitionKey::of_entry(&b));
    let c = entry("color", 3, 8);
    assert!(DefinitionKey::of_entry(&a) != DefinitionKey::of_entry(&c));
}

#[test]
fn zero_capacity_cache_answers_but_retains_nothing() {
    let store = store_from_words(&["ant", "anteater"]);
    let mut cache = QueryResultCache::new(0);
    let hits = cache.query(&store, "ant");
    assert_eq!(hits, vec![0, 1]);
    assert_eq!(cache.len(), 0);
    assert_eq!(cache.cached_result("ant"), None);
}
