//! Corpus assembly: trimming, lowercasing, sorting, source records and the
//! projections read off an entry.

use dict_search::dictionary::{
    entries_from_words, from_entries, DictError, DictionarySource, DictionaryStore, RawSource,
};

fn raw(name: &str, words: &[&str], asset_dir: &str) -> RawSource {
    RawSource {
        name: name.to_string(),
        words: words.iter().map(|w| w.to_string()).collect(),
        asset_dir: asset_dir.to_string(),
    }
}

#[test]
fn words_are_trimmed_lowercased_and_empty_ones_dropped() {
    let words: Vec<String> = vec!["  CAT  ".to_string(), "".to_string(), "   ".to_string()];
    let entries = entries_from_words(&words, "dict", 0);
    assert_eq!(entries.len(), 1);
    assert_eq!(entries[0].word, "CAT");
    assert_eq!(entries[0].word_lower, "cat");
    assert_eq!(entries[0].source, "dict");
    assert_eq!(entries[0].dict_idx, 0);
    assert_eq!(entries[0].keyword_idx, 0);
}

#[test]
fn keyword_idx_points_into_the_raw_list() {
    let words: Vec<String> = vec!["".to_string(), "Ant".to_string(), " ".to_string(),
        "Bee".to_string()];
    let entries = entries_from_words(&words, "dict", 2);
    assert_eq!(entries.len(), 2);
    assert_eq!(entries[0].word, "Ant");
    assert_eq!(entries[0].keyword_idx, 1);
    assert_eq!(entries[1].word, "Bee");
    assert_eq!(entries[1].keyword_idx, 3);
    assert_eq!(entries[1].dict_idx, 2);
}

#[test]
fn corpus_is_sorted_by_lowercased_word() {
    let source = raw("dict", &["Zebra", "apple", "Mango"], ".");
    let store = DictionaryStore::from_sources(vec![source]).unwrap();
    let lowers: Vec<&str> = store.entries.iter().map(|e| e.word_lower.as_str()).collect();
    assert_eq!(lowers, vec!["apple", "mango", "zebra"]);
    assert_eq!(store.entries[0].word, "apple");
    assert_eq!(store.entries[2].word, "Zebra");
}

#[test]
fn load_fails_only_when_nothing_usable_remains() {
    assert!(matches!(
        DictionaryStore::from_sources(Vec::new()),
        Err(DictError::NoUsableEntries)
    ));
    let blank = raw("dict", &["   ", ""], ".");
    assert!(matches!(
        DictionaryStore::from_sources(vec![blank]),
        Err(DictError::NoUsableEntries)
    ));
    let one_usable = vec![raw("empty", &[" "], "."), raw("full", &["word"], ".")];
    let store = DictionaryStore::from_sources(one_usable).unwrap();
    assert_eq!(store.entries.len(), 1);
    assert_eq!(store.sources.len(), 2);
    assert_eq!(store.entries[0].dict_idx, 1);
}

#[test]
fn from_entries_refuses_an_empty_corpus() {
    assert!(matches!(
        from_entries(Vec::new(), Vec::new()),
        Err(DictError::NoUsableEntries)
    ));
}

#[test]
fn resolver_target_checks_every_index() {
    let source = raw("dict", &["ant", "bee"], "/assets");
    let store = DictionaryStore::from_sources(vec![source]).unwrap();
    assert_eq!(store.resolver_target(0), Ok((0, 0)));
    assert_eq!(store.resolver_target(1), Ok((0, 1)));
    assert_eq!(store.resolver_target(9), Err(DictError::InvalidIndex));

    // An entry pointing at a missing source cannot be resolved.
    let orphan = entries_from_words(&vec!["ant".to_string()], "dict", 3);
    let broken = from_entries(orphan, Vec::new()).unwrap();
    assert_eq!(broken.resolver_target(0), Err(DictError::ResolutionFailed));
}

#[test]
fn entry_summary_and_web_context_project_the_entry() {
    let source = raw("Oxford", &["Ant"], "/assets/oxford");
    let store = DictionaryStore::from_sources(vec![source]).unwrap();
    assert_eq!(
        store.entry_summary(0),
        Ok(("Ant".to_string(), "Oxford".to_string()))
    );
    assert_eq!(
        store.entry_web_context(0),
        Ok(("Ant".to_string(), "/assets/oxford".to_string()))
    );
    assert_eq!(store.entry_summary(5), Err(DictError::InvalidIndex));
    assert_eq!(store.entry_web_context(5), Err(DictError::InvalidIndex));
}

#[test]
fn equal_lowercased_words_keep_their_arrival_order() {
    let source = raw("dict", &["CAT", "cat", "Cat"], ".");
    let store = DictionaryStore::from_sources(vec![source]).unwrap();
    let words: Vec<&str> = store.entries.iter().map(|e| e.word.as_str()).collect();
    assert_eq!(words, vec!["CAT", "cat", "Cat"]);
}

#[test]
fn source_records_keep_the_raw_keyword_lists() {
    let source = raw("dict", &["", "Ant"], "/x");
    let store = DictionaryStore::from_sources(vec![source]).unwrap();
    let s: &DictionarySource = &store.sources[0];
    assert_eq!(s.name, "dict");
    assert_eq!(s.keywords, vec!["".to_string(), "Ant".to_string()]);
    assert_eq!(s.asset_dir, "/x");
    // keyword_idx indexes the raw list, empty texts included.
    assert_eq!(store.entries[0].keyword_idx, 1);
}
