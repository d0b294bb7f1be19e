//! Session state transitions: selection movement, paging and scrolling.

use dict_search::cache::QueryResultCache;
use dict_search::dictionary::{entries_from_words, from_entries, DictionaryStore};
use dict_search::session::{is_next_entry_key, is_prev_entry_key, truncate_with_ellipsis, SearchState};

fn store_from_words(words: &[&str]) -> DictionaryStore {
    let owned: Vec<String> = words.iter().map(|w| w.to_string()).collect();
    let entries = entries_from_words(&owned, "test", 0);
    from_entries(entries, Vec::new()).unwrap()
}

#[test]
fn update_results_clamps_the_selection() {
    let store = store_from_words(&["ant", "anteater", "antelope"]);
    let mut cache = QueryResultCache::new(8);
    let mut state = SearchState::new();
    state.query = "ant".to_string();
    state.update_results(&store, &mut cache);
    assert_eq!(state.result_indexes.len(), 3);
    state.select_end();
    assert_eq!(state.selected, 2);
    // A narrower query leaves fewer results; the selection is clamped.
    state.query = "anteater".to_string();
    state.update_results(&store, &mut cache);
    assert_eq!(state.result_indexes.len(), 1);
    assert_eq!(state.selected, 0);
    assert_eq!(state.detail_entry_idx, None);
    assert_eq!(state.detail_scroll, 0);
}

#[test]
fn selection_moves_and_stops_at_the_edges() {
    let mut state = SearchState::new();
    state.result_indexes = vec![10, 11, 12];
    assert_eq!(state.selected_entry_index(), Some(10));
    state.select_next();
    state.select_next();
    assert_eq!(state.selected, 2);
    state.select_next();
    assert_eq!(state.selected, 2);
    state.select_prev();
    assert_eq!(state.selected, 1);
    state.select_home();
    assert_eq!(state.selected, 0);
    state.select_prev();
    assert_eq!(state.selected, 0);
    state.select_end();
    assert_eq!(state.selected, 2);
}

#[test]
fn empty_results_select_nothing() {
    let state = SearchState::new();
    assert_eq!(state.selected_entry_index(), None);
}

#[test]
fn paging_moves_by_ten_and_clamps() {
    let mut state = SearchState::new();
    state.result_indexes = (0..25usize).collect();
    state.page_down();
    assert_eq!(state.selected, 10);
    state.page_down();
    assert_eq!(state.selected, 20);
    state.page_down();
    assert_eq!(state.selected, 24);
    state.page_up();
    assert_eq!(state.selected, 14);
    state.page_up();
    state.page_up();
    assert_eq!(state.selected, 0);
}

#[test]
fn detail_scrolling_stays_within_the_text() {
    let mut state = SearchState::new();
    state.detail_line_count = 8;
    state.scroll_detail_down();
    assert_eq!(state.detail_scroll, 3);
    state.scroll_detail_down();
    assert_eq!(state.detail_scroll, 6);
    state.scroll_detail_down();
    assert_eq!(state.detail_scroll, 7);
    state.scroll_detail_up();
    assert_eq!(state.detail_scroll, 4);
    state.scroll_detail_up();
    state.scroll_detail_up();
    assert_eq!(state.detail_scroll, 0);
}

#[test]
fn entry_switch_keys_cover_wide_variants() {
    assert!(is_prev_entry_key(','));
    assert!(is_prev_entry_key('<'));
    assert!(is_prev_entry_key('，'));
    assert!(is_prev_entry_key('、'));
    assert!(is_next_entry_key('.'));
    assert!(is_next_entry_key('>'));
    assert!(is_next_entry_key('。'));
    assert!(is_next_entry_key('．'));
    assert!(!is_prev_entry_key('.'));
    assert!(!is_next_entry_key(','));
    assert!(!is_prev_entry_key('a'));
    assert!(!is_next_entry_key('a'));
}

#[test]
fn titles_are_cut_with_an_ellipsis() {
    assert_eq!(truncate_with_ellipsis("hello", 0), "");
    assert_eq!(truncate_with_ellipsis("hello", 5), "hello");
    assert_eq!(truncate_with_ellipsis("hello", 9), "hello");
    assert_eq!(truncate_with_ellipsis("hello", 4), "hel…");
    assert_eq!(truncate_with_ellipsis("hello", 1), "…");
    assert_eq!(truncate_with_ellipsis("你们好", 2), "你…");
}
