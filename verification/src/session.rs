//! Interactive session state: the selection, scrolling and query-edit
//! decisions the keystroke loop makes. The loop itself — terminal input and
//! drawing — lives outside the library and only calls these transitions.

use vstd::prelude::*;

use crate::cache::{
    indices_below, query_cache_model, query_result_model, values_below, QueryResultCache,
};
use crate::dictionary::DictionaryStore;
use crate::text::normalized;

verus! {

/// How many result rows a page jump moves.
pub const PAGE_STEP: usize = 10;

/// How many lines one detail scroll step moves.
pub const DETAIL_SCROLL_STEP: usize = 3;

/// Everything the interactive search session remembers between keystrokes.
pub struct SearchState {
    /// The raw query text as typed.
    pub query: String,
    /// The entry indices of the current results, in rank order.
    pub result_indexes: Vec<usize>,
    /// The highlighted row of the result list.
    pub selected: usize,
    /// The text shown in the detail pane.
    pub detail_text: String,
    /// Which entry the detail pane currently shows, if any.
    pub detail_entry_idx: Option<usize>,
    /// How far the detail pane is scrolled down.
    pub detail_scroll: usize,
    /// How many lines the detail text has (at least one).
    pub detail_line_count: usize,
    /// A transient status message shown in the detail title.
    pub status_text: String,
}

impl SearchState {
    /// The selection points at a result row whenever there are results, and
    /// rests at the top otherwise.
    pub open spec fn selection_ok(self) -> bool {
        if self.result_indexes@.len() == 0 {
            self.selected == 0
        } else {
            (self.selected as int) < self.result_indexes@.len()
        }
    }

    /// A fresh session: empty query, no results, nothing shown.
    pub fn new() -> (r: SearchState)
        ensures
            r.query@ == Seq::<char>::empty(),
            r.result_indexes@ == Seq::<usize>::empty(),
            r.selected == 0,
            r.detail_text@ == Seq::<char>::empty(),
            r.detail_entry_idx is None,
            r.detail_scroll == 0,
            r.detail_line_count == 1,
            r.status_text@ == Seq::<char>::empty(),
            r.selection_ok(),
    {
        SearchState {
            query: String::new(),
            result_indexes: Vec::new(),
            selected: 0,
            detail_text: String::new(),
            detail_entry_idx: None,
            detail_scroll: 0,
            detail_line_count: 1,
            status_text: String::new(),
        }
    }

    /// The entry index under the cursor, if any row is selected.
    pub fn selected_entry_index(&self) -> (r: Option<usize>)
        requires
            self.selection_ok(),
        ensures
            self.result_indexes@.len() == 0 ==> r is None,
            self.result_indexes@.len() > 0 ==> r == Some(
                self.result_indexes@[self.selected as int],
            ),
    {
        if self.result_indexes.is_empty() {
            None
        } else {
            Some(self.result_indexes[self.selected])
        }
    }

    /// Run the current query text through the result cache, clamp the
    /// selection to the new result list, and reset the detail pane.
    pub fn update_results(
        &mut self,
        dict: &DictionaryStore,
        result_cache: &mut QueryResultCache,
    )
        requires
            old(result_cache).wf(),
            values_below(old(result_cache).model(), dict.entries@.len() as nat),
        ensures
            final(result_cache).wf(),
            final(result_cache).cap() == old(result_cache).cap(),
            values_below(final(result_cache).model(), dict.entries@.len() as nat),
            final(self).result_indexes@ == query_result_model(
                old(result_cache).model(),
                dict.words_lower(),
                normalized(old(self).query@),
            ),
            final(result_cache).model() == query_cache_model(
                old(result_cache).model(),
                dict.words_lower(),
                normalized(old(self).query@),
                old(result_cache).cap(),
            ),
            indices_below(final(self).result_indexes@, dict.entries@.len() as nat),
            final(self).selected as int == if final(self).result_indexes@.len() == 0 {
                0
            } else if (old(self).selected as int) < final(self).result_indexes@.len() {
                old(self).selected as int
            } else {
                final(self).result_indexes@.len() - 1
            },
            final(self).selection_ok(),
            final(self).detail_entry_idx is None,
            final(self).detail_scroll == 0,
            final(self).query == old(self).query,
            final(self).detail_text == old(self).detail_text,
            final(self).detail_line_count == old(self).detail_line_count,
            final(self).status_text == old(self).status_text,
    {
        self.result_indexes = result_cache.query(dict, self.query.as_str());
        if self.result_indexes.is_empty() {
            self.selected = 0;
        } else if self.selected >= self.result_indexes.len() {
            self.selected = self.result_indexes.len() - 1;
        }
        self.detail_entry_idx = None;
        self.detail_scroll = 0;
    }

    /// Move the selection one row up (towards the first result).
    pub fn select_prev(&mut self)
        ensures
            final(self).selected as int == if old(self).selected == 0 {
                0int
            } else {
                old(self).selected - 1
            },
            final(self).result_indexes == old(self).result_indexes,
            old(self).selection_ok() ==> final(self).selection_ok(),
    {
        if self.selected > 0 {
            self.selected = self.selected - 1;
        }
    }

    /// Move the selection one row down, stopping at the last result.
    pub fn select_next(&mut self)
        requires
            old(self).selection_ok(),
        ensures
            final(self).selected as int == if old(self).selected + 1
                < old(self).result_indexes@.len() {
                old(self).selected + 1
            } else {
                old(self).selected as int
            },
            final(self).result_indexes == old(self).result_indexes,
            final(self).selection_ok(),
    {
        if self.selected < self.result_indexes.len() && self.result_indexes.len() - self.selected
            > 1 {
            self.selected = self.selected + 1;
        }
    }

    /// Jump the selection to the first result.
    pub fn select_home(&mut self)
        ensures
            final(self).selected == 0,
            final(self).result_indexes == old(self).result_indexes,
    {
        self.selected = 0;
    }

    /// Jump the selection to the last result, if there are any.
    pub fn select_end(&mut self)
        requires
            old(self).selection_ok(),
        ensures
            final(self).selected as int == if old(self).result_indexes@.len() == 0 {
                0int
            } else {
                old(self).result_indexes@.len() - 1
            },
            final(self).result_indexes == old(self).result_indexes,
            final(self).selection_ok(),
    {
        if !self.result_indexes.is_empty() {
            self.selected = self.result_indexes.len() - 1;
        }
    }

    /// Move the selection one page up.
    pub fn page_up(&mut self)
        ensures
            final(self).selected as int == if old(self).selected >= PAGE_STEP {
                old(self).selected - PAGE_STEP
            } else {
                0int
            },
            final(self).result_indexes == old(self).result_indexes,
            old(self).selection_ok() ==> final(self).selection_ok(),
    {
        if self.selected >= PAGE_STEP {
            self.selected = self.selected - PAGE_STEP;
        } else {
            self.selected = 0;
        }
    }

    /// Move the selection one page down, stopping at the last result.
    pub fn page_down(&mut self)
        requires
            old(self).selection_ok(),
        ensures
            final(self).selected as int == if old(self).result_indexes@.len() == 0 {
                0int
            } else if old(self).selected + PAGE_STEP < old(self).result_indexes@.len() {
                old(self).selected + PAGE_STEP
            } else {
                old(self).result_indexes@.len() - 1
            },
            final(self).result_indexes == old(self).result_indexes,
            final(self).selection_ok(),
    {
        if self.result_indexes.is_empty() {
            self.selected = 0;
        } else if self.result_indexes.len() - 1 - self.selected > PAGE_STEP {
            self.selected = self.selected + PAGE_STEP;
        } else {
            self.selected = self.result_indexes.len() - 1;
        }
    }

    /// Scroll the detail pane up by one step.
    pub fn scroll_detail_up(&mut self)
        ensures
            final(self).detail_scroll as int == if old(self).detail_scroll
                >= DETAIL_SCROLL_STEP {
                old(self).detail_scroll - DETAIL_SCROLL_STEP
            } else {
                0int
            },
            final(self).result_indexes == old(self).result_indexes,
            final(self).selected == old(self).selected,
    {
        if self.detail_scroll >= DETAIL_SCROLL_STEP {
            self.detail_scroll = self.detail_scroll - DETAIL_SCROLL_STEP;
        } else {
            self.detail_scroll = 0;
        }
    }

    /// Scroll the detail pane down by one step, stopping at the last line.
    pub fn scroll_detail_down(&mut self)
        ensures
            ({
                let max_scroll = if old(self).detail_line_count >= 1 {
                    old(self).detail_line_count - 1
                } else {
                    0int
                };
                final(self).detail_scroll as int == if old(self).detail_scroll
                    + DETAIL_SCROLL_STEP <= max_scroll {
                    old(self).detail_scroll + DETAIL_SCROLL_STEP
                } else {
                    max_scroll
                }
            }),
            final(self).result_indexes == old(self).result_indexes,
            final(self).selected == old(self).selected,
    {
        let max_scroll: usize = if self.detail_line_count >= 1 {
            self.detail_line_count - 1
        } else {
            0
        };
        if self.detail_scroll <= max_scroll && max_scroll - self.detail_scroll
            >= DETAIL_SCROLL_STEP {
            self.detail_scroll = self.detail_scroll + DETAIL_SCROLL_STEP;
        } else {
            self.detail_scroll = max_scroll;
        }
    }
}

/// Cut a title to at most `max_chars` characters, marking a cut with a
/// trailing ellipsis.
pub fn truncate_with_ellipsis(text: &str, max_chars: usize) -> (r: String)
    ensures
        max_chars == 0 ==> r@ == Seq::<char>::empty(),
        text@.len() <= max_chars ==> r@ == text@,
        0 < max_chars < text@.len() ==> r@ == text@.subrange(0, max_chars - 1).push('\u{2026}'),
{
    proof {
        reveal_strlit("\u{2026}");
    }
    if max_chars == 0 {
        return String::new();
    }
    let total: usize = text.unicode_len();
    if total <= max_chars {
        return String::from_str(text);
    }
    let kept: &str = text.substring_char(0, max_chars - 1);
    let mut truncated: String = String::from_str(kept);
    truncated.append("\u{2026}");
    proof {
        assert(truncated@ =~= text@.subrange(0, max_chars - 1).push('\u{2026}'));
    }
    truncated
}

/// Whether a character asks for the previous entry (comma and its wide or
/// small variants).
pub fn is_prev_entry_key(ch: char) -> (r: bool)
    ensures
        r == (ch == ',' || ch == '<' || ch == '\u{ff0c}' || ch == '\u{ff64}' || ch == '\u{3001}'
            || ch == '\u{fe50}' || ch == '\u{66b}'),
{
    ch == ',' || ch == '<' || ch == '\u{ff0c}' || ch == '\u{ff64}' || ch == '\u{3001}'
        || ch == '\u{fe50}' || ch == '\u{66b}'
}

/// Whether a character asks for the next entry (full stop and its wide or
/// small variants).
pub fn is_next_entry_key(ch: char) -> (r: bool)
    ensures
        r == (ch == '.' || ch == '>' || ch == '\u{3002}' || ch == '\u{ff61}' || ch == '\u{ff0e}'
            || ch == '\u{fe52}'),
{
    ch == '.' || ch == '>' || ch == '\u{3002}' || ch == '\u{ff61}' || ch == '\u{ff0e}'
        || ch == '\u{fe52}'
}

} // verus!
