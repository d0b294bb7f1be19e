//! The corpus: immutable word entries assembled from dictionary sources,
//! sorted by lowercased word, and the tiered match engine over them.

use vstd::prelude::*;
use vstd::seq_lib::lemma_multiset_commutative;

use crate::text::{
    lex_leq, lemma_lex_total, lemma_lex_trans, lex_leq_str, lower_to_string, lowered,
    seq_contains, str_contains, str_eq, str_starts_with, trim_to_string, trimmed,
};

verus! {

broadcast use vstd::seq_lib::group_to_multiset_ensures;

// ----------------------------------------------------------------------------
// Errors.
// ----------------------------------------------------------------------------

/// The failures this library reports.
#[derive(Debug, Clone, Copy, PartialEq, Eq, Structural)]
pub enum DictError {
    /// After filtering, no source contributed a single usable entry; fatal at startup.
    NoUsableEntries,
    /// One source among several could not be loaded; it is skipped.
    SourceLoadFailed,
    /// An entry index lies outside the corpus.
    InvalidIndex,
    /// The external content fetch failed for one item.
    ResolutionFailed,
}

// ----------------------------------------------------------------------------
// Entries and the store.
// ----------------------------------------------------------------------------

/// One searchable corpus item.
#[derive(Debug, Clone)]
pub struct Entry {
    /// Original casing, trimmed, non-empty.
    pub word: String,
    /// Lowercase form used for all matching.
    pub word_lower: String,
    /// Name of the dictionary that supplied the entry.
    pub source: String,
    /// Index into the source list.
    pub dict_idx: usize,
    /// Index of the item within its source's keyword list.
    pub keyword_idx: usize,
}

/// The mathematical image of an `Entry`.
pub ghost struct EntryModel {
    pub word: Seq<char>,
    pub word_lower: Seq<char>,
    pub source: Seq<char>,
    pub dict_idx: int,
    pub keyword_idx: int,
}

impl View for Entry {
    type V = EntryModel;

    open spec fn view(&self) -> EntryModel {
        EntryModel {
            word: self.word@,
            word_lower: self.word_lower@,
            source: self.source@,
            dict_idx: self.dict_idx as int,
            keyword_idx: self.keyword_idx as int,
        }
    }
}

/// The per-entry image of a sequence of entries.
pub open spec fn entry_models(s: Seq<Entry>) -> Seq<EntryModel> {
    s.map_values(|e: Entry| e@)
}

/// What one successfully opened dictionary hands the corpus builder: its
/// display name, its raw keyword texts in source order, and its asset
/// directory.
pub struct RawSource {
    pub name: String,
    pub words: Vec<String>,
    pub asset_dir: String,
}

/// One loaded dictionary: its display name, its raw keyword list (the
/// per-source item index space), and the directory its assets live in.
pub struct DictionarySource {
    pub name: String,
    pub keywords: Vec<String>,
    pub asset_dir: String,
}

/// The full corpus: the sorted entry list and one record per source.
pub struct DictionaryStore {
    pub entries: Vec<Entry>,
    pub sources: Vec<DictionarySource>,
}

// ----------------------------------------------------------------------------
// Tier classification.
// ----------------------------------------------------------------------------

/// Tier 1: the lowercased word equals the needle.
pub open spec fn is_exact(w: Seq<char>, n: Seq<char>) -> bool {
    w == n
}

/// Tier 2: the lowercased word starts with the needle but is not it.
pub open spec fn is_prefix_hit(w: Seq<char>, n: Seq<char>) -> bool {
    n.is_prefix_of(w) && w != n
}

/// Tier 3: the lowercased word contains the needle but does not start with it.
pub open spec fn is_contains_hit(w: Seq<char>, n: Seq<char>) -> bool {
    seq_contains(w, n) && !n.is_prefix_of(w)
}

/// The exact-tier test on entry indices.
pub open spec fn exact_pred(words: Seq<Seq<char>>, n: Seq<char>) -> spec_fn(usize) -> bool {
    |i: usize| is_exact(words[i as int], n)
}

/// The prefix-tier test on entry indices.
pub open spec fn prefix_pred(words: Seq<Seq<char>>, n: Seq<char>) -> spec_fn(usize) -> bool {
    |i: usize| is_prefix_hit(words[i as int], n)
}

/// The contains-tier test on entry indices.
pub open spec fn contains_pred(words: Seq<Seq<char>>, n: Seq<char>) -> spec_fn(usize) -> bool {
    |i: usize| is_contains_hit(words[i as int], n)
}

/// The scan order of a full-corpus scan: every index in ascending order.
pub open spec fn full_range(n: nat) -> Seq<usize> {
    Seq::new(n, |i: int| i as usize)
}

/// What the match engine returns: the candidates that match exactly, then
/// those the needle is a proper prefix of, then those that merely contain it,
/// each tier in scan order.
pub open spec fn ranked(words: Seq<Seq<char>>, cand: Seq<usize>, n: Seq<char>) -> Seq<usize> {
    cand.filter(exact_pred(words, n)) + cand.filter(prefix_pred(words, n)) + cand.filter(
        contains_pred(words, n),
    )
}

impl DictionaryStore {
    /// The lowercased word of each entry, in corpus order.
    pub open spec fn words_lower(self) -> Seq<Seq<char>> {
        self.entries@.map_values(|e: Entry| e.word_lower@)
    }

    /// Every index in `c` points into the corpus.
    pub open spec fn valid_indices(self, c: Seq<usize>) -> bool {
        forall|t: int| 0 <= t < c.len() ==> (#[trigger] c[t]) < self.entries@.len()
    }

    /// Classify entry `i` into at most one tier and push it there.
    fn classify(
        &self,
        i: usize,
        needle: &str,
        exact_ix: &mut Vec<usize>,
        prefix_ix: &mut Vec<usize>,
        contain_ix: &mut Vec<usize>,
    )
        requires
            i < self.entries@.len(),
        ensures
            final(exact_ix)@ == if exact_pred(self.words_lower(), needle@)(i) {
                old(exact_ix)@.push(i)
            } else {
                old(exact_ix)@
            },
            final(prefix_ix)@ == if prefix_pred(self.words_lower(), needle@)(i) {
                old(prefix_ix)@.push(i)
            } else {
                old(prefix_ix)@
            },
            final(contain_ix)@ == if contains_pred(self.words_lower(), needle@)(i) {
                old(contain_ix)@.push(i)
            } else {
                old(contain_ix)@
            },
    {
        proof {
            assert(self.words_lower()[i as int] == self.entries@[i as int].word_lower@);
        }
        let w: &String = &self.entries[i].word_lower;
        if str_eq(w.as_str(), needle) {
            exact_ix.push(i);
        } else if str_starts_with(w.as_str(), needle) {
            prefix_ix.push(i);
        } else if str_contains(w.as_str(), needle) {
            contain_ix.push(i);
        }
    }

    /// The tiered match engine. Scans the whole corpus, or exactly the given
    /// candidate indices in the order given, and returns the matching indices:
    /// exact matches first, then prefix matches, then substring matches, each
    /// tier in scan order.
    pub fn search(&self, needle: &str, candidates: Option<&[usize]>) -> (r: Vec<usize>)
        requires
            match candidates {
                Some(c) => self.valid_indices(c@),
                None => true,
            },
        ensures
            needle@.len() == 0 ==> r@ == Seq::<usize>::empty(),
            needle@.len() > 0 ==> r@ == ranked(
                self.words_lower(),
                match candidates {
                    Some(c) => c@,
                    None => full_range(self.entries@.len()),
                },
                needle@,
            ),
            self.valid_indices(r@),
    {
        if needle.is_empty() {
            return Vec::new();
        }

        let ghost words: Seq<Seq<char>> = self.words_lower();
        let ghost scan: Seq<usize> = match candidates {
            Some(c) => c@,
            None => full_range(self.entries@.len()),
        };

        let mut exact_ix: Vec<usize> = Vec::new();
        let mut prefix_ix: Vec<usize> = Vec::new();
        let mut contain_ix: Vec<usize> = Vec::new();

        match candidates {
            Some(c) => {
                let mut k: usize = 0;
                while k < c.len()
                    invariant
                        k <= c@.len(),
                        scan == c@,
                        words == self.words_lower(),
                        self.valid_indices(c@),
                        exact_ix@ == scan.subrange(0, k as int).filter(exact_pred(words, needle@)),
                        prefix_ix@ == scan.subrange(0, k as int).filter(
                            prefix_pred(words, needle@),
                        ),
                        contain_ix@ == scan.subrange(0, k as int).filter(
                            contains_pred(words, needle@),
                        ),
                        self.valid_indices(exact_ix@),
                        self.valid_indices(prefix_ix@),
                        self.valid_indices(contain_ix@),
                    decreases c@.len() - k,
                {
                    let i: usize = c[k];
                    self.classify(i, needle, &mut exact_ix, &mut prefix_ix, &mut contain_ix);
                    proof {
                        let pre = scan.subrange(0, k as int);
                        assert(scan.subrange(0, k + 1) =~= pre.push(i));
                        pre.lemma_filter_push(i, exact_pred(words, needle@));
                        pre.lemma_filter_push(i, prefix_pred(words, needle@));
                        pre.lemma_filter_push(i, contains_pred(words, needle@));
                    }
                    k = k + 1;
                }
                proof {
                    assert(scan.subrange(0, scan.len() as int) =~= scan);
                }
            },
            None => {
                let n: usize = self.entries.len();
                let mut idx: usize = 0;
                while idx < n
                    invariant
                        idx <= n,
                        n == self.entries@.len(),
                        scan == full_range(n as nat),
                        words == self.words_lower(),
                        exact_ix@ == scan.subrange(0, idx as int).filter(
                            exact_pred(words, needle@),
                        ),
                        prefix_ix@ == scan.subrange(0, idx as int).filter(
                            prefix_pred(words, needle@),
                        ),
                        contain_ix@ == scan.subrange(0, idx as int).filter(
                            contains_pred(words, needle@),
                        ),
                        self.valid_indices(exact_ix@),
                        self.valid_indices(prefix_ix@),
                        self.valid_indices(contain_ix@),
                    decreases n - idx,
                {
                    self.classify(idx, needle, &mut exact_ix, &mut prefix_ix, &mut contain_ix);
                    proof {
                        let pre = scan.subrange(0, idx as int);
                        assert(scan[idx as int] == idx);
                        assert(scan.subrange(0, idx + 1) =~= pre.push(idx));
                        pre.lemma_filter_push(idx, exact_pred(words, needle@));
                        pre.lemma_filter_push(idx, prefix_pred(words, needle@));
                        pre.lemma_filter_push(idx, contains_pred(words, needle@));
                    }
                    idx = idx + 1;
                }
                proof {
                    assert(scan.subrange(0, scan.len() as int) =~= scan);
                }
            },
        }

        let ghost a = exact_ix@;
        let ghost b = prefix_ix@;
        let ghost d = contain_ix@;
        let mut merged: Vec<usize> = exact_ix;
        merged.append(&mut prefix_ix);
        merged.append(&mut contain_ix);
        proof {
            assert(merged@ == a + b + d);
        }
        merged
    }
}

// ----------------------------------------------------------------------------
// Corpus construction.
// ----------------------------------------------------------------------------

/// The character sequences of a list of strings.
pub open spec fn word_views(ws: Seq<String>) -> Seq<Seq<char>> {
    ws.map_values(|w: String| w@)
}

/// The entries one source's keyword texts give rise to: each text is trimmed,
/// texts that trim to nothing are dropped, and each kept text becomes an entry
/// whose `keyword_idx` is the text's position in the original list.
pub open spec fn word_entry_models(words: Seq<Seq<char>>, src: Seq<char>, d: int) -> Seq<
    EntryModel,
>
    decreases words.len(),
{
    if words.len() == 0 {
        Seq::empty()
    } else {
        let rest = word_entry_models(words.drop_last(), src, d);
        let w = trimmed(words.last());
        if w.len() == 0 {
            rest
        } else {
            rest.push(
                EntryModel {
                    word: w,
                    word_lower: lowered(w),
                    source: src,
                    dict_idx: d,
                    keyword_idx: words.len() - 1,
                },
            )
        }
    }
}

/// Every entry built from a word list keeps its source attribution, points at
/// a position of that list, and has a non-empty trimmed word.
proof fn lemma_word_entry_models_props(words: Seq<Seq<char>>, src: Seq<char>, d: int)
    ensures
        forall|t: int|
            0 <= t < word_entry_models(words, src, d).len() ==> {
                let m = #[trigger] word_entry_models(words, src, d)[t];
                &&& m.dict_idx == d
                &&& 0 <= m.keyword_idx < words.len()
                &&& m.word.len() > 0
                &&& m.word_lower == lowered(m.word)
                &&& m.source == src
            },
    decreases words.len(),
{
    if words.len() > 0 {
        lemma_word_entry_models_props(words.drop_last(), src, d);
        let rest = word_entry_models(words.drop_last(), src, d);
        let w = trimmed(words.last());
        if w.len() == 0 {
            assert(word_entry_models(words, src, d) == rest);
        } else {
            let m = EntryModel {
                word: w,
                word_lower: lowered(w),
                source: src,
                dict_idx: d,
                keyword_idx: words.len() - 1,
            };
            assert(word_entry_models(words, src, d) == rest.push(m));
            assert(forall|t: int|
                0 <= t < rest.len() ==> rest.push(m)[t] == #[trigger] rest[t]);
            assert(rest.push(m)[rest.len() as int] == m);
        }
    }
}

/// Build the entries one source contributes: trim each keyword text, drop the
/// ones that trim to nothing, lowercase the rest.
pub fn entries_from_words(words: &Vec<String>, name: &str, dict_idx: usize) -> (r: Vec<Entry>)
    ensures
        entry_models(r@) == word_entry_models(word_views(words@), name@, dict_idx as int),
{
    let mut out: Vec<Entry> = Vec::new();
    let ghost all: Seq<Seq<char>> = word_views(words@);
    let mut i: usize = 0;
    while i < words.len()
        invariant
            i <= words@.len(),
            all == word_views(words@),
            entry_models(out@) == word_entry_models(all.take(i as int), name@, dict_idx as int),
        decreases words@.len() - i,
    {
        let ghost pre = all.take(i as int);
        let w: &String = &words[i];
        let word: String = trim_to_string(w.as_str());
        if !word.as_str().is_empty() {
            let word_lower: String = lower_to_string(word.as_str());
            let entry = Entry {
                word,
                word_lower,
                source: String::from_str(name),
                dict_idx,
                keyword_idx: i,
            };
            out.push(entry);
        }
        proof {
            assert(all.take(i + 1).drop_last() =~= pre);
            assert(all.take(i + 1).last() == all[i as int]);
            assert(all[i as int] == words@[i as int]@);
            assert(entry_models(out@) =~= word_entry_models(all.take(i + 1), name@,
            dict_idx as int));
        }
        i = i + 1;
    }
    proof {
        assert(all.take(words@.len() as int) =~= all);
    }
    out
}

// ----------------------------------------------------------------------------
// Sorting the corpus.
// ----------------------------------------------------------------------------

/// The corpus order: entries ascend by lowercased word, codepoint order.
pub open spec fn entries_sorted(s: Seq<Entry>) -> bool {
    forall|i: int, j: int|
        0 <= i < j < s.len() ==> lex_leq(
            #[trigger] s[i].word_lower@,
            #[trigger] s[j].word_lower@,
        )
}

/// Inserting an element anywhere in a sequence adds it to the multiset.
proof fn lemma_insert_to_multiset(s: Seq<Entry>, i: int, e: Entry)
    requires
        0 <= i <= s.len(),
    ensures
        s.insert(i, e).to_multiset() =~= s.to_multiset().insert(e),
{
    let pre = s.subrange(0, i);
    let post = s.subrange(i, s.len() as int);
    assert(s.insert(i, e) =~= pre + (seq![e] + post));
    lemma_multiset_commutative(pre, seq![e] + post);
    lemma_multiset_commutative(seq![e], post);
    assert(seq![e] =~= Seq::<Entry>::empty().push(e));
    assert(seq![e].to_multiset() =~= Seq::<Entry>::empty().to_multiset().insert(e));
    assert(forall|x: Entry| !Seq::<Entry>::empty().contains(x));
    assert(forall|x: Entry| Seq::<Entry>::empty().to_multiset().count(x) == 0);
    assert(s =~= pre + post);
    lemma_multiset_commutative(pre, post);
    assert(s.insert(i, e).to_multiset() =~= s.to_multiset().insert(e));
}

/// Insert an entry behind every entry whose key is at or before its own.
pub open spec fn insert_by_key(s: Seq<Entry>, e: Entry) -> Seq<Entry>
    decreases s.len(),
{
    if s.len() == 0 {
        seq![e]
    } else if lex_leq(s[0].word_lower@, e.word_lower@) {
        seq![s[0]] + insert_by_key(s.drop_first(), e)
    } else {
        seq![e] + s
    }
}

/// The corpus order as a function of the input alone: each entry in turn is
/// inserted behind the entries already at or before it. Equal words keep
/// their arrival order, and the same input always gives the same corpus.
pub open spec fn sorted_by_word(s: Seq<Entry>) -> Seq<Entry>
    decreases s.len(),
{
    if s.len() == 0 {
        Seq::empty()
    } else {
        insert_by_key(sorted_by_word(s.drop_last()), s.last())
    }
}

/// Inserting at the first position whose entry is not at or before `e`
/// is what `insert_by_key` does.
proof fn lemma_insert_by_key_at(out: Seq<Entry>, e: Entry, p: int)
    requires
        0 <= p <= out.len(),
        forall|a: int| 0 <= a < p ==> lex_leq(#[trigger] out[a].word_lower@, e.word_lower@),
        p < out.len() ==> !lex_leq(out[p as int].word_lower@, e.word_lower@),
    ensures
        insert_by_key(out, e) == out.insert(p, e),
    decreases out.len(),
{
    if p == 0 {
        if out.len() == 0 {
            assert(insert_by_key(out, e) =~= out.insert(0, e));
        } else {
            assert(insert_by_key(out, e) =~= out.insert(0, e));
        }
    } else {
        assert(lex_leq(out[0].word_lower@, e.word_lower@));
        let rest = out.drop_first();
        assert(forall|a: int|
            0 <= a < p - 1 ==> lex_leq(#[trigger] rest[a].word_lower@, e.word_lower@));
        lemma_insert_by_key_at(rest, e, p - 1);
        assert(seq![out[0]] + rest.insert(p - 1, e) =~= out.insert(p, e));
    }
}

/// Insertion sort by lowercased word: exactly `sorted_by_word` of the input.
fn sort_entries(list: Vec<Entry>) -> (r: Vec<Entry>)
    ensures
        r@ == sorted_by_word(list@),
        entries_sorted(r@),
        r@.to_multiset() == list@.to_multiset(),
{
    let ghost orig: Seq<Entry> = list@;
    let mut input = list;
    let mut out: Vec<Entry> = Vec::new();
    while input.len() > 0
        invariant
            input@.len() <= orig.len(),
            input@ == orig.skip(orig.len() - input@.len()),
            out@ == sorted_by_word(orig.take(orig.len() - input@.len())),
            entries_sorted(out@),
            out@.to_multiset().add(input@.to_multiset()) == orig.to_multiset(),
        decreases input@.len(),
    {
        let ghost input0 = input@;
        let ghost out0 = out@;
        let ghost done: int = orig.len() - input0.len();
        let e = input.remove(0);
        proof {
            assert(input0[0] == orig[done]);
            assert(input@ =~= orig.skip(done + 1));
        }
        proof {
            assert(input0.contains(e)) by {
                assert(input0[0] == e);
            }
            assert(input@.to_multiset() =~= input0.to_multiset().remove(e));
        }
        let mut pos: usize = 0;
        while pos < out.len() && lex_leq_str(out[pos].word_lower.as_str(), e.word_lower.as_str())
            invariant
                out@ == out0,
                pos <= out@.len(),
                forall|a: int| 0 <= a < pos ==> lex_leq(#[trigger] out@[a].word_lower@,
                e.word_lower@),
            decreases out@.len() - pos,
        {
            pos = pos + 1;
        }
        let ghost stopped_short = pos < out0.len();
        proof {
            if stopped_short {
                lemma_lex_total(out0[pos as int].word_lower@, e.word_lower@);
                assert(lex_leq(e.word_lower@, out0[pos as int].word_lower@));
            }
        }
        out.insert(pos, e);
        proof {
            let o1 = out@;
            assert(o1 == out0.insert(pos as int, e));
            assert(o1 =~= out0.subrange(0, pos as int) + (seq![e] + out0.subrange(
                pos as int,
                out0.len() as int,
            )));
            assert forall|x: int, y: int| 0 <= x < y < o1.len() implies lex_leq(
                o1[x].word_lower@,
                o1[y].word_lower@,
            ) by {
                if y < pos {
                    assert(o1[x] == out0[x] && o1[y] == out0[y]);
                } else if x < pos && y == pos {
                    assert(o1[x] == out0[x] && o1[y] == e);
                } else if x < pos && y > pos {
                    assert(o1[x] == out0[x] && o1[y] == out0[y - 1]);
                } else if x == pos && y > pos {
                    assert(o1[x] == e && o1[y] == out0[y - 1]);
                    assert(pos <= y - 1 < out0.len());
                    if pos < y - 1 {
                        lemma_lex_trans(
                            e.word_lower@,
                            out0[pos as int].word_lower@,
                            out0[y - 1].word_lower@,
                        );
                    }
                } else {
                    assert(o1[x] == out0[x - 1] && o1[y] == out0[y - 1]);
                }
            }
            lemma_insert_to_multiset(out0, pos as int, e);
            assert(out@.to_multiset().add(input@.to_multiset()) =~= orig.to_multiset());
            lemma_insert_by_key_at(out0, e, pos as int);
            assert(orig.take(done + 1).drop_last() =~= orig.take(done));
            assert(orig.take(done + 1).last() == orig[done]);
            assert(out@ == sorted_by_word(orig.take(done + 1)));
        }
    }
    proof {
        assert(orig.take(orig.len() as int) =~= orig);
    }
    out
}

/// Finish corpus assembly: refuse an empty entry list, sort the rest.
pub fn from_entries(entries: Vec<Entry>, sources: Vec<DictionarySource>) -> (r: Result<
    DictionaryStore,
    DictError,
>)
    ensures
        entries@.len() == 0 <==> r is Err,
        r is Err ==> r->Err_0 == DictError::NoUsableEntries,
        r is Ok ==> {
            let store = r->Ok_0;
            &&& store.entries@ == sorted_by_word(entries@)
            &&& entries_sorted(store.entries@)
            &&& store.entries@.to_multiset() == entries@.to_multiset()
            &&& store.sources == sources
        },
{
    if entries.len() == 0 {
        return Err(DictError::NoUsableEntries);
    }
    let sorted = sort_entries(entries);
    Ok(DictionaryStore { entries: sorted, sources })
}

/// Two sequences with one multiset hold the same elements.
proof fn lemma_same_multiset_members(a: Seq<Entry>, b: Seq<Entry>)
    requires
        a.to_multiset() == b.to_multiset(),
    ensures
        forall|x: Entry| a.contains(x) <==> b.contains(x),
{
    assert forall|x: Entry| a.contains(x) <==> b.contains(x) by {
        vstd::seq_lib::to_multiset_contains(a, x);
        vstd::seq_lib::to_multiset_contains(b, x);
        assert(a.to_multiset().count(x) == b.to_multiset().count(x));
    }
}

/// The entries all sources contribute, in source order, before sorting:
/// source `d` gets the entries of its word list under `dict_idx == d`.
pub open spec fn raw_entry_models(raw: Seq<RawSource>) -> Seq<EntryModel>
    decreases raw.len(),
{
    if raw.len() == 0 {
        Seq::empty()
    } else {
        raw_entry_models(raw.drop_last()) + word_entry_models(
            word_views(raw.last().words@),
            raw.last().name@,
            raw.len() - 1,
        )
    }
}

/// Every entry of the corpus names a real source and a real keyword position
/// within it, carries a non-empty trimmed word, and matches lowercase.
pub open spec fn entries_wf_for(es: Seq<Entry>, ss: Seq<DictionarySource>) -> bool {
    forall|t: int|
        0 <= t < es.len() ==> {
            let e = #[trigger] es[t];
            &&& (e.dict_idx as int) < ss.len()
            &&& (e.keyword_idx as int) < ss[e.dict_idx as int].keywords@.len()
            &&& e.word@.len() > 0
            &&& e.word_lower@ == lowered(e.word@)
        }
}

/// The corpus invariant (see `entries_wf_for`), plus the sort order.
pub open spec fn store_wf(store: DictionaryStore) -> bool {
    &&& entries_sorted(store.entries@)
    &&& entries_wf_for(store.entries@, store.sources@)
}

impl DictionaryStore {
    /// Assemble the corpus from the word lists of the sources that loaded:
    /// build each source's entries (trim, drop empties, lowercase), keep one
    /// record per source, sort everything by lowercased word, and refuse a
    /// corpus with no entries at all.
    pub fn from_sources(raw: Vec<RawSource>) -> (r: Result<DictionaryStore, DictError>)
        ensures
            r is Err <==> raw_entry_models(raw@).len() == 0,
            r is Err ==> r->Err_0 == DictError::NoUsableEntries,
            r is Ok ==> {
                let store = r->Ok_0;
                &&& store_wf(store)
                &&& store.sources@.len() == raw@.len()
                &&& (forall|d: int|
                    0 <= d < raw@.len() ==> {
                        let s = #[trigger] store.sources@[d];
                        &&& s.name == raw@[d].name
                        &&& s.keywords == raw@[d].words
                        &&& s.asset_dir == raw@[d].asset_dir
                    })
                &&& (exists|pre: Seq<Entry>|
                    entry_models(pre) == raw_entry_models(raw@) && store.entries@
                        == sorted_by_word(pre))
            },
    {
        let ghost raw0: Seq<RawSource> = raw@;
        let mut remaining = raw;
        let total: usize = remaining.len();
        let mut entries: Vec<Entry> = Vec::new();
        let mut sources: Vec<DictionarySource> = Vec::new();
        let mut k: usize = 0;
        while remaining.len() > 0
            invariant
                raw0.len() == total,
                k + remaining@.len() == raw0.len(),
                remaining@ =~= raw0.skip(k as int),
                sources@.len() == k,
                forall|d: int|
                    0 <= d < k ==> {
                        let s = #[trigger] sources@[d];
                        &&& s.name == raw0[d].name
                        &&& s.keywords == raw0[d].words
                        &&& s.asset_dir == raw0[d].asset_dir
                    },
                entry_models(entries@) == raw_entry_models(raw0.take(k as int)),
                entries_wf_for(entries@, sources@),
            decreases remaining@.len(),
        {
            let rs = remaining.remove(0);
            let ghost wordsv: Seq<String> = rs.words@;
            let ghost namev: Seq<char> = rs.name@;
            proof {
                assert(rs == raw0[k as int]);
                assert(remaining@ =~= raw0.skip(k + 1));
            }
            let mut batch = entries_from_words(&rs.words, rs.name.as_str(), k);
            let ghost entries0: Seq<Entry> = entries@;
            let ghost sources0: Seq<DictionarySource> = sources@;
            let ghost batchv: Seq<Entry> = batch@;
            proof {
                lemma_word_entry_models_props(word_views(wordsv), namev, k as int);
                assert(raw0.take(k + 1).drop_last() =~= raw0.take(k as int));
                assert(raw0.take(k + 1).last() == raw0[k as int]);
                assert(entry_models(entries0 + batchv) =~= entry_models(entries0) + entry_models(
                    batchv,
                ));
            }
            entries.append(&mut batch);
            sources.push(
                DictionarySource { name: rs.name, keywords: rs.words, asset_dir: rs.asset_dir },
            );
            proof {
                let srcs1 = sources@;
                let models = word_entry_models(word_views(wordsv), namev, k as int);
                assert(entries@ == entries0 + batchv);
                assert(srcs1 =~= sources0.push(srcs1.last()));
                assert forall|t: int| 0 <= t < entries@.len() implies {
                    let e = #[trigger] entries@[t];
                    &&& (e.dict_idx as int) < srcs1.len()
                    &&& (e.keyword_idx as int) < srcs1[e.dict_idx as int].keywords@.len()
                    &&& e.word@.len() > 0
                    &&& e.word_lower@ == lowered(e.word@)
                } by {
                    if t < entries0.len() {
                        assert(entries@[t] == entries0[t]);
                        assert(srcs1[entries0[t].dict_idx as int] == sources0[entries0[
                            t].dict_idx as int]);
                    } else {
                        let u = t - entries0.len();
                        assert(entries@[t] == batchv[u]);
                        assert(entry_models(batchv)[u] == batchv[u]@);
                        assert(models[u] == batchv[u]@);
                        assert(models[u].dict_idx == k);
                        assert(srcs1[k as int].keywords@ == wordsv);
                        assert(0 <= models[u].keyword_idx < word_views(wordsv).len());
                    }
                }
            }
            k = k + 1;
        }
        proof {
            assert(raw0.take(raw0.len() as int) =~= raw0);
        }
        let ghost pre: Seq<Entry> = entries@;
        let result = from_entries(entries, sources);
        proof {
            if result is Ok {
                let store = result->Ok_0;
                lemma_same_multiset_members(store.entries@, pre);
                assert forall|t: int| 0 <= t < store.entries@.len() implies {
                    let e = #[trigger] store.entries@[t];
                    &&& (e.dict_idx as int) < store.sources@.len()
                    &&& (e.keyword_idx as int)
                        < store.sources@[e.dict_idx as int].keywords@.len()
                    &&& e.word@.len() > 0
                    &&& e.word_lower@ == lowered(e.word@)
                } by {
                    let e = store.entries@[t];
                    assert(store.entries@.contains(e));
                    assert(pre.contains(e));
                    let j = choose|j: int| 0 <= j < pre.len() && pre[j] == e;
                    assert(pre[j] == e);
                }
                assert(entry_models(pre) == raw_entry_models(raw0));
            }
        }
        result
    }

    /// Resolve an entry index to the structural address `(dict_idx,
    /// keyword_idx)` that the external content resolver understands, checking
    /// each index on the way: a bad entry index is the caller's error, a bad
    /// source or keyword index means the item cannot be resolved.
    pub fn resolver_target(&self, entry_idx: usize) -> (r: Result<(usize, usize), DictError>)
        ensures
            entry_idx >= self.entries@.len() ==> r is Err && r->Err_0 == DictError::InvalidIndex,
            entry_idx < self.entries@.len() ==> {
                let e = self.entries@[entry_idx as int];
                if (e.dict_idx as int) < self.sources@.len() && (e.keyword_idx as int)
                    < self.sources@[e.dict_idx as int].keywords@.len() {
                    r is Ok && r->Ok_0 == (e.dict_idx, e.keyword_idx)
                } else {
                    r is Err && r->Err_0 == DictError::ResolutionFailed
                }
            },
    {
        if entry_idx >= self.entries.len() {
            return Err(DictError::InvalidIndex);
        }
        let e = &self.entries[entry_idx];
        if e.dict_idx >= self.sources.len() {
            return Err(DictError::ResolutionFailed);
        }
        if e.keyword_idx >= self.sources[e.dict_idx].keywords.len() {
            return Err(DictError::ResolutionFailed);
        }
        Ok((e.dict_idx, e.keyword_idx))
    }

    /// The read-only projection shown in result lists: the entry's original
    /// word and the name of the dictionary it came from.
    pub fn entry_summary(&self, entry_idx: usize) -> (r: Result<(String, String), DictError>)
        ensures
            entry_idx >= self.entries@.len() ==> r is Err && r->Err_0 == DictError::InvalidIndex,
            entry_idx < self.entries@.len() ==> {
                let e = self.entries@[entry_idx as int];
                r is Ok && r->Ok_0.0@ == e.word@ && r->Ok_0.1@ == e.source@
            },
    {
        if entry_idx >= self.entries.len() {
            return Err(DictError::InvalidIndex);
        }
        let e = &self.entries[entry_idx];
        Ok((e.word.clone(), e.source.clone()))
    }

    /// What a browser preview of an entry needs: its display word and the
    /// asset directory of its source.
    pub fn entry_web_context(&self, entry_idx: usize) -> (r: Result<(String, String), DictError>)
        ensures
            entry_idx >= self.entries@.len() ==> r is Err && r->Err_0 == DictError::InvalidIndex,
            entry_idx < self.entries@.len() ==> {
                let e = self.entries@[entry_idx as int];
                if (e.dict_idx as int) < self.sources@.len() {
                    r is Ok && r->Ok_0.0@ == e.word@ && r->Ok_0.1@
                        == self.sources@[e.dict_idx as int].asset_dir@
                } else {
                    r is Err && r->Err_0 == DictError::InvalidIndex
                }
            },
    {
        if entry_idx >= self.entries.len() {
            return Err(DictError::InvalidIndex);
        }
        let e = &self.entries[entry_idx];
        if e.dict_idx >= self.sources.len() {
            return Err(DictError::InvalidIndex);
        }
        Ok((e.word.clone(), self.sources[e.dict_idx].asset_dir.clone()))
    }
}

} // verus!
