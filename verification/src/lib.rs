//! Incremental dictionary search over a static, in-memory corpus.
//!
//! The corpus is a lexicographically sorted list of `(word, definition
//! handle)` entries assembled once at startup. Queries are answered by a
//! tiered match engine — exact matches, then prefix matches, then substring
//! matches — and accelerated by a bounded query-result cache that rescans
//! the result of the longest cached prefix of a query instead of the whole
//! corpus. Resolved definition texts live in a second bounded cache keyed by
//! the structural identity of the item, not its corpus position. Both caches
//! evict in insertion order and never refresh a key's position.
//!
//! - [`dictionary`]: the corpus, its construction, and the match engine;
//! - [`cache`]: the two bounded insertion-order caches;
//! - [`session`]: the keystroke-driven session state;
//! - [`text`]: character-level string primitives and the trimming and
//!   case-folding the corpus and queries go through;
//! - [`laws`]: the proved laws — tier partition, prefix-narrowing
//!   completeness, idempotence, and the eviction discipline.

pub mod cache;
pub mod dictionary;
pub mod laws;
pub mod session;
pub mod text;
