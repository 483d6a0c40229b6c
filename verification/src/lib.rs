//! A ternary search tree: an associative container keyed by strings.
//!
//! Besides exact lookup, the tree supports four ordered retrieval modes,
//! each served through a double-ended cursor over the matching keys:
//! full lexicographic enumeration, prefix-restricted enumeration,
//! fixed-length fuzzy retrieval bounded by a mismatch budget, and
//! fixed-length wildcard pattern retrieval.

mod cursor;
mod laws;
mod order;
mod tree;

pub use laws::lemma_insert_then_get;
pub use laws::lemma_overwrite;
pub use laws::lemma_remove_then_get;
pub use laws::lemma_remove_then_reinsert;
pub use order::hamming;
pub use order::lemma_sorted_unique;
pub use order::lex_lt;
pub use order::strictly_sorted;
pub use order::wild_match;
pub use cursor::Cursor;
pub use cursor::Direction;
pub use tree::Tst;
pub use tree::lemma_view_finite;
