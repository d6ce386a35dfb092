//! A fuzzy dictionary-membership checker.
//!
//! A word list is indexed in a prefix tree (trie). The checker answers
//! whether a word is known (`is_typo`) and, for unknown words, proposes
//! nearby known words found by a depth-first search over the trie that is
//! bounded by an edit budget (`typo_suggestions`). Only substitutions and
//! trailing appends are modelled as edits; mid-word insertions and
//! deletions are deliberately not.

pub mod norm;
pub mod trie;
pub mod vec_checker;

pub use norm::normalize;
pub use norm::letters_only;
pub use norm::is_valid_query;
pub use trie::TrieTypoChecker;
pub use vec_checker::VecTypoChecker;
