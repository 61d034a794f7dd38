//! Fuzzy, language-aware matching of directory names.
//!
//! Given a query and a set of candidate names, the engine tolerates partial
//! input, separator and case differences, and queries typed in Latin letters
//! against names written in Chinese characters, by expanding every name into
//! its plausible pinyin renderings (including multi-pronunciation characters)
//! and matching containment first, falling back to a ranked fuzzy comparison.

pub mod chars;
pub mod strutil;
pub mod normalize;
pub mod metrics;
pub mod metric_laws;
pub mod translit;
pub mod sorting;
pub mod engine;

pub use normalize::normalize;
pub use metrics::{levenshtein_distance, longest_common_subsequence_len, longest_common_substring_len};
pub use translit::{to_pinyin_full_multi, to_pinyin_initials_multi};
pub use engine::search_workspaces;
