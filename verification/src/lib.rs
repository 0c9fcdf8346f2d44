//! Term-frequency and document-frequency statistics over short texts of one
//! script, with the normalisation of the source labels that documents carry.

pub mod counts;
pub mod explode;
pub mod filter;
pub mod fold;
pub mod ranking;
pub mod source;
pub mod tally;
pub mod text;
pub mod tokens;

pub use counts::{new_hash_map, TermCounts, WordCounts};
pub use explode::{lines_of, matching_words, word_set};
pub use filter::{meets_thresholds, retain_frequent};
pub use fold::{add_counts, count, folder, try_add_counts, try_fold_documents, try_fold_text};
pub use ranking::{by_descending_count, descending_key, try_simplify_counts};
pub use source::{is_eligible, simplify_source, Document};
pub use tokens::{tokenize, Block};
