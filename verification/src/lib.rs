//! Case-insensitive substring matching with a ranked search over a list of
//! candidate strings.
//!
//! A pattern matches a candidate when the uppercase form of the pattern occurs
//! as a contiguous run of bytes in the uppercase form of the candidate. The
//! quality of a match is the exact fraction `(100 * P - I) / S`, where `P` and
//! `S` are the byte lengths of the two uppercase forms and `I` is the byte
//! offset of the leftmost occurrence.

pub mod matching;
pub mod ranking;
pub mod score;
pub mod substring;

pub use crate::matching::{fuzzy_match, score_bytes};
pub use crate::ranking::{fuzzy_search, insert_ranked, FuzzySearchResult, Hit};
pub use crate::score::{Measure, Score};
pub use crate::substring::find_first;
