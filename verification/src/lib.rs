//! A statistical spelling corrector.
//!
//! A frequency table is built from raw text; a corrector then proposes, for a
//! given word, the most frequent known word within edit distance two,
//! preferring smaller edits.

pub mod corrector;
pub mod edits;
pub mod table;
pub mod words;

pub use corrector::SpellingCorrector;
pub use table::FrequencyTable;
pub use words::lex_leq;
pub use words::lex_lt;
