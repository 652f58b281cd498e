//! The classic fuzzy-matching scorers on code points: partial, token-sort,
//! token-set and weighted ratios, the default processing of strings, and
//! extraction and deduplication built on them.
pub mod fuzz;
pub mod string_processing;
pub mod utils;
pub mod process;
