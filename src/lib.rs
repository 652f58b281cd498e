//! Fuzzy string matching: similarity scores between 0 and 100 built on a
//! longest-matching-block alignment of segmented strings.
pub mod primitives;
pub mod utils;
pub mod normalization;
pub mod segmentation;
pub mod fuzz;
pub mod fuzzywuzzy_compatible;
pub mod process;
