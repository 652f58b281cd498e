//! String processing used before token comparisons.
use crate::normalization::{split_alphanumeric, replace_non_word};
use crate::utils::{chars_of, string_of};
use vstd::prelude::*;

verus! {

/// Replaces every character that is not a letter, a digit or `'_'` by a
/// space (one space for each such character).
pub fn replace_non_letters_non_numbers_with_whitespace(s: &str) -> (r: String)
    ensures
        r@ == split_alphanumeric(s@),
{
    let c = chars_of(s);
    string_of(replace_non_word(c.as_slice()).as_slice())
}

} // verus!
