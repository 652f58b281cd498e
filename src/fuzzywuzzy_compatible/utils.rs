//! The default processing of strings before they are scored.
use crate::normalization::{ascii_only, keep_ascii, lower_of, lowercase_chars, replace_non_word, split_alphanumeric};
use crate::utils::{chars_of, string_of, trim, trim_chars};
use vstd::prelude::*;

verus! {

/// `s` with the non-ASCII code points removed when `force_ascii` holds,
/// then every character that is not a word character replaced by a space,
/// lower-cased, and trimmed of whitespace at both ends.
pub open spec fn full_process_of(s: Seq<char>, force_ascii: bool) -> Seq<char> {
    trim(lower_of(split_alphanumeric(if force_ascii { ascii_only(s) } else { s })))
}

/// The ASCII code points of `s`, in order.
pub fn asciionly(s: &str) -> (r: String)
    ensures
        r@ == ascii_only(s@),
{
    let c = chars_of(s);
    string_of(keep_ascii(c.as_slice()).as_slice())
}

/// The code points of the default processing of `s`.
pub(crate) fn full_process_chars(s: &[char], force_ascii: bool) -> (r: Vec<char>)
    ensures
        r@ == full_process_of(s@, force_ascii),
{
    let kept = if force_ascii {
        keep_ascii(s)
    } else {
        vstd::slice::slice_to_vec(s)
    };
    let split = replace_non_word(kept.as_slice());
    let lowered = lowercase_chars(split.as_slice());
    trim_chars(lowered.as_slice())
}

/// Processes a string for scoring: with `force_ascii`, drops the non-ASCII
/// code points first; then replaces what is not a letter, a digit or `'_'` by
/// spaces, lower-cases, and trims whitespace.
pub fn full_process(s: &str, force_ascii: bool) -> (r: String)
    ensures
        r@ == full_process_of(s@, force_ascii),
{
    let c = chars_of(s);
    string_of(full_process_chars(c.as_slice(), force_ascii).as_slice())
}

} // verus!
