//! Segmenters: how a string is split into the units that are compared
//! (bytes, code points, whitespace tokens, grapheme clusters, word
//! boundaries).
use crate::primitives::Unit;
use crate::utils::{chars_of, sort_tokens, sort_tokens_vec, split_whitespace, string_of, tokens, views};
use unicode_segmentation::UnicodeSegmentation;
use vstd::prelude::*;
use vstd::utf8::encode_utf8;

verus! {

/// The extended grapheme clusters of `s`, in order.
pub uninterp spec fn graphemes_of(s: Seq<char>) -> Seq<Seq<char>>;

/// The pieces of `s` between Unicode word boundaries, in order.
pub uninterp spec fn word_bounds_of(s: Seq<char>) -> Seq<Seq<char>>;

/// The views of a sequence of strings.
pub open spec fn string_views(v: Seq<String>) -> Seq<Seq<char>> {
    v.map_values(|t: String| t@)
}

/// Relies on `UnicodeSegmentation::graphemes` (extended clusters) of
/// unicode-segmentation.
#[verifier::external_body]
fn graphemes(s: &str) -> (r: Vec<String>)
    ensures
        string_views(r@) == graphemes_of(s@),
{
    s.graphemes(true).map(|g| g.to_string()).collect()
}

/// Relies on `UnicodeSegmentation::split_word_bounds` of
/// unicode-segmentation.
#[verifier::external_body]
fn split_word_bounds(s: &str) -> (r: Vec<String>)
    ensures
        string_views(r@) == word_bounds_of(s@),
{
    s.split_word_bounds().map(|g| g.to_string()).collect()
}

/// A strategy for splitting a string into units of comparison.
pub trait Segmenter {
    /// The unit of comparison.
    type Output: Unit;

    /// `units` is how this strategy splits `s`.
    spec fn segmented(&self, s: Seq<char>, units: Seq<Self::Output>) -> bool;

    fn segment(&self, s: &str) -> (r: Vec<Self::Output>)
        ensures
            self.segmented(s@, r@),
    ;
}

fn strings_of(t: Vec<Vec<char>>) -> (r: Vec<String>)
    ensures
        string_views(r@) == views(t@),
{
    let mut r: Vec<String> = Vec::new();
    let mut i: usize = 0;
    while i < t.len()
        invariant
            i <= t@.len(),
            string_views(r@) == views(t@.take(i as int)),
        decreases t@.len() - i,
    {
        let ghost pre = r@;
        let x = string_of(t[i].as_slice());
        r.push(x);
        assert(r@ == pre.push(x));
        assert(t@.take(i + 1) == t@.take(i as int).push(t@[i as int]));
        assert(string_views(r@) =~= string_views(pre).push(x@));
        assert(views(t@.take(i + 1)) =~= views(t@.take(i as int)).push(t@[i as int]@));
        i = i + 1;
    }
    assert(t@.take(t@.len() as int) =~= t@);
    r
}

/// Splits strings into the bytes of their UTF-8 encoding.
pub struct ByteSegmenter;

impl Segmenter for ByteSegmenter {
    type Output = u8;

    open spec fn segmented(&self, s: Seq<char>, units: Seq<u8>) -> bool {
        units == encode_utf8(s)
    }

    fn segment(&self, s: &str) -> (r: Vec<u8>) {
        vstd::slice::slice_to_vec(s.as_bytes())
    }
}

/// Splits strings into their code points.
pub struct CodePointSegmenter;

impl Segmenter for CodePointSegmenter {
    type Output = char;

    open spec fn segmented(&self, s: Seq<char>, units: Seq<char>) -> bool {
        units == s
    }

    fn segment(&self, s: &str) -> (r: Vec<char>) {
        chars_of(s)
    }
}

/// Splits strings into their whitespace-separated tokens.
pub struct WhitespaceSegmenter;

impl Segmenter for WhitespaceSegmenter {
    type Output = String;

    open spec fn segmented(&self, s: Seq<char>, units: Seq<String>) -> bool {
        string_views(units) == tokens(s)
    }

    fn segment(&self, s: &str) -> (r: Vec<String>) {
        let c = chars_of(s);
        strings_of(split_whitespace(c.as_slice()))
    }
}

/// Splits strings into their whitespace-separated tokens, sorted
/// lexicographically.
pub struct SortedWhitespaceSegmenter;

impl Segmenter for SortedWhitespaceSegmenter {
    type Output = String;

    open spec fn segmented(&self, s: Seq<char>, units: Seq<String>) -> bool {
        string_views(units) == sort_tokens(tokens(s))
    }

    fn segment(&self, s: &str) -> (r: Vec<String>) {
        let c = chars_of(s);
        strings_of(sort_tokens_vec(&split_whitespace(c.as_slice())))
    }
}

/// Splits strings into their extended grapheme clusters.
pub struct GraphemeSegmenter;

impl Segmenter for GraphemeSegmenter {
    type Output = String;

    open spec fn segmented(&self, s: Seq<char>, units: Seq<String>) -> bool {
        string_views(units) == graphemes_of(s)
    }

    fn segment(&self, s: &str) -> (r: Vec<String>) {
        graphemes(s)
    }
}

/// Splits strings at their Unicode word boundaries.
pub struct UnicodeWordSegmenter;

impl Segmenter for UnicodeWordSegmenter {
    type Output = String;

    open spec fn segmented(&self, s: Seq<char>, units: Seq<String>) -> bool {
        string_views(units) == word_bounds_of(s)
    }

    fn segment(&self, s: &str) -> (r: Vec<String>) {
        split_word_bounds(s)
    }
}

} // verus!
