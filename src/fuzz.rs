//! Whole-string similarity ratio, with pluggable normalization and
//! segmentation.
use crate::normalization::{Normalizer, PassthroughNormalizer};
use crate::primitives::{
    lemma_simple_ratio_bounded, lemma_simple_ratio_commutative, lemma_simple_ratio_reflexive,
    simple_ratio, simple_ratio_of, Score,
};
use crate::segmentation::{CodePointSegmenter, Segmenter};
use crate::utils::{chars_of, trivial_or, trivial_score};
use vstd::prelude::*;

verus! {

pub use crate::fuzzywuzzy_compatible::fuzz::{partial_ratio, partial_ratio_full};

/// The ratio of two strings compared code point by code point: 100 when they
/// are equal, 0 when exactly one is empty, their simple ratio otherwise.
pub open spec fn ratio_of(a: Seq<char>, b: Seq<char>) -> int {
    trivial_or(a, b, simple_ratio_of(a, b))
}

/// Returns twice the number of code points in matching blocks over the
/// number of code points in both strings, as a score from 0 to 100.
///
/// For `"cd"` and `"abcd"` the score is 67.
pub fn ratio(a: &str, b: &str) -> (r: Score)
    ensures
        r@ == ratio_of(a@, b@),
{
    let r = ratio_full(a, b, PassthroughNormalizer, CodePointSegmenter);
    proof {
        if !(a@ == b@ || (a@.len() == 0) != (b@.len() == 0)) {
            let (ua, ub) = choose|ua: Seq<char>, ub: Seq<char>|
                CodePointSegmenter.segmented(a@, ua) && CodePointSegmenter.segmented(b@, ub)
                    && r@ == simple_ratio_of(ua, ub);
        }
    }
    r
}

/// The simple ratio of the segmented normal forms of `a` and `b`, with the
/// short circuits on the strings as given: 100 when they are equal, 0 when
/// exactly one is empty.
pub fn ratio_full<N: Normalizer, S: Segmenter>(a: &str, b: &str, normalizer: N, segmenter: S) -> (r:
    Score)
    ensures
        a@ == b@ ==> r@ == 100,
        a@ != b@ && (a@.len() == 0) != (b@.len() == 0) ==> r@ == 0,
        a@ != b@ && (a@.len() == 0) == (b@.len() == 0) ==> exists|
            ua: Seq<S::Output>,
            ub: Seq<S::Output>,
        |
            segmenter.segmented(normalizer.spec_normalize(a@), ua) && segmenter.segmented(
                normalizer.spec_normalize(b@),
                ub,
            ) && r@ == simple_ratio_of(ua, ub),
{
    let ca = chars_of(a);
    let cb = chars_of(b);
    if let Some(t) = trivial_score(ca.as_slice(), cb.as_slice()) {
        return Score::of(t);
    }
    let na = normalizer.normalize(a);
    let nb = normalizer.normalize(b);
    let sa = segmenter.segment(na.as_str());
    let sb = segmenter.segment(nb.as_str());
    let v = simple_ratio(sa.as_slice(), sb.as_slice());
    proof {
        lemma_simple_ratio_bounded(sa@, sb@);
    }
    Score::of(v)
}

/// Any string compared with itself scores 100, and so does its simple ratio
/// with itself.
pub proof fn lemma_ratio_reflexive(s: Seq<char>)
    requires
        s.len() <= usize::MAX,
    ensures
        ratio_of(s, s) == 100,
        simple_ratio_of(s, s) == 100,
{
    lemma_simple_ratio_reflexive(s);
}

/// The ratio does not depend on the order of its arguments when their
/// lengths differ. (With equal lengths it may: `"cbbbbb"` against
/// `"babbcb"` scores otherwise than the reverse.)
pub proof fn lemma_ratio_commutative(a: Seq<char>, b: Seq<char>)
    requires
        a.len() != b.len(),
    ensures
        ratio_of(a, b) == ratio_of(b, a),
{
    lemma_simple_ratio_commutative(a, b);
}

} // verus!
