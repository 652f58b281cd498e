//! Partial, token and weighted ratios.
use crate::fuzz::{ratio, ratio_of};
use crate::fuzzywuzzy_compatible::utils::{full_process, full_process_chars, full_process_of};
use crate::normalization::{
    ascii_only, keep_ascii, lower_of, lowercase_chars, replace_non_word, sorted_token_chars,
    sorted_token_text, split_alphanumeric, Normalizer, PassthroughNormalizer,
};
use crate::primitives::{
    lemma_simple_ratio_bounded, partial_ratio_of, partial_simple_ratio,
    simple_ratio, simple_ratio_of, Score,
};
use crate::segmentation::{CodePointSegmenter, Segmenter};
use crate::utils::{
    chars_of, dedup, dedup_tokens, join_tokens, join_tokens_vec, keep_tokens, keep_tokens_vec,
    sort_tokens, sort_tokens_vec, split_whitespace, tokens, trivial_or, trivial_score,
};
use vstd::prelude::*;

verus! {

/// The partial ratio of two strings compared code point by code point: 100
/// when they are equal, 0 when exactly one is empty.
pub open spec fn partial_of(a: Seq<char>, b: Seq<char>) -> int {
    trivial_or(a, b, partial_ratio_of(a, b))
}

/// The ratio of the most similar substring: the shorter string against the
/// windows of the longer one that their matching blocks anchor.
///
/// This is not an optimal alignment, so the result may change when the
/// arguments are exchanged.
pub fn partial_ratio(a: &str, b: &str) -> (r: Score)
    ensures
        r@ == partial_of(a@, b@),
{
    let r = partial_ratio_full(a, b, PassthroughNormalizer, CodePointSegmenter);
    proof {
        if !(a@ == b@ || (a@.len() == 0) != (b@.len() == 0)) {
            let (ua, ub) = choose|ua: Seq<char>, ub: Seq<char>|
                CodePointSegmenter.segmented(a@, ua) && CodePointSegmenter.segmented(b@, ub)
                    && r@ == partial_ratio_of(ua, ub);
        }
    }
    r
}

/// The partial ratio of the segmented normal forms of `a` and `b`, with the
/// short circuits on the strings as given.
pub fn partial_ratio_full<N: Normalizer, S: Segmenter>(
    a: &str,
    b: &str,
    normalizer: N,
    segmenter: S,
) -> (r: Score)
    ensures
        a@ == b@ ==> r@ == 100,
        a@ != b@ && (a@.len() == 0) != (b@.len() == 0) ==> r@ == 0,
        a@ != b@ && (a@.len() == 0) == (b@.len() == 0) ==> exists|
            ua: Seq<S::Output>,
            ub: Seq<S::Output>,
        |
            segmenter.segmented(normalizer.spec_normalize(a@), ua) && segmenter.segmented(
                normalizer.spec_normalize(b@),
                ub,
            ) && r@ == partial_ratio_of(ua, ub),
{
    let ca = chars_of(a);
    let cb = chars_of(b);
    if let Some(t) = trivial_score(ca.as_slice(), cb.as_slice()) {
        return Score::of(t);
    }
    let na = normalizer.normalize(a);
    let nb = normalizer.normalize(b);
    let sa = segmenter.segment(na.as_str());
    let sb = segmenter.segment(nb.as_str());
    let v = partial_simple_ratio(sa.as_slice(), sb.as_slice());
    Score::of(v)
}

/// The form in which the token-sort ratios compare a string: with
/// `full_process`, the non-ASCII code points dropped (when `force_ascii`
/// holds), non-word characters replaced by spaces and lower-cased; then its
/// whitespace-separated tokens sorted and joined by single spaces.
pub open spec fn sort_form(s: Seq<char>, force_ascii: bool, full_process: bool) -> Seq<char> {
    sorted_token_text(
        if full_process {
            lower_of(split_alphanumeric(if force_ascii { ascii_only(s) } else { s }))
        } else {
            s
        },
    )
}

/// The token-sort ratio: the ratio of the sorted forms, after the short
/// circuits on the strings as given.
pub open spec fn token_sort_of(a: Seq<char>, b: Seq<char>, force_ascii: bool, full_process: bool) -> int {
    trivial_or(a, b, ratio_of(sort_form(a, force_ascii, full_process), sort_form(b, force_ascii, full_process)))
}

/// The partial token-sort ratio: the partial ratio of the sorted forms,
/// after the short circuits on the strings as given.
pub open spec fn partial_token_sort_of(
    a: Seq<char>,
    b: Seq<char>,
    force_ascii: bool,
    full_process: bool,
) -> int {
    trivial_or(a, b, partial_of(sort_form(a, force_ascii, full_process), sort_form(b, force_ascii, full_process)))
}

fn sort_form_chars(s: &[char], force_ascii: bool, full_process: bool) -> (r: Vec<char>)
    ensures
        r@ == sort_form(s@, force_ascii, full_process),
{
    if full_process {
        let kept = if force_ascii {
            keep_ascii(s)
        } else {
            vstd::slice::slice_to_vec(s)
        };
        let split = replace_non_word(kept.as_slice());
        let lowered = lowercase_chars(split.as_slice());
        sorted_token_chars(lowered.as_slice())
    } else {
        sorted_token_chars(s)
    }
}

/// The token-sort ratio, simple (or, with `partial`, partial), of two
/// strings given as code points.
fn token_sort_chars(a: &[char], b: &[char], partial: bool, force_ascii: bool, full_process: bool) -> (r: u8)
    ensures
        !partial ==> r == token_sort_of(a@, b@, force_ascii, full_process),
        partial ==> r == partial_token_sort_of(a@, b@, force_ascii, full_process),
        r <= 100,
{
    if let Some(t) = trivial_score(a, b) {
        return t;
    }
    let fa = sort_form_chars(a, force_ascii, full_process);
    let fb = sort_form_chars(b, force_ascii, full_process);
    pair_score_chars(fa.as_slice(), fb.as_slice(), partial)
}

/// The ratio of the strings with their tokens sorted: with `full_process`,
/// non-ASCII code points are dropped first (when `force_ascii` holds), other
/// non-word characters become spaces and letters are lower-cased; the
/// whitespace-separated tokens are then sorted and joined by single spaces.
pub fn token_sort_ratio(a: &str, b: &str, force_ascii: bool, full_process: bool) -> (r: Score)
    ensures
        r@ == token_sort_of(a@, b@, force_ascii, full_process),
{
    let ca = chars_of(a);
    let cb = chars_of(b);
    Score::of(token_sort_chars(ca.as_slice(), cb.as_slice(), false, force_ascii, full_process))
}

/// The partial ratio of the strings with their tokens sorted, processed as
/// in `token_sort_ratio`.
pub fn partial_token_sort_ratio(a: &str, b: &str, force_ascii: bool, full_process: bool) -> (r:
    Score)
    ensures
        r@ == partial_token_sort_of(a@, b@, force_ascii, full_process),
{
    let ca = chars_of(a);
    let cb = chars_of(b);
    Score::of(token_sort_chars(ca.as_slice(), cb.as_slice(), true, force_ascii, full_process))
}

/// Quick ratio: the token-sort ratio with full processing.
pub fn qratio(a: &str, b: &str, force_ascii: bool) -> (r: Score)
    ensures
        r@ == token_sort_of(a@, b@, force_ascii, true),
{
    token_sort_ratio(a, b, force_ascii, true)
}

/// Quick ratio without dropping non-ASCII code points.
pub fn uqratio(s1: &str, s2: &str) -> (r: Score)
    ensures
        r@ == token_sort_of(s1@, s2@, false, true),
{
    qratio(s1, s2, false)
}

/// The intersection text followed, when `rest` is not empty, by a space and
/// `rest`.
pub open spec fn with_rest(inter: Seq<char>, rest: Seq<char>) -> Seq<char> {
    if rest.len() > 0 {
        inter + seq![' '] + rest
    } else {
        inter
    }
}

/// The ratio (or, with `partial`, the partial ratio) of two strings.
pub open spec fn pair_score(x: Seq<char>, y: Seq<char>, partial: bool) -> int {
    if partial {
        partial_of(x, y)
    } else {
        ratio_of(x, y)
    }
}

/// The largest of three integers.
pub open spec fn max3(x: int, y: int, z: int) -> int {
    if x >= y && x >= z {
        x
    } else if y >= z {
        y
    } else {
        z
    }
}

/// The three texts that the token-set ratios compare: the sorted tokens
/// common to both, then that text extended by the sorted tokens only in the
/// first, and by those only in the second.
pub open spec fn token_set_texts(pa: Seq<char>, pb: Seq<char>) -> (Seq<char>, Seq<char>, Seq<char>) {
    let t1 = tokens(pa);
    let t2 = tokens(pb);
    let u1 = dedup(sort_tokens(t1));
    let u2 = dedup(sort_tokens(t2));
    let inter = join_tokens(keep_tokens(u1, t2, true));
    let c1 = with_rest(inter, join_tokens(keep_tokens(u1, t2, false)));
    let c2 = with_rest(inter, join_tokens(keep_tokens(u2, t1, false)));
    (inter, c1, c2)
}

/// The token-set ratio: the best pairwise score of the three token-set
/// texts of the (processed, with `full_process`) strings, with the short
/// circuits on the strings as given.
pub open spec fn token_set_of(
    s1: Seq<char>,
    s2: Seq<char>,
    partial: bool,
    force_ascii: bool,
    full_process: bool,
) -> int {
    let pa = if full_process { full_process_of(s1, force_ascii) } else { s1 };
    let pb = if full_process { full_process_of(s2, force_ascii) } else { s2 };
    let (inter, c1, c2) = token_set_texts(pa, pb);
    trivial_or(
        s1,
        s2,
        max3(pair_score(inter, c1, partial), pair_score(inter, c2, partial), pair_score(c1, c2, partial)),
    )
}

fn pair_score_chars(x: &[char], y: &[char], partial: bool) -> (r: u8)
    ensures
        r == pair_score(x@, y@, partial),
        r <= 100,
{
    if let Some(t) = trivial_score(x, y) {
        return t;
    }
    if partial {
        partial_simple_ratio(x, y)
    } else {
        proof {
            lemma_simple_ratio_bounded(x@, y@);
        }
        simple_ratio(x, y)
    }
}

fn extended(inter: &Vec<char>, rest: &Vec<char>) -> (r: Vec<char>)
    ensures
        r@ == with_rest(inter@, rest@),
{
    let mut r = inter.clone();
    assert(r@ == inter@);
    if rest.len() > 0 {
        r.push(' ');
        crate::utils::push_all(&mut r, rest.as_slice());
    }
    r
}

/// Scores the token sets of two strings: the sorted intersection of their
/// tokens, and the intersection followed by the tokens only in the first
/// (and only in the second), scored pairwise; the best score is returned.
fn token_set(s1: &str, s2: &str, partial: bool, force_ascii: bool, full_process: bool) -> (r: u8)
    ensures
        r == token_set_of(s1@, s2@, partial, force_ascii, full_process),
        r <= 100,
{
    let c1 = chars_of(s1);
    let c2 = chars_of(s2);
    if let Some(t) = trivial_score(c1.as_slice(), c2.as_slice()) {
        return t;
    }
    let (pa, pb) = if full_process {
        (full_process_chars(c1.as_slice(), force_ascii), full_process_chars(c2.as_slice(), force_ascii))
    } else {
        (c1, c2)
    };
    let t1 = split_whitespace(pa.as_slice());
    let t2 = split_whitespace(pb.as_slice());
    let u1 = dedup_tokens(sort_tokens_vec(&t1));
    let u2 = dedup_tokens(sort_tokens_vec(&t2));
    let inter = join_tokens_vec(&keep_tokens_vec(&u1, &t2, true));
    let d1 = join_tokens_vec(&keep_tokens_vec(&u1, &t2, false));
    let d2 = join_tokens_vec(&keep_tokens_vec(&u2, &t1, false));
    let comb1 = extended(&inter, &d1);
    let comb2 = extended(&inter, &d2);
    let x = pair_score_chars(inter.as_slice(), comb1.as_slice(), partial);
    let y = pair_score_chars(inter.as_slice(), comb2.as_slice(), partial);
    let z = pair_score_chars(comb1.as_slice(), comb2.as_slice(), partial);
    if x >= y && x >= z {
        x
    } else if y >= z {
        y
    } else {
        z
    }
}

/// The token-set ratio: see `token_set`; pairs are scored with `ratio`.
pub fn token_set_ratio(s1: &str, s2: &str, force_ascii: bool, full_process: bool) -> (r: u8)
    ensures
        r == token_set_of(s1@, s2@, false, force_ascii, full_process),
        r <= 100,
{
    token_set(s1, s2, false, force_ascii, full_process)
}

/// The partial token-set ratio: see `token_set`; pairs are scored with
/// `partial_ratio`.
pub fn partial_token_set_ratio(s1: &str, s2: &str, force_ascii: bool, full_process: bool) -> (r:
    u8)
    ensures
        r == token_set_of(s1@, s2@, true, force_ascii, full_process),
        r <= 100,
{
    token_set(s1, s2, true, force_ascii, full_process)
}

/// The largest of four integers.
pub open spec fn max4(w: int, x: int, y: int, z: int) -> int {
    let m = max3(w, x, y);
    if m >= z {
        m
    } else {
        z
    }
}

/// `m` thousandths rounded to the nearest integer, halves up.
pub open spec fn round_thousandths(m: int) -> int {
    (m + 500) / 1000
}

/// The weighted ratio of the processed strings `pa` and `pb`, both non-empty.
///
/// With `l` the longer length over the shorter: below 1.5 the best of the
/// ratio and 0.95 times the token-sort and token-set ratios; otherwise the
/// best of the ratio, `w` times the partial ratio and `0.95 * w` times the
/// partial token-sort and token-set ratios, where `w` is 0.6 when `l`
/// exceeds 8 and 0.9 otherwise. The best value is rounded, halves up.
pub open spec fn weighted_processed(pa: Seq<char>, pb: Seq<char>) -> int {
    let base = ratio_of(pa, pb);
    let mx = if pa.len() >= pb.len() { pa.len() } else { pb.len() };
    let mn = if pa.len() >= pb.len() { pb.len() } else { pa.len() };
    if 2 * mx < 3 * mn {
        round_thousandths(
            max3(1000 * base, 950 * token_sort_of(pa, pb, true, false), 950 * token_set_of(pa, pb, false, true, false)),
        )
    } else {
        let w: int = if mx > 8 * mn { 600 } else { 900 };
        let tw: int = if mx > 8 * mn { 570 } else { 855 };
        round_thousandths(
            max4(
                1000 * base,
                w * partial_of(pa, pb),
                tw * partial_token_sort_of(pa, pb, true, false),
                tw * token_set_of(pa, pb, true, true, false),
            ),
        )
    }
}

/// The weighted ratio: the strings are processed (with `full_process`); if
/// either is then empty the score is 0, otherwise `weighted_processed`.
pub open spec fn weighted_of(s1: Seq<char>, s2: Seq<char>, force_ascii: bool, full_process: bool) -> int {
    let pa = if full_process { full_process_of(s1, force_ascii) } else { s1 };
    let pb = if full_process { full_process_of(s2, force_ascii) } else { s2 };
    if pa.len() == 0 || pb.len() == 0 {
        0
    } else {
        weighted_processed(pa, pb)
    }
}

/// The weighted ratio of two strings, a blend of the other scorers chosen by
/// how their lengths compare.
///
/// 1. With `full_process`, both strings are processed as by `full_process`;
///    if either is then empty, the score is 0 (also for two empty strings).
/// 2. `base` is the ratio of the two.
/// 3. When the longer is less than 1.5 times as long as the shorter (in code
///    points), the result is the best of `base` and 0.95 times the
///    token-sort and token-set ratios.
/// 4. Otherwise the partial scorers are used, weighted by 0.6 when the longer
///    is over 8 times as long, else by 0.9: the best of `base`, the weighted
///    partial ratio, and the weighted partial token-sort and token-set ratios
///    times 0.95.
///
/// The best value is rounded to the nearest integer, halves up.
pub fn wratio(s1: &str, s2: &str, force_ascii: bool, full_process: bool) -> (r: u8)
    ensures
        r == weighted_of(s1@, s2@, force_ascii, full_process),
        r <= 100,
{
    let (pa, pb) = if full_process {
        (crate::fuzzywuzzy_compatible::utils::full_process(s1, force_ascii), crate::fuzzywuzzy_compatible::utils::full_process(s2, force_ascii))
    } else {
        (String::from_str(s1), String::from_str(s2))
    };
    let a = pa.as_str();
    let b = pb.as_str();
    let l1 = a.unicode_len() as u128;
    let l2 = b.unicode_len() as u128;
    if l1 == 0 || l2 == 0 {
        return 0;
    }
    let base = ratio(a, b).score() as u128;
    let mx = if l1 >= l2 {
        l1
    } else {
        l2
    };
    let mn = if l1 >= l2 {
        l2
    } else {
        l1
    };
    if 2 * mx < 3 * mn {
        let tsor = token_sort_ratio(a, b, true, false).score() as u128;
        let tser = token_set_ratio(a, b, true, false) as u128;
        let x = 1000 * base;
        let y = 950 * tsor;
        let z = 950 * tser;
        let m = if x >= y && x >= z {
            x
        } else if y >= z {
            y
        } else {
            z
        };
        return ((m + 500) / 1000) as u8;
    }
    let w: u128 = if mx > 8 * mn {
        600
    } else {
        900
    };
    let tw: u128 = if mx > 8 * mn {
        570
    } else {
        855
    };
    let partial = partial_ratio(a, b).score() as u128;
    let ptsor = partial_token_sort_ratio(a, b, true, false).score() as u128;
    let ptser = partial_token_set_ratio(a, b, true, false) as u128;
    let v = 1000 * base;
    let x = w * partial;
    let y = tw * ptsor;
    let z = tw * ptser;
    let m3 = if v >= x && v >= y {
        v
    } else if x >= y {
        x
    } else {
        y
    };
    let m = if m3 >= z {
        m3
    } else {
        z
    };
    ((m + 500) / 1000) as u8
}

/// The weighted ratio without dropping non-ASCII code points.
pub fn uwratio(s1: &str, s2: &str, full_process: bool) -> (r: u8)
    ensures
        r == weighted_of(s1@, s2@, false, full_process),
        r <= 100,
{
    wratio(s1, s2, false, full_process)
}

/// The weighted ratio of a string with itself is 100, unless processing
/// leaves it empty (then it is 0).
pub proof fn lemma_wratio_reflexive(s: Seq<char>, force_ascii: bool, full_process: bool)
    requires
        (if full_process { full_process_of(s, force_ascii) } else { s }).len() > 0,
    ensures
        weighted_of(s, s, force_ascii, full_process) == 100,
{
    let p = if full_process { full_process_of(s, force_ascii) } else { s };
    assert(ratio_of(p, p) == 100);
    assert(token_sort_of(p, p, true, false) == 100);
    assert(token_set_of(p, p, false, true, false) == 100);
}

} // verus!
