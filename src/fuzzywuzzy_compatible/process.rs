//! Scoring a query against many choices with the default processor and
//! scorer, and removing near duplicates from a list.
use crate::fuzzywuzzy_compatible::fuzz::{weighted_of, wratio};
use crate::fuzzywuzzy_compatible::utils::{full_process, full_process_of};
use crate::primitives::{Match, Score};
use crate::utils::{chars_of, lex_le, token_le};
use vstd::prelude::*;
use vstd::utf8::encode_utf8;

verus! {

/// The weighted ratio of the query against the choice, both fully processed
/// with non-ASCII code points dropped.
pub fn default_scorer(query: &&str, choice: String) -> (r: Score)
    ensures
        r@ == weighted_of((*query)@, choice@, true, true),
{
    Score::of(wratio(*query, choice.as_str(), true, true))
}

/// The full processing of `s`, keeping non-ASCII code points.
pub fn default_processor(s: &&str) -> (r: String)
    ensures
        r@ == full_process_of((*s)@, false),
{
    full_process(*s, false)
}

/// Scores every choice against the query: each choice is processed by
/// `default_processor` and scored by `default_scorer` against the query as
/// given. All choices are returned, in order, with their scores.
pub fn extract_without_order<'a>(query: &'a str, choices: &[&'a str]) -> (r: Vec<Match<&'a str>>)
    ensures
        r@.len() == choices@.len(),
        forall|i: int|
            0 <= i < r@.len() ==> (#[trigger] r@[i]).item == choices@[i] && r@[i].score@
                == weighted_of(query@, full_process_of(choices@[i]@, false), true, true),
{
    let mut result: Vec<Match<&'a str>> = Vec::new();
    let mut i: usize = 0;
    while i < choices.len()
        invariant
            i <= choices@.len(),
            result@.len() == i,
            forall|k: int|
                0 <= k < i ==> (#[trigger] result@[k]).item == choices@[k] && result@[k].score@
                    == weighted_of(query@, full_process_of(choices@[k]@, false), true, true),
        decreases choices@.len() - i,
    {
        let c = choices[i];
        let processed = default_processor(&c);
        let score = default_scorer(&query, processed);
        result.push(Match { item: c, score });
        i = i + 1;
    }
    result
}

/// The choices with their scores, in order, for the scores that reach
/// `cutoff`.
pub open spec fn kept_matches<B>(items: Seq<B>, scores: Seq<nat>, cutoff: nat) -> Seq<(B, nat)>
    decreases items.len(),
{
    if items.len() == 0 || scores.len() != items.len() {
        Seq::empty()
    } else if scores.last() >= cutoff {
        kept_matches(items.drop_last(), scores.drop_last(), cutoff).push((items.last(), scores.last()))
    } else {
        kept_matches(items.drop_last(), scores.drop_last(), cutoff)
    }
}

/// The items and score values of matches.
pub open spec fn match_views<B>(v: Seq<Match<&B>>) -> Seq<(B, nat)> {
    v.map_values(|m: Match<&B>| (*m.item, m.score@))
}

/// `score` is the value of a score that `scorer` gives to `choice`, passed
/// through `processor`, against `query`.
pub open spec fn scored_with<'b, A, B, C, P: Fn(&'b B) -> C, S: Fn(&A, C) -> Score>(
    processor: P,
    scorer: S,
    query: &A,
    choice: &'b B,
    score: nat,
) -> bool {
    exists|c: C, s: Score|
        #![trigger processor.ensures((choice,), c), scorer.ensures((query, c), s)]
        processor.ensures((choice,), c) && scorer.ensures((query, c), s) && s@ == score
}

/// Scores every choice, passed through `processor`, against the query with
/// `scorer`, and returns the choices whose score is at least
/// `score_cutoff`, in order, with their scores.
pub fn extract_without_order_full<'b, A, B, C, P, S>(
    query: A,
    choices: &'b [B],
    processor: P,
    scorer: S,
    score_cutoff: Score,
) -> (r: Vec<Match<&'b B>>)
    where
        P: Fn(&'b B) -> C,
        S: Fn(&A, C) -> Score,
    requires
        forall|b: &'b B| processor.requires((b,)),
        forall|a: &A, c: C| scorer.requires((a, c)),
    ensures
        exists|scores: Seq<nat>|
            #![trigger kept_matches(choices@, scores, score_cutoff@)]
            {
                &&& scores.len() == choices@.len()
                &&& forall|i: int|
                    0 <= i < scores.len() ==> scored_with(
                        processor,
                        scorer,
                        &query,
                        &choices@[i],
                        #[trigger] scores[i],
                    )
                &&& match_views(r@) == kept_matches(choices@, scores, score_cutoff@)
            },
{
    let cutoff = score_cutoff.score();
    let mut result: Vec<Match<&'b B>> = Vec::new();
    let ghost mut scores: Seq<nat> = Seq::empty();
    let mut i: usize = 0;
    while i < choices.len()
        invariant
            i <= choices@.len(),
            cutoff == score_cutoff@,
            forall|b: &'b B| processor.requires((b,)),
            forall|a: &A, c: C| scorer.requires((a, c)),
            scores.len() == i,
            forall|k: int|
                0 <= k < i ==> scored_with(processor, scorer, &query, &choices@[k], #[trigger] scores[k]),
            match_views(result@) == kept_matches(choices@.take(i as int), scores, cutoff as nat),
        decreases choices@.len() - i,
    {
        let c = &choices[i];
        let processed = processor(c);
        let ghost pc = processed;
        let score = scorer(&query, processed);
        let v = score.score();
        proof {
            assert(choices@.take(i + 1).drop_last() =~= choices@.take(i as int));
            assert(choices@.take(i + 1).last() == choices@[i as int]);
            assert(scores.push(v as nat).drop_last() =~= scores);
            assert(processor.ensures((&choices@[i as int],), pc) && scorer.ensures((&query, pc), score));
        }
        if v >= cutoff {
            let ghost pre = result@;
            result.push(Match { item: c, score });
            assert(match_views(result@) =~= match_views(pre).push((*c, v as nat)));
        }
        proof {
            scores = scores.push(v as nat);
            assert forall|k: int| 0 <= k < i + 1 implies scored_with(
                processor,
                scorer,
                &query,
                &choices@[k],
                #[trigger] scores[k],
            ) by {
                if k == i {
                    assert(scores[k] == v as nat);
                    assert(processor.ensures((&choices@[k],), pc) && scorer.ensures((&query, pc), score));
                } else {
                    assert(scores[k] == scores.drop_last()[k]);
                }
            }
        }
        i = i + 1;
    }
    assert(choices@.take(choices@.len() as int) =~= choices@);
    assert(match_views(result@) == kept_matches(choices@, scores, score_cutoff@));
    result
}

/// The length in bytes of the UTF-8 encoding of `s`, as `str::len` gives
/// it.
pub open spec fn byte_len(s: Seq<char>) -> usize {
    encode_utf8(s).len() as usize
}

/// `x` ranks above `y`: it is longer in bytes, or as long and
/// lexicographically later.
pub open spec fn ranks_above(x: Seq<char>, y: Seq<char>) -> bool {
    byte_len(x) > byte_len(y) || (byte_len(x) == byte_len(y) && !lex_le(x, y))
}

/// Of the items whose weighted ratio against `x` (as query) reaches
/// `threshold`, the one that ranks highest, if any.
pub open spec fn top_similar(items: Seq<Seq<char>>, x: Seq<char>, threshold: nat) -> Option<Seq<char>>
    decreases items.len(),
{
    if items.len() == 0 {
        None
    } else {
        let r = top_similar(items.drop_last(), x, threshold);
        let y = items.last();
        if weighted_of(x, y, true, true) >= threshold && (r is None || ranks_above(y, r->0)) {
            Some(y)
        } else {
            r
        }
    }
}

/// For each item of `items` in order, the top similar item of `all`, where
/// there is one.
pub open spec fn representatives(items: Seq<Seq<char>>, all: Seq<Seq<char>>, threshold: nat) -> Seq<
    Seq<char>,
>
    decreases items.len(),
{
    if items.len() == 0 {
        Seq::empty()
    } else {
        let r = representatives(items.drop_last(), all, threshold);
        match top_similar(all, items.last(), threshold) {
            Some(y) => r.push(y),
            None => r,
        }
    }
}

/// The distinct elements of `s`, each where it first occurs.
pub open spec fn first_occurrences(s: Seq<Seq<char>>) -> Seq<Seq<char>>
    decreases s.len(),
{
    if s.len() == 0 {
        s
    } else {
        let r = first_occurrences(s.drop_last());
        if r.contains(s.last()) {
            r
        } else {
            r.push(s.last())
        }
    }
}

/// The views of a sequence of string slices.
pub open spec fn item_views(v: Seq<&str>) -> Seq<Seq<char>> {
    v.map_values(|s: &str| s@)
}

fn ranks_above_exec(x: &str, y: &str) -> (r: bool)
    ensures
        r == ranks_above(x@, y@),
{
    let lx = x.len();
    let ly = y.len();
    if lx != ly {
        lx > ly
    } else {
        let cx = chars_of(x);
        let cy = chars_of(y);
        !token_le(cx.as_slice(), cy.as_slice())
    }
}

fn top_similar_exec<'a>(items: &[&'a str], x: &str, threshold: &Score) -> (r: Option<&'a str>)
    ensures
        r matches Some(y) ==> top_similar(item_views(items@), x@, threshold@) == Some(y@),
        r is None ==> top_similar(item_views(items@), x@, threshold@) is None,
{
    let t = threshold.score();
    let mut best: Option<&'a str> = None;
    let mut j: usize = 0;
    while j < items.len()
        invariant
            j <= items@.len(),
            t == threshold@,
            best matches Some(y) ==> top_similar(item_views(items@).take(j as int), x@, t as nat)
                == Some(y@),
            best is None ==> top_similar(item_views(items@).take(j as int), x@, t as nat) is None,
        decreases items@.len() - j,
    {
        let y = items[j];
        proof {
            assert(item_views(items@).take(j + 1).drop_last() =~= item_views(items@).take(j as int));
            assert(item_views(items@).take(j + 1).last() == y@);
        }
        let score = wratio(x, y, true, true);
        if score >= t {
            match best {
                None => {
                    best = Some(y);
                },
                Some(b) => {
                    if ranks_above_exec(y, b) {
                        best = Some(y);
                    }
                },
            }
        }
        j = j + 1;
    }
    assert(item_views(items@).take(items@.len() as int) =~= item_views(items@));
    best
}

fn contains_item(v: &Vec<&str>, x: &str) -> (r: bool)
    ensures
        r == item_views(v@).contains(x@),
{
    let cx = chars_of(x);
    let mut i: usize = 0;
    while i < v.len()
        invariant
            i <= v@.len(),
            cx@ == x@,
            forall|k: int| 0 <= k < i ==> item_views(v@)[k] != x@,
        decreases v@.len() - i,
    {
        let cv = chars_of(v[i]);
        if crate::utils::chars_equal(cv.as_slice(), cx.as_slice()) {
            assert(item_views(v@)[i as int] == x@);
            return true;
        }
        i = i + 1;
    }
    false
}

/// Removes near duplicates: each item is replaced by the highest ranking
/// item (longest in bytes, then lexicographically last) among those whose
/// weighted ratio against it reaches `threshold`, and of the replacements
/// each distinct one is kept where it first occurs.
pub fn dedupe<'a>(items: &[&'a str], threshold: Score) -> (r: Vec<&'a str>)
    ensures
        item_views(r@) == first_occurrences(
            representatives(item_views(items@), item_views(items@), threshold@),
        ),
{
    let mut reps: Vec<&'a str> = Vec::new();
    let mut i: usize = 0;
    while i < items.len()
        invariant
            i <= items@.len(),
            item_views(reps@) == representatives(
                item_views(items@).take(i as int),
                item_views(items@),
                threshold@,
            ),
        decreases items@.len() - i,
    {
        let ghost pre = reps@;
        proof {
            assert(item_views(items@).take(i + 1).drop_last() =~= item_views(items@).take(i as int));
            assert(item_views(items@).take(i + 1).last() == items@[i as int]@);
        }
        match top_similar_exec(items, items[i], &threshold) {
            Some(y) => {
                reps.push(y);
                assert(item_views(reps@) =~= item_views(pre).push(y@));
            },
            None => {},
        }
        i = i + 1;
    }
    assert(item_views(items@).take(items@.len() as int) =~= item_views(items@));
    let ghost all_reps = item_views(reps@);
    let mut result: Vec<&'a str> = Vec::new();
    let mut k: usize = 0;
    while k < reps.len()
        invariant
            k <= reps@.len(),
            all_reps == item_views(reps@),
            item_views(result@) == first_occurrences(all_reps.take(k as int)),
        decreases reps@.len() - k,
    {
        let ghost pre = result@;
        proof {
            assert(all_reps.take(k + 1).drop_last() =~= all_reps.take(k as int));
            assert(all_reps.take(k + 1).last() == reps@[k as int]@);
        }
        if !contains_item(&result, reps[k]) {
            result.push(reps[k]);
            assert(item_views(result@) =~= item_views(pre).push(reps@[k as int]@));
        }
        k = k + 1;
    }
    assert(all_reps.take(reps@.len() as int) =~= all_reps);
    result
}

} // verus!
