//! Scoring a query against many choices with a caller's processor and
//! scorer, keeping the choices whose score reaches a cutoff.
use vstd::prelude::*;

verus! {

/// A choice's text with the score that it was given.
#[derive(Clone, Debug, PartialEq, Eq, Hash)]
pub struct Score {
    text: String,
    score: u8,
}

impl View for Score {
    type V = (Seq<char>, u8);

    closed spec fn view(&self) -> (Seq<char>, u8) {
        (self.text@, self.score)
    }
}

impl Score {
    /// The text `text` with the score `score`.
    pub fn new(text: &str, score: u8) -> (r: Score)
        ensures
            r@ == (text@, score),
    {
        Score { text: String::from_str(text), score }
    }

    /// The score.
    pub fn score(&self) -> (r: u8)
        ensures
            r == self@.1,
    {
        self.score
    }

    /// The text.
    pub fn text(&self) -> (r: &str)
        ensures
            r@ == self@.0,
    {
        self.text.as_str()
    }
}

/// The views of a sequence of scored texts.
pub open spec fn score_views(v: Seq<Score>) -> Seq<(Seq<char>, u8)> {
    v.map_values(|s: Score| s@)
}

/// `score` is a score that `scorer` gives to `choice` against `query`, both
/// passed through `processor` (with `false`), the scorer being called with
/// `true, true`.
pub open spec fn scored_by<P: Fn(&str, bool) -> String, S: Fn(&str, &str, bool, bool) -> u8>(
    processor: P,
    scorer: S,
    query: &str,
    choice: &str,
    score: u8,
) -> bool {
    exists|pq: String, pc: String, qs: &str, cs: &str|
        #![trigger processor.ensures((query, false), pq), processor.ensures((choice, false), pc), scorer.ensures((qs, cs, true, true), score)]
        processor.ensures((query, false), pq) && processor.ensures((choice, false), pc) && qs@
            == pq@ && cs@ == pc@ && scorer.ensures((qs, cs, true, true), score)
}

/// The texts with their scores, in order, for the scores that reach
/// `cutoff`.
pub open spec fn kept(texts: Seq<Seq<char>>, scores: Seq<u8>, cutoff: u8) -> Seq<(Seq<char>, u8)>
    decreases texts.len(),
{
    if texts.len() == 0 || scores.len() != texts.len() {
        Seq::empty()
    } else if scores.last() >= cutoff {
        kept(texts.drop_last(), scores.drop_last(), cutoff).push((texts.last(), scores.last()))
    } else {
        kept(texts.drop_last(), scores.drop_last(), cutoff)
    }
}

/// The views of a sequence of string slices.
pub open spec fn str_views(v: Seq<&str>) -> Seq<Seq<char>> {
    v.map_values(|s: &str| s@)
}

/// Scores every choice against the query and returns, in the order of the
/// choices, those whose score is at least `score_cutoff`, with their
/// scores.
///
/// The query and each choice are passed through `processor` (with
/// `false`); the scorer is then called on the processed query and choice
/// (with `true, true`).
pub fn extract_without_order<P, S>(
    query: &str,
    choices: &[&str],
    processor: P,
    scorer: S,
    score_cutoff: u8,
) -> (r: Vec<Score>)
    where
        P: Fn(&str, bool) -> String,
        S: Fn(&str, &str, bool, bool) -> u8,
    requires
        forall|s: &str, b: bool| processor.requires((s, b)),
        forall|s: &str, t: &str, b: bool, c: bool| scorer.requires((s, t, b, c)),
    ensures
        exists|scores: Seq<u8>|
            #![trigger kept(str_views(choices@), scores, score_cutoff)]
            {
                &&& scores.len() == choices@.len()
                &&& forall|i: int|
                    0 <= i < scores.len() ==> scored_by(
                        processor,
                        scorer,
                        query,
                        #[trigger] choices@[i],
                        scores[i],
                    )
                &&& score_views(r@) == kept(str_views(choices@), scores, score_cutoff)
            },
{
    let processed_query = processor(query, false);
    let pq = processed_query.as_str();
    let mut results: Vec<Score> = Vec::new();
    let ghost mut scores: Seq<u8> = Seq::empty();
    let mut i: usize = 0;
    while i < choices.len()
        invariant
            i <= choices@.len(),
            forall|s: &str, b: bool| processor.requires((s, b)),
            forall|s: &str, t: &str, b: bool, c: bool| scorer.requires((s, t, b, c)),
            processor.ensures((query, false), processed_query),
            pq@ == processed_query@,
            scores.len() == i,
            forall|k: int|
                0 <= k < i ==> scored_by(processor, scorer, query, #[trigger] choices@[k], scores[k]),
            score_views(results@) == kept(str_views(choices@).take(i as int), scores, score_cutoff),
        decreases choices@.len() - i,
    {
        let choice = choices[i];
        let processed = processor(choice, false);
        let ps = processed.as_str();
        let score = scorer(pq, ps, true, true);
        proof {
            assert(scored_by(processor, scorer, query, choice, score));
            assert(str_views(choices@).take(i + 1).drop_last() =~= str_views(choices@).take(i as int));
            assert(str_views(choices@).take(i + 1).last() == choice@);
            assert(scores.push(score).drop_last() =~= scores);
        }
        if score >= score_cutoff {
            let ghost pre = results@;
            let item = Score::new(choice, score);
            results.push(item);
            assert(score_views(results@) =~= score_views(pre).push(item@));
        }
        proof {
            scores = scores.push(score);
        }
        i = i + 1;
    }
    assert(str_views(choices@).take(choices@.len() as int) =~= str_views(choices@));
    results
}

/// The position of the first entry with the highest score (0 when there is
/// none).
pub open spec fn first_best(s: Seq<(Seq<char>, u8)>) -> int
    decreases s.len(),
{
    if s.len() <= 1 {
        0
    } else {
        let i = first_best(s.drop_last());
        if s.last().1 > s[i].1 {
            s.len() - 1
        } else {
            i
        }
    }
}

proof fn lemma_first_best_in_range(s: Seq<(Seq<char>, u8)>)
    ensures
        s.len() > 0 ==> 0 <= first_best(s) < s.len(),
    decreases s.len(),
{
    if s.len() > 1 {
        lemma_first_best_in_range(s.drop_last());
    }
}

/// The best choice that `extract_without_order` keeps: the first of those
/// with the highest score, or `None` when it keeps none.
pub fn extract_one<P, S>(
    query: &str,
    choices: &[&str],
    processor: P,
    scorer: S,
    score_cutoff: u8,
) -> (r: Option<Score>)
    where
        P: Fn(&str, bool) -> String,
        S: Fn(&str, &str, bool, bool) -> u8,
    requires
        forall|s: &str, b: bool| processor.requires((s, b)),
        forall|s: &str, t: &str, b: bool, c: bool| scorer.requires((s, t, b, c)),
    ensures
        exists|scores: Seq<u8>|
            #![trigger kept(str_views(choices@), scores, score_cutoff)]
            {
                &&& scores.len() == choices@.len()
                &&& forall|i: int|
                    0 <= i < scores.len() ==> scored_by(
                        processor,
                        scorer,
                        query,
                        #[trigger] choices@[i],
                        scores[i],
                    )
                &&& ({
                    let k = kept(str_views(choices@), scores, score_cutoff);
                    &&& (r is None <==> k.len() == 0)
                    &&& (r matches Some(s) ==> s@ == k[first_best(k)])
                })
            },
{
    let best = extract_without_order(query, choices, processor, scorer, score_cutoff);
    if best.len() == 0 {
        return None;
    }
    let ghost v = score_views(best@);
    let mut b: usize = 0;
    let mut i: usize = 1;
    while i < best.len()
        invariant
            1 <= i <= best@.len(),
            v == score_views(best@),
            b == first_best(v.take(i as int)),
            b < i,
        decreases best@.len() - i,
    {
        proof {
            lemma_first_best_in_range(v.take(i as int));
            assert(v.take(i + 1).drop_last() =~= v.take(i as int));
            assert(v.take(i + 1)[b as int] == v[b as int]);
            assert(v.take(i + 1).last() == v[i as int]);
        }
        if best[i].score() > best[b].score() {
            b = i;
        }
        i = i + 1;
    }
    assert(v.take(best@.len() as int) =~= v);
    Some(Score::new(best[b].text(), best[b].score()))
}

} // verus!
