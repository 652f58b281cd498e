//! Comparison primitives: the unit trait, scores, the matching-block engine
//! and the simple ratio built on it.
use vstd::prelude::*;

verus! {

/// A unit of comparison (a byte, a code point, a grapheme, a word) with an
/// executable equality test.
pub trait Unit: Sized {
    /// When two units count as the same for alignment.
    spec fn spec_same(&self, other: &Self) -> bool;

    /// Every unit is the same as itself.
    proof fn lemma_same_refl(&self)
        ensures
            self.spec_same(self),
    ;

    fn same(&self, other: &Self) -> (r: bool)
        ensures
            r == self.spec_same(other),
    ;
}

impl Unit for char {
    open spec fn spec_same(&self, other: &char) -> bool {
        *self == *other
    }

    proof fn lemma_same_refl(&self) {
    }

    fn same(&self, other: &char) -> (r: bool) {
        *self == *other
    }
}

impl Unit for u8 {
    open spec fn spec_same(&self, other: &u8) -> bool {
        *self == *other
    }

    proof fn lemma_same_refl(&self) {
    }

    fn same(&self, other: &u8) -> (r: bool) {
        *self == *other
    }
}

impl Unit for String {
    open spec fn spec_same(&self, other: &String) -> bool {
        self@ == other@
    }

    proof fn lemma_same_refl(&self) {
    }

    fn same(&self, other: &String) -> (r: bool) {
        *self == *other
    }
}

/// A matching streak of units between two sequences.
#[derive(PartialEq, Eq, Structural, Copy, Clone, Debug)]
pub struct MatchingStreak {
    /// Where the streak begins in the first sequence.
    pub idx1: usize,
    /// Where the streak begins in the second sequence.
    pub idx2: usize,
    /// The number of units in the streak.
    pub size: usize,
}

/// An integer score in `0..=100`.
#[derive(PartialEq, Eq, Structural, PartialOrd, Ord, Debug, Clone, Copy)]
pub struct Score {
    score: u8,
}

impl View for Score {
    type V = nat;

    closed spec fn view(&self) -> nat {
        self.score as nat
    }
}

impl Score {
    #[verifier::type_invariant]
    closed spec fn inv(self) -> bool {
        self.score <= 100
    }

    /// The score `score`, or `None` when it is above 100.
    pub fn new(score: u8) -> (r: Option<Score>)
        ensures
            score <= 100 <==> r is Some,
            r matches Some(s) ==> s@ == score as nat,
    {
        if score <= 100 {
            Some(Score { score })
        } else {
            None
        }
    }

    /// The score `score`, known to be at most 100.
    pub(crate) fn of(score: u8) -> (r: Score)
        requires
            score <= 100,
        ensures
            r@ == score as nat,
    {
        Score { score }
    }

    /// The score as an integer.
    pub fn score(&self) -> (r: u8)
        ensures
            r as nat == self@,
            r <= 100,
    {
        proof {
            use_type_invariant(self);
        }
        self.score
    }
}

/// An item matched by a query, with the score of the match.
#[derive(PartialEq, Eq, Debug)]
pub struct Match<T> {
    pub item: T,
    pub score: Score,
}

/// `a[i..i + k]` and `b[j..j + k]` hold the same units.
pub open spec fn matches_at<T: Unit>(a: Seq<T>, b: Seq<T>, i: int, j: int, k: int) -> bool {
    forall|t: int| 0 <= t < k ==> #[trigger] a[i + t].spec_same(&b[j + t])
}

/// `a[i..i + k]` lies in `lo1..hi1` and `b[j..j + k]` in `lo2..hi2`.
pub open spec fn in_windows(lo1: int, hi1: int, lo2: int, hi2: int, i: int, j: int, k: int) -> bool {
    lo1 <= i && i + k <= hi1 && lo2 <= j && j + k <= hi2
}

/// `m` is the longest match of `a[lo1..hi1]` in `b[lo2..hi2]`; among the
/// longest, the one that starts earliest in `a`, and then earliest in `b`.
/// With no match at all it is the empty streak at `(lo1, lo2)`.
pub open spec fn is_longest_match<T: Unit>(
    a: Seq<T>,
    b: Seq<T>,
    lo1: int,
    hi1: int,
    lo2: int,
    hi2: int,
    m: MatchingStreak,
) -> bool {
    let (i, j, k) = (m.idx1 as int, m.idx2 as int, m.size as int);
    &&& in_windows(lo1, hi1, lo2, hi2, i, j, k)
    &&& matches_at(a, b, i, j, k)
    &&& (k == 0 ==> i == lo1 && j == lo2)
    &&& forall|i2: int, j2: int, k2: int|
        in_windows(lo1, hi1, lo2, hi2, i2, j2, k2) && 0 < k2 && #[trigger] matches_at(
            a,
            b,
            i2,
            j2,
            k2,
        ) ==> k2 <= k
    &&& 0 < k ==> forall|i2: int, j2: int|
        in_windows(lo1, hi1, lo2, hi2, i2, j2, k) && #[trigger] matches_at(a, b, i2, j2, k) ==> (i
            < i2 || (i == i2 && j <= j2))
}

/// Two longest matches of the same windows are the same streak.
pub proof fn lemma_longest_match_unique<T: Unit>(
    a: Seq<T>,
    b: Seq<T>,
    lo1: int,
    hi1: int,
    lo2: int,
    hi2: int,
    m1: MatchingStreak,
    m2: MatchingStreak,
)
    requires
        is_longest_match(a, b, lo1, hi1, lo2, hi2, m1),
        is_longest_match(a, b, lo1, hi1, lo2, hi2, m2),
    ensures
        m1 == m2,
{
    let (i1, j1, k1) = (m1.idx1 as int, m1.idx2 as int, m1.size as int);
    let (i2, j2, k2) = (m2.idx1 as int, m2.idx2 as int, m2.size as int);
    if 0 < k1 {
        assert(matches_at(a, b, i1, j1, k1));
    }
    if 0 < k2 {
        assert(matches_at(a, b, i2, j2, k2));
    }
    assert(k1 == k2);
    if 0 < k1 {
        assert(i1 < i2 || (i1 == i2 && j1 <= j2));
        assert(i2 < i1 || (i2 == i1 && j2 <= j1));
    }
}

/// Finds the longest run of units of `shorter[low1..high1]` that also occurs
/// in `longer[low2..high2]`.
///
/// Candidate sizes are tried from the largest down; for each size, start
/// offsets in `shorter` from left to right, and for each of those, offsets in
/// `longer` from left to right. The first run found is returned, so of all
/// longest runs it is the one that starts earliest in `shorter`, and of those
/// the one that starts earliest in `longer`. With no common unit the result
/// is the empty streak at `(low1, low2)`.
pub fn find_longest_match<T: Unit>(
    shorter: &[T],
    longer: &[T],
    low1: usize,
    high1: usize,
    low2: usize,
    high2: usize,
) -> (r: MatchingStreak)
    requires
        low1 <= high1 <= shorter@.len(),
        low2 <= high2 <= longer@.len(),
    ensures
        is_longest_match(shorter@, longer@, low1 as int, high1 as int, low2 as int, high2 as int, r),
{
    let ghost a = shorter@;
    let ghost b = longer@;
    let len1 = high1 - low1;
    let len2 = high2 - low2;
    let mut size: usize = if len1 <= len2 {
        len1
    } else {
        len2
    };
    while size > 0
        invariant
            low1 <= high1 <= a.len(),
            low2 <= high2 <= b.len(),
            a == shorter@,
            b == longer@,
            size <= high1 - low1,
            size <= high2 - low2,
            forall|i2: int, j2: int, k2: int|
                in_windows(low1 as int, high1 as int, low2 as int, high2 as int, i2, j2, k2)
                    && size < k2 && #[trigger] matches_at(a, b, i2, j2, k2) ==> false,
        decreases size,
    {
        let mut start: usize = low1;
        while size <= high1 - start
            invariant
                low1 <= start <= high1 <= a.len(),
                low2 <= high2 <= b.len(),
                a == shorter@,
                b == longer@,
                0 < size <= high1 - low1,
                size <= high2 - low2,
                forall|i2: int, j2: int, k2: int|
                    in_windows(low1 as int, high1 as int, low2 as int, high2 as int, i2, j2, k2)
                        && size < k2 && #[trigger] matches_at(a, b, i2, j2, k2) ==> false,
                forall|i2: int, j2: int|
                    in_windows(low1 as int, high1 as int, low2 as int, high2 as int, i2, j2, size as int)
                        && i2 < start && #[trigger] matches_at(a, b, i2, j2, size as int) ==> false,
            decreases high1 - start,
        {
            let mut ws: usize = low2;
            while size <= high2 - ws
                invariant
                    low1 <= start <= high1 <= a.len(),
                    size <= high1 - start,
                    low2 <= ws <= high2 <= b.len(),
                    a == shorter@,
                    b == longer@,
                    0 < size <= high1 - low1,
                    size <= high2 - low2,
                    forall|i2: int, j2: int, k2: int|
                        in_windows(low1 as int, high1 as int, low2 as int, high2 as int, i2, j2, k2)
                            && size < k2 && #[trigger] matches_at(a, b, i2, j2, k2) ==> false,
                    forall|i2: int, j2: int|
                        in_windows(low1 as int, high1 as int, low2 as int, high2 as int, i2, j2, size as int)
                            && i2 < start && #[trigger] matches_at(a, b, i2, j2, size as int) ==> false,
                    forall|j2: int|
                        in_windows(low1 as int, high1 as int, low2 as int, high2 as int, start as int, j2, size as int)
                            && j2 < ws && #[trigger] matches_at(a, b, start as int, j2, size as int) ==> false,
                decreases high2 - ws,
            {
                let mut t: usize = 0;
                while t < size && shorter[start + t].same(&longer[ws + t])
                    invariant
                        t <= size,
                        size <= high1 - start,
                        size <= high2 - ws,
                        high1 <= a.len(),
                        high2 <= b.len(),
                        a == shorter@,
                        b == longer@,
                        forall|u: int| 0 <= u < t ==> #[trigger] a[start + u].spec_same(&b[ws + u]),
                    decreases size - t,
                {
                    t = t + 1;
                }
                if t == size {
                    let r = MatchingStreak { idx1: start, idx2: ws, size };
                    assert(matches_at(a, b, start as int, ws as int, size as int));
                    assert forall|i2: int, j2: int|
                        in_windows(low1 as int, high1 as int, low2 as int, high2 as int, i2, j2, size as int)
                            && #[trigger] matches_at(a, b, i2, j2, size as int)
                        implies (start < i2 || (start == i2 && ws <= j2)) by {
                        if i2 < start {
                        } else if i2 == start && j2 < ws {
                        }
                    }
                    return r;
                }
                assert(!a[start + t].spec_same(&b[ws + t]));
                assert(!matches_at(a, b, start as int, ws as int, size as int));
                ws = ws + 1;
            }
            assert forall|i2: int, j2: int|
                in_windows(low1 as int, high1 as int, low2 as int, high2 as int, i2, j2, size as int)
                    && i2 < start + 1 && #[trigger] matches_at(a, b, i2, j2, size as int) implies false by {
                if i2 == start {
                    assert(j2 < ws);
                }
            }
            start = start + 1;
        }
        assert forall|i2: int, j2: int, k2: int|
            in_windows(low1 as int, high1 as int, low2 as int, high2 as int, i2, j2, k2)
                && size - 1 < k2 && #[trigger] matches_at(a, b, i2, j2, k2) implies false by {
            if k2 == size {
                assert(i2 < start);
            }
        }
        size = size - 1;
    }
    MatchingStreak { idx1: low1, idx2: low2, size: 0 }
}

/// A matching block: start in the first sequence, start in the second, length.
pub type Block = (usize, usize, usize);

/// The longest match of `a[lo1..hi1]` in `b[lo2..hi2]` (see `is_longest_match`).
pub open spec fn longest_match<T: Unit>(
    a: Seq<T>,
    b: Seq<T>,
    lo1: int,
    hi1: int,
    lo2: int,
    hi2: int,
) -> MatchingStreak {
    choose|m: MatchingStreak| is_longest_match(a, b, lo1, hi1, lo2, hi2, m)
}

/// The blocks that divide and conquer finds in the windows, in order: the
/// longest match, the blocks found before it in both sequences, and those
/// found after it in both.
pub open spec fn blocks_in<T: Unit>(
    a: Seq<T>,
    b: Seq<T>,
    lo1: int,
    hi1: int,
    lo2: int,
    hi2: int,
) -> Seq<Block>
    decreases (hi1 - lo1) + (hi2 - lo2),
{
    let m = longest_match(a, b, lo1, hi1, lo2, hi2);
    let (i, j, k) = (m.idx1 as int, m.idx2 as int, m.size as int);
    if 0 < k && in_windows(lo1, hi1, lo2, hi2, i, j, k) {
        blocks_in(a, b, lo1, i, lo2, j) + seq![(m.idx1, m.idx2, m.size)] + blocks_in(
            a,
            b,
            i + k,
            hi1,
            j + k,
            hi2,
        )
    } else {
        Seq::empty()
    }
}

/// Block `y` continues block `x` in both sequences.
pub open spec fn adjacent(x: Block, y: Block) -> bool {
    x.0 + x.2 == y.0 && x.1 + x.2 == y.1
}

/// `s` with every run of adjacent blocks joined into one block.
pub open spec fn merge_adjacent(s: Seq<Block>) -> Seq<Block>
    decreases s.len(),
{
    if s.len() == 0 {
        s
    } else {
        let r = merge_adjacent(s.drop_last());
        let x = s.last();
        if r.len() > 0 && adjacent(r.last(), x) {
            r.drop_last().push((r.last().0, r.last().1, (r.last().2 + x.2) as usize))
        } else {
            r.push(x)
        }
    }
}

/// The blocks with the roles of the two sequences exchanged.
pub open spec fn swap_blocks(s: Seq<Block>) -> Seq<Block> {
    s.map_values(|x: Block| (x.1, x.0, x.2))
}

/// The result of `get_matching_blocks`: the merged blocks of the shorter
/// sequence against the longer (given back in the callers' order), then the
/// sentinel `(a.len(), b.len(), 0)`.
pub open spec fn matching_blocks<T: Unit>(a: Seq<T>, b: Seq<T>) -> Seq<Block> {
    let sentinel = (a.len() as usize, b.len() as usize, 0usize);
    if a.len() <= b.len() {
        merge_adjacent(blocks_in(a, b, 0, a.len() as int, 0, b.len() as int)).push(sentinel)
    } else {
        swap_blocks(merge_adjacent(blocks_in(b, a, 0, b.len() as int, 0, a.len() as int))).push(
            sentinel,
        )
    }
}

/// Each block ends, in both sequences, where or before every later block
/// starts.
pub open spec fn chained(s: Seq<Block>) -> bool {
    forall|p: int, q: int|
        #![trigger s[p], s[q]]
        0 <= p < q < s.len() ==> s[p].0 + s[p].2 <= s[q].0 && s[p].1 + s[p].2 <= s[q].1
}

/// Every block is non-empty and lies in the windows.
pub open spec fn within(s: Seq<Block>, lo1: int, hi1: int, lo2: int, hi2: int) -> bool {
    forall|p: int|
        0 <= p < s.len() ==> 0 < (#[trigger] s[p]).2 && in_windows(
            lo1,
            hi1,
            lo2,
            hi2,
            s[p].0 as int,
            s[p].1 as int,
            s[p].2 as int,
        )
}

/// The number of units that the blocks cover.
pub open spec fn total(s: Seq<Block>) -> int
    decreases s.len(),
{
    if s.len() == 0 {
        0
    } else {
        total(s.drop_last()) + s.last().2
    }
}

proof fn lemma_total_concat(s1: Seq<Block>, s2: Seq<Block>)
    ensures
        total(s1 + s2) == total(s1) + total(s2),
    decreases s2.len(),
{
    if s2.len() > 0 {
        assert((s1 + s2).drop_last() =~= s1 + s2.drop_last());
        lemma_total_concat(s1, s2.drop_last());
    } else {
        assert(s1 + s2 =~= s1);
    }
}

/// The empty streak at `(lo1, lo2)` is the longest match when one of the
/// windows is empty.
proof fn lemma_longest_match_exists_empty<T: Unit>(
    a: Seq<T>,
    b: Seq<T>,
    lo1: int,
    hi1: int,
    lo2: int,
    hi2: int,
)
    requires
        0 <= lo1 <= hi1 <= usize::MAX,
        0 <= lo2 <= hi2 <= usize::MAX,
        lo1 == hi1 || lo2 == hi2,
    ensures
        is_longest_match(a, b, lo1, hi1, lo2, hi2, longest_match(a, b, lo1, hi1, lo2, hi2)),
        blocks_in(a, b, lo1, hi1, lo2, hi2) == Seq::<Block>::empty(),
{
    let w = MatchingStreak { idx1: lo1 as usize, idx2: lo2 as usize, size: 0 };
    assert(is_longest_match(a, b, lo1, hi1, lo2, hi2, w));
    let m = longest_match(a, b, lo1, hi1, lo2, hi2);
    if 0 < m.size {
        assert(matches_at(a, b, m.idx1 as int, m.idx2 as int, m.size as int));
    }
}

/// The blocks found in windows lie in them, in order, and cover no more
/// units than either window holds.
proof fn lemma_blocks_in_shape<T: Unit>(
    a: Seq<T>,
    b: Seq<T>,
    lo1: int,
    hi1: int,
    lo2: int,
    hi2: int,
)
    requires
        0 <= lo1 <= hi1,
        0 <= lo2 <= hi2,
    ensures
        chained(blocks_in(a, b, lo1, hi1, lo2, hi2)),
        within(blocks_in(a, b, lo1, hi1, lo2, hi2), lo1, hi1, lo2, hi2),
        total(blocks_in(a, b, lo1, hi1, lo2, hi2)) <= hi1 - lo1,
        total(blocks_in(a, b, lo1, hi1, lo2, hi2)) <= hi2 - lo2,
    decreases (hi1 - lo1) + (hi2 - lo2),
{
    let m = longest_match(a, b, lo1, hi1, lo2, hi2);
    let (i, j, k) = (m.idx1 as int, m.idx2 as int, m.size as int);
    if 0 < k && in_windows(lo1, hi1, lo2, hi2, i, j, k) {
        let l = blocks_in(a, b, lo1, i, lo2, j);
        let r = blocks_in(a, b, i + k, hi1, j + k, hi2);
        let mid: Seq<Block> = seq![(m.idx1, m.idx2, m.size)];
        lemma_blocks_in_shape(a, b, lo1, i, lo2, j);
        lemma_blocks_in_shape(a, b, i + k, hi1, j + k, hi2);
        let s = l + mid + r;
        assert(s == blocks_in(a, b, lo1, hi1, lo2, hi2));
        assert forall|p: int| 0 <= p < s.len() implies 0 < (#[trigger] s[p]).2 && in_windows(
            lo1,
            hi1,
            lo2,
            hi2,
            s[p].0 as int,
            s[p].1 as int,
            s[p].2 as int,
        ) by {
            if p < l.len() {
                assert(s[p] == l[p]);
            } else if p == l.len() {
            } else {
                assert(s[p] == r[p - l.len() - 1]);
            }
        }
        assert forall|p: int, q: int| #![trigger s[p], s[q]] 0 <= p < q < s.len() implies s[p].0
            + s[p].2 <= s[q].0 && s[p].1 + s[p].2 <= s[q].1 by {
            if q < l.len() {
                assert(s[p] == l[p] && s[q] == l[q]);
            } else if p < l.len() {
                assert(s[p] == l[p]);
                if q > l.len() {
                    assert(s[q] == r[q - l.len() - 1]);
                }
            } else if p > l.len() {
                assert(s[p] == r[p - l.len() - 1] && s[q] == r[q - l.len() - 1]);
            } else {
                assert(s[q] == r[q - l.len() - 1]);
            }
        }
        lemma_total_concat(l, mid);
        lemma_total_concat(l + mid, r);
        assert(mid.drop_last() =~= Seq::<Block>::empty());
        assert(total(mid.drop_last()) == 0);
        assert(mid.last() == (m.idx1, m.idx2, m.size));
        assert(total(mid) == k);
    }
}

/// Merging adjacent blocks keeps the blocks in order and in the windows,
/// covers the same units, and ends where the last block ends.
proof fn lemma_merge_shape(s: Seq<Block>, lo1: int, hi1: int, lo2: int, hi2: int)
    requires
        chained(s),
        within(s, lo1, hi1, lo2, hi2),
        hi1 <= usize::MAX,
    ensures
        chained(merge_adjacent(s)),
        within(merge_adjacent(s), lo1, hi1, lo2, hi2),
        total(merge_adjacent(s)) == total(s),
        merge_adjacent(s).len() == 0 <==> s.len() == 0,
        s.len() > 0 ==> merge_adjacent(s).last().0 + merge_adjacent(s).last().2 == s.last().0
            + s.last().2,
        s.len() > 0 ==> merge_adjacent(s).last().1 + merge_adjacent(s).last().2 == s.last().1
            + s.last().2,
    decreases s.len(),
{
    if s.len() > 0 {
        let d = s.drop_last();
        assert(chained(d) && within(d, lo1, hi1, lo2, hi2)) by {
            assert forall|p: int, q: int| #![trigger d[p], d[q]] 0 <= p < q < d.len() implies d[p].0
                + d[p].2 <= d[q].0 && d[p].1 + d[p].2 <= d[q].1 by {
                assert(d[p] == s[p] && d[q] == s[q]);
            }
            assert forall|p: int| 0 <= p < d.len() implies 0 < (#[trigger] d[p]).2 && in_windows(
                lo1,
                hi1,
                lo2,
                hi2,
                d[p].0 as int,
                d[p].1 as int,
                d[p].2 as int,
            ) by {
                assert(d[p] == s[p]);
            }
        }
        lemma_merge_shape(d, lo1, hi1, lo2, hi2);
        let r = merge_adjacent(d);
        let x = s.last();
        assert(0 < x.2 && in_windows(lo1, hi1, lo2, hi2, x.0 as int, x.1 as int, x.2 as int)) by {
            assert(x == s[s.len() - 1]);
        }
        if r.len() > 0 {
            assert(d.last() == s[s.len() - 2] && x == s[s.len() - 1]);
            assert(r.last() == r[r.len() - 1]);
        }
        if r.len() > 0 && adjacent(r.last(), x) {
            let y = r.last();
            let n = (y.0, y.1, (y.2 + x.2) as usize);
            let t = r.drop_last().push(n);
            assert(t == merge_adjacent(s));
            assert(r[r.len() - 1] == y);
            assert forall|p: int, q: int| #![trigger t[p], t[q]] 0 <= p < q < t.len() implies t[p].0
                + t[p].2 <= t[q].0 && t[p].1 + t[p].2 <= t[q].1 by {
                assert(t[p] == r[p]);
                if q < t.len() - 1 {
                    assert(t[q] == r[q]);
                } else {
                    assert(r[p].0 + r[p].2 <= r[r.len() - 1].0);
                }
            }
            assert forall|p: int| 0 <= p < t.len() implies 0 < (#[trigger] t[p]).2 && in_windows(
                lo1,
                hi1,
                lo2,
                hi2,
                t[p].0 as int,
                t[p].1 as int,
                t[p].2 as int,
            ) by {
                if p < t.len() - 1 {
                    assert(t[p] == r[p]);
                } else {
                    assert(r[r.len() - 1] == y);
                }
            }
            assert(t.drop_last() =~= r.drop_last());
            assert(total(r) == total(r.drop_last()) + y.2);
        } else {
            let t = r.push(x);
            assert(t == merge_adjacent(s));
            assert forall|p: int, q: int| #![trigger t[p], t[q]] 0 <= p < q < t.len() implies t[p].0
                + t[p].2 <= t[q].0 && t[p].1 + t[p].2 <= t[q].1 by {
                assert(t[p] == r[p]);
                if q < t.len() - 1 {
                    assert(t[q] == r[q]);
                } else if p < r.len() - 1 {
                    assert(r[p].0 + r[p].2 <= r[r.len() - 1].0);
                    assert(r[p].1 + r[p].2 <= r[r.len() - 1].1);
                    assert(s[s.len() - 2].0 + s[s.len() - 2].2 <= s[s.len() - 1].0);
                    assert(s[s.len() - 2].1 + s[s.len() - 2].2 <= s[s.len() - 1].1);
                } else {
                    assert(s[s.len() - 2].0 + s[s.len() - 2].2 <= s[s.len() - 1].0);
                    assert(s[s.len() - 2].1 + s[s.len() - 2].2 <= s[s.len() - 1].1);
                }
            }
            assert forall|p: int| 0 <= p < t.len() implies 0 < (#[trigger] t[p]).2 && in_windows(
                lo1,
                hi1,
                lo2,
                hi2,
                t[p].0 as int,
                t[p].1 as int,
                t[p].2 as int,
            ) by {
                if p < t.len() - 1 {
                    assert(t[p] == r[p]);
                }
            }
            assert(t.drop_last() =~= r);
        }
    }
}

/// Appends to `out` the blocks that divide and conquer finds in the windows.
fn collect_blocks<T: Unit>(
    a: &[T],
    b: &[T],
    lo1: usize,
    hi1: usize,
    lo2: usize,
    hi2: usize,
    out: &mut Vec<Block>,
)
    requires
        lo1 <= hi1 <= a@.len(),
        lo2 <= hi2 <= b@.len(),
    ensures
        final(out)@ == old(out)@ + blocks_in(a@, b@, lo1 as int, hi1 as int, lo2 as int, hi2 as int),
    decreases (hi1 - lo1) + (hi2 - lo2),
{
    let m = find_longest_match(a, b, lo1, hi1, lo2, hi2);
    let ghost start = out@;
    proof {
        let c = longest_match(a@, b@, lo1 as int, hi1 as int, lo2 as int, hi2 as int);
        lemma_longest_match_unique(a@, b@, lo1 as int, hi1 as int, lo2 as int, hi2 as int, m, c);
    }
    if m.size > 0 {
        if lo1 < m.idx1 && lo2 < m.idx2 {
            collect_blocks(a, b, lo1, m.idx1, lo2, m.idx2, out);
        } else {
            proof {
                lemma_longest_match_exists_empty(a@, b@, lo1 as int, m.idx1 as int, lo2 as int, m.idx2 as int);
            }
        }
        out.push((m.idx1, m.idx2, m.size));
        if m.idx1 + m.size < hi1 && m.idx2 + m.size < hi2 {
            collect_blocks(a, b, m.idx1 + m.size, hi1, m.idx2 + m.size, hi2, out);
        } else {
            proof {
                lemma_longest_match_exists_empty(
                    a@,
                    b@,
                    (m.idx1 + m.size) as int,
                    hi1 as int,
                    (m.idx2 + m.size) as int,
                    hi2 as int,
                );
            }
        }
        proof {
            let l = blocks_in(a@, b@, lo1 as int, m.idx1 as int, lo2 as int, m.idx2 as int);
            let r = blocks_in(a@, b@, (m.idx1 + m.size) as int, hi1 as int, (m.idx2 + m.size) as int, hi2 as int);
            assert(out@ =~= start + (l + seq![(m.idx1, m.idx2, m.size)] + r));
        }
    } else {
        assert(out@ =~= start + Seq::<Block>::empty());
    }
}

/// Lists the matching blocks of `a` and `b`: triples `(i, j, k)` with
/// `a[i..i + k] == b[j..j + k]`, in ascending order and not overlapping in
/// either sequence, ending with the sentinel `(a.len(), b.len(), 0)`, the
/// only block of length 0.
///
/// The shorter sequence (the first one on equal lengths) is searched for in
/// the longer: the longest match is taken and the same search goes on,
/// recursively, in the parts before it and after it in both sequences.
/// Blocks that continue one another in both sequences are then joined.
pub fn get_matching_blocks<T: Unit>(a: &[T], b: &[T]) -> (r: Vec<Block>)
    ensures
        r@ == matching_blocks(a@, b@),
{
    let flipped = a.len() > b.len();
    let (shorter, longer) = if flipped {
        (b, a)
    } else {
        (a, b)
    };
    let mut found: Vec<Block> = Vec::new();
    collect_blocks(shorter, longer, 0, shorter.len(), 0, longer.len(), &mut found);
    assert(found@ =~= blocks_in(shorter@, longer@, 0, shorter@.len() as int, 0, longer@.len() as int));
    proof {
        lemma_blocks_in_shape(shorter@, longer@, 0, shorter@.len() as int, 0, longer@.len() as int);
    }
    let ghost raw = found@;
    let mut merged: Vec<Block> = Vec::new();
    let mut p: usize = 0;
    while p < found.len()
        invariant
            p <= found@.len(),
            found@ == raw,
            chained(raw),
            within(raw, 0, shorter@.len() as int, 0, longer@.len() as int),
            shorter@.len() <= usize::MAX,
            longer@.len() <= usize::MAX,
            merged@ == merge_adjacent(raw.take(p as int)),
        decreases found@.len() - p,
    {
        let ghost pre = raw.take(p as int);
        proof {
            assert forall|u: int, v: int| #![trigger pre[u], pre[v]] 0 <= u < v < pre.len() implies pre[u].0
                + pre[u].2 <= pre[v].0 && pre[u].1 + pre[u].2 <= pre[v].1 by {
                assert(pre[u] == raw[u] && pre[v] == raw[v]);
            }
            assert forall|u: int| 0 <= u < pre.len() implies 0 < (#[trigger] pre[u]).2 && in_windows(
                0,
                shorter@.len() as int,
                0,
                longer@.len() as int,
                pre[u].0 as int,
                pre[u].1 as int,
                pre[u].2 as int,
            ) by {
                assert(pre[u] == raw[u]);
            }
            lemma_merge_shape(pre, 0, shorter@.len() as int, 0, longer@.len() as int);
            assert(raw.take(p + 1).drop_last() =~= pre);
            assert(raw.take(p + 1).last() == raw[p as int]);
        }
        let x = found[p];
        let n = merged.len();
        if n > 0 {
            let y = merged[n - 1];
            assert(merged@[n - 1] == merged@.last());
            if y.0 + y.2 == x.0 && y.1 + y.2 == x.1 {
                merged.set(n - 1, (y.0, y.1, y.2 + x.2));
                proof {
                    assert(merged@ =~= merge_adjacent(pre).drop_last().push((y.0, y.1, (y.2 + x.2) as usize)));
                }
            } else {
                merged.push(x);
            }
        } else {
            merged.push(x);
        }
        p = p + 1;
    }
    assert(raw.take(found@.len() as int) =~= raw);
    let mut out: Vec<Block> = Vec::new();
    if flipped {
        let mut q: usize = 0;
        while q < merged.len()
            invariant
                q <= merged@.len(),
                out@ =~= swap_blocks(merged@.take(q as int)),
            decreases merged@.len() - q,
        {
            let x = merged[q];
            out.push((x.1, x.0, x.2));
            q = q + 1;
        }
        assert(merged@.take(merged@.len() as int) =~= merged@);
    } else {
        out = merged;
    }
    out.push((a.len(), b.len(), 0));
    out
}

proof fn lemma_swap_shape(s: Seq<Block>, lo1: int, hi1: int, lo2: int, hi2: int)
    requires
        chained(s),
        within(s, lo1, hi1, lo2, hi2),
    ensures
        chained(swap_blocks(s)),
        within(swap_blocks(s), lo2, hi2, lo1, hi1),
        total(swap_blocks(s)) == total(s),
    decreases s.len(),
{
    let t = swap_blocks(s);
    assert forall|p: int, q: int| #![trigger t[p], t[q]] 0 <= p < q < t.len() implies t[p].0 + t[p].2
        <= t[q].0 && t[p].1 + t[p].2 <= t[q].1 by {
        assert(s[p].0 + s[p].2 <= s[q].0);
    }
    assert forall|p: int| 0 <= p < t.len() implies 0 < (#[trigger] t[p]).2 && in_windows(
        lo2,
        hi2,
        lo1,
        hi1,
        t[p].0 as int,
        t[p].1 as int,
        t[p].2 as int,
    ) by {
        assert(0 < s[p].2);
    }
    if s.len() > 0 {
        let d = s.drop_last();
        assert forall|p: int, q: int| #![trigger d[p], d[q]] 0 <= p < q < d.len() implies d[p].0
            + d[p].2 <= d[q].0 && d[p].1 + d[p].2 <= d[q].1 by {
            assert(d[p] == s[p] && d[q] == s[q]);
        }
        assert forall|p: int| 0 <= p < d.len() implies 0 < (#[trigger] d[p]).2 && in_windows(
            lo1,
            hi1,
            lo2,
            hi2,
            d[p].0 as int,
            d[p].1 as int,
            d[p].2 as int,
        ) by {
            assert(d[p] == s[p]);
        }
        lemma_swap_shape(d, lo1, hi1, lo2, hi2);
        assert(t.drop_last() =~= swap_blocks(d));
    }
}

/// The shape of `matching_blocks`: in order, non-empty but for the
/// sentinel, inside both sequences, and covering at most the length of
/// either sequence.
proof fn lemma_matching_blocks_shape<T: Unit>(a: Seq<T>, b: Seq<T>)
    requires
        a.len() <= usize::MAX,
        b.len() <= usize::MAX,
    ensures
        ({
            let s = matching_blocks(a, b);
            &&& s.len() >= 1
            &&& s.last() == (a.len() as usize, b.len() as usize, 0usize)
            &&& chained(s)
            &&& within(s.drop_last(), 0, a.len() as int, 0, b.len() as int)
            &&& total(s) <= a.len()
            &&& total(s) <= b.len()
        }),
{
    let sentinel = (a.len() as usize, b.len() as usize, 0usize);
    let m = if a.len() <= b.len() {
        lemma_blocks_in_shape(a, b, 0, a.len() as int, 0, b.len() as int);
        lemma_merge_shape(blocks_in(a, b, 0, a.len() as int, 0, b.len() as int), 0, a.len() as int, 0, b.len() as int);
        merge_adjacent(blocks_in(a, b, 0, a.len() as int, 0, b.len() as int))
    } else {
        lemma_blocks_in_shape(b, a, 0, b.len() as int, 0, a.len() as int);
        let raw = blocks_in(b, a, 0, b.len() as int, 0, a.len() as int);
        lemma_merge_shape(raw, 0, b.len() as int, 0, a.len() as int);
        lemma_swap_shape(merge_adjacent(raw), 0, b.len() as int, 0, a.len() as int);
        swap_blocks(merge_adjacent(raw))
    };
    let s = m.push(sentinel);
    assert(s == matching_blocks(a, b));
    assert(s.drop_last() =~= m);
    assert forall|p: int, q: int| #![trigger s[p], s[q]] 0 <= p < q < s.len() implies s[p].0 + s[p].2
        <= s[q].0 && s[p].1 + s[p].2 <= s[q].1 by {
        assert(s[p] == m[p]);
        if q < m.len() {
            assert(s[q] == m[q]);
        }
    }
}

/// The matching blocks of any two sequences end with the sentinel
/// `(a.len(), b.len(), 0)`, the only block of length 0, and are in ascending
/// order without overlap: each block ends, in both sequences, where or before
/// the next one starts.
pub proof fn lemma_matching_blocks_ordered<T: Unit>(a: Seq<T>, b: Seq<T>)
    requires
        a.len() <= usize::MAX,
        b.len() <= usize::MAX,
    ensures
        ({
            let s = matching_blocks(a, b);
            &&& s.len() >= 1
            &&& s.last() == (a.len() as usize, b.len() as usize, 0usize)
            &&& forall|p: int| 0 <= p < s.len() - 1 ==> 0 < #[trigger] s[p].2
            &&& forall|p: int, q: int|
                #![trigger s[p], s[q]]
                0 <= p < q < s.len() ==> s[p].0 + s[p].2 <= s[q].0 && s[p].1 + s[p].2 <= s[q].1
        }),
{
    lemma_matching_blocks_shape(a, b);
    let s = matching_blocks(a, b);
    assert forall|p: int| 0 <= p < s.len() - 1 implies 0 < #[trigger] s[p].2 by {
        assert(s.drop_last()[p] == s[p]);
    }
}

/// For two equal sequences the matching blocks are one block over the whole
/// of both, then the sentinel (only the sentinel when they are empty).
pub proof fn lemma_matching_blocks_equal<T: Unit>(a: Seq<T>)
    requires
        a.len() <= usize::MAX,
    ensures
        a.len() == 0 ==> matching_blocks(a, a) == seq![(0usize, 0usize, 0usize)],
        a.len() > 0 ==> matching_blocks(a, a) == seq![
            (0usize, 0usize, a.len() as usize),
            (a.len() as usize, a.len() as usize, 0usize),
        ],
{
    let n = a.len() as int;
    if n == 0 {
        lemma_longest_match_exists_empty(a, a, 0, 0, 0, 0);
        assert(merge_adjacent(Seq::<Block>::empty()) == Seq::<Block>::empty());
        assert(matching_blocks(a, a) =~= seq![(0usize, 0usize, 0usize)]);
    } else {
        let w = MatchingStreak { idx1: 0, idx2: 0, size: n as usize };
        assert forall|t: int| 0 <= t < n implies #[trigger] a[0 + t].spec_same(&a[0 + t]) by {
            a[t].lemma_same_refl();
        }
        assert(is_longest_match(a, a, 0, n, 0, n, w));
        let c = longest_match(a, a, 0, n, 0, n);
        lemma_longest_match_unique(a, a, 0, n, 0, n, w, c);
        lemma_longest_match_exists_empty(a, a, 0, 0, 0, 0);
        lemma_longest_match_exists_empty(a, a, n, n, n, n);
        let one: Seq<Block> = seq![(0usize, 0usize, n as usize)];
        assert(blocks_in(a, a, 0, n, 0, n) =~= one);
        assert(one.drop_last() =~= Seq::<Block>::empty());
        assert(merge_adjacent(Seq::<Block>::empty()) == Seq::<Block>::empty());
        assert(merge_adjacent(one) =~= one);
        assert(matching_blocks(a, a) =~= seq![(0usize, 0usize, n as usize), (n as usize, n as usize, 0usize)]);
    }
}

/// `200 * m / len` rounded to the nearest integer, halves up; 100 when
/// `len` is 0.
pub open spec fn percent(m: int, len: int) -> int {
    if len == 0 {
        100
    } else {
        (400 * m + len) / (2 * len)
    }
}

/// Twice the units in matching blocks over the units in both sequences, as a
/// rounded percentage.
pub open spec fn simple_ratio_of<T: Unit>(a: Seq<T>, b: Seq<T>) -> int {
    percent(total(matching_blocks(a, b)), (a.len() + b.len()) as int)
}

proof fn lemma_percent_bounded(m: int, len: int)
    requires
        0 <= m,
        2 * m <= len,
    ensures
        0 <= percent(m, len) <= 100,
{
    if len > 0 {
        assert(0 <= (400 * m + len) / (2 * len) <= 100) by (nonlinear_arith)
            requires
                0 <= m,
                2 * m <= len,
                len > 0,
        ;
    }
}

proof fn lemma_total_nonneg(s: Seq<Block>)
    ensures
        total(s) >= 0,
    decreases s.len(),
{
    if s.len() > 0 {
        lemma_total_nonneg(s.drop_last());
    }
}

proof fn lemma_total_merge_le(s: Seq<Block>)
    ensures
        total(merge_adjacent(s)) <= total(s),
    decreases s.len(),
{
    if s.len() > 0 {
        let d = s.drop_last();
        lemma_total_merge_le(d);
        let r = merge_adjacent(d);
        let x = s.last();
        if r.len() > 0 && adjacent(r.last(), x) {
            let y = r.last();
            let v = y.2 + x.2;
            assert((v as usize) as int <= v);
            let t = r.drop_last().push((y.0, y.1, v as usize));
            assert(t.drop_last() =~= r.drop_last());
        } else {
            assert(r.push(x).drop_last() =~= r);
        }
    }
}

proof fn lemma_total_swap(s: Seq<Block>)
    ensures
        total(swap_blocks(s)) == total(s),
    decreases s.len(),
{
    if s.len() > 0 {
        lemma_total_swap(s.drop_last());
        assert(swap_blocks(s).drop_last() =~= swap_blocks(s.drop_last()));
    }
}

/// The matching blocks cover no more units than either sequence holds.
proof fn lemma_matching_total_bounded<T: Unit>(a: Seq<T>, b: Seq<T>)
    ensures
        0 <= total(matching_blocks(a, b)),
        total(matching_blocks(a, b)) <= a.len(),
        total(matching_blocks(a, b)) <= b.len(),
{
    let sentinel = (a.len() as usize, b.len() as usize, 0usize);
    let m = if a.len() <= b.len() {
        let raw = blocks_in(a, b, 0, a.len() as int, 0, b.len() as int);
        lemma_blocks_in_shape(a, b, 0, a.len() as int, 0, b.len() as int);
        lemma_total_merge_le(raw);
        merge_adjacent(raw)
    } else {
        let raw = blocks_in(b, a, 0, b.len() as int, 0, a.len() as int);
        lemma_blocks_in_shape(b, a, 0, b.len() as int, 0, a.len() as int);
        lemma_total_merge_le(raw);
        lemma_total_swap(merge_adjacent(raw));
        swap_blocks(merge_adjacent(raw))
    };
    assert(m.push(sentinel).drop_last() =~= m);
    lemma_total_nonneg(m.push(sentinel));
}

/// The simple ratio of any two sequences lies in `0..=100`.
pub proof fn lemma_simple_ratio_bounded<T: Unit>(a: Seq<T>, b: Seq<T>)
    ensures
        0 <= simple_ratio_of(a, b) <= 100,
{
    lemma_matching_total_bounded(a, b);
    lemma_percent_bounded(total(matching_blocks(a, b)), (a.len() + b.len()) as int);
}

/// Computes a simple similarity ratio: twice the number of units in matching
/// blocks over the number of units in both sequences, as a percentage
/// rounded to the nearest integer (halves up). Two empty sequences score 100.
///
/// For `"cd"` and `"abcd"` the one block is `"cd"`: `200 * 2 / 6` rounds to
/// 67.
pub fn simple_ratio<T: Unit>(a: &[T], b: &[T]) -> (r: u8)
    ensures
        r == simple_ratio_of(a@, b@),
{
    let la = a.len();
    let lb = b.len();
    let blocks = get_matching_blocks(a, b);
    proof {
        lemma_matching_blocks_shape(a@, b@);
        lemma_simple_ratio_bounded(a@, b@);
    }
    let ghost s = blocks@;
    let mut m: usize = 0;
    let mut p: usize = 0;
    while p < blocks.len()
        invariant
            p <= s.len(),
            blocks@ == s,
            m == total(s.take(p as int)),
            total(s) <= a@.len(),
            a@.len() <= usize::MAX,
        decreases s.len() - p,
    {
        proof {
            assert(s.take(p + 1).drop_last() =~= s.take(p as int));
            assert(s.take(p + 1).last() == s[p as int]);
            lemma_total_concat(s.take(p + 1), s.skip(p + 1));
            assert(s.take(p + 1) + s.skip(p + 1) =~= s);
            lemma_total_nonneg(s.skip(p + 1));
        }
        m = m + blocks[p].2;
        p = p + 1;
    }
    assert(s.take(s.len() as int) =~= s);
    let len = la as u128 + lb as u128;
    if len == 0 {
        100
    } else {
        let q = (400 * (m as u128) + len) / (2 * len);
        q as u8
    }
}

/// The simple ratio of the shorter sequence `s` against the window of the
/// longer sequence `l` that block `x` anchors: it starts `x.1 - x.0` units
/// into `l` (at 0 if that is negative) and is as long as `s`, clipped to the
/// end of `l`.
pub open spec fn window_ratio<T: Unit>(s: Seq<T>, l: Seq<T>, x: Block) -> int {
    let st = if x.1 > x.0 {
        x.1 - x.0
    } else {
        0
    };
    let en = if st + s.len() < l.len() {
        st + s.len()
    } else {
        l.len() as int
    };
    simple_ratio_of(s, l.subrange(st, en))
}

/// The largest window ratio over the blocks, 0 for no blocks.
pub open spec fn best_window<T: Unit>(s: Seq<T>, l: Seq<T>, bl: Seq<Block>) -> int
    decreases bl.len(),
{
    if bl.len() == 0 {
        0
    } else {
        let m = best_window(s, l, bl.drop_last());
        let w = window_ratio(s, l, bl.last());
        if w > m {
            w
        } else {
            m
        }
    }
}

/// The best window ratio of the shorter sequence (the first on equal
/// lengths) against the longer, over the windows that the matching blocks
/// other than the sentinel anchor.
pub open spec fn partial_ratio_of<T: Unit>(a: Seq<T>, b: Seq<T>) -> int {
    if a.len() <= b.len() {
        best_window(a, b, matching_blocks(a, b).drop_last())
    } else {
        best_window(b, a, matching_blocks(b, a).drop_last())
    }
}

proof fn lemma_best_window_bounded<T: Unit>(s: Seq<T>, l: Seq<T>, bl: Seq<Block>)
    ensures
        0 <= best_window(s, l, bl) <= 100,
    decreases bl.len(),
{
    if bl.len() > 0 {
        lemma_best_window_bounded(s, l, bl.drop_last());
        let x = bl.last();
        let st = if x.1 > x.0 {
            x.1 - x.0
        } else {
            0
        };
        let en = if st + s.len() < l.len() {
            st + s.len()
        } else {
            l.len() as int
        };
        lemma_simple_ratio_bounded(s, l.subrange(st, en));
    }
}

proof fn lemma_best_window_full<T: Unit>(s: Seq<T>, l: Seq<T>, bl: Seq<Block>, p: int)
    requires
        0 <= p <= bl.len(),
        best_window(s, l, bl.take(p)) == 100,
    ensures
        best_window(s, l, bl) == 100,
    decreases bl.len() - p,
{
    if p < bl.len() {
        assert(bl.take(p + 1).drop_last() =~= bl.take(p));
        lemma_best_window_bounded(s, l, bl.take(p + 1));
        lemma_best_window_full(s, l, bl, p + 1);
    } else {
        assert(bl.take(p) =~= bl);
    }
}

/// The partial ratio of any two sequences lies in `0..=100`.
pub proof fn lemma_partial_ratio_bounded<T: Unit>(a: Seq<T>, b: Seq<T>)
    ensures
        0 <= partial_ratio_of(a, b) <= 100,
{
    if a.len() <= b.len() {
        lemma_best_window_bounded(a, b, matching_blocks(a, b).drop_last());
    } else {
        lemma_best_window_bounded(b, a, matching_blocks(b, a).drop_last());
    }
}

/// The best ratio of `shorter` against the windows of `longer` that the
/// matching blocks anchor; 100 as soon as one window scores above 99.
fn best_window_ratio<T: Unit>(shorter: &[T], longer: &[T]) -> (r: u8)
    requires
        shorter@.len() <= longer@.len(),
    ensures
        r == best_window(shorter@, longer@, matching_blocks(shorter@, longer@).drop_last()),
{
    let ls = shorter.len();
    let ll = longer.len();
    let blocks = get_matching_blocks(shorter, longer);
    let ghost bl = matching_blocks(shorter@, longer@).drop_last();
    proof {
        lemma_matching_blocks_shape(shorter@, longer@);
    }
    let n = blocks.len() - 1;
    let mut best: u8 = 0;
    let mut p: usize = 0;
    while p < n
        invariant
            p <= n,
            n == bl.len(),
            blocks@.len() == n + 1,
            bl == blocks@.drop_last(),
            bl == matching_blocks(shorter@, longer@).drop_last(),
            within(bl, 0, ls as int, 0, ll as int),
            ls == shorter@.len(),
            ll == longer@.len(),
            ls <= ll,
            best == best_window(shorter@, longer@, bl.take(p as int)),
        decreases n - p,
    {
        let x = blocks[p];
        assert(bl[p as int] == x);
        let st = if x.1 > x.0 {
            x.1 - x.0
        } else {
            0
        };
        let en = if ls <= ll - st {
            st + ls
        } else {
            ll
        };
        let w = simple_ratio(shorter, &longer[st..en]);
        proof {
            assert(bl.take(p + 1).drop_last() =~= bl.take(p as int));
            assert(bl.take(p + 1).last() == x);
            lemma_simple_ratio_bounded(shorter@, longer@.subrange(st as int, en as int));
            lemma_best_window_bounded(shorter@, longer@, bl.take(p as int));
            assert(window_ratio(shorter@, longer@, x) == w as int);
            assert(best_window(shorter@, longer@, bl.take(p + 1)) == (if w > best {
                w as int
            } else {
                best as int
            }));
        }
        if w > 99 {
            proof {
                lemma_best_window_full(shorter@, longer@, bl, p + 1);
            }
            return 100;
        }
        if w > best {
            best = w;
        }
        p = p + 1;
    }
    assert(bl.take(n as int) =~= bl);
    best
}

/// The partial ratio of two unit sequences: the best simple ratio of the
/// shorter one against the windows of the longer one that its matching
/// blocks anchor. It is not an optimal alignment, and it depends on the
/// order of the arguments when their lengths are equal.
pub fn partial_simple_ratio<T: Unit>(a: &[T], b: &[T]) -> (r: u8)
    ensures
        r == partial_ratio_of(a@, b@),
        r <= 100,
{
    proof {
        lemma_partial_ratio_bounded(a@, b@);
    }
    if a.len() <= b.len() {
        best_window_ratio(a, b)
    } else {
        best_window_ratio(b, a)
    }
}

/// A sequence compared with itself has simple ratio 100.
pub proof fn lemma_simple_ratio_reflexive<T: Unit>(s: Seq<T>)
    requires
        s.len() <= usize::MAX,
    ensures
        simple_ratio_of(s, s) == 100,
{
    lemma_matching_blocks_equal(s);
    let n = s.len() as int;
    let mb = matching_blocks(s, s);
    if n > 0 {
        assert(mb.drop_last().drop_last() =~= Seq::<Block>::empty());
        assert(total(Seq::<Block>::empty()) == 0);
        assert(mb.drop_last().last() == (0usize, 0usize, n as usize));
        assert(total(mb.drop_last()) == n);
        assert(total(mb) == n);
        assert((400 * n + 2 * n) / (2 * (2 * n)) == 100) by (nonlinear_arith)
            requires
                n > 0,
        ;
    }
}

/// Exchanging two sequences of different lengths keeps their simple ratio.
pub proof fn lemma_simple_ratio_commutative<T: Unit>(a: Seq<T>, b: Seq<T>)
    requires
        a.len() != b.len(),
    ensures
        simple_ratio_of(a, b) == simple_ratio_of(b, a),
{
    let (s, l) = if a.len() < b.len() {
        (a, b)
    } else {
        (b, a)
    };
    let m = merge_adjacent(blocks_in(s, l, 0, s.len() as int, 0, l.len() as int));
    lemma_total_swap(m);
    let x = (a.len() as usize, b.len() as usize, 0usize);
    let y = (b.len() as usize, a.len() as usize, 0usize);
    assert(m.push(x).drop_last() =~= m);
    assert(m.push(y).drop_last() =~= m);
    assert(swap_blocks(m).push(x).drop_last() =~= swap_blocks(m));
    assert(swap_blocks(m).push(y).drop_last() =~= swap_blocks(m));
    assert(total(matching_blocks(a, b)) == total(matching_blocks(b, a)));
    assert(a.len() + b.len() == b.len() + a.len());
}

} // verus!
