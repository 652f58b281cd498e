//! Text helpers shared by the normalizers, segmenters and scorers: strings
//! as sequences of code points, whitespace tokens, their lexicographic
//! order, joining and trimming.
use vstd::prelude::*;

verus! {

/// Whether `char::is_whitespace` holds of `c` (the Unicode White_Space
/// property).
pub uninterp spec fn white_space(c: char) -> bool;

/// Relies on `char::is_whitespace`, whose result depends on the character
/// alone.
#[verifier::external_body]
pub(crate) fn is_white_space(c: char) -> (r: bool)
    ensures
        r == white_space(c),
{
    c.is_whitespace()
}

/// Relies on `String`'s `FromIterator<&char>`: the string holds the
/// characters in order.
#[verifier::external_body]
pub(crate) fn string_of(v: &[char]) -> (r: String)
    ensures
        r@ == v@,
{
    v.iter().collect()
}

/// The code points of `s`, in order.
pub fn chars_of(s: &str) -> (r: Vec<char>)
    ensures
        r@ == s@,
{
    let n = s.unicode_len();
    let mut r: Vec<char> = Vec::new();
    let mut i: usize = 0;
    while i < n
        invariant
            i <= n,
            n == s@.len(),
            r@ == s@.take(i as int),
        decreases n - i,
    {
        r.push(s.get_char(i));
        proof {
            assert(s@.take(i + 1) =~= s@.take(i as int).push(s@[i as int]));
        }
        i = i + 1;
    }
    assert(s@.take(n as int) =~= s@);
    r
}

/// Appends the characters of `s` to `out`.
pub(crate) fn push_all(out: &mut Vec<char>, s: &[char])
    ensures
        final(out)@ == old(out)@ + s@,
{
    let ghost start = out@;
    let mut i: usize = 0;
    while i < s.len()
        invariant
            i <= s@.len(),
            out@ == start + s@.take(i as int),
        decreases s@.len() - i,
    {
        out.push(s[i]);
        proof {
            assert(s@.take(i + 1) =~= s@.take(i as int).push(s@[i as int]));
            assert(start + s@.take(i + 1) =~= (start + s@.take(i as int)).push(s@[i as int]));
        }
        i = i + 1;
    }
    assert(s@.take(s@.len() as int) =~= s@);
}

/// The views of a sequence of character vectors.
pub open spec fn views(v: Seq<Vec<char>>) -> Seq<Seq<char>> {
    v.map_values(|t: Vec<char>| t@)
}

/// The tokens finished so far and the token being read, after reading `s`
/// from the left.
pub open spec fn split_state(s: Seq<char>) -> (Seq<Seq<char>>, Seq<char>)
    decreases s.len(),
{
    if s.len() == 0 {
        (Seq::empty(), Seq::empty())
    } else {
        let (done, cur) = split_state(s.drop_last());
        let c = s.last();
        if white_space(c) {
            if cur.len() > 0 {
                (done.push(cur), Seq::empty())
            } else {
                (done, Seq::empty())
            }
        } else {
            (done, cur.push(c))
        }
    }
}

/// The maximal runs of non-whitespace characters of `s`, in order.
pub open spec fn tokens(s: Seq<char>) -> Seq<Seq<char>> {
    let (done, cur) = split_state(s);
    if cur.len() > 0 {
        done.push(cur)
    } else {
        done
    }
}

/// The whitespace-separated tokens of `s`.
pub fn split_whitespace(s: &[char]) -> (r: Vec<Vec<char>>)
    ensures
        views(r@) == tokens(s@),
{
    let mut done: Vec<Vec<char>> = Vec::new();
    let mut cur: Vec<char> = Vec::new();
    let mut i: usize = 0;
    while i < s.len()
        invariant
            i <= s@.len(),
            (views(done@), cur@) == split_state(s@.take(i as int)),
        decreases s@.len() - i,
    {
        let c = s[i];
        proof {
            assert(s@.take(i + 1).drop_last() =~= s@.take(i as int));
        }
        if is_white_space(c) {
            if cur.len() > 0 {
                let ghost d = done@;
                done.push(cur);
                proof {
                    assert(views(done@) =~= views(d).push(cur@));
                }
                cur = Vec::new();
            } else {
                cur = Vec::new();
            }
        } else {
            cur.push(c);
        }
        i = i + 1;
    }
    assert(s@.take(s@.len() as int) =~= s@);
    if cur.len() > 0 {
        let ghost d = done@;
        done.push(cur);
        assert(views(done@) =~= views(d).push(cur@));
    }
    done
}

/// `x` comes before `y`, or equals it, in lexicographic order of code points
/// (the order of `str`).
pub open spec fn lex_le(x: Seq<char>, y: Seq<char>) -> bool
    decreases x.len(),
{
    if x.len() == 0 {
        true
    } else if y.len() == 0 {
        false
    } else if x[0] != y[0] {
        (x[0] as u32) < (y[0] as u32)
    } else {
        lex_le(x.drop_first(), y.drop_first())
    }
}

/// `x` put into sorted `s` before the first token that it does not follow.
pub open spec fn insert_sorted(x: Seq<char>, s: Seq<Seq<char>>) -> Seq<Seq<char>>
    decreases s.len(),
{
    if s.len() == 0 {
        seq![x]
    } else if lex_le(x, s[0]) {
        seq![x] + s
    } else {
        seq![s[0]] + insert_sorted(x, s.drop_first())
    }
}

/// The tokens in ascending lexicographic order.
pub open spec fn sort_tokens(t: Seq<Seq<char>>) -> Seq<Seq<char>>
    decreases t.len(),
{
    if t.len() == 0 {
        t
    } else {
        insert_sorted(t.last(), sort_tokens(t.drop_last()))
    }
}

/// Compares two tokens lexicographically.
pub fn token_le(x: &[char], y: &[char]) -> (r: bool)
    ensures
        r == lex_le(x@, y@),
{
    let mut i: usize = 0;
    assert(x@.skip(0) =~= x@ && y@.skip(0) =~= y@);
    while i < x.len() && i < y.len() && x[i] == y[i]
        invariant
            i <= x@.len(),
            i <= y@.len(),
            x@.take(i as int) == y@.take(i as int),
            lex_le(x@, y@) == lex_le(x@.skip(i as int), y@.skip(i as int)),
        decreases x@.len() - i,
    {
        proof {
            assert(x@.skip(i as int).drop_first() =~= x@.skip(i + 1));
            assert(y@.skip(i as int).drop_first() =~= y@.skip(i + 1));
            assert(x@.take(i + 1) =~= x@.take(i as int).push(x@[i as int]));
            assert(y@.take(i + 1) =~= y@.take(i as int).push(y@[i as int]));
        }
        i = i + 1;
    }
    if i == x.len() {
        true
    } else if i == y.len() {
        false
    } else {
        assert(x@.skip(i as int)[0] == x@[i as int]);
        assert(y@.skip(i as int)[0] == y@[i as int]);
        (x[i] as u32) < (y[i] as u32)
    }
}

proof fn lemma_insert_at(x: Seq<char>, s: Seq<Seq<char>>, i: int)
    requires
        0 <= i <= s.len(),
        forall|k: int| 0 <= k < i ==> !lex_le(x, #[trigger] s[k]),
        i < s.len() ==> lex_le(x, s[i]),
    ensures
        insert_sorted(x, s) == s.take(i) + seq![x] + s.skip(i),
    decreases i,
{
    if i == 0 {
        assert(s.skip(0) =~= s);
        assert(s.take(0) + seq![x] + s.skip(0) =~= seq![x] + s);
    } else {
        assert(!lex_le(x, s[0]));
        let d = s.drop_first();
        assert forall|k: int| 0 <= k < i - 1 implies !lex_le(x, #[trigger] d[k]) by {
            assert(d[k] == s[k + 1]);
        }
        if i - 1 < d.len() {
            assert(d[i - 1] == s[i]);
        }
        lemma_insert_at(x, d, i - 1);
        assert(seq![s[0]] + (d.take(i - 1) + seq![x] + d.skip(i - 1)) =~= s.take(i) + seq![x]
            + s.skip(i));
    }
}

/// The tokens sorted lexicographically.
pub fn sort_tokens_vec(t: &Vec<Vec<char>>) -> (r: Vec<Vec<char>>)
    ensures
        views(r@) == sort_tokens(views(t@)),
{
    let mut r: Vec<Vec<char>> = Vec::new();
    let mut p: usize = 0;
    let n = t.len();
    while p < n
        invariant
            p <= n,
            n == t@.len(),
            views(r@) == sort_tokens(views(t@).take(p as int)),
        decreases n - p,
    {
        let x = t[p].clone();
        proof {
            assert(x@ == t@[p as int]@);
        }
        let mut i: usize = 0;
        let mut placed = false;
        while i < r.len() && !placed
            invariant
                i <= r@.len(),
                forall|k: int| 0 <= k < i ==> !lex_le(x@, #[trigger] views(r@)[k]),
                placed ==> i < r@.len() && lex_le(x@, views(r@)[i as int]),
            decreases r@.len() - i + (if placed { 0int } else { 1int }),
        {
            if token_le(&x, &r[i]) {
                placed = true;
            } else {
                i = i + 1;
            }
        }
        proof {
            let v = views(r@);
            lemma_insert_at(x@, v, i as int);
            let pre = views(t@).take(p as int);
            assert(views(t@).take(p + 1).drop_last() =~= pre);
            assert(views(t@).take(p + 1).last() == x@);
        }
        let ghost old_r = r@;
        r.insert(i, x);
        proof {
            assert(views(r@) =~= views(old_r).take(i as int) + seq![x@] + views(old_r).skip(i as int));
        }
        p = p + 1;
    }
    assert(views(t@).take(n as int) =~= views(t@));
    r
}

/// The tokens joined by single spaces.
pub open spec fn join_tokens(t: Seq<Seq<char>>) -> Seq<char>
    decreases t.len(),
{
    if t.len() == 0 {
        Seq::empty()
    } else if t.len() == 1 {
        t[0]
    } else {
        join_tokens(t.drop_last()) + seq![' '] + t.last()
    }
}

/// Joins the tokens with single spaces.
pub fn join_tokens_vec(t: &Vec<Vec<char>>) -> (r: Vec<char>)
    ensures
        r@ == join_tokens(views(t@)),
{
    let mut r: Vec<char> = Vec::new();
    let mut p: usize = 0;
    while p < t.len()
        invariant
            p <= t@.len(),
            r@ == join_tokens(views(t@).take(p as int)),
        decreases t@.len() - p,
    {
        let ghost pre = views(t@).take(p as int);
        proof {
            assert(views(t@).take(p + 1).drop_last() =~= pre);
            assert(views(t@).take(p + 1).last() == t@[p as int]@);
        }
        if p > 0 {
            r.push(' ');
        } else {
            assert(pre =~= Seq::<Seq<char>>::empty());
            assert(r@ =~= Seq::<char>::empty());
        }
        push_all(&mut r, t[p].as_slice());
        proof {
            if p == 0 {
                assert(views(t@).take(1)[0] == t@[0]@);
                assert(r@ =~= t@[0]@);
            }
        }
        p = p + 1;
    }
    assert(views(t@).take(t@.len() as int) =~= views(t@));
    r
}

/// `s` without its leading whitespace.
pub open spec fn trim_start(s: Seq<char>) -> Seq<char>
    decreases s.len(),
{
    if s.len() > 0 && white_space(s[0]) {
        trim_start(s.drop_first())
    } else {
        s
    }
}

/// `s` without its trailing whitespace.
pub open spec fn trim_end(s: Seq<char>) -> Seq<char>
    decreases s.len(),
{
    if s.len() > 0 && white_space(s.last()) {
        trim_end(s.drop_last())
    } else {
        s
    }
}

/// `s` without leading and trailing whitespace.
pub open spec fn trim(s: Seq<char>) -> Seq<char> {
    trim_end(trim_start(s))
}

/// Removes leading and trailing whitespace.
pub fn trim_chars(s: &[char]) -> (r: Vec<char>)
    ensures
        r@ == trim(s@),
{
    let mut i: usize = 0;
    assert(s@.skip(0) =~= s@);
    while i < s.len() && is_white_space(s[i])
        invariant
            i <= s@.len(),
            trim_start(s@) == trim_start(s@.skip(i as int)),
        decreases s@.len() - i,
    {
        assert(s@.skip(i as int).drop_first() =~= s@.skip(i + 1));
        i = i + 1;
    }
    let ghost t = s@.skip(i as int);
    assert(trim_start(s@) == t);
    let mut j: usize = s.len();
    while j > i && is_white_space(s[j - 1])
        invariant
            i <= j <= s@.len(),
            t == s@.skip(i as int),
            trim_end(t) == trim_end(s@.subrange(i as int, j as int)),
        decreases j,
    {
        assert(s@.subrange(i as int, j as int).drop_last() =~= s@.subrange(i as int, j - 1));
        j = j - 1;
    }
    assert(s@.subrange(i as int, s@.len() as int) =~= t);
    let mut r: Vec<char> = Vec::new();
    push_all(&mut r, &s[i..j]);
    assert(r@ =~= s@.subrange(i as int, j as int));
    r
}

/// The score that the short circuits give: 100 for equal strings, 0 when
/// exactly one of them is empty, `v` otherwise.
pub open spec fn trivial_or(a: Seq<char>, b: Seq<char>, v: int) -> int {
    if a == b {
        100
    } else if (a.len() == 0) != (b.len() == 0) {
        0
    } else {
        v
    }
}

/// Whether two character sequences are equal.
pub fn chars_equal(a: &[char], b: &[char]) -> (r: bool)
    ensures
        r == (a@ == b@),
{
    if a.len() != b.len() {
        return false;
    }
    let mut i: usize = 0;
    while i < a.len()
        invariant
            i <= a@.len(),
            a@.len() == b@.len(),
            a@.take(i as int) == b@.take(i as int),
        decreases a@.len() - i,
    {
        if a[i] != b[i] {
            return false;
        }
        assert(a@.take(i + 1) =~= a@.take(i as int).push(a@[i as int]));
        assert(b@.take(i + 1) =~= b@.take(i as int).push(b@[i as int]));
        i = i + 1;
    }
    assert(a@.take(a@.len() as int) =~= a@);
    assert(b@.take(b@.len() as int) =~= b@);
    true
}

/// The short-circuit score of two strings, if one applies.
pub fn trivial_score(a: &[char], b: &[char]) -> (r: Option<u8>)
    ensures
        r is Some <==> (a@ == b@ || (a@.len() == 0) != (b@.len() == 0)),
        r matches Some(v) ==> v as int == trivial_or(a@, b@, 0),
{
    if chars_equal(a, b) {
        Some(100)
    } else if (a.len() == 0) != (b.len() == 0) {
        Some(0)
    } else {
        None
    }
}

/// The tokens without repeats of the token just before.
pub open spec fn dedup(t: Seq<Seq<char>>) -> Seq<Seq<char>>
    decreases t.len(),
{
    if t.len() == 0 {
        t
    } else {
        let r = dedup(t.drop_last());
        if r.len() > 0 && r.last() == t.last() {
            r
        } else {
            r.push(t.last())
        }
    }
}

/// The tokens of `t`, in order, that occur in `other` (when `present`) or
/// that do not (otherwise).
pub open spec fn keep_tokens(t: Seq<Seq<char>>, other: Seq<Seq<char>>, present: bool) -> Seq<
    Seq<char>,
>
    decreases t.len(),
{
    if t.len() == 0 {
        t
    } else if other.contains(t.last()) == present {
        keep_tokens(t.drop_last(), other, present).push(t.last())
    } else {
        keep_tokens(t.drop_last(), other, present)
    }
}

/// Removes repeats of the token just before.
pub fn dedup_tokens(t: Vec<Vec<char>>) -> (r: Vec<Vec<char>>)
    ensures
        views(r@) == dedup(views(t@)),
{
    let mut r: Vec<Vec<char>> = Vec::new();
    let mut i: usize = 0;
    while i < t.len()
        invariant
            i <= t@.len(),
            views(r@) == dedup(views(t@).take(i as int)),
        decreases t@.len() - i,
    {
        let ghost pre = r@;
        proof {
            assert(views(t@).take(i + 1).drop_last() =~= views(t@).take(i as int));
            assert(views(t@).take(i + 1).last() == t@[i as int]@);
        }
        let n = r.len();
        let repeat = n > 0 && chars_equal(r[n - 1].as_slice(), t[i].as_slice());
        if n > 0 {
            assert(views(r@).last() == r@[n - 1]@);
        }
        if !repeat {
            let x = t[i].clone();
            r.push(x);
            assert(views(r@) =~= views(pre).push(x@));
        }
        i = i + 1;
    }
    assert(views(t@).take(t@.len() as int) =~= views(t@));
    r
}

/// Whether `x` is one of the tokens.
pub fn contains_token(t: &Vec<Vec<char>>, x: &[char]) -> (r: bool)
    ensures
        r == views(t@).contains(x@),
{
    let mut i: usize = 0;
    while i < t.len()
        invariant
            i <= t@.len(),
            forall|k: int| 0 <= k < i ==> views(t@)[k] != x@,
        decreases t@.len() - i,
    {
        if chars_equal(t[i].as_slice(), x) {
            assert(views(t@)[i as int] == x@);
            return true;
        }
        i = i + 1;
    }
    false
}

/// The tokens of `t` that occur in `other` (when `present`) or that do not.
pub fn keep_tokens_vec(t: &Vec<Vec<char>>, other: &Vec<Vec<char>>, present: bool) -> (r: Vec<
    Vec<char>,
>)
    ensures
        views(r@) == keep_tokens(views(t@), views(other@), present),
{
    let mut r: Vec<Vec<char>> = Vec::new();
    let mut i: usize = 0;
    while i < t.len()
        invariant
            i <= t@.len(),
            views(r@) == keep_tokens(views(t@).take(i as int), views(other@), present),
        decreases t@.len() - i,
    {
        let ghost pre = r@;
        proof {
            assert(views(t@).take(i + 1).drop_last() =~= views(t@).take(i as int));
            assert(views(t@).take(i + 1).last() == t@[i as int]@);
        }
        if contains_token(other, t[i].as_slice()) == present {
            let x = t[i].clone();
            r.push(x);
            assert(views(r@) =~= views(pre).push(x@));
        }
        i = i + 1;
    }
    assert(views(t@).take(t@.len() as int) =~= views(t@));
    r
}

} // verus!
