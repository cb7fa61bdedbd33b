//! The mathematical model of a list of closed intervals ("spans").
//!
//! Executable range lists hold `(char, char)` or `(u32, u32)` pairs; the
//! specifications read both as sequences of integer pairs.  A pair `(lo, hi)`
//! stands for the integers `lo ..= hi` (none when `lo > hi`), and a list stands
//! for the union of its pairs.
use vstd::prelude::*;

verus! {

/// `x` lies in one of the spans of `rs`.
pub open spec fn in_spans(rs: Seq<(int, int)>, x: int) -> bool {
    exists|i: int| #![trigger rs[i]] 0 <= i < rs.len() && rs[i].0 <= x && x <= rs[i].1
}

/// The set of integers that the spans cover.
pub open spec fn cover(rs: Seq<(int, int)>) -> Set<int> {
    Set::new(|x: int| in_spans(rs, x))
}

/// Every span has its low end at or below its high end.
pub open spec fn all_valid(rs: Seq<(int, int)>) -> bool {
    forall|i: int| 0 <= i < rs.len() ==> #[trigger] rs[i].0 <= rs[i].1
}

/// The spans are sorted by their low ends and do not overlap
/// (they may touch or overlap nowhere: `rs[i].1 < rs[j].0` for `i < j`).
pub open spec fn sorted_disjoint(rs: Seq<(int, int)>) -> bool {
    &&& all_valid(rs)
    &&& forall|i: int, j: int| 0 <= i < j < rs.len() ==> #[trigger] rs[i].1 < #[trigger] rs[j].0
}

/// The canonical form of a set of integers: valid spans, sorted, with at least
/// one integer left out between two consecutive spans.
pub open spec fn normalized(rs: Seq<(int, int)>) -> bool {
    &&& all_valid(rs)
    &&& forall|i: int, j: int| 0 <= i < j < rs.len() ==> #[trigger] rs[i].1 + 1 < #[trigger] rs[j].0
}

/// `v` is the low end of some span of `s`.
pub open spec fn has_low_end(s: Seq<(int, int)>, v: int) -> bool {
    exists|i: int| #![trigger s[i]] 0 <= i < s.len() && s[i].0 == v
}

/// `v` is the high end of some span of `s`.
pub open spec fn has_high_end(s: Seq<(int, int)>, v: int) -> bool {
    exists|i: int| #![trigger s[i]] 0 <= i < s.len() && s[i].1 == v
}

/// Every low end in `r` is a low end in `s`, and every high end in `r` is a
/// high end in `s`.
pub open spec fn ends_among(r: Seq<(int, int)>, s: Seq<(int, int)>) -> bool {
    forall|k: int| 0 <= k < r.len() ==> has_low_end(s, #[trigger] r[k].0) && has_high_end(s, r[k].1)
}

/// The normalized span list that covers `s` (see `lemma_canon_is`).
pub open spec fn canon(s: Set<int>) -> Seq<(int, int)> {
    choose|r: Seq<(int, int)>| normalized(r) && cover(r) == s
}

/// Integer view of a list of `u32` pairs.
pub open spec fn u32_spans(v: Seq<(u32, u32)>) -> Seq<(int, int)> {
    v.map_values(|p: (u32, u32)| (p.0 as int, p.1 as int))
}

/// Integer view of a list of `char` pairs (code points).
pub open spec fn char_spans(v: Seq<(char, char)>) -> Seq<(int, int)> {
    v.map_values(|p: (char, char)| (p.0 as int, p.1 as int))
}

/// `x` is the code point of a `char`: at most `0x10FFFF` and not a surrogate.
pub open spec fn is_scalar(x: int) -> bool {
    (0 <= x <= 0xD7FF) || (0xE000 <= x <= 0x10FFFF)
}

/// The span holds only code points of `char`s (it may be empty).
pub open spec fn scalar_span(p: (int, int)) -> bool {
    p.0 > p.1 || (0 <= p.0 && p.1 <= 0x10FFFF && (p.1 <= 0xD7FF || 0xE000 <= p.0))
}

/// No span holds an integer that is not the code point of a `char`.
pub open spec fn scalar_spans(rs: Seq<(int, int)>) -> bool {
    forall|i: int| 0 <= i < rs.len() ==> scalar_span(#[trigger] rs[i])
}

/// Every end point of every span is the code point of a `char`.
pub open spec fn scalar_ends(rs: Seq<(int, int)>) -> bool {
    forall|i: int| 0 <= i < rs.len() ==> is_scalar(#[trigger] rs[i].0) && is_scalar(rs[i].1)
}

/// The code point of a `char` is a scalar value.
pub proof fn lemma_char_is_scalar(c: char)
    ensures
        is_scalar(c as int),
{
}

/// Every `char` of a list of pairs has a code point of at most `0x10FFFF`.
pub proof fn lemma_chars_bounded(v: Seq<(char, char)>)
    ensures
        forall|q: int|
            0 <= q < v.len() ==> (#[trigger] v[q]).0 as int <= 0x10FFFF && v[q].1 as int <= 0x10FFFF,
{
    assert forall|q: int| 0 <= q < v.len() implies (#[trigger] v[q]).0 as int <= 0x10FFFF && v[q].1
        as int <= 0x10FFFF by {
        lemma_char_is_scalar(v[q].0);
        lemma_char_is_scalar(v[q].1);
    }
}

/// Appending a span adds what it covers.
pub proof fn lemma_in_spans_push(rs: Seq<(int, int)>, p: (int, int), x: int)
    ensures
        in_spans(rs.push(p), x) == (in_spans(rs, x) || (p.0 <= x && x <= p.1)),
{
    let s = rs.push(p);
    if in_spans(rs, x) {
        let i = choose|i: int| #![trigger rs[i]] 0 <= i < rs.len() && rs[i].0 <= x && x <= rs[i].1;
        assert(s[i] == rs[i]);
    }
    if p.0 <= x && x <= p.1 {
        assert(s[rs.len() as int] == p);
    }
    if in_spans(s, x) {
        let i = choose|i: int| #![trigger s[i]] 0 <= i < s.len() && s[i].0 <= x && x <= s[i].1;
        if i < rs.len() {
            assert(rs[i] == s[i]);
        }
    }
}

/// Two lists side by side cover what either covers.
pub proof fn lemma_in_spans_concat(a: Seq<(int, int)>, b: Seq<(int, int)>, x: int)
    ensures
        in_spans(a + b, x) == (in_spans(a, x) || in_spans(b, x)),
{
    let s = a + b;
    if in_spans(a, x) {
        let i = choose|i: int| #![trigger a[i]] 0 <= i < a.len() && a[i].0 <= x && x <= a[i].1;
        assert(s[i] == a[i]);
    }
    if in_spans(b, x) {
        let i = choose|i: int| #![trigger b[i]] 0 <= i < b.len() && b[i].0 <= x && x <= b[i].1;
        assert(s[a.len() + i] == b[i]);
    }
    if in_spans(s, x) {
        let i = choose|i: int| #![trigger s[i]] 0 <= i < s.len() && s[i].0 <= x && x <= s[i].1;
        if i < a.len() {
            assert(a[i] == s[i]);
        } else {
            assert(b[i - a.len()] == s[i]);
        }
    }
}

/// The empty list covers nothing.
pub proof fn lemma_in_spans_empty(x: int)
    ensures
        !in_spans(Seq::<(int, int)>::empty(), x),
{
}

/// A single span covers the integers between its ends.
pub proof fn lemma_in_spans_single(p: (int, int), x: int)
    ensures
        in_spans(seq![p], x) == (p.0 <= x && x <= p.1),
{
    lemma_in_spans_push(Seq::<(int, int)>::empty(), p, x);
    assert(Seq::<(int, int)>::empty().push(p) == seq![p]);
}

/// Two lists that hold the same pairs cover the same integers and have the
/// same end points.
pub proof fn lemma_same_pairs(a: Seq<(u32, u32)>, b: Seq<(u32, u32)>)
    requires
        forall|e: (u32, u32)| a.contains(e) <==> b.contains(e),
    ensures
        cover(u32_spans(a)) == cover(u32_spans(b)),
        forall|r: Seq<(int, int)>| ends_among(r, u32_spans(a)) ==> ends_among(r, u32_spans(b)),
{
    let sa = u32_spans(a);
    let sb = u32_spans(b);
    assert forall|x: int| in_spans(sa, x) implies in_spans(sb, x) by {
        let i = choose|i: int| #![trigger sa[i]] 0 <= i < sa.len() && sa[i].0 <= x && x <= sa[i].1;
        assert(a.contains(a[i]));
        let j = choose|j: int| 0 <= j < b.len() && b[j] == a[i];
        assert(sb[j] == sa[i]);
    }
    assert forall|x: int| in_spans(sb, x) implies in_spans(sa, x) by {
        let i = choose|i: int| #![trigger sb[i]] 0 <= i < sb.len() && sb[i].0 <= x && x <= sb[i].1;
        assert(b.contains(b[i]));
        let j = choose|j: int| 0 <= j < a.len() && a[j] == b[i];
        assert(sa[j] == sb[i]);
    }
    assert(cover(sa) =~= cover(sb));
    assert forall|r: Seq<(int, int)>| ends_among(r, sa) implies ends_among(r, sb) by {
        lemma_ends_transfer(r, a, b);
    }
}

proof fn lemma_ends_transfer(r: Seq<(int, int)>, a: Seq<(u32, u32)>, b: Seq<(u32, u32)>)
    requires
        forall|e: (u32, u32)| a.contains(e) ==> b.contains(e),
        ends_among(r, u32_spans(a)),
    ensures
        ends_among(r, u32_spans(b)),
{
    let sa = u32_spans(a);
    let sb = u32_spans(b);
    assert forall|k: int| 0 <= k < r.len() implies has_low_end(sb, #[trigger] r[k].0)
        && has_high_end(sb, r[k].1) by {
        let rk = r[k];
        assert(has_low_end(sa, rk.0));
        assert(has_high_end(sa, rk.1));
        let i = choose|i: int| #![trigger sa[i]] 0 <= i < sa.len() && sa[i].0 == rk.0;
        let j = choose|j: int| #![trigger sa[j]] 0 <= j < sa.len() && sa[j].1 == rk.1;
        assert(a.contains(a[i]));
        assert(a.contains(a[j]));
        let i2 = choose|i2: int| 0 <= i2 < b.len() && b[i2] == a[i];
        let j2 = choose|j2: int| 0 <= j2 < b.len() && b[j2] == a[j];
        assert(sb[i2].0 == r[k].0);
        assert(sb[j2].1 == r[k].1);
    }
}

/// An integer above span `t` of a sorted, non-overlapping list and below the next span is
/// covered by no span.
pub proof fn lemma_gap_uncovered(u: Seq<(int, int)>, t: int, x: int)
    requires
        sorted_disjoint(u),
        0 <= t < u.len(),
        u[t].1 < x,
        t + 1 < u.len() ==> x < u[t + 1].0,
    ensures
        !in_spans(u, x),
{
    if in_spans(u, x) {
        let i = choose|i: int| #![trigger u[i]] 0 <= i < u.len() && u[i].0 <= x && x <= u[i].1;
        if i < t {
            assert(u[i].1 + 1 < u[t].0);
        } else if i > t + 1 {
            assert(u[t + 1].1 + 1 < u[i].0);
            assert(u[t + 1].0 <= u[t + 1].1);
        }
    }
}

/// An integer below span `t` of a sorted, non-overlapping list and above the span before it
/// is covered by no span.
pub proof fn lemma_below_uncovered(u: Seq<(int, int)>, t: int, x: int)
    requires
        sorted_disjoint(u),
        0 <= t < u.len(),
        x < u[t].0,
        t > 0 ==> u[t - 1].1 < x,
    ensures
        !in_spans(u, x),
{
    if in_spans(u, x) {
        let i = choose|i: int| #![trigger u[i]] 0 <= i < u.len() && u[i].0 <= x && x <= u[i].1;
        if i < t - 1 {
            assert(u[i].1 + 1 < u[t - 1].0);
            assert(u[t - 1].0 <= u[t - 1].1);
        } else if i > t {
            assert(u[t].1 + 1 < u[i].0);
            assert(u[t].0 <= u[t].1);
        }
    }
}

/// A list of valid spans is empty exactly when it covers nothing.
pub proof fn lemma_empty_cover(r: Seq<(int, int)>)
    requires
        all_valid(r),
    ensures
        (r.len() == 0) == (cover(r) == Set::<int>::empty()),
{
    if r.len() > 0 {
        assert(in_spans(r, r[0].0));
        assert(cover(r).contains(r[0].0));
    } else {
        assert(cover(r) =~= Set::<int>::empty());
    }
}

/// Two normalized span lists that cover the same integers are equal.
pub proof fn lemma_normalized_unique(r1: Seq<(int, int)>, r2: Seq<(int, int)>)
    requires
        normalized(r1),
        normalized(r2),
        cover(r1) == cover(r2),
    ensures
        r1 == r2,
    decreases r1.len(),
{
    assert forall|x: int| in_spans(r1, x) == in_spans(r2, x) by {
        assert(cover(r1).contains(x) == in_spans(r1, x));
        assert(cover(r2).contains(x) == in_spans(r2, x));
    }
    if r1.len() == 0 {
        if r2.len() > 0 {
            assert(in_spans(r2, r2[0].0));
        }
        assert(r1 =~= r2);
    } else if r2.len() == 0 {
        assert(in_spans(r1, r1[0].0));
    } else {
        let a0 = r1[0].0;
        let a1 = r1[0].1;
        let b0 = r2[0].0;
        let b1 = r2[0].1;
        assert(in_spans(r1, a0));
        assert(in_spans(r2, a0));
        let j = choose|j: int| #![trigger r2[j]] 0 <= j < r2.len() && r2[j].0 <= a0 && a0 <= r2[j].1;
        if j > 0 {
            assert(r2[0].1 + 1 < r2[j].0);
        }
        assert(in_spans(r2, b0));
        assert(in_spans(r1, b0));
        let i = choose|i: int| #![trigger r1[i]] 0 <= i < r1.len() && r1[i].0 <= b0 && b0 <= r1[i].1;
        if i > 0 {
            assert(r1[0].1 + 1 < r1[i].0);
        }
        assert(a0 == b0);
        if a1 < b1 {
            assert(in_spans(r2, a1 + 1));
            assert(in_spans(r1, a1 + 1));
            let k = choose|k: int| #![trigger r1[k]] 0 <= k < r1.len() && r1[k].0 <= a1 + 1 && a1 + 1 <= r1[k].1;
            if k > 0 {
                assert(r1[0].1 + 1 < r1[k].0);
            }
            assert(false);
        }
        if b1 < a1 {
            assert(in_spans(r1, b1 + 1));
            assert(in_spans(r2, b1 + 1));
            let k = choose|k: int| #![trigger r2[k]] 0 <= k < r2.len() && r2[k].0 <= b1 + 1 && b1 + 1 <= r2[k].1;
            if k > 0 {
                assert(r2[0].1 + 1 < r2[k].0);
            }
            assert(false);
        }
        let t1 = r1.drop_first();
        let t2 = r2.drop_first();
        assert forall|x: int| in_spans(t1, x) == (in_spans(r1, x) && x > a1) by {
            if in_spans(t1, x) {
                let k = choose|k: int| #![trigger t1[k]] 0 <= k < t1.len() && t1[k].0 <= x && x <= t1[k].1;
                assert(t1[k] == r1[k + 1]);
                assert(r1[0].1 + 1 < r1[k + 1].0);
            }
            if in_spans(r1, x) && x > a1 {
                let k = choose|k: int| #![trigger r1[k]] 0 <= k < r1.len() && r1[k].0 <= x && x <= r1[k].1;
                assert(k != 0);
                assert(t1[k - 1] == r1[k]);
            }
        }
        assert forall|x: int| in_spans(t2, x) == (in_spans(r2, x) && x > b1) by {
            if in_spans(t2, x) {
                let k = choose|k: int| #![trigger t2[k]] 0 <= k < t2.len() && t2[k].0 <= x && x <= t2[k].1;
                assert(t2[k] == r2[k + 1]);
                assert(r2[0].1 + 1 < r2[k + 1].0);
            }
            if in_spans(r2, x) && x > b1 {
                let k = choose|k: int| #![trigger r2[k]] 0 <= k < r2.len() && r2[k].0 <= x && x <= r2[k].1;
                assert(k != 0);
                assert(t2[k - 1] == r2[k]);
            }
        }
        assert(normalized(t1)) by {
            assert forall|p: int, q: int| 0 <= p < q < t1.len() implies #[trigger] t1[p].1 + 1
                < #[trigger] t1[q].0 by {
                assert(t1[p] == r1[p + 1]);
                assert(t1[q] == r1[q + 1]);
            }
            assert forall|p: int| 0 <= p < t1.len() implies #[trigger] t1[p].0 <= t1[p].1 by {
                assert(t1[p] == r1[p + 1]);
            }
        }
        assert(normalized(t2)) by {
            assert forall|p: int, q: int| 0 <= p < q < t2.len() implies #[trigger] t2[p].1 + 1
                < #[trigger] t2[q].0 by {
                assert(t2[p] == r2[p + 1]);
                assert(t2[q] == r2[q + 1]);
            }
            assert forall|p: int| 0 <= p < t2.len() implies #[trigger] t2[p].0 <= t2[p].1 by {
                assert(t2[p] == r2[p + 1]);
            }
        }
        assert(cover(t1) =~= cover(t2));
        lemma_normalized_unique(t1, t2);
        assert(r1 =~= seq![r1[0]] + t1);
        assert(r2 =~= seq![r2[0]] + t2);
    }
}

/// A normalized list that covers `s` is the canonical form of `s`.
pub proof fn lemma_canon_is(r: Seq<(int, int)>, s: Set<int>)
    requires
        normalized(r),
        cover(r) == s,
    ensures
        canon(s) == r,
{
    let c = canon(s);
    assert(normalized(c) && cover(c) == s);
    lemma_normalized_unique(c, r);
}

} // verus!
