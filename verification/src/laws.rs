//! What the range operations mean as operations on sets of characters.
//!
//! The functions of [`crate::ranges`] state exactly what their walks return on
//! any input.  The laws here state what those results cover when the inputs
//! are sorted lists of non-overlapping ranges, as canonical lists are.  On
//! other inputs the walks may miss characters: a list that puts `_` after
//! `a-z`, intersected with `_`, gives nothing.
use vstd::prelude::*;
use crate::range_spec::{
    all_valid, canon, cover, in_spans, lemma_canon_is, lemma_in_spans_concat,
    lemma_in_spans_empty, lemma_in_spans_push, lemma_in_spans_single, normalized,
    sorted_disjoint,
};
use crate::range_walks::{
    diff_span_walk, difference_spans, difference_walk, intersection_spans, intersection_walk,
    lemma_all_valid_concat, lemma_difference_walk_valid, lemma_intersection_walk_valid,
    max_int, min_int, skip_below, symmetric_difference_spans,
};
use crate::class::{binary_op_spans, SetOp};
use crate::ranges::{clip, unicode_spans};
use crate::ucd::{lowercase_of, ranges_from_category, ranges_from_name, UcdTables};

verus! {

/// At least `g` integers lie between a span and every later span:
/// `rs[i].1 + g < rs[j].0` for `i < j`.
pub open spec fn spaced(rs: Seq<(int, int)>, g: int) -> bool {
    forall|i: int, j: int| 0 <= i < j < rs.len() ==> #[trigger] rs[i].1 + g < #[trigger] rs[j].0
}

/// The spans of `a` from position `i` on cover `x`, split into the span at `i`
/// and those after it.
proof fn lemma_skip_step(a: Seq<(int, int)>, i: int, x: int)
    requires
        0 <= i < a.len(),
    ensures
        in_spans(a.skip(i), x) == ((a[i].0 <= x && x <= a[i].1) || in_spans(a.skip(i + 1), x)),
{
    assert(a.skip(i) =~= seq![a[i]] + a.skip(i + 1));
    lemma_in_spans_concat(seq![a[i]], a.skip(i + 1), x);
    lemma_in_spans_single(a[i], x);
}

/// From its end on, a list covers nothing.
proof fn lemma_skip_end(a: Seq<(int, int)>, i: int, x: int)
    requires
        i == a.len(),
    ensures
        !in_spans(a.skip(i), x),
{
    assert(a.skip(i) =~= Seq::<(int, int)>::empty());
    lemma_in_spans_empty(x);
}

/// What the spans of a sorted list from position `i` on cover lies at or above
/// the low end of span `i`.
proof fn lemma_skip_lower(a: Seq<(int, int)>, i: int, x: int)
    requires
        sorted_disjoint(a),
        0 <= i < a.len(),
        in_spans(a.skip(i), x),
    ensures
        a[i].0 <= x,
{
    let t = a.skip(i);
    let k = choose|k: int| #![trigger t[k]] 0 <= k < t.len() && t[k].0 <= x && x <= t[k].1;
    assert(t[k] == a[i + k]);
    if k > 0 {
        assert(a[i].1 < a[i + k].0);
    }
}

/// Joining two spaced lists, where every span of the first ends more than `g`
/// below the start of every span of the second, gives a spaced list.
proof fn lemma_spaced_concat(s: Seq<(int, int)>, t: Seq<(int, int)>, g: int)
    requires
        spaced(s, g),
        spaced(t, g),
        forall|p: int, q: int| 0 <= p < s.len() && 0 <= q < t.len() ==> #[trigger] s[p].1 + g < #[trigger] t[q].0,
    ensures
        spaced(s + t, g),
{
    let u = s + t;
    assert forall|i: int, j: int| 0 <= i < j < u.len() implies #[trigger] u[i].1 + g < #[trigger] u[j].0 by {
        if j < s.len() {
            assert(u[i] == s[i] && u[j] == s[j]);
        } else if i >= s.len() {
            assert(u[i] == t[i - s.len()] && u[j] == t[j - s.len()]);
        } else {
            assert(u[i] == s[i] && u[j] == t[j - s.len()]);
        }
    }
}

/// The intersection walk from positions `i` and `j` covers what the spans of
/// `a` from `i` on and the spans of `b` from `j` on both cover.
proof fn lemma_intersection_walk_cover(a: Seq<(int, int)>, b: Seq<(int, int)>, i: int, j: int, x: int)
    requires
        sorted_disjoint(a),
        sorted_disjoint(b),
        0 <= i <= a.len(),
        0 <= j <= b.len(),
    ensures
        in_spans(intersection_walk(a, b, i, j), x) == (in_spans(a.skip(i), x) && in_spans(b.skip(j), x)),
    decreases a.len() + b.len() - i - j,
{
    if i < a.len() && j < b.len() {
        let lo = max_int(a[i].0, b[j].0);
        let hi = min_int(a[i].1, b[j].1);
        let piece = if lo <= hi {
            seq![(lo, hi)]
        } else {
            Seq::<(int, int)>::empty()
        };
        let in_piece = lo <= x && x <= hi;
        if lo <= hi {
            lemma_in_spans_single((lo, hi), x);
        } else {
            lemma_in_spans_empty(x);
        }
        assert(in_spans(piece, x) == in_piece);
        lemma_skip_step(a, i, x);
        lemma_skip_step(b, j, x);
        if a[i].1 < b[j].1 {
            let rest = intersection_walk(a, b, i + 1, j);
            lemma_intersection_walk_cover(a, b, i + 1, j, x);
            lemma_in_spans_concat(piece, rest, x);
            if j + 1 < b.len() && in_spans(b.skip(j + 1), x) {
                lemma_skip_lower(b, j + 1, x);
                assert(b[j].1 < b[j + 1].0);
            }
            if j + 1 >= b.len() {
                lemma_skip_end(b, j + 1, x);
            }
        } else {
            let rest = intersection_walk(a, b, i, j + 1);
            lemma_intersection_walk_cover(a, b, i, j + 1, x);
            lemma_in_spans_concat(piece, rest, x);
            if i + 1 < a.len() && in_spans(a.skip(i + 1), x) {
                lemma_skip_lower(a, i + 1, x);
                assert(a[i].1 < a[i + 1].0);
            }
            if i + 1 >= a.len() {
                lemma_skip_end(a, i + 1, x);
            }
        }
    } else {
        if i >= a.len() {
            lemma_skip_end(a, i, x);
        } else {
            lemma_skip_end(b, j, x);
        }
        lemma_in_spans_empty(x);
    }
}

/// The intersection walk from positions `i` and `j` gives spans at least `g`
/// apart when both inputs are, each starting at or above the spans it came from.
proof fn lemma_intersection_walk_spaced(a: Seq<(int, int)>, b: Seq<(int, int)>, i: int, j: int, g: int)
    requires
        sorted_disjoint(a),
        sorted_disjoint(b),
        spaced(a, g),
        spaced(b, g),
        0 <= i <= a.len(),
        0 <= j <= b.len(),
    ensures
        spaced(intersection_walk(a, b, i, j), g),
    decreases a.len() + b.len() - i - j,
{
    if i < a.len() && j < b.len() {
        let lo = max_int(a[i].0, b[j].0);
        let hi = min_int(a[i].1, b[j].1);
        let piece = if lo <= hi {
            seq![(lo, hi)]
        } else {
            Seq::<(int, int)>::empty()
        };
        let (ni, nj) = if a[i].1 < b[j].1 {
            (i + 1, j)
        } else {
            (i, j + 1)
        };
        let rest = intersection_walk(a, b, ni, nj);
        lemma_intersection_walk_spaced(a, b, ni, nj, g);
        lemma_intersection_walk_valid(a, b, ni, nj);
        assert forall|p: int, q: int| 0 <= p < piece.len() && 0 <= q < rest.len() implies #[trigger] piece[p].1
            + g < #[trigger] rest[q].0 by {
            let y = rest[q].0;
            assert(rest[q].0 <= rest[q].1);
            assert(in_spans(rest, y));
            lemma_intersection_walk_cover(a, b, ni, nj, y);
            if a[i].1 < b[j].1 {
                lemma_skip_lower(a, i + 1, y);
                assert(a[i].1 + g < a[i + 1].0);
            } else {
                lemma_skip_lower(b, j + 1, y);
                assert(b[j].1 + g < b[j + 1].0);
            }
        }
        lemma_spaced_concat(piece, rest, g);
    }
}

/// Intersecting two sorted lists of non-overlapping ranges covers exactly the
/// characters that both lists cover, and gives a sorted list of
/// non-overlapping ranges; canonical inputs give a canonical result.
pub proof fn law_intersection_is_set_intersection(a: Seq<(int, int)>, b: Seq<(int, int)>)
    requires
        sorted_disjoint(a),
        sorted_disjoint(b),
    ensures
        cover(intersection_spans(a, b)) == cover(a).intersect(cover(b)),
        sorted_disjoint(intersection_spans(a, b)),
        normalized(a) && normalized(b) ==> normalized(intersection_spans(a, b)),
{
    assert(a.skip(0) =~= a);
    assert(b.skip(0) =~= b);
    assert forall|x: int| cover(intersection_spans(a, b)).contains(x) == cover(a).intersect(cover(b)).contains(x) by {
        lemma_intersection_walk_cover(a, b, 0, 0, x);
    }
    assert(cover(intersection_spans(a, b)) =~= cover(a).intersect(cover(b)));
    lemma_intersection_walk_valid(a, b, 0, 0);
    lemma_intersection_walk_spaced(a, b, 0, 0, 0);
    if normalized(a) && normalized(b) {
        lemma_intersection_walk_spaced(a, b, 0, 0, 1);
    }
}

/// `skip_below` stops at the first span from `j` on that does not end below `x`.
proof fn lemma_skip_below(b: Seq<(int, int)>, j: int, x: int)
    requires
        0 <= j <= b.len(),
    ensures
        j <= skip_below(b, j, x) <= b.len(),
        forall|k: int| j <= k < skip_below(b, j, x) ==> #[trigger] b[k].1 < x,
        skip_below(b, j, x) < b.len() ==> b[skip_below(b, j, x)].1 >= x,
    decreases b.len() - j,
{
    if j < b.len() && b[j].1 < x {
        lemma_skip_below(b, j + 1, x);
    }
}

/// What the inner difference walk leaves of `cur ..= a_hi`: its gaps and the
/// tail `r.2 ..= a_hi` together cover the integers of `cur ..= a_hi` that `b`
/// does not cover, when every span of `b` before `k` ends below `cur` and
/// span `k` does not.
proof fn lemma_diff_span_walk_cover(a_hi: int, b: Seq<(int, int)>, k: int, cur: int, x: int)
    requires
        sorted_disjoint(b),
        0 <= k <= b.len(),
        cur <= a_hi + 1,
        forall|m: int| 0 <= m < k ==> #[trigger] b[m].1 < cur,
        k < b.len() ==> cur <= b[k].1,
    ensures
        ({
            let r = diff_span_walk(a_hi, b, k, cur);
            (in_spans(r.0, x) || (r.2 <= x && x <= a_hi)) == (cur <= x && x <= a_hi && !in_spans(b, x))
        }),
    decreases b.len() - k,
{
    if k < b.len() && b[k].0 <= a_hi {
        let gap = if b[k].0 > cur {
            seq![(cur, b[k].0 - 1)]
        } else {
            Seq::<(int, int)>::empty()
        };
        if b[k].0 > cur {
            lemma_in_spans_single((cur, b[k].0 - 1), x);
        } else {
            lemma_in_spans_empty(x);
        }
        assert(in_spans(gap, x) == (cur <= x && x <= b[k].0 - 1));
        if cur <= x && x < b[k].0 && in_spans(b, x) {
            let m = choose|m: int| #![trigger b[m]] 0 <= m < b.len() && b[m].0 <= x && x <= b[m].1;
            if m > k {
                assert(b[k].1 < b[m].0);
            }
        }
        if b[k].0 <= x && x <= b[k].1 {
            assert(in_spans(b, x));
        }
        if b[k].1 < a_hi {
            assert forall|m: int| 0 <= m < k + 1 implies #[trigger] b[m].1 < b[k].1 + 1 by {
                if m < k {
                    assert(b[m].1 < b[k].0);
                }
            }
            if k + 1 < b.len() {
                assert(b[k].1 < b[k + 1].0);
            }
            lemma_diff_span_walk_cover(a_hi, b, k + 1, b[k].1 + 1, x);
            let r1 = diff_span_walk(a_hi, b, k + 1, b[k].1 + 1);
            lemma_in_spans_concat(gap, r1.0, x);
        }
    } else {
        lemma_in_spans_empty(x);
        if cur <= x && x <= a_hi && in_spans(b, x) {
            let m = choose|m: int| #![trigger b[m]] 0 <= m < b.len() && b[m].0 <= x && x <= b[m].1;
            if m > k {
                assert(b[k].1 < b[m].0);
            }
        }
    }
}

/// The inner difference walk stops at a position before which every span of
/// `b` ends at or below `a_hi`; its gaps lie in `cur ..= a_hi`, are more than
/// one integer apart, and end more than one integer below where the walk
/// leaves `cur`.
proof fn lemma_diff_span_walk_shape(a_hi: int, b: Seq<(int, int)>, k: int, cur: int)
    requires
        sorted_disjoint(b),
        0 <= k <= b.len(),
        cur <= a_hi + 1,
        forall|m: int| 0 <= m < k ==> #[trigger] b[m].1 < cur,
        k < b.len() ==> cur <= b[k].1,
    ensures
        ({
            let r = diff_span_walk(a_hi, b, k, cur);
            &&& k <= r.1 <= b.len()
            &&& forall|m: int| 0 <= m < r.1 ==> #[trigger] b[m].1 <= a_hi
            &&& cur <= r.2 <= a_hi + 1
            &&& spaced(r.0, 1)
            &&& forall|q: int| 0 <= q < r.0.len() ==> cur <= (#[trigger] r.0[q]).0 && r.0[q].1 <= a_hi
                && r.0[q].1 + 1 < r.2
        }),
    decreases b.len() - k,
{
    if k < b.len() && b[k].0 <= a_hi {
        let gap = if b[k].0 > cur {
            seq![(cur, b[k].0 - 1)]
        } else {
            Seq::<(int, int)>::empty()
        };
        if b[k].1 < a_hi {
            assert forall|m: int| 0 <= m < k + 1 implies #[trigger] b[m].1 < b[k].1 + 1 by {
                if m < k {
                    assert(b[m].1 < b[k].0);
                }
            }
            if k + 1 < b.len() {
                assert(b[k].1 < b[k + 1].0);
            }
            lemma_diff_span_walk_shape(a_hi, b, k + 1, b[k].1 + 1);
            let r1 = diff_span_walk(a_hi, b, k + 1, b[k].1 + 1);
            assert forall|p: int, q: int| 0 <= p < gap.len() && 0 <= q < r1.0.len() implies #[trigger] gap[p].1
                + 1 < #[trigger] r1.0[q].0 by {
                assert(b[k].0 <= b[k].1);
            }
            lemma_spaced_concat(gap, r1.0, 1);
            let s = gap + r1.0;
            assert forall|q: int| 0 <= q < s.len() implies cur <= (#[trigger] s[q]).0 && s[q].1 <= a_hi
                && s[q].1 + 1 < r1.2 by {
                if q < gap.len() {
                    assert(s[q] == gap[q]);
                    assert(b[k].0 <= b[k].1);
                } else {
                    assert(s[q] == r1.0[q - gap.len()]);
                }
            }
        }
    }
}

/// The difference walk from position `i` of `a` covers what the spans of `a`
/// from `i` on cover and `b` does not, when every span of `b` before `j` ends
/// below span `i` of `a`.
proof fn lemma_difference_walk_cover(a: Seq<(int, int)>, b: Seq<(int, int)>, i: int, j: int, x: int)
    requires
        sorted_disjoint(a),
        sorted_disjoint(b),
        0 <= i <= a.len(),
        0 <= j <= b.len(),
        i < a.len() ==> forall|m: int| 0 <= m < j ==> #[trigger] b[m].1 < a[i].0,
    ensures
        in_spans(difference_walk(a, b, i, j), x) == (in_spans(a.skip(i), x) && !in_spans(b, x)),
    decreases a.len() - i,
{
    if i < a.len() {
        let j1 = skip_below(b, j, a[i].0);
        lemma_skip_below(b, j, a[i].0);
        assert forall|m: int| 0 <= m < j1 implies #[trigger] b[m].1 < a[i].0 by {
            if m >= j {
                assert(j <= m < skip_below(b, j, a[i].0));
            }
        }
        let r = diff_span_walk(a[i].1, b, j1, a[i].0);
        lemma_diff_span_walk_cover(a[i].1, b, j1, a[i].0, x);
        lemma_diff_span_walk_shape(a[i].1, b, j1, a[i].0);
        let tail = if r.2 <= a[i].1 {
            seq![(r.2, a[i].1)]
        } else {
            Seq::<(int, int)>::empty()
        };
        if r.2 <= a[i].1 {
            lemma_in_spans_single((r.2, a[i].1), x);
        } else {
            lemma_in_spans_empty(x);
        }
        if i + 1 < a.len() {
            assert forall|m: int| 0 <= m < r.1 implies #[trigger] b[m].1 < a[i + 1].0 by {
                assert(a[i].1 < a[i + 1].0);
            }
        } else {
            lemma_skip_end(a, i + 1, x);
        }
        lemma_difference_walk_cover(a, b, i + 1, r.1, x);
        let rest = difference_walk(a, b, i + 1, r.1);
        lemma_in_spans_concat(r.0, tail, x);
        lemma_in_spans_concat(r.0 + tail, rest, x);
        lemma_skip_step(a, i, x);
    } else {
        lemma_skip_end(a, i, x);
        lemma_in_spans_empty(x);
    }
}

/// The difference walk gives spans `g` apart (for `g` of 0 or 1) when `a` is.
proof fn lemma_difference_walk_spaced(a: Seq<(int, int)>, b: Seq<(int, int)>, i: int, j: int, g: int)
    requires
        sorted_disjoint(a),
        sorted_disjoint(b),
        spaced(a, g),
        0 <= g <= 1,
        0 <= i <= a.len(),
        0 <= j <= b.len(),
        i < a.len() ==> forall|m: int| 0 <= m < j ==> #[trigger] b[m].1 < a[i].0,
    ensures
        spaced(difference_walk(a, b, i, j), g),
    decreases a.len() - i,
{
    if i < a.len() {
        let j1 = skip_below(b, j, a[i].0);
        lemma_skip_below(b, j, a[i].0);
        assert forall|m: int| 0 <= m < j1 implies #[trigger] b[m].1 < a[i].0 by {
            if m >= j {
                assert(j <= m < skip_below(b, j, a[i].0));
            }
        }
        let r = diff_span_walk(a[i].1, b, j1, a[i].0);
        lemma_diff_span_walk_shape(a[i].1, b, j1, a[i].0);
        let tail = if r.2 <= a[i].1 {
            seq![(r.2, a[i].1)]
        } else {
            Seq::<(int, int)>::empty()
        };
        if i + 1 < a.len() {
            assert forall|m: int| 0 <= m < r.1 implies #[trigger] b[m].1 < a[i + 1].0 by {
                assert(a[i].1 < a[i + 1].0);
            }
        }
        lemma_difference_walk_spaced(a, b, i + 1, r.1, g);
        lemma_difference_walk_valid(a, b, i + 1, r.1);
        let rest = difference_walk(a, b, i + 1, r.1);
        assert(spaced(r.0, g)) by {
            assert forall|p: int, q: int| 0 <= p < q < r.0.len() implies #[trigger] r.0[p].1 + g
                < #[trigger] r.0[q].0 by {
                assert(r.0[p].1 + 1 < r.0[q].0);
            }
        }
        assert forall|p: int, q: int| 0 <= p < r.0.len() && 0 <= q < tail.len() implies #[trigger] r.0[p].1
            + g < #[trigger] tail[q].0 by {
            assert(r.0[p].1 + 1 < r.2);
        }
        lemma_spaced_concat(r.0, tail, g);
        let head = r.0 + tail;
        assert forall|p: int, q: int| 0 <= p < head.len() && 0 <= q < rest.len() implies #[trigger] head[p].1
            + g < #[trigger] rest[q].0 by {
            if p < r.0.len() {
                assert(head[p] == r.0[p]);
            } else {
                assert(head[p] == tail[p - r.0.len()]);
            }
            let y = rest[q].0;
            assert(rest[q].0 <= rest[q].1);
            assert(in_spans(rest, y));
            lemma_difference_walk_cover(a, b, i + 1, r.1, y);
            if i + 1 < a.len() {
                lemma_skip_lower(a, i + 1, y);
                assert(a[i].1 + g < a[i + 1].0);
            } else {
                lemma_skip_end(a, i + 1, y);
            }
        }
        lemma_spaced_concat(head, rest, g);
    }
}

/// Subtracting a sorted list of non-overlapping ranges from another covers
/// exactly the characters that the first covers and the second does not, and
/// gives a sorted list of non-overlapping ranges; a canonical first list gives
/// a canonical result.
pub proof fn law_difference_is_set_difference(a: Seq<(int, int)>, b: Seq<(int, int)>)
    requires
        sorted_disjoint(a),
        sorted_disjoint(b),
    ensures
        cover(difference_spans(a, b)) == cover(a).difference(cover(b)),
        sorted_disjoint(difference_spans(a, b)),
        normalized(a) ==> normalized(difference_spans(a, b)),
{
    assert(a.skip(0) =~= a);
    assert forall|x: int| cover(difference_spans(a, b)).contains(x) == cover(a).difference(cover(b)).contains(x) by {
        lemma_difference_walk_cover(a, b, 0, 0, x);
    }
    assert(cover(difference_spans(a, b)) =~= cover(a).difference(cover(b)));
    lemma_difference_walk_valid(a, b, 0, 0);
    lemma_difference_walk_spaced(a, b, 0, 0, 0);
    if normalized(a) {
        lemma_difference_walk_spaced(a, b, 0, 0, 1);
    }
}

/// The canonical list `c` with the span `p` added: the spans of `c` that end
/// more than one below `p` come first, then `p` joined with every span that
/// overlaps or touches it, then the rest.
spec fn insert_span(c: Seq<(int, int)>, p: (int, int)) -> Seq<(int, int)>
    decreases c.len(),
{
    if c.len() == 0 {
        seq![p]
    } else if c[0].1 + 1 < p.0 {
        seq![c[0]] + insert_span(c.drop_first(), p)
    } else if p.1 + 1 < c[0].0 {
        seq![p] + c
    } else {
        insert_span(c.drop_first(), (min_int(c[0].0, p.0), max_int(c[0].1, p.1)))
    }
}

/// A canonical list built from the spans of `r` one at a time.
spec fn normal_form(r: Seq<(int, int)>) -> Seq<(int, int)>
    decreases r.len(),
{
    if r.len() == 0 {
        Seq::empty()
    } else if r.last().0 <= r.last().1 {
        insert_span(normal_form(r.drop_last()), r.last())
    } else {
        normal_form(r.drop_last())
    }
}

/// The least low end among the first span of `c` and `p`.
spec fn least_low(c: Seq<(int, int)>, p: (int, int)) -> int {
    if c.len() == 0 {
        p.0
    } else {
        min_int(c[0].0, p.0)
    }
}

/// Dropping the first span keeps a list canonical, and leaves what the first
/// span does not cover.
proof fn lemma_drop_first(c: Seq<(int, int)>, x: int)
    requires
        c.len() > 0,
    ensures
        normalized(c) ==> normalized(c.drop_first()),
        in_spans(c, x) == ((c[0].0 <= x && x <= c[0].1) || in_spans(c.drop_first(), x)),
{
    assert(c.skip(1) =~= c.drop_first());
    lemma_skip_step(c, 0, x);
    assert(c.skip(0) =~= c);
    if normalized(c) {
        let d = c.drop_first();
        assert forall|i: int, j: int| 0 <= i < j < d.len() implies #[trigger] d[i].1 + 1 < #[trigger] d[j].0 by {
            assert(d[i] == c[i + 1] && d[j] == c[j + 1]);
        }
        assert forall|i: int| 0 <= i < d.len() implies #[trigger] d[i].0 <= d[i].1 by {
            assert(d[i] == c[i + 1]);
        }
    }
}

/// Adding a span covers what it covers besides what the list covered.
proof fn lemma_insert_span_cover(c: Seq<(int, int)>, p: (int, int), x: int)
    requires
        p.0 <= p.1,
    ensures
        in_spans(insert_span(c, p), x) == (in_spans(c, x) || (p.0 <= x && x <= p.1)),
    decreases c.len(),
{
    if c.len() == 0 {
        lemma_in_spans_single(p, x);
        lemma_in_spans_empty(x);
    } else {
        lemma_drop_first(c, x);
        lemma_in_spans_single(c[0], x);
        lemma_in_spans_single(p, x);
        if c[0].1 + 1 < p.0 {
            lemma_insert_span_cover(c.drop_first(), p, x);
            lemma_in_spans_concat(seq![c[0]], insert_span(c.drop_first(), p), x);
        } else if p.1 + 1 < c[0].0 {
            lemma_in_spans_concat(seq![p], c, x);
        } else {
            let q = (min_int(c[0].0, p.0), max_int(c[0].1, p.1));
            lemma_insert_span_cover(c.drop_first(), q, x);
        }
    }
}

/// Adding a span to a canonical list keeps it canonical, and starts it no
/// lower than the lower of the span and the list's first span.
proof fn lemma_insert_span_shape(c: Seq<(int, int)>, p: (int, int))
    requires
        normalized(c),
        p.0 <= p.1,
    ensures
        normalized(insert_span(c, p)),
        forall|q: int| 0 <= q < insert_span(c, p).len() ==> least_low(c, p) <= (#[trigger] insert_span(c, p)[q]).0,
    decreases c.len(),
{
    if c.len() > 0 {
        let d = c.drop_first();
        lemma_drop_first(c, 0);
        if d.len() > 0 {
            assert(d[0] == c[1]);
            assert(c[0].1 + 1 < c[1].0);
        }
        if c[0].1 + 1 < p.0 {
            lemma_insert_span_shape(d, p);
            let r1 = insert_span(d, p);
            let head = seq![c[0]];
            assert forall|i: int, j: int| 0 <= i < head.len() && 0 <= j < r1.len() implies #[trigger] head[i].1 + 1
                < #[trigger] r1[j].0 by {}
            lemma_spaced_concat(head, r1, 1);
            lemma_all_valid_concat(head, r1);
            let r = head + r1;
            assert forall|q: int| 0 <= q < r.len() implies least_low(c, p) <= (#[trigger] r[q]).0 by {
                if q > 0 {
                    assert(r[q] == r1[q - 1]);
                }
            }
        } else if p.1 + 1 < c[0].0 {
            let head = seq![p];
            assert forall|i: int, j: int| 0 <= i < head.len() && 0 <= j < c.len() implies #[trigger] head[i].1 + 1
                < #[trigger] c[j].0 by {
                if j > 0 {
                    assert(c[0].1 + 1 < c[j].0);
                }
            }
            lemma_spaced_concat(head, c, 1);
            lemma_all_valid_concat(head, c);
            let r = head + c;
            assert forall|q: int| 0 <= q < r.len() implies least_low(c, p) <= (#[trigger] r[q]).0 by {
                if q > 0 {
                    assert(r[q] == c[q - 1]);
                    if q > 1 {
                        assert(c[0].1 + 1 < c[q - 1].0);
                    }
                }
            }
        } else {
            let q0 = (min_int(c[0].0, p.0), max_int(c[0].1, p.1));
            lemma_insert_span_shape(d, q0);
        }
    }
}

/// `normal_form` is canonical and covers what its input covers.
proof fn lemma_normal_form(r: Seq<(int, int)>, x: int)
    ensures
        normalized(normal_form(r)),
        in_spans(normal_form(r), x) == in_spans(r, x),
    decreases r.len(),
{
    if r.len() == 0 {
        lemma_in_spans_empty(x);
    } else {
        let r0 = r.drop_last();
        lemma_normal_form(r0, x);
        assert(r =~= r0.push(r.last()));
        lemma_in_spans_push(r0, r.last(), x);
        if r.last().0 <= r.last().1 {
            lemma_insert_span_cover(normal_form(r0), r.last(), x);
            lemma_insert_span_shape(normal_form(r0), r.last());
        }
    }
}

/// The set that a list of ranges covers has a canonical form, which covers
/// that set.
pub proof fn lemma_canon_exists(r: Seq<(int, int)>)
    ensures
        normalized(canon(cover(r))),
        cover(canon(cover(r))) == cover(r),
{
    let c = normal_form(r);
    lemma_normal_form(r, 0);
    assert forall|x: int| cover(c).contains(x) == cover(r).contains(x) by {
        lemma_normal_form(r, x);
    }
    assert(cover(c) =~= cover(r));
    lemma_canon_is(c, cover(r));
}

/// Merging is idempotent: the canonical form of what a list covers is a list
/// of valid ranges whose own canonical form is itself.
pub proof fn law_canonical_form_is_stable(r: Seq<(int, int)>)
    ensures
        all_valid(canon(cover(r))),
        canon(cover(canon(cover(r)))) == canon(cover(r)),
{
    lemma_canon_exists(r);
}

/// The symmetric difference of two sorted lists of non-overlapping ranges
/// covers exactly the characters that one of them covers and the other does
/// not, and is a sorted list of non-overlapping ranges: canonical when both
/// inputs hold ranges, or when both are canonical.
pub proof fn law_symmetric_difference_is_set_symmetric_difference(a: Seq<(int, int)>, b: Seq<(int, int)>)
    requires
        sorted_disjoint(a),
        sorted_disjoint(b),
    ensures
        cover(symmetric_difference_spans(a, b)) == cover(a).difference(cover(b)).union(
            cover(b).difference(cover(a)),
        ),
        sorted_disjoint(symmetric_difference_spans(a, b)),
        a.len() > 0 && b.len() > 0 ==> normalized(symmetric_difference_spans(a, b)),
        normalized(a) && normalized(b) ==> normalized(symmetric_difference_spans(a, b)),
{
    let target = cover(a).difference(cover(b)).union(cover(b).difference(cover(a)));
    if a.len() == 0 {
        assert forall|x: int| !cover(a).contains(x) by {
            lemma_in_spans_empty(x);
            assert(a =~= Seq::<(int, int)>::empty());
        }
        assert(cover(b) =~= target);
    } else if b.len() == 0 {
        assert forall|x: int| !cover(b).contains(x) by {
            lemma_in_spans_empty(x);
            assert(b =~= Seq::<(int, int)>::empty());
        }
        assert(cover(a) =~= target);
    } else {
        let d1 = difference_spans(a, b);
        let d2 = difference_spans(b, a);
        law_difference_is_set_difference(a, b);
        law_difference_is_set_difference(b, a);
        lemma_canon_exists(d1 + d2);
        assert forall|x: int| cover(d1 + d2).contains(x) == target.contains(x) by {
            lemma_in_spans_concat(d1, d2, x);
        }
        assert(cover(d1 + d2) =~= target);
    }
}

/// Taking the complement within a canonical universe twice gives the
/// canonical form of the part of the input that lies in the universe.
pub proof fn law_double_complement(r: Seq<(int, int)>, u: Seq<(int, int)>)
    requires
        normalized(u),
    ensures
        canon(cover(u).difference(cover(canon(cover(u).difference(cover(r)))))) == canon(
            cover(u).intersect(cover(r)),
        ),
{
    let c = canon(cover(r));
    lemma_canon_exists(r);
    law_difference_is_set_difference(u, c);
    let d = difference_spans(u, c);
    lemma_canon_exists(d);
    assert(cover(u).difference(cover(canon(cover(u).difference(cover(r))))) =~= cover(u).intersect(
        cover(r),
    ));
}

/// Property names and values are matched without regard to case: names (and
/// values) with the same lowercase form find the same ranges.  The empty name
/// is an error of its own, so the names are taken both empty or both not.
pub proof fn law_property_names_ignore_case(
    t: UcdTables,
    name1: Seq<char>,
    name2: Seq<char>,
    value1: Seq<char>,
    value2: Seq<char>,
)
    requires
        lowercase_of(name1) == lowercase_of(name2),
    ensures
        (name1.len() == 0) == (name2.len() == 0) ==> ranges_from_name(t, name1) == ranges_from_name(
            t,
            name2,
        ),
        lowercase_of(value1) == lowercase_of(value2) ==> (ranges_from_category(t, name1, value1) is Ok
            <==> ranges_from_category(t, name2, value2) is Ok),
        lowercase_of(value1) == lowercase_of(value2) && ranges_from_category(t, name1, value1) is Ok
            ==> ranges_from_category(t, name1, value1) == ranges_from_category(t, name2, value2),
{
}

/// The intersection walk from `i` in `a` and `j` in `b` gives what the walk
/// from `j` in `b` and `i` in `a` gives.
proof fn lemma_intersection_walk_commutes(a: Seq<(int, int)>, b: Seq<(int, int)>, i: int, j: int)
    requires
        sorted_disjoint(a),
        sorted_disjoint(b),
        0 <= i <= a.len(),
        0 <= j <= b.len(),
    ensures
        intersection_walk(a, b, i, j) == intersection_walk(b, a, j, i),
    decreases a.len() + b.len() - i - j,
{
    if i < a.len() && j < b.len() {
        assert(max_int(a[i].0, b[j].0) == max_int(b[j].0, a[i].0));
        assert(min_int(a[i].1, b[j].1) == min_int(b[j].1, a[i].1));
        if a[i].1 < b[j].1 {
            lemma_intersection_walk_commutes(a, b, i + 1, j);
        } else if b[j].1 < a[i].1 {
            lemma_intersection_walk_commutes(a, b, i, j + 1);
        } else {
            lemma_intersection_walk_past_end(a, b, i, j);
            lemma_intersection_walk_past_end(b, a, j, i);
            lemma_intersection_walk_commutes(a, b, i + 1, j + 1);
        }
    }
}

/// When span `i` of `a` and span `j` of `b` end together, the walk past
/// `b[j]` next passes `a[i]` without emitting anything.
proof fn lemma_intersection_walk_past_end(a: Seq<(int, int)>, b: Seq<(int, int)>, i: int, j: int)
    requires
        sorted_disjoint(a),
        sorted_disjoint(b),
        0 <= i < a.len(),
        0 <= j < b.len(),
        a[i].1 == b[j].1,
    ensures
        intersection_walk(a, b, i, j + 1) == intersection_walk(a, b, i + 1, j + 1),
{
    if j + 1 < b.len() {
        assert(b[j].1 < b[j + 1].0);
        assert(b[j + 1].0 <= b[j + 1].1);
        let lo = max_int(a[i].0, b[j + 1].0);
        let hi = min_int(a[i].1, b[j + 1].1);
        assert(lo > hi);
        assert(Seq::<(int, int)>::empty() + intersection_walk(a, b, i + 1, j + 1) =~= intersection_walk(
            a,
            b,
            i + 1,
            j + 1,
        ));
    }
}

/// Intersecting two sorted lists of non-overlapping ranges gives the same
/// list in either order.
pub proof fn law_intersection_commutes(a: Seq<(int, int)>, b: Seq<(int, int)>)
    requires
        sorted_disjoint(a),
        sorted_disjoint(b),
    ensures
        intersection_spans(a, b) == intersection_spans(b, a),
{
    lemma_intersection_walk_commutes(a, b, 0, 0);
}

/// The canonical form of the chars that a list covers is canonical and covers
/// exactly those chars.
pub proof fn lemma_clip(sp: Seq<(int, int)>)
    ensures
        normalized(clip(sp)),
        cover(clip(sp)) == cover(sp).intersect(cover(unicode_spans())),
{
    let c = canon(cover(sp));
    lemma_canon_exists(sp);
    let u = unicode_spans();
    assert(normalized(u)) by {
        assert(u[0].1 + 1 < u[1].0);
    }
    law_intersection_is_set_intersection(c, u);
    let r = intersection_spans(c, u);
    lemma_canon_exists(r);
}

/// A class set operation gives the set operation it names on the chars its
/// two sides cover: `&&` their intersection, `--` the difference, `~~` the
/// chars in exactly one side.  The result is a sorted list of non-overlapping
/// ranges.
pub proof fn law_class_operation_is_set_operation(kind: SetOp, a: Seq<(int, int)>, b: Seq<(int, int)>)
    ensures
        ({
            let ca = cover(a).intersect(cover(unicode_spans()));
            let cb = cover(b).intersect(cover(unicode_spans()));
            cover(binary_op_spans(kind, a, b)) == match kind {
                SetOp::Intersection => ca.intersect(cb),
                SetOp::Difference => ca.difference(cb),
                SetOp::SymmetricDifference => ca.difference(cb).union(cb.difference(ca)),
            }
        }),
        sorted_disjoint(binary_op_spans(kind, a, b)),
{
    lemma_clip(a);
    lemma_clip(b);
    match kind {
        SetOp::Intersection => law_intersection_is_set_intersection(clip(a), clip(b)),
        SetOp::Difference => law_difference_is_set_difference(clip(a), clip(b)),
        SetOp::SymmetricDifference => law_symmetric_difference_is_set_symmetric_difference(
            clip(a),
            clip(b),
        ),
    }
}

} // verus!
