//! The exact results of the two-pointer walks that intersect and subtract
//! range lists, defined on the integer view of the lists.
//!
//! For canonical inputs these walks compute set intersection and set
//! difference (see the laws in `crate::laws`); on other inputs they are what
//! the walks produce, which these definitions state exactly.
use vstd::prelude::*;
use crate::range_spec::{all_valid, canon, cover};

verus! {

/// The greater of two integers.
pub open spec fn max_int(x: int, y: int) -> int {
    if x > y {
        x
    } else {
        y
    }
}

/// The lesser of two integers.
pub open spec fn min_int(x: int, y: int) -> int {
    if x < y {
        x
    } else {
        y
    }
}

/// The pieces that the intersection walk emits from positions `i` in `a` and
/// `j` in `b` on: at each step the overlap of `a[i]` and `b[j]` (when not
/// empty), then the walk moves past whichever span ends first (past `b[j]`
/// when they end together).
pub open spec fn intersection_walk(a: Seq<(int, int)>, b: Seq<(int, int)>, i: int, j: int) -> Seq<
    (int, int),
>
    decreases a.len() + b.len() - i - j,
{
    if 0 <= i < a.len() && 0 <= j < b.len() {
        let lo = max_int(a[i].0, b[j].0);
        let hi = min_int(a[i].1, b[j].1);
        let piece = if lo <= hi {
            seq![(lo, hi)]
        } else {
            Seq::empty()
        };
        if a[i].1 < b[j].1 {
            piece + intersection_walk(a, b, i + 1, j)
        } else {
            piece + intersection_walk(a, b, i, j + 1)
        }
    } else {
        Seq::empty()
    }
}

/// What `ranges_intersection` returns, on the integer view of its inputs.
pub open spec fn intersection_spans(a: Seq<(int, int)>, b: Seq<(int, int)>) -> Seq<(int, int)> {
    intersection_walk(a, b, 0, 0)
}

/// The first position at or after `j` whose span of `b` does not end below `x`.
pub open spec fn skip_below(b: Seq<(int, int)>, j: int, x: int) -> int
    decreases b.len() - j,
{
    if 0 <= j < b.len() && b[j].1 < x {
        skip_below(b, j + 1, x)
    } else {
        j
    }
}

/// The walk over the spans of `b` from position `k` that start at or below
/// `a_hi`, with `cur` the first point of the current `a` span not yet dealt
/// with.  It gives the gaps it emits, the position where it stops, and the
/// value of `cur` when it stops.
pub open spec fn diff_span_walk(a_hi: int, b: Seq<(int, int)>, k: int, cur: int) -> (Seq<
    (int, int),
>, int, int)
    decreases b.len() - k,
{
    if 0 <= k < b.len() && b[k].0 <= a_hi {
        let gap = if b[k].0 > cur {
            seq![(cur, b[k].0 - 1)]
        } else {
            Seq::empty()
        };
        if b[k].1 >= a_hi {
            (gap, k, a_hi + 1)
        } else {
            let r = diff_span_walk(a_hi, b, k + 1, b[k].1 + 1);
            (gap + r.0, r.1, r.2)
        }
    } else {
        (Seq::empty(), k, cur)
    }
}

/// The pieces that the difference walk emits from position `i` of `a` on,
/// with the walk over `b` at position `j`.
pub open spec fn difference_walk(a: Seq<(int, int)>, b: Seq<(int, int)>, i: int, j: int) -> Seq<
    (int, int),
>
    decreases a.len() - i,
{
    if 0 <= i < a.len() {
        let j1 = skip_below(b, j, a[i].0);
        let r = diff_span_walk(a[i].1, b, j1, a[i].0);
        let tail = if r.2 <= a[i].1 {
            seq![(r.2, a[i].1)]
        } else {
            Seq::empty()
        };
        r.0 + tail + difference_walk(a, b, i + 1, r.1)
    } else {
        Seq::empty()
    }
}

/// What `ranges_difference` returns, on the integer view of its inputs.
pub open spec fn difference_spans(a: Seq<(int, int)>, b: Seq<(int, int)>) -> Seq<(int, int)> {
    difference_walk(a, b, 0, 0)
}

/// What `ranges_symmetric_difference` returns, on the integer view of its
/// inputs: one input when the other is empty, else the canonical form of what
/// the two differences cover.
pub open spec fn symmetric_difference_spans(a: Seq<(int, int)>, b: Seq<(int, int)>) -> Seq<(int, int)> {
    if a.len() == 0 {
        b
    } else if b.len() == 0 {
        a
    } else {
        canon(cover(difference_spans(a, b) + difference_spans(b, a)))
    }
}

/// Two lists of valid spans side by side are valid spans.
pub proof fn lemma_all_valid_concat(a: Seq<(int, int)>, b: Seq<(int, int)>)
    requires
        all_valid(a),
        all_valid(b),
    ensures
        all_valid(a + b),
{
    assert forall|i: int| 0 <= i < (a + b).len() implies #[trigger] (a + b)[i].0 <= (a + b)[i].1 by {
        if i < a.len() {
            assert((a + b)[i] == a[i]);
        } else {
            assert((a + b)[i] == b[i - a.len()]);
        }
    }
}

/// The pieces of the intersection walk are valid spans.
pub proof fn lemma_intersection_walk_valid(a: Seq<(int, int)>, b: Seq<(int, int)>, i: int, j: int)
    ensures
        all_valid(intersection_walk(a, b, i, j)),
    decreases a.len() + b.len() - i - j,
{
    if 0 <= i < a.len() && 0 <= j < b.len() {
        if a[i].1 < b[j].1 {
            lemma_intersection_walk_valid(a, b, i + 1, j);
            let lo = max_int(a[i].0, b[j].0);
            let hi = min_int(a[i].1, b[j].1);
            let piece = if lo <= hi {
                seq![(lo, hi)]
            } else {
                Seq::empty()
            };
            lemma_all_valid_concat(piece, intersection_walk(a, b, i + 1, j));
        } else {
            lemma_intersection_walk_valid(a, b, i, j + 1);
            let lo = max_int(a[i].0, b[j].0);
            let hi = min_int(a[i].1, b[j].1);
            let piece = if lo <= hi {
                seq![(lo, hi)]
            } else {
                Seq::empty()
            };
            lemma_all_valid_concat(piece, intersection_walk(a, b, i, j + 1));
        }
    }
}

/// The gaps of the inner difference walk are valid spans.
pub proof fn lemma_diff_span_walk_valid(a_hi: int, b: Seq<(int, int)>, k: int, cur: int)
    ensures
        all_valid(diff_span_walk(a_hi, b, k, cur).0),
    decreases b.len() - k,
{
    if 0 <= k < b.len() && b[k].0 <= a_hi {
        let gap = if b[k].0 > cur {
            seq![(cur, b[k].0 - 1)]
        } else {
            Seq::empty()
        };
        if b[k].1 < a_hi {
            lemma_diff_span_walk_valid(a_hi, b, k + 1, b[k].1 + 1);
            lemma_all_valid_concat(gap, diff_span_walk(a_hi, b, k + 1, b[k].1 + 1).0);
        }
    }
}

/// The pieces of the difference walk are valid spans.
pub proof fn lemma_difference_walk_valid(a: Seq<(int, int)>, b: Seq<(int, int)>, i: int, j: int)
    ensures
        all_valid(difference_walk(a, b, i, j)),
    decreases a.len() - i,
{
    if 0 <= i < a.len() {
        let j1 = skip_below(b, j, a[i].0);
        let r = diff_span_walk(a[i].1, b, j1, a[i].0);
        let tail = if r.2 <= a[i].1 {
            seq![(r.2, a[i].1)]
        } else {
            Seq::empty()
        };
        lemma_diff_span_walk_valid(a[i].1, b, j1, a[i].0);
        lemma_difference_walk_valid(a, b, i + 1, r.1);
        lemma_all_valid_concat(r.0, tail);
        lemma_all_valid_concat(r.0 + tail, difference_walk(a, b, i + 1, r.1));
    }
}

} // verus!
