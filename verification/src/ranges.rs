//! Range algebra on lists of closed character intervals.
use vstd::prelude::*;
use crate::range_walks::{
    diff_span_walk, difference_spans, difference_walk, intersection_spans, intersection_walk,
    lemma_all_valid_concat, lemma_difference_walk_valid, max_int, min_int, skip_below,
    symmetric_difference_spans,
};
use crate::laws::law_difference_is_set_difference;
use crate::range_spec::{
    all_valid, canon, char_spans, cover, ends_among, has_high_end, has_low_end, in_spans,
    is_scalar, lemma_below_uncovered, lemma_canon_is, lemma_char_is_scalar, lemma_chars_bounded, lemma_empty_cover,
    lemma_gap_uncovered, lemma_in_spans_push, lemma_same_pairs, normalized, scalar_ends,
    scalar_span, scalar_spans, u32_spans,
};

verus! {

broadcast use vstd::seq_lib::group_seq_properties;

/// Sorts pairs by their first component with `slice::sort_unstable_by_key`.
/// Claimed of std: the result is a permutation of the input (same multiset)
/// whose first components do not decrease; which of two pairs with the same
/// first component comes first is left open, as the documentation leaves it.
#[verifier::external_body]
fn sort_by_low_end(v: &mut Vec<(u32, u32)>)
    ensures
        final(v)@.to_multiset() == old(v)@.to_multiset(),
        forall|i: int, j: int| 0 <= i < j < final(v)@.len() ==> final(v)@[i].0 <= final(v)@[j].0,
{
    v.sort_unstable_by_key(|&(lo, _)| lo);
}

/// The first components of `t` do not decrease.
pub open spec fn sorted_by_low(t: Seq<(u32, u32)>) -> bool {
    forall|i: int, j: int| 0 <= i < j < t.len() ==> t[i].0 <= t[j].0
}

/// `x + 1`, or `x` when that would pass `u32::MAX`.
pub open spec fn succ_sat(x: u32) -> int {
    if x == u32::MAX {
        x as int
    } else {
        x + 1
    }
}

/// What the merge walk gives over `t` from position `i` on, with `cur` the
/// range it is growing: a range that starts at most one past the end of `cur`
/// joins it (the end of `cur` becomes the greater end), any other closes
/// `cur` and becomes the new one.
pub open spec fn merge_from(t: Seq<(u32, u32)>, i: int, cur: (u32, u32)) -> Seq<(u32, u32)>
    decreases t.len() - i,
{
    if 0 <= i < t.len() {
        if t[i].0 <= succ_sat(cur.1) {
            merge_from(t, i + 1, (cur.0, if t[i].1 > cur.1 { t[i].1 } else { cur.1 }))
        } else {
            seq![cur] + merge_from(t, i + 1, t[i])
        }
    } else {
        seq![cur]
    }
}

/// What the merge walk gives over `t`.
pub open spec fn merge_walk(t: Seq<(u32, u32)>) -> Seq<(u32, u32)> {
    if t.len() == 0 {
        Seq::empty()
    } else {
        merge_from(t, 1, t[0])
    }
}

/// Merges ranges that overlap or touch into one.
///
/// The result covers exactly the integers that the input covers, and every
/// end point of it is an end point of the input.  When every input range has
/// `lo <= hi`, the result is the canonical (sorted, separated) form of that set.
/// Exactly, it is the merge walk over the input sorted by low end (which of two
/// ranges with the same low end comes first the sort leaves open).
pub fn merge_ranges(ranges: Vec<(u32, u32)>) -> (res: Vec<(u32, u32)>)
    ensures
        exists|t: Seq<(u32, u32)>|
            t.to_multiset() == ranges@.to_multiset() && sorted_by_low(t) && res@ == merge_walk(t),
        cover(u32_spans(res@)) == cover(u32_spans(ranges@)),
        ends_among(u32_spans(res@), u32_spans(ranges@)),
        all_valid(u32_spans(ranges@)) ==> normalized(u32_spans(res@)),
        all_valid(u32_spans(ranges@)) ==> u32_spans(res@) == canon(cover(u32_spans(ranges@))),
{
    let ghost orig = ranges@;
    let mut ranges = ranges;
    if ranges.is_empty() {
        let res: Vec<(u32, u32)> = Vec::new();
        proof {
            assert(cover(u32_spans(res@)) =~= cover(u32_spans(orig)));
            if all_valid(u32_spans(orig)) {
                lemma_canon_is(u32_spans(res@), cover(u32_spans(orig)));
            }
            assert(res@ =~= merge_walk(orig));
        }
        return res;
    }
    sort_by_low_end(&mut ranges);
    let ghost s = u32_spans(ranges@);
    proof {
        orig.to_multiset_ensures();
        ranges@.to_multiset_ensures();
        assert forall|e: (u32, u32)| orig.contains(e) <==> ranges@.contains(e) by {
            assert(orig.to_multiset().count(e) == ranges@.to_multiset().count(e));
        }
        lemma_same_pairs(ranges@, orig);
        lemma_same_pairs(orig, ranges@);
        if all_valid(u32_spans(orig)) {
            assert forall|i: int| 0 <= i < s.len() implies #[trigger] s[i].0 <= s[i].1 by {
                assert(orig.contains(ranges@[i]));
                let j = choose|j: int| 0 <= j < orig.len() && orig[j] == ranges@[i];
                assert(u32_spans(orig)[j].0 <= u32_spans(orig)[j].1);
            }
        }
    }
    let ghost valid = all_valid(s);
    let ghost sorted = ranges@;
    let n = ranges.len();
    let mut res: Vec<(u32, u32)> = Vec::with_capacity(n);
    let mut cur = ranges[0];
    let mut i: usize = 1;
    proof {
        assert forall|x: int| in_spans(u32_spans(res@).push((cur.0 as int, cur.1 as int)), x)
            == in_spans(s.take(1), x) by {
            lemma_in_spans_push(u32_spans(res@), (cur.0 as int, cur.1 as int), x);
            lemma_in_spans_push(s.take(0), s[0], x);
            assert(s.take(0).push(s[0]) =~= s.take(1));
            assert(u32_spans(res@) =~= s.take(0));
        }
        assert(s[0] == (cur.0 as int, cur.1 as int));
        assert(res@ + merge_from(sorted, 1, cur) =~= merge_walk(sorted));
    }
    while i < n
        invariant
            1 <= i <= n,
            sorted == ranges@,
            res@ + merge_from(sorted, i as int, cur) == merge_walk(sorted),
            n == ranges@.len(),
            s == u32_spans(ranges@),
            valid == all_valid(s),
            forall|p: int, q: int| 0 <= p < q < n ==> ranges@[p].0 <= ranges@[q].0,
            forall|q: int| i <= q < n ==> cur.0 <= ranges@[q].0,
            forall|x: int|
                in_spans(u32_spans(res@).push((cur.0 as int, cur.1 as int)), x) == in_spans(
                    s.take(i as int),
                    x,
                ),
            ends_among(u32_spans(res@).push((cur.0 as int, cur.1 as int)), s),
            valid ==> cur.0 <= cur.1,
            valid ==> normalized(u32_spans(res@)),
            valid ==> forall|p: int| 0 <= p < res@.len() ==> res@[p].1 + 1 < cur.0,
        decreases n - i,
    {
        let (lo, hi) = ranges[i];
        let ghost r0 = u32_spans(res@);
        let ghost c0 = (cur.0 as int, cur.1 as int);
        let ghost res0 = res@;
        let ghost cur0 = cur;
        proof {
            assert(cur.1.saturating_add(1) == succ_sat(cur.1));
        }
        proof {
            assert(s.take(i as int).push(s[i as int]) =~= s.take(i + 1));
            assert(s[i as int] == (lo as int, hi as int));
        }
        if lo <= cur.1.saturating_add(1) {
            if hi > cur.1 {
                cur.1 = hi;
            }
            proof {
                assert(merge_from(sorted, i as int, cur0) == merge_from(sorted, i + 1, cur));
                let c1 = (cur.0 as int, cur.1 as int);
                assert forall|x: int| in_spans(r0.push(c1), x) == in_spans(s.take(i + 1), x) by {
                    lemma_in_spans_push(r0, c1, x);
                    lemma_in_spans_push(r0, c0, x);
                    lemma_in_spans_push(s.take(i as int), s[i as int], x);
                }
                let e = r0.push(c1);
                let e0 = r0.push(c0);
                assert forall|k: int| 0 <= k < e.len() implies has_low_end(s, #[trigger] e[k].0)
                    && has_high_end(s, e[k].1) by {
                    assert(e0[k].0 == e[k].0);
                    assert(has_low_end(s, e0[k].0));
                    assert(has_high_end(s, e0[k].1));
                    if k < r0.len() {
                        assert(e0[k] == e[k]);
                    } else if hi > c0.1 {
                        assert(s[i as int].1 == e[k].1);
                        assert(has_high_end(s, e[k].1));
                    } else {
                        assert(e0[k] == e[k]);
                    }
                }
            }
        } else {
            res.push(cur);
            cur = (lo, hi);
            proof {
                assert(merge_from(sorted, i as int, cur0) == seq![cur0] + merge_from(sorted, i + 1, cur));
                assert(res@ + merge_from(sorted, i + 1, cur) =~= res0 + (seq![cur0] + merge_from(
                    sorted,
                    i + 1,
                    cur,
                )));
                let r1 = u32_spans(res@);
                assert(r1 =~= r0.push(c0));
                assert forall|x: int| in_spans(r1.push(s[i as int]), x) == in_spans(s.take(i + 1), x) by {
                    lemma_in_spans_push(r1, s[i as int], x);
                    lemma_in_spans_push(s.take(i as int), s[i as int], x);
                }
                let e = r1.push(s[i as int]);
                assert forall|k: int| 0 <= k < e.len() implies has_low_end(s, #[trigger] e[k].0)
                    && has_high_end(s, e[k].1) by {
                    if k < r1.len() {
                        assert(e[k] == r1[k]);
                        assert(r1[k] == r0.push(c0)[k]);
                        assert(has_low_end(s, r0.push(c0)[k].0));
                        assert(has_high_end(s, r0.push(c0)[k].1));
                    } else {
                        assert(e[k] == s[i as int]);
                        assert(has_low_end(s, e[k].0));
                        assert(has_high_end(s, e[k].1));
                    }
                }
                if valid {
                    assert(s[i as int].0 <= s[i as int].1);
                    assert forall|p: int, q: int| 0 <= p < q < r1.len() implies #[trigger] r1[p].1 + 1
                        < #[trigger] r1[q].0 by {
                        if q < r0.len() {
                            assert(r1[p] == r0[p]);
                            assert(r1[q] == r0[q]);
                        } else {
                            assert(r1[p] == r0[p]);
                        }
                    }
                }
            }
        }
        i += 1;
    }
    let ghost r0 = u32_spans(res@);
    let ghost c0 = (cur.0 as int, cur.1 as int);
    let ghost res0 = res@;
    res.push(cur);
    proof {
        assert(merge_from(sorted, n as int, cur) == seq![cur]);
        assert(res@ =~= res0 + seq![cur]);
        assert(res@ == merge_walk(sorted));
        let r = u32_spans(res@);
        assert(r =~= r0.push(c0));
        assert(s.take(n as int) =~= s);
        assert(cover(r) =~= cover(s));
        if valid {
            assert forall|p: int, q: int| 0 <= p < q < r.len() implies #[trigger] r[p].1 + 1
                < #[trigger] r[q].0 by {
                if q < r0.len() {
                    assert(r[p] == r0[p]);
                    assert(r[q] == r0[q]);
                } else {
                    assert(r[p] == r0[p]);
                }
            }
            lemma_canon_is(r, cover(u32_spans(orig)));
        }
    }
    res
}

/// `char::from_u32`.  Claimed of std, as its documentation says: it gives
/// `Some` of the `char` with code point `x` exactly when `x` is a Unicode
/// scalar value (at most `0x10FFFF` and not a surrogate), else `None`.
#[verifier::external_body]
pub(crate) fn char_from_u32(x: u32) -> (r: Option<char>)
    ensures
        r is Some <==> is_scalar(x as int),
        r matches Some(c) ==> c as int == x as int,
{
    char::from_u32(x)
}

/// The code point pairs of a list of char pairs.
pub open spec fn char_codes(v: Seq<(char, char)>) -> Seq<(u32, u32)> {
    v.map_values(|p: (char, char)| (p.0 as u32, p.1 as u32))
}

/// Merges character ranges that overlap or touch (through their code points).
///
/// The result covers the same code points as the input; when every input
/// range has `lo <= hi`, it is the canonical form of that set.
pub fn merge_char_ranges(ranges: Vec<(char, char)>) -> (res: Vec<(char, char)>)
    ensures
        exists|t: Seq<(u32, u32)>|
            t.to_multiset() == char_codes(ranges@).to_multiset() && sorted_by_low(t) && char_spans(
                res@,
            ) == u32_spans(merge_walk(t)),
        cover(char_spans(res@)) == cover(char_spans(ranges@)),
        ends_among(char_spans(res@), char_spans(ranges@)),
        all_valid(char_spans(ranges@)) ==> normalized(char_spans(res@)),
        all_valid(char_spans(ranges@)) ==> char_spans(res@) == canon(
            cover(char_spans(ranges@)),
        ),
{
    let mut codes: Vec<(u32, u32)> = Vec::with_capacity(ranges.len());
    let mut i: usize = 0;
    while i < ranges.len()
        invariant
            i <= ranges@.len(),
            u32_spans(codes@) == char_spans(ranges@).take(i as int),
            codes@.len() == i,
        decreases ranges@.len() - i,
    {
        let (lo, hi) = ranges[i];
        proof {
            lemma_char_is_scalar(lo);
            lemma_char_is_scalar(hi);
        }
        let ghost c0 = codes@;
        codes.push((lo as u32, hi as u32));
        proof {
            assert forall|k: int| 0 <= k < i + 1 implies u32_spans(codes@)[k] == char_spans(
                ranges@,
            ).take(i + 1)[k] by {
                if k < i {
                    assert(codes@[k] == c0[k]);
                    assert(u32_spans(c0)[k] == char_spans(ranges@).take(i as int)[k]);
                } else {
                    assert(codes@[k] == (lo as u32, hi as u32));
                    assert(ranges@[k] == (lo, hi));
                }
            }
            assert(u32_spans(codes@) =~= char_spans(ranges@).take(i + 1));
        }
        i += 1;
    }
    proof {
        assert(char_spans(ranges@).take(ranges@.len() as int) =~= char_spans(ranges@));
        assert forall|k: int| 0 <= k < codes@.len() implies codes@[k] == char_codes(ranges@)[k] by {
            assert(u32_spans(codes@)[k] == char_spans(ranges@)[k]);
        }
        assert(codes@ =~= char_codes(ranges@));
    }
    let merged = merge_ranges(codes);
    let ghost src = char_spans(ranges@);
    let mut res: Vec<(char, char)> = Vec::with_capacity(merged.len());
    let mut k: usize = 0;
    while k < merged.len()
        invariant
            k <= merged@.len(),
            char_spans(res@) == u32_spans(merged@).take(k as int),
            res@.len() == k,
            ends_among(u32_spans(merged@), src),
            src == char_spans(ranges@),
        decreases merged@.len() - k,
    {
        let (lo, hi) = merged[k];
        proof {
            let m = u32_spans(merged@);
            assert(has_low_end(src, m[k as int].0));
            assert(has_high_end(src, m[k as int].1));
            let a = choose|a: int| #![trigger src[a]] 0 <= a < src.len() && src[a].0 == m[k as int].0;
            let b = choose|b: int| #![trigger src[b]] 0 <= b < src.len() && src[b].1 == m[k as int].1;
            lemma_char_is_scalar(ranges@[a].0);
            lemma_char_is_scalar(ranges@[b].1);
        }
        let clo = char_from_u32(lo).unwrap();
        let chi = char_from_u32(hi).unwrap();
        let ghost r0 = res@;
        res.push((clo, chi));
        proof {
            assert forall|q: int| 0 <= q < k + 1 implies char_spans(res@)[q] == u32_spans(
                merged@,
            ).take(k + 1)[q] by {
                if q < k {
                    assert(res@[q] == r0[q]);
                    assert(char_spans(r0)[q] == u32_spans(merged@).take(k as int)[q]);
                } else {
                    assert(res@[q] == (clo, chi));
                    assert(merged@[q] == (lo, hi));
                }
            }
            assert(char_spans(res@) =~= u32_spans(merged@).take(k + 1));
        }
        k += 1;
    }
    proof {
        assert(u32_spans(merged@).take(merged@.len() as int) =~= u32_spans(merged@));
    }
    res
}

/// The part of `ranges` that lies inside `universe`, as canonical code point
/// ranges.
pub fn normalize_ranges(ranges: &[(char, char)], universe: &[(char, char)]) -> (res: Vec<(u32, u32)>)
    ensures
        normalized(u32_spans(res@)),
        cover(u32_spans(res@)) == cover(char_spans(ranges@)).intersect(cover(char_spans(universe@))),
        u32_spans(res@) == canon(cover(char_spans(ranges@)).intersect(cover(char_spans(universe@)))),
{
    let ghost rs = char_spans(ranges@);
    let ghost us = char_spans(universe@);
    let mut v: Vec<(u32, u32)> = Vec::new();
    let mut i: usize = 0;
    while i < ranges.len()
        invariant
            i <= ranges@.len(),
            rs == char_spans(ranges@),
            us == char_spans(universe@),
            all_valid(u32_spans(v@)),
            forall|x: int| #![trigger in_spans(u32_spans(v@), x)] in_spans(u32_spans(v@), x) == (in_spans(rs.take(i as int), x) && in_spans(us, x)),
        decreases ranges@.len() - i,
    {
        let (c_lo, c_hi) = ranges[i];
        proof {
            lemma_char_is_scalar(c_lo);
            lemma_char_is_scalar(c_hi);
        }
        let r_lo = c_lo as u32;
        let r_hi = c_hi as u32;
        let mut j: usize = 0;
        proof {
            assert forall|x: int| !in_spans(us.take(0), x) by {}
        }
        while j < universe.len()
            invariant
                i < ranges@.len(),
                j <= universe@.len(),
                rs == char_spans(ranges@),
                us == char_spans(universe@),
                rs[i as int] == (r_lo as int, r_hi as int),
                all_valid(u32_spans(v@)),
                forall|x: int| #![trigger in_spans(u32_spans(v@), x)] in_spans(u32_spans(v@), x) == ((in_spans(rs.take(i as int), x) && in_spans(us, x))
                    || (r_lo <= x <= r_hi && in_spans(us.take(j as int), x))),
            decreases universe@.len() - j,
        {
            let (d_lo, d_hi) = universe[j];
            proof {
                lemma_char_is_scalar(d_lo);
                lemma_char_is_scalar(d_hi);
            }
            let u_lo = d_lo as u32;
            let u_hi = d_hi as u32;
            let ghost v0 = u32_spans(v@);
            proof {
                assert(us.take(j as int).push(us[j as int]) =~= us.take(j + 1));
                assert(us[j as int] == (u_lo as int, u_hi as int));
            }
            if r_hi < u_lo || r_lo > u_hi {
                proof {
                    assert forall|x: int| #![trigger in_spans(u32_spans(v@), x)] in_spans(u32_spans(v@), x) == ((in_spans(rs.take(i as int), x)
                        && in_spans(us, x)) || (r_lo <= x <= r_hi && in_spans(us.take(j + 1), x))) by {
                        lemma_in_spans_push(us.take(j as int), us[j as int], x);
                    }
                }
            } else {
                let lo = if r_lo > u_lo { r_lo } else { u_lo };
                let hi = if r_hi < u_hi { r_hi } else { u_hi };
                if lo <= hi {
                    v.push((lo, hi));
                }
                proof {
                    assert forall|x: int| #![trigger in_spans(u32_spans(v@), x)] in_spans(u32_spans(v@), x) == ((in_spans(rs.take(i as int), x)
                        && in_spans(us, x)) || (r_lo <= x <= r_hi && in_spans(us.take(j + 1), x))) by {
                        lemma_in_spans_push(us.take(j as int), us[j as int], x);
                        if lo <= hi {
                            assert(u32_spans(v@) =~= v0.push((lo as int, hi as int)));
                            lemma_in_spans_push(v0, (lo as int, hi as int), x);
                        }
                    }
                    if lo <= hi {
                        assert(u32_spans(v@) =~= v0.push((lo as int, hi as int)));
                    }
                }
            }
            j += 1;
        }
        proof {
            assert(us.take(universe@.len() as int) =~= us);
            assert(rs.take(i as int).push(rs[i as int]) =~= rs.take(i + 1));
            assert forall|x: int| #![trigger in_spans(u32_spans(v@), x)] in_spans(u32_spans(v@), x) == (in_spans(rs.take(i + 1), x) && in_spans(us, x)) by {
                lemma_in_spans_push(rs.take(i as int), rs[i as int], x);
            }
        }
        i += 1;
    }
    proof {
        assert(rs.take(ranges@.len() as int) =~= rs);
        assert(cover(u32_spans(v@)) =~= cover(rs).intersect(cover(us)));
    }
    if v.is_empty() {
        proof {
            lemma_canon_is(u32_spans(v@), cover(rs).intersect(cover(us)));
        }
        return v;
    }
    merge_ranges(v)
}

/// The spans of the ASCII universe: `0 ..= 0x7F`.
pub open spec fn ascii_spans() -> Seq<(int, int)> {
    seq![(0int, 0x7Fint)]
}

/// The spans of the Unicode universe: every scalar value.
pub open spec fn unicode_spans() -> Seq<(int, int)> {
    seq![(0int, 0xD7FFint), (0xE000int, 0x10FFFFint)]
}

/// The ASCII universe, `'\0' ..= '\x7F'`.
pub fn universe_ascii() -> (r: Vec<(char, char)>)
    ensures
        char_spans(r@) == ascii_spans(),
{
    let r = vec![('\0', '\x7F')];
    proof {
        assert(char_spans(r@) =~= ascii_spans());
    }
    r
}

/// The Unicode universe: all chars, `'\0' ..= '\u{D7FF}'` and
/// `'\u{E000}' ..= '\u{10FFFF}'`.
pub fn universe_unicode() -> (r: Vec<(char, char)>)
    ensures
        char_spans(r@) == unicode_spans(),
{
    let r = vec![('\0', '\u{D7FF}'), ('\u{E000}', '\u{10FFFF}')];
    proof {
        assert(char_spans(r@) =~= unicode_spans());
    }
    r
}

/// The canonical form of the scalar values that `sp` covers.
pub open spec fn clip(sp: Seq<(int, int)>) -> Seq<(int, int)> {
    canon(cover(sp).intersect(cover(unicode_spans())))
}

/// Valid spans that cover only scalar values hold only scalar values and end
/// on them.
proof fn lemma_inside_scalars(r: Seq<(int, int)>)
    requires
        all_valid(r),
        cover(r).subset_of(cover(unicode_spans())),
    ensures
        scalar_spans(r),
        scalar_ends(r),
{
    assert forall|i: int| 0 <= i < r.len() implies scalar_span(#[trigger] r[i]) && is_scalar(r[i].0)
        && is_scalar(r[i].1) by {
        assert(in_spans(r, r[i].0));
        assert(cover(r).contains(r[i].0));
        assert(in_spans(r, r[i].1));
        assert(cover(r).contains(r[i].1));
        if r[i].0 <= 0xD800 && 0xD800 <= r[i].1 {
            assert(in_spans(r, 0xD800));
            assert(cover(r).contains(0xD800));
            assert(!in_spans(unicode_spans(), 0xD800));
        }
        if !is_scalar(r[i].0) {
            assert(!in_spans(unicode_spans(), r[i].0));
        }
        if !is_scalar(r[i].1) {
            assert(!in_spans(unicode_spans(), r[i].1));
        }
    }
}

/// Spans that hold only scalar values cover only scalar values.
proof fn lemma_scalar_cover(a: Seq<(int, int)>)
    requires
        scalar_spans(a),
    ensures
        cover(a).subset_of(cover(unicode_spans())),
{
    assert forall|x: int| cover(a).contains(x) implies cover(unicode_spans()).contains(x) by {
        let i = choose|i: int| #![trigger a[i]] 0 <= i < a.len() && a[i].0 <= x && x <= a[i].1;
        assert(scalar_span(a[i]));
        let u = unicode_spans();
        if x <= 0xD7FF {
            assert(u[0].0 <= x && x <= u[0].1);
        } else {
            assert(u[1].0 <= x && x <= u[1].1);
        }
        assert(in_spans(u, x));
    }
}

/// Subtracting a canonical list from a canonical list of scalar values gives
/// valid ranges that end on scalar values.
pub proof fn lemma_difference_scalar(a: Seq<(int, int)>, b: Seq<(int, int)>)
    requires
        normalized(a),
        normalized(b),
        scalar_spans(a),
    ensures
        scalar_ends(difference_spans(a, b)),
        all_valid(difference_spans(a, b)),
{
    law_difference_is_set_difference(a, b);
    lemma_difference_walk_valid(a, b, 0, 0);
    lemma_scalar_cover(a);
    lemma_inside_scalars(difference_spans(a, b));
}

/// The scalar values that `ranges` covers, in canonical form: ranges cut at
/// the surrogates, downward ranges dropped, overlaps merged.
pub fn clip_ranges(ranges: &[(char, char)]) -> (r: Vec<(char, char)>)
    ensures
        char_spans(r@) == clip(char_spans(ranges@)),
        normalized(char_spans(r@)),
        scalar_spans(char_spans(r@)),
{
    let uni = universe_unicode();
    let codes = normalize_ranges(ranges, uni.as_slice());
    proof {
        lemma_inside_scalars(u32_spans(codes@));
    }
    let r = chars_from_codes(&codes).unwrap();
    proof {
        lemma_inside_scalars(char_spans(r@));
    }
    r
}

/// What a negated class stands for: the ASCII characters outside `rs`, or,
/// when `rs` holds every ASCII character, all chars outside `rs`.
pub open spec fn negated_set(rs: Seq<(int, int)>) -> Set<int> {
    let in_ascii = cover(ascii_spans()).difference(cover(rs));
    if in_ascii == Set::<int>::empty() {
        cover(unicode_spans()).difference(cover(rs))
    } else {
        in_ascii
    }
}

/// Both universes are canonical and hold only scalar values.
pub proof fn lemma_universes_wf()
    ensures
        normalized(ascii_spans()),
        scalar_spans(ascii_spans()),
        normalized(unicode_spans()),
        scalar_spans(unicode_spans()),
{
    assert(scalar_span(ascii_spans()[0]));
    assert(scalar_span(unicode_spans()[0]));
    assert(scalar_span(unicode_spans()[1]));
}

/// Negates a class: the complement within ASCII, unless that is empty, in
/// which case the complement within all of Unicode.
pub fn get_negated(ranges: &[(char, char)]) -> (res: Vec<(char, char)>)
    ensures
        normalized(char_spans(res@)),
        cover(char_spans(res@)) == negated_set(char_spans(ranges@)),
        char_spans(res@) == canon(negated_set(char_spans(ranges@))),
{
    proof {
        lemma_universes_wf();
    }
    let ascii = universe_ascii();
    let mut negated = ranges_negation(ranges, ascii.as_slice());
    proof {
        lemma_empty_cover(char_spans(negated@));
    }
    if negated.is_empty() {
        let uni = universe_unicode();
        negated = ranges_negation(ranges, uni.as_slice());
    }
    negated
}

/// The complement of `ranges` within `universe`, in canonical form.
///
/// `universe` must be canonical and hold only scalar values, as both
/// universes of this library are: the walk moves past each range once, so a
/// range that crossed the join of two touching universe pieces would be
/// subtracted from the first piece only.
#[verifier::loop_isolation(false)]
pub fn ranges_negation(ranges: &[(char, char)], universe: &[(char, char)]) -> (res: Vec<(char, char)>)
    requires
        normalized(char_spans(universe@)),
        scalar_spans(char_spans(universe@)),
    ensures
        normalized(char_spans(res@)),
        cover(char_spans(res@)) == cover(char_spans(universe@)).difference(cover(char_spans(ranges@))),
        char_spans(res@) == canon(
            cover(char_spans(universe@)).difference(cover(char_spans(ranges@))),
        ),
{
    let ghost us = char_spans(universe@);
    let ghost rs = char_spans(ranges@);
    let ghost target = cover(us).difference(cover(rs));
    let merged = normalize_ranges(ranges, universe);
    let ghost m = u32_spans(merged@);
    if merged.is_empty() {
        let res = vstd::slice::slice_to_vec(universe);
        proof {
            assert forall|x: int| cover(us).contains(x) implies !cover(rs).contains(x) by {
                assert(!cover(m).contains(x));
            }
            assert(cover(char_spans(res@)) =~= target);
            lemma_canon_is(char_spans(res@), target);
        }
        return res;
    }
    let mut res: Vec<(char, char)> = Vec::new();
    let mut idx: usize = 0;
    let mut t: usize = 0;
    while t < universe.len()
        invariant
            t <= us.len(),
            idx <= m.len(),
            m.len() == merged@.len(),
            forall|q: int| 0 <= q < idx ==> (t < us.len() ==> #[trigger] m[q].1 < us[t as int].0),
            forall|x: int| #![trigger in_spans(char_spans(res@), x)]
                in_spans(char_spans(res@), x) == (in_spans(us.take(t as int), x) && !in_spans(m, x)),
            normalized(char_spans(res@)),
            t == 0 ==> res@.len() == 0,
            forall|p: int| 0 <= p < res@.len() ==> (t > 0 ==> #[trigger] char_spans(res@)[p].1 <= us[t - 1].1),
        decreases us.len() - t,
    {
        let (d_lo, d_hi) = universe[t];
        proof {
            lemma_char_is_scalar(d_lo);
            lemma_char_is_scalar(d_hi);
            assert(us[t as int] == (d_lo as int, d_hi as int));
            assert(us.take(t as int).push(us[t as int]) =~= us.take(t + 1));
        }
        let u_lo = d_lo as u32;
        let u_hi = d_hi as u32;
        if u_lo <= u_hi {
            while idx < merged.len() && merged[idx].1 < u_lo
                invariant
                    idx <= m.len(),
                    forall|q: int| 0 <= q < idx ==> #[trigger] m[q].1 < u_lo,
                decreases m.len() - idx,
            {
                idx += 1;
            }
            proof {
                assert forall|q: int| idx <= q < m.len() implies #[trigger] m[q].0 >= u_lo by {
                    if m[idx as int].0 < u_lo {
                        let x = u_lo - 1;
                        assert(in_spans(m, x));
                        assert(cover(m).contains(x));
                        lemma_below_uncovered(us, t as int, x);
                        assert(!cover(us).contains(x));
                        assert(false);
                    }
                    if q > idx {
                        assert(m[idx as int].1 + 1 < m[q].0);
                    }
                }
            }
            let mut cur: u32 = u_lo;
            let mut j: usize = idx;
            let ghost res0 = char_spans(res@);
            while j < merged.len() && merged[j].0 <= u_hi
                invariant
                    idx <= j <= m.len(),
                    u_lo <= cur <= u_hi + 1,
                    forall|q: int| 0 <= q < j ==> #[trigger] m[q].1 < cur,
                    forall|q: int| j <= q < m.len() ==> #[trigger] m[q].0 >= cur,
                    forall|x: int| #![trigger in_spans(char_spans(res@), x)]
                        in_spans(char_spans(res@), x) == ((in_spans(us.take(t as int), x) && !in_spans(m, x))
                            || (u_lo <= x < cur && !in_spans(m, x))),
                    normalized(char_spans(res@)),
                    forall|p: int| 0 <= p < res@.len() ==> #[trigger] char_spans(res@)[p].1 + 1 < cur,
                decreases m.len() - j,
            {
                let (r_lo, r_hi) = merged[j];
                proof {
                    assert(m[j as int] == (r_lo as int, r_hi as int));
                    if r_hi > u_hi {
                        let x = u_hi + 1;
                        assert(in_spans(m, x));
                        assert(cover(m).contains(x));
                        lemma_gap_uncovered(us, t as int, x);
                        assert(!cover(us).contains(x));
                        assert(false);
                    }
                    assert(scalar_span(us[t as int]));
                }
                let ghost rv0 = char_spans(res@);
                if r_lo > cur {
                    let gap_lo = cur;
                    let gap_hi = r_lo - 1;
                    if gap_lo <= gap_hi {
                        let c_lo = char_from_u32(gap_lo).unwrap();
                        let c_hi = char_from_u32(gap_hi).unwrap();
                        res.push((c_lo, c_hi));
                        proof {
                            let rv = char_spans(res@);
                            assert(rv =~= rv0.push((gap_lo as int, gap_hi as int)));
                            assert forall|p: int, q: int| 0 <= p < q < rv.len() implies #[trigger] rv[p].1 + 1
                                < #[trigger] rv[q].0 by {
                                assert(rv[p] == rv0[p]);
                                if q < rv0.len() {
                                    assert(rv[q] == rv0[q]);
                                }
                            }
                            assert forall|p: int| 0 <= p < rv.len() implies #[trigger] rv[p].0 <= rv[p].1 by {
                                if p < rv0.len() {
                                    assert(rv[p] == rv0[p]);
                                }
                            }
                        }
                    }
                }
                let next = r_hi.saturating_add(1);
                if next > cur {
                    cur = next;
                }
                proof {
                    let rv = char_spans(res@);
                    assert forall|x: int| #![trigger in_spans(rv, x)] in_spans(rv, x) == ((in_spans(
                        us.take(t as int),
                        x,
                    ) && !in_spans(m, x)) || (u_lo <= x < cur && !in_spans(m, x))) by {
                        if rv.len() > rv0.len() {
                            lemma_in_spans_push(rv0, rv[rv.len() - 1], x);
                            assert(rv =~= rv0.push(rv[rv.len() - 1]));
                        } else {
                            assert(rv =~= rv0);
                        }
                        if r_lo <= x <= r_hi {
                            assert(in_spans(m, x));
                        }
                        if in_spans(m, x) && x < cur {
                            let q = choose|q: int| #![trigger m[q]] 0 <= q < m.len() && m[q].0 <= x && x <= m[q].1;
                            if q > j {
                                assert(m[j as int].1 + 1 < m[q].0);
                            }
                        }
                        if rv.len() > rv0.len() && rv[rv.len() - 1].0 <= x <= rv[rv.len() - 1].1 {
                            if in_spans(m, x) {
                                let q = choose|q: int| #![trigger m[q]] 0 <= q < m.len() && m[q].0 <= x && x <= m[q].1;
                                if q > j {
                                    assert(m[j as int].1 + 1 < m[q].0);
                                }
                                assert(false);
                            }
                        }
                    }
                    assert forall|q: int| j + 1 <= q < m.len() implies #[trigger] m[q].0 >= cur by {
                        assert(m[j as int].1 + 1 < m[q].0);
                    }
                }
                j += 1;
            }
            let ghost rv0 = char_spans(res@);
            proof {
                assert(scalar_span(us[t as int]));
                assert forall|q: int| j <= q < m.len() implies #[trigger] m[q].0 > u_hi by {
                    if q > j {
                        assert(m[j as int].1 + 1 < m[q].0);
                    }
                }
            }
            if cur <= u_hi {
                let c_lo = char_from_u32(cur).unwrap();
                let c_hi = char_from_u32(u_hi).unwrap();
                res.push((c_lo, c_hi));
            }
            proof {
                let rv = char_spans(res@);
                if cur <= u_hi {
                    assert(rv =~= rv0.push((cur as int, u_hi as int)));
                    assert forall|p: int, q: int| 0 <= p < q < rv.len() implies #[trigger] rv[p].1 + 1
                        < #[trigger] rv[q].0 by {
                        assert(rv[p] == rv0[p]);
                        if q < rv0.len() {
                            assert(rv[q] == rv0[q]);
                        }
                    }
                    assert forall|p: int| 0 <= p < rv.len() implies #[trigger] rv[p].0 <= rv[p].1 by {
                        if p < rv0.len() {
                            assert(rv[p] == rv0[p]);
                        }
                    }
                } else {
                    assert(rv =~= rv0);
                }
                assert forall|x: int| #![trigger in_spans(rv, x)] in_spans(rv, x) == (in_spans(
                    us.take(t + 1),
                    x,
                ) && !in_spans(m, x)) by {
                    lemma_in_spans_push(us.take(t as int), us[t as int], x);
                    if cur <= u_hi {
                        lemma_in_spans_push(rv0, (cur as int, u_hi as int), x);
                        if cur <= x <= u_hi && in_spans(m, x) {
                            let q = choose|q: int| #![trigger m[q]] 0 <= q < m.len() && m[q].0 <= x && x <= m[q].1;
                            assert(false);
                        }
                    }
                }
                assert forall|p: int| 0 <= p < res@.len() implies #[trigger] char_spans(res@)[p].1 <= us[t as int].1 by {
                    if p < rv0.len() {
                        assert(rv[p] == rv0[p]);
                    }
                }
                if t + 1 < us.len() {
                    assert(us[t as int].1 + 1 < us[t + 1].0);
                }
            }
            idx = j;
        }
        t += 1;
    }
    proof {
        assert(us.take(us.len() as int) =~= us);
        let rv = char_spans(res@);
        assert forall|x: int| cover(rv).contains(x) == target.contains(x) by {
            assert(cover(m).contains(x) == (cover(rs).contains(x) && cover(us).contains(x)));
        }
        assert(cover(rv) =~= target);
        lemma_canon_is(rv, target);
    }
    res
}

/// Intersects two range lists with a two-pointer walk.
///
/// The result is exactly `intersection_spans` of the inputs; for canonical
/// (or just sorted, non-overlapping) inputs that is their set intersection,
/// in sorted, non-overlapping form (see `crate::laws`).
pub fn ranges_intersection(a: &[(char, char)], b: &[(char, char)]) -> (res: Vec<(char, char)>)
    ensures
        char_spans(res@) == intersection_spans(char_spans(a@), char_spans(b@)),
{
    let ghost sa = char_spans(a@);
    let ghost sb = char_spans(b@);
    let mut res: Vec<(char, char)> = Vec::new();
    let mut i: usize = 0;
    let mut j: usize = 0;
    proof {
        assert(char_spans(res@) + intersection_walk(sa, sb, 0, 0) =~= intersection_spans(sa, sb));
    }
    while i < a.len() && j < b.len()
        invariant
            i <= a@.len(),
            j <= b@.len(),
            sa == char_spans(a@),
            sb == char_spans(b@),
            char_spans(res@) + intersection_walk(sa, sb, i as int, j as int) == intersection_spans(sa, sb),
        decreases a@.len() + b@.len() - i - j,
    {
        let (a_lo, a_hi) = a[i];
        let (b_lo, b_hi) = b[j];
        let ghost r0 = char_spans(res@);
        let lo = if a_lo > b_lo { a_lo } else { b_lo };
        let hi = if a_hi < b_hi { a_hi } else { b_hi };
        proof {
            assert(sa[i as int] == (a_lo as int, a_hi as int));
            assert(sb[j as int] == (b_lo as int, b_hi as int));
            assert(lo as int == max_int(sa[i as int].0, sb[j as int].0));
            assert(hi as int == min_int(sa[i as int].1, sb[j as int].1));
        }
        if lo <= hi {
            res.push((lo, hi));
            proof {
                assert(char_spans(res@) =~= r0 + seq![(lo as int, hi as int)]);
            }
        } else {
            proof {
                assert(char_spans(res@) =~= r0 + Seq::<(int, int)>::empty());
            }
        }
        let ghost piece = char_spans(res@).skip(r0.len() as int);
        proof {
            assert(char_spans(res@) =~= r0 + piece);
        }
        if a_hi < b_hi {
            i += 1;
        } else {
            j += 1;
        }
        proof {
            let w = intersection_walk(sa, sb, i as int, j as int);
            assert(r0 + (piece + w) =~= (r0 + piece) + w);
        }
    }
    proof {
        assert(intersection_walk(sa, sb, i as int, j as int) =~= Seq::<(int, int)>::empty());
        assert(char_spans(res@) + Seq::<(int, int)>::empty() =~= char_spans(res@));
    }
    res
}

/// Subtracts `b` from `a` with a walk over both lists, as code point pairs.
///
/// The result is exactly `difference_spans` of the inputs; for canonical (or
/// just sorted, non-overlapping) inputs that is the set difference, in sorted,
/// non-overlapping form (see `crate::laws`).
pub fn difference_codes(a: &[(char, char)], b: &[(char, char)]) -> (res: Vec<(u32, u32)>)
    ensures
        u32_spans(res@) == difference_spans(char_spans(a@), char_spans(b@)),
{
    let ghost sa = char_spans(a@);
    let ghost sb = char_spans(b@);
    let ghost total = difference_spans(sa, sb);
    let mut res: Vec<(u32, u32)> = Vec::new();
    let mut i: usize = 0;
    let mut j: usize = 0;
    proof {
        assert(u32_spans(res@) + difference_walk(sa, sb, 0, 0) =~= total);
        lemma_chars_bounded(b@);
    }
    while i < a.len()
        invariant
            i <= a@.len(),
            j <= b@.len(),
            sa == char_spans(a@),
            sb == char_spans(b@),
            total == difference_spans(sa, sb),
            u32_spans(res@) + difference_walk(sa, sb, i as int, j as int) == total,
            forall|q: int|
                0 <= q < b@.len() ==> (#[trigger] b@[q]).0 as int <= 0x10FFFF && b@[q].1 as int <= 0x10FFFF,
        decreases a@.len() - i,
    {
        let (c_lo, c_hi) = a[i];
        proof {
            lemma_char_is_scalar(c_lo);
            lemma_char_is_scalar(c_hi);
            assert(sa[i as int] == (c_lo as int, c_hi as int));
        }
        let mut cur_start = c_lo as u32;
        let a_hi = c_hi as u32;
        let ghost j0 = j;
        while j < b.len() && b[j].1 < c_lo
            invariant
                j0 <= j <= b@.len(),
                sb == char_spans(b@),
                cur_start as int == c_lo as int,
                skip_below(sb, j as int, cur_start as int) == skip_below(sb, j0 as int, cur_start as int),
                forall|q: int|
                    0 <= q < b@.len() ==> (#[trigger] b@[q]).0 as int <= 0x10FFFF && b@[q].1 as int <= 0x10FFFF,
            decreases b@.len() - j,
        {
            proof {
                lemma_char_is_scalar(b@[j as int].1);
            }
            j += 1;
        }
        proof {
            if j < b.len() {
                lemma_char_is_scalar(b@[j as int].1);
            }
        }
        let ghost j1 = j;
        let ghost walk = diff_span_walk(a_hi as int, sb, j1 as int, c_lo as int);
        let ghost r0 = u32_spans(res@);
        let ghost rest = difference_walk(sa, sb, i + 1, walk.1);
        let ghost tail = if walk.2 <= a_hi {
            seq![(walk.2, a_hi as int)]
        } else {
            Seq::<(int, int)>::empty()
        };
        proof {
            assert(difference_walk(sa, sb, i as int, j0 as int) == walk.0 + tail + rest);
            assert(r0 + walk.0 + tail + rest =~= total);
        }
        let mut k = j;
        while k < b.len() && b[k].0 <= c_hi
            invariant_except_break
                j1 <= k,
                u32_spans(res@) + diff_span_walk(a_hi as int, sb, k as int, cur_start as int).0
                    == r0 + walk.0,
                diff_span_walk(a_hi as int, sb, k as int, cur_start as int).1 == walk.1,
                diff_span_walk(a_hi as int, sb, k as int, cur_start as int).2 == walk.2,
            invariant
                k <= b@.len(),
                sb == char_spans(b@),
                a_hi <= 0x10FFFF,
                a_hi as int == c_hi as int,
                forall|q: int|
                    0 <= q < b@.len() ==> (#[trigger] b@[q]).0 as int <= 0x10FFFF && b@[q].1 as int <= 0x10FFFF,
                r0 + walk.0 + tail + rest == total,
            ensures
                u32_spans(res@) == r0 + walk.0,
                k == walk.1,
                cur_start == walk.2,
            decreases b@.len() - k,
        {
            let (d_lo, d_hi) = b[k];
            proof {
                lemma_char_is_scalar(d_lo);
                lemma_char_is_scalar(d_hi);
                assert(sb[k as int] == (d_lo as int, d_hi as int));
            }
            let b_lo = d_lo as u32;
            let b_hi = d_hi as u32;
            let ghost w = diff_span_walk(a_hi as int, sb, k as int, cur_start as int);
            let ghost rv0 = u32_spans(res@);
            if b_lo > cur_start {
                let gap_lo = cur_start;
                let gap_hi = if a_hi < b_lo - 1 { a_hi } else { b_lo - 1 };
                if gap_lo <= gap_hi {
                    res.push((gap_lo, gap_hi));
                }
            }
            let ghost gap = u32_spans(res@).skip(rv0.len() as int);
            proof {
                assert(u32_spans(res@) =~= rv0 + gap);
            }
            if b_hi >= a_hi {
                cur_start = a_hi.saturating_add(1);
                proof {
                    assert(w == (gap, k as int, a_hi + 1));
                    assert(rv0 + w.0 =~= u32_spans(res@));
                }
                break;
            } else {
                cur_start = b_hi.saturating_add(1);
                if cur_start > a_hi {
                    break;
                }
            }
            proof {
                let w2 = diff_span_walk(a_hi as int, sb, k + 1, cur_start as int);
                assert(w.0 == gap + w2.0);
                assert(rv0 + (gap + w2.0) =~= (rv0 + gap) + w2.0);
            }
            k += 1;
        }
        let ghost rv1 = u32_spans(res@);
        if cur_start <= a_hi {
            res.push((cur_start, a_hi));
            proof {
                assert(u32_spans(res@) =~= rv1 + tail);
            }
        } else {
            proof {
                assert(u32_spans(res@) =~= rv1 + tail);
            }
        }
        j = k;
        i += 1;
        proof {
            assert(u32_spans(res@) + rest =~= total);
        }
    }
    proof {
        assert(difference_walk(sa, sb, i as int, j as int) =~= Seq::<(int, int)>::empty());
        assert(u32_spans(res@) + Seq::<(int, int)>::empty() =~= u32_spans(res@));
    }
    res
}

/// Converts code point pairs to `char` pairs, or gives `None` when an end
/// point is not a scalar value.
pub fn chars_from_codes(v: &Vec<(u32, u32)>) -> (r: Option<Vec<(char, char)>>)
    ensures
        r is Some <==> scalar_ends(u32_spans(v@)),
        r matches Some(c) ==> char_spans(c@) == u32_spans(v@),
{
    let mut res: Vec<(char, char)> = Vec::with_capacity(v.len());
    let mut k: usize = 0;
    while k < v.len()
        invariant
            k <= v@.len(),
            res@.len() == k,
            char_spans(res@) == u32_spans(v@).take(k as int),
            scalar_ends(u32_spans(v@).take(k as int)),
        decreases v@.len() - k,
    {
        let (lo, hi) = v[k];
        let clo = char_from_u32(lo);
        let chi = char_from_u32(hi);
        match (clo, chi) {
            (Some(clo), Some(chi)) => {
                let ghost r0 = res@;
                res.push((clo, chi));
                proof {
                    assert forall|q: int| 0 <= q < k + 1 implies char_spans(res@)[q] == u32_spans(
                        v@,
                    ).take(k + 1)[q] by {
                        if q < k {
                            assert(res@[q] == r0[q]);
                            assert(char_spans(r0)[q] == u32_spans(v@).take(k as int)[q]);
                        } else {
                            assert(res@[q] == (clo, chi));
                            assert(v@[q] == (lo, hi));
                        }
                    }
                    assert(char_spans(res@) =~= u32_spans(v@).take(k + 1));
                    let tk = u32_spans(v@).take(k + 1);
                    assert forall|q: int| 0 <= q < tk.len() implies is_scalar(#[trigger] tk[q].0)
                        && is_scalar(tk[q].1) by {
                        if q < k {
                            assert(tk[q] == u32_spans(v@).take(k as int)[q]);
                        }
                    }
                }
            },
            _ => {
                proof {
                    assert(u32_spans(v@)[k as int] == (lo as int, hi as int));
                }
                return None;
            },
        }
        k += 1;
    }
    proof {
        assert(u32_spans(v@).take(v@.len() as int) =~= u32_spans(v@));
    }
    Some(res)
}

/// Subtracts `b` from `a`: exactly `difference_spans` of the inputs, which for
/// canonical (or just sorted, non-overlapping) inputs is the set difference
/// (see `crate::laws`).  Every end point of the result must be a scalar
/// value, so that it converts back to a `char`.
pub fn ranges_difference(a: &[(char, char)], b: &[(char, char)]) -> (res: Vec<(char, char)>)
    requires
        scalar_ends(difference_spans(char_spans(a@), char_spans(b@))),
    ensures
        char_spans(res@) == difference_spans(char_spans(a@), char_spans(b@)),
{
    let codes = difference_codes(a, b);
    chars_from_codes(&codes).unwrap()
}

/// The characters in exactly one of `a` and `b`.
///
/// When one input is empty the other is returned as it is; otherwise the two
/// differences are merged into canonical form.
pub fn ranges_symmetric_difference(a: &[(char, char)], b: &[(char, char)]) -> (res: Vec<(char, char)>)
    requires
        a@.len() > 0 && b@.len() > 0 ==> scalar_ends(difference_spans(char_spans(a@), char_spans(b@))),
        a@.len() > 0 && b@.len() > 0 ==> scalar_ends(difference_spans(char_spans(b@), char_spans(a@))),
    ensures
        char_spans(res@) == symmetric_difference_spans(char_spans(a@), char_spans(b@)),
        all_valid(char_spans(a@)) && all_valid(char_spans(b@)) ==> all_valid(char_spans(res@)),
{
    if a.len() == 0 {
        vstd::slice::slice_to_vec(b)
    } else if b.len() == 0 {
        vstd::slice::slice_to_vec(a)
    } else {
        let mut pieces = ranges_difference(a, b);
        let mut other = ranges_difference(b, a);
        let ghost p0 = pieces@;
        pieces.append(&mut other);
        proof {
            assert(char_spans(pieces@) =~= difference_spans(char_spans(a@), char_spans(b@))
                + difference_spans(char_spans(b@), char_spans(a@)));
            lemma_difference_walk_valid(char_spans(a@), char_spans(b@), 0, 0);
            lemma_difference_walk_valid(char_spans(b@), char_spans(a@), 0, 0);
            lemma_all_valid_concat(
                difference_spans(char_spans(a@), char_spans(b@)),
                difference_spans(char_spans(b@), char_spans(a@)),
            );
        }
        merge_char_ranges(pieces)
    }
}

} // verus!
