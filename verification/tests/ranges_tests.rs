use randstr::ranges::{
    get_negated, merge_char_ranges, merge_ranges, normalize_ranges, ranges_difference,
    ranges_intersection, ranges_negation, ranges_symmetric_difference, universe_ascii,
    universe_unicode,
};

/// Word characters listed out of order, with `_` last.
const UNSORTED_WORD: &[(char, char)] = &[('0', '9'), ('A', 'Z'), ('a', 'z'), ('_', '_')];

#[test]
fn merge_ranges_merges_overlapping_and_touching() {
    let r = merge_ranges(vec![(5, 10), (1, 3), (4, 4), (20, 25), (22, 30)]);
    assert_eq!(r, vec![(1, 10), (20, 30)]);
}

#[test]
fn merge_ranges_keeps_separated_ranges() {
    let r = merge_ranges(vec![(7, 8), (1, 2), (4, 5)]);
    assert_eq!(r, vec![(1, 2), (4, 5), (7, 8)]);
}

#[test]
fn merge_ranges_of_nothing_is_nothing() {
    assert_eq!(merge_ranges(vec![]), vec![]);
}

#[test]
fn merge_ranges_saturates_at_the_top() {
    let r = merge_ranges(vec![(5, 6), (0, u32::MAX)]);
    assert_eq!(r, vec![(0, u32::MAX)]);
}

#[test]
fn merge_char_ranges_joins_adjacent_letters() {
    let r = merge_char_ranges(vec![('x', 'z'), ('d', 'f'), ('a', 'c')]);
    assert_eq!(r, vec![('a', 'f'), ('x', 'z')]);
}

#[test]
fn merge_char_ranges_keeps_the_surrogate_gap() {
    let r = merge_char_ranges(vec![('\u{E000}', '\u{E001}'), ('\u{D000}', '\u{D7FF}')]);
    assert_eq!(r, vec![('\u{D000}', '\u{D7FF}'), ('\u{E000}', '\u{E001}')]);
}

#[test]
fn normalize_ranges_clips_to_the_universe() {
    let r = normalize_ranges(&[('a', 'z'), ('\u{100}', '\u{200}')], &[('\0', '\x7F')]);
    assert_eq!(r, vec![(0x61, 0x7A)]);
}

#[test]
fn normalize_ranges_splits_at_the_surrogates() {
    let uni = universe_unicode();
    let r = normalize_ranges(&[('\u{D000}', '\u{E005}'), ('a', 'b')], &uni);
    assert_eq!(r, vec![(0x61, 0x62), (0xD000, 0xD7FF), (0xE000, 0xE005)]);
}

#[test]
fn ranges_negation_within_ascii() {
    let ascii = universe_ascii();
    let r = ranges_negation(&[('a', 'z')], &ascii);
    assert_eq!(r, vec![('\0', '`'), ('{', '\x7F')]);
}

#[test]
fn ranges_negation_of_nothing_is_the_universe() {
    let uni = universe_unicode();
    let r = ranges_negation(&[], &uni);
    assert_eq!(r, vec![('\0', '\u{D7FF}'), ('\u{E000}', '\u{10FFFF}')]);
}

#[test]
fn ranges_negation_within_unicode() {
    let uni = universe_unicode();
    let r = ranges_negation(&[('\0', '\u{10}'), ('\u{E000}', '\u{E000}')], &uni);
    assert_eq!(r, vec![('\u{11}', '\u{D7FF}'), ('\u{E001}', '\u{10FFFF}')]);
}

#[test]
fn get_negated_stays_in_ascii() {
    let r = get_negated(&[('0', '9')]);
    assert_eq!(r, vec![('\0', '/'), (':', '\x7F')]);
}

#[test]
fn get_negated_of_all_ascii_goes_to_unicode() {
    let r = get_negated(&[('\0', '\x7F')]);
    assert_eq!(r, vec![('\u{80}', '\u{D7FF}'), ('\u{E000}', '\u{10FFFF}')]);
}

#[test]
fn get_negated_of_nothing_is_ascii() {
    assert_eq!(get_negated(&[]), vec![('\0', '\x7F')]);
}

#[test]
fn ranges_intersection_of_sorted_lists() {
    let r = ranges_intersection(&[('a', 'm'), ('p', 'z')], &[('k', 'r')]);
    assert_eq!(r, vec![('k', 'm'), ('p', 'r')]);
}

#[test]
fn ranges_intersection_with_disjoint_lists_is_empty() {
    assert_eq!(ranges_intersection(&[('a', 'c')], &[('x', 'z')]), vec![]);
}

#[test]
fn ranges_intersection_misses_what_an_unsorted_list_hides() {
    // '_' comes after 'a'-'z'; the walk has passed it by then.
    assert_eq!(ranges_intersection(UNSORTED_WORD, &[('_', '_')]), vec![]);
}

#[test]
fn ranges_difference_cuts_holes() {
    let r = ranges_difference(&[('a', 'z')], &[('c', 'e'), ('x', 'x')]);
    assert_eq!(r, vec![('a', 'b'), ('f', 'w'), ('y', 'z')]);
}

#[test]
fn ranges_difference_removes_covered_ranges() {
    let r = ranges_difference(&[('a', 'c'), ('k', 'm')], &[('a', 'f')]);
    assert_eq!(r, vec![('k', 'm')]);
}

#[test]
fn ranges_difference_keeps_what_an_unsorted_list_hides() {
    let r = ranges_difference(UNSORTED_WORD, &[('_', '_')]);
    assert_eq!(r, vec![('0', '9'), ('A', 'Z'), ('a', 'z'), ('_', '_')]);
}

#[test]
fn ranges_symmetric_difference_of_overlapping_ranges() {
    let r = ranges_symmetric_difference(&[('a', 'f')], &[('d', 'k')]);
    assert_eq!(r, vec![('a', 'c'), ('g', 'k')]);
}

#[test]
fn ranges_symmetric_difference_with_an_empty_side() {
    assert_eq!(ranges_symmetric_difference(&[], &[('z', 'a')]), vec![('z', 'a')]);
    assert_eq!(ranges_symmetric_difference(&[('b', 'c')], &[]), vec![('b', 'c')]);
}

#[test]
fn merging_a_merged_list_changes_nothing() {
    let once = merge_ranges(vec![(9, 12), (1, 4), (3, 6), (14, 14)]);
    assert_eq!(once, vec![(1, 6), (9, 12), (14, 14)]);
    assert_eq!(merge_ranges(once.clone()), once);
}

#[test]
fn negating_twice_keeps_the_part_in_the_universe() {
    let ascii = universe_ascii();
    let r = [('a', 'f'), ('\u{100}', '\u{200}'), ('c', 'k')];
    let twice = ranges_negation(&ranges_negation(&r, &ascii), &ascii);
    assert_eq!(twice, vec![('a', 'k')]);
    let kept: Vec<(u32, u32)> = twice.iter().map(|&(lo, hi)| (lo as u32, hi as u32)).collect();
    assert_eq!(kept, normalize_ranges(&r, &ascii));
}

#[test]
fn intersection_of_canonical_lists_is_canonical() {
    let r = ranges_intersection(&[('a', 'e'), ('g', 'k')], &[('b', 'h'), ('j', 'z')]);
    assert_eq!(r, vec![('b', 'e'), ('g', 'h'), ('j', 'k')]);
}

#[test]
fn difference_of_canonical_lists_is_canonical() {
    let r = ranges_difference(&[('a', 'k'), ('m', 'p')], &[('c', 'c'), ('e', 'e'), ('k', 'm')]);
    assert_eq!(r, vec![('a', 'b'), ('d', 'd'), ('f', 'j'), ('n', 'p')]);
}

#[test]
fn symmetric_difference_covers_what_one_side_alone_covers() {
    let r = ranges_symmetric_difference(&[('a', 'c'), ('x', 'z')], &[('b', 'y')]);
    assert_eq!(r, vec![('a', 'a'), ('d', 'w'), ('z', 'z')]);
}

#[test]
fn merge_ranges_keeps_a_downward_pair_where_the_walk_leaves_it() {
    assert_eq!(merge_ranges(vec![(5, 3), (1, 2)]), vec![(1, 2), (5, 3)]);
    assert_eq!(merge_ranges(vec![(4, 1), (2, 3)]), vec![(2, 3)]);
}

#[test]
fn intersection_of_sorted_lists_commutes() {
    let a = [('a', 'e'), ('g', 'k'), ('m', 'm')];
    let b = [('c', 'h'), ('k', 'm')];
    assert_eq!(ranges_intersection(&a, &b), ranges_intersection(&b, &a));
    assert_eq!(ranges_intersection(&a, &b), vec![('c', 'e'), ('g', 'h'), ('k', 'k'), ('m', 'm')]);
}
