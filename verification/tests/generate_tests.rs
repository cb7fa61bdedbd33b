use randstr::class::{BracketedClass, SetExpr, SetItem};
use randstr::error::GenerateError;
use randstr::pattern::Node;
use randstr::generate::{RandomString, RandomStringVisitor};
use randstr::ucd::{ucd_ranges_from_category, ucd_ranges_from_name, UcdCategory, UcdEntry, UcdTables};

fn entry(name: &str, ranges: &[(char, char)]) -> UcdEntry {
    UcdEntry { name: name.to_string(), ranges: ranges.to_vec() }
}

fn tables() -> UcdTables {
    UcdTables {
        gc_letter: vec![('A', 'Z'), ('a', 'z')],
        gc_mark: vec![('\u{300}', '\u{36F}')],
        gc_number: vec![('0', '9')],
        gc_punctuation: vec![('!', '#')],
        gc_symbol: vec![('+', '+')],
        gc_separator: vec![(' ', ' ')],
        gc_other: vec![('\0', '\x1F')],
        binary_names: vec![entry("ahex", &[('0', '9'), ('A', 'F'), ('a', 'f')])],
        general_category: vec![entry("lu", &[('A', 'Z')])],
        script: vec![entry("greek", &[('\u{391}', '\u{3A9}')])],
        categories: vec![UcdCategory {
            name: "sc".to_string(),
            values: vec![entry("greek", &[('\u{391}', '\u{3A9}')])],
        }],
    }
}

fn draw(pattern: &str) -> Result<String, GenerateError> {
    let t = tables();
    let rs = RandomString::from_regex(pattern).expect("pattern parses");
    rs.generate(&t)
}

#[test]
fn literal_repetition_is_exact() {
    assert_eq!(draw("a{3}").unwrap(), "aaa");
}

#[test]
fn concatenation_keeps_order() {
    assert_eq!(draw("ab(cd)").unwrap(), "abcd");
}

#[test]
fn anchors_and_flags_add_nothing() {
    assert_eq!(draw("^(?i)x$").unwrap(), "x");
}

#[test]
fn bracketed_class_with_count() {
    for _ in 0..20 {
        let s = draw("[abc]{5}").unwrap();
        assert_eq!(s.chars().count(), 5);
        assert!(s.chars().all(|c| "abc".contains(c)));
    }
}

#[test]
fn alternation_picks_a_branch() {
    for _ in 0..20 {
        let s = draw("(foo|bar)").unwrap();
        assert!(s == "foo" || s == "bar");
    }
}

#[test]
fn perl_digits() {
    for _ in 0..20 {
        let s = draw(r"\d{4}").unwrap();
        assert_eq!(s.len(), 4);
        assert!(s.chars().all(|c| c.is_ascii_digit()));
    }
}

#[test]
fn dot_is_printable_ascii() {
    for _ in 0..50 {
        let s = draw(".").unwrap();
        let c = s.chars().next().unwrap();
        assert!((' '..='~').contains(&c));
    }
}

#[test]
fn negated_class_stays_in_ascii() {
    for _ in 0..50 {
        let s = draw("[^a]").unwrap();
        let c = s.chars().next().unwrap();
        assert!(c.is_ascii() && c != 'a');
    }
}

#[test]
fn optional_and_bounded_repetitions_stay_in_bounds() {
    for _ in 0..20 {
        let s = draw("x?y{2,4}").unwrap();
        let ys = s.trim_start_matches('x');
        assert!(s.len() - ys.len() <= 1);
        assert!((2..=4).contains(&ys.len()) && ys.chars().all(|c| c == 'y'));
    }
}

#[test]
fn class_intersection_and_difference() {
    for _ in 0..20 {
        let s = draw("[a-z&&[^aeiou]][0-9--[5-9]]").unwrap();
        let cs: Vec<char> = s.chars().collect();
        assert!(cs[0].is_ascii_lowercase() && !"aeiou".contains(cs[0]));
        assert!(('0'..='4').contains(&cs[1]));
    }
}

#[test]
fn unicode_property_by_name() {
    for _ in 0..20 {
        let s = draw(r"\p{Greek}").unwrap();
        let c = s.chars().next().unwrap();
        assert!(('\u{391}'..='\u{3A9}').contains(&c));
    }
}

#[test]
fn unicode_property_by_category_value() {
    let s = draw(r"\p{sc=GREEK}").unwrap();
    let c = s.chars().next().unwrap();
    assert!(('\u{391}'..='\u{3A9}').contains(&c));
}

#[test]
fn unicode_one_letter_category() {
    let s = draw(r"\pN").unwrap();
    assert!(s.chars().next().unwrap().is_ascii_digit());
}

#[test]
fn unknown_property_is_reported_lowercased() {
    match draw(r"\p{Klingon}") {
        Err(GenerateError::UnknownProperty(n)) => assert_eq!(n, "klingon"),
        other => panic!("unexpected {:?}", other),
    }
}

#[test]
fn empty_property_name_is_reported() {
    assert!(matches!(draw(r"\p{}"), Err(GenerateError::EmptyPropertyName)));
}

#[test]
fn invalid_category_letter_is_reported() {
    match draw(r"\pQ") {
        Err(GenerateError::InvalidCategoryLetter(c)) => assert_eq!(c, 'Q'),
        other => panic!("unexpected {:?}", other),
    }
}

#[test]
fn unknown_category_is_reported() {
    match draw(r"\p{foo=bar}") {
        Err(GenerateError::UnknownCategory(n)) => assert_eq!(n, "foo"),
        other => panic!("unexpected {:?}", other),
    }
}

#[test]
fn unknown_category_value_is_reported() {
    match draw(r"\p{sc=Klingon}") {
        Err(GenerateError::UnknownPropertyValue(p, v)) => {
            assert_eq!(p, "sc");
            assert_eq!(v, "klingon");
        }
        other => panic!("unexpected {:?}", other),
    }
}

#[test]
fn empty_class_is_reported() {
    assert!(matches!(draw("[a&&b]"), Err(GenerateError::EmptyClass)));
}

#[test]
fn set_operations_skip_the_surrogates() {
    for _ in 0..20 {
        let s = draw(r"[\x{D000}-\x{E000}--\x{D7FF}]").unwrap();
        let c = s.chars().next().unwrap();
        assert!(('\u{D000}'..='\u{D7FE}').contains(&c) || c == '\u{E000}');
    }
}

#[test]
fn word_class_difference_drops_the_underscore() {
    for _ in 0..50 {
        let s = draw(r"[\w--_]").unwrap();
        let c = s.chars().next().unwrap();
        assert!(c.is_ascii_alphanumeric());
    }
}

#[test]
fn word_class_intersection_keeps_the_underscore() {
    assert_eq!(draw(r"[\w&&_]").unwrap(), "_");
}

#[test]
fn negation_inside_a_set_operation_is_taken_within_all_chars() {
    for _ in 0..50 {
        let s = draw(r"[\x{3B1}-\x{3C9}&&[^\x{3B1}]]").unwrap();
        let c = s.chars().next().unwrap();
        assert!(('\u{3B2}'..='\u{3C9}').contains(&c));
    }
}

#[test]
fn negating_a_class_that_covers_all_chars_leaves_nothing() {
    assert!(matches!(draw(r"[^\D\d]"), Err(GenerateError::EmptyClass)));
}

#[test]
fn unbounded_repetition_above_the_cap_repeats_its_minimum() {
    assert_eq!(draw("a{300,}").unwrap(), "a".repeat(300));
}

#[test]
fn zero_repetitions_never_visit_their_expression() {
    assert_eq!(draw("[a&&b]{0}x").unwrap(), "x");
}

#[test]
fn unclosed_group_does_not_parse() {
    assert!(RandomString::from_regex("(ab").is_err());
}

#[test]
fn ucd_lookups_lowercase_their_keys() {
    let t = tables();
    assert_eq!(ucd_ranges_from_name(&t, "AHex").unwrap(), &[('0', '9'), ('A', 'F'), ('a', 'f')]);
    assert_eq!(ucd_ranges_from_name(&t, "Lu").unwrap(), &[('A', 'Z')]);
    assert_eq!(ucd_ranges_from_category(&t, "SC", "Greek").unwrap(), &[('\u{391}', '\u{3A9}')]);
}

#[test]
fn property_names_ignore_case() {
    let t = tables();
    assert_eq!(ucd_ranges_from_name(&t, "AHEX").unwrap(), ucd_ranges_from_name(&t, "ahex").unwrap());
    assert_eq!(
        ucd_ranges_from_category(&t, "Sc", "gReEk").unwrap(),
        ucd_ranges_from_name(&t, "GREEK").unwrap()
    );
}

#[test]
fn drawing_from_a_class_over_the_surrogates_skips_them() {
    for _ in 0..50 {
        let s = draw(r"[\x{D7FF}-\x{E000}]").unwrap();
        assert!(s == "\u{D7FF}" || s == "\u{E000}");
    }
}

#[test]
fn class_larger_than_a_u32_count_is_reported() {
    let t = tables();
    let mut v = RandomStringVisitor::new(&t);
    let huge = vec![('\0', '\u{10FFFF}'); 4000];
    assert!(matches!(v.sample_char_from_ranges(&huge), Err(GenerateError::ClassTooLarge)));
}

#[test]
fn a_single_code_point_is_always_drawn() {
    let t = tables();
    let mut v = RandomStringVisitor::new(&t);
    for _ in 0..10 {
        assert_eq!(v.sample_char_from_ranges(&[('q', 'q')]).ok(), Some('q'));
    }
}

#[test]
fn readme_heads_or_tails() {
    for _ in 0..10 {
        let s = draw(r"((heads|tails)\t){4}").unwrap();
        let words: Vec<&str> = s.split('\t').collect();
        assert_eq!(words.len(), 5);
        assert_eq!(words[4], "");
        assert!(words[..4].iter().all(|w| *w == "heads" || *w == "tails"));
    }
}

#[test]
fn readme_blob_of_upper_hex_digits() {
    for _ in 0..10 {
        let s = draw(r"blob(-[\p{AHex}&&[^[:lower:]]]{8,16}){3}").unwrap();
        let parts: Vec<&str> = s.split('-').collect();
        assert_eq!(parts[0], "blob");
        assert_eq!(parts.len(), 4);
        for p in &parts[1..] {
            assert!((8..=16).contains(&p.len()));
            assert!(p.chars().all(|c| c.is_ascii_digit() || ('A'..='F').contains(&c)));
        }
    }
}

#[test]
fn readme_valid_email() {
    for _ in 0..10 {
        let s = draw(r"valid email: [a-zA-Z0-9._%+-]{1,32}@[a-zA-Z0-9.-]{1,32}\.[a-zA-Z]{2,32}").unwrap();
        let rest = s.strip_prefix("valid email: ").unwrap();
        let (local, domain) = rest.split_once('@').unwrap();
        assert!((1..=32).contains(&local.len()));
        assert!(local.chars().all(|c| c.is_ascii_alphanumeric() || "._%+-".contains(c)));
        let (host, tld) = domain.rsplit_once('.').unwrap();
        assert!(!host.is_empty() && host.chars().all(|c| c.is_ascii_alphanumeric() || ".-".contains(c)));
        assert!((2..=32).contains(&tld.len()) && tld.chars().all(|c| c.is_ascii_alphabetic()));
    }
}

#[test]
fn downward_class_range_holds_nothing() {
    let class = BracketedClass { negated: false, kind: SetExpr::Item(SetItem::Range('z', 'a')) };
    let rs = RandomString { ast: Node::BracketedClass(class) };
    assert!(matches!(rs.generate(&tables()), Err(GenerateError::EmptyClass)));
}

#[test]
fn alternation_without_branches_is_reported() {
    let rs = RandomString { ast: Node::Concat(vec![Node::Literal('a'), Node::Alternation(vec![])]) };
    assert!(matches!(rs.generate(&tables()), Err(GenerateError::EmptyAlternation)));
}

#[test]
fn every_parsed_pattern_is_read() {
    for p in [r"(a|b)*[\w&&[^\d]]{2,3}\pL", r"^(?i)x$", "", r"[[:alpha:][\p{Greek}--a]]+?"] {
        assert!(RandomString::from_regex(p).is_ok());
    }
}

#[test]
fn code_point_at_lists_the_ranges_in_order() {
    let r = [('a', 'c'), ('x', 'y')];
    assert_eq!(randstr::generate::code_point_at(&r, 0).ok(), Some('a'));
    assert_eq!(randstr::generate::code_point_at(&r, 2).ok(), Some('c'));
    assert_eq!(randstr::generate::code_point_at(&r, 3).ok(), Some('x'));
    assert_eq!(randstr::generate::code_point_at(&r, 4).ok(), Some('y'));
}

#[test]
fn code_point_at_a_surrogate_is_reported() {
    let r = [('\u{D7FF}', '\u{E000}')];
    assert!(matches!(randstr::generate::code_point_at(&r, 1), Err(GenerateError::SurrogateInClass)));
    assert_eq!(randstr::generate::code_point_at(&r, 0x801).ok(), Some('\u{E000}'));
}

#[test]
fn visit_keeps_what_came_before_an_error() {
    let t = tables();
    let mut v = RandomStringVisitor::new(&t);
    let rs = RandomString::from_regex(r"ab\p{Foo}").unwrap();
    assert!(matches!(v.visit(&rs.ast), Err(GenerateError::UnknownProperty(_))));
    assert!(matches!(v.into_output(&Node::Empty), Ok(s) if s == "ab"));
}

#[test]
fn reading_keeps_each_part_of_the_tree() {
    assert!(matches!(RandomString::from_regex("a").unwrap().ast, Node::Literal('a')));
    assert!(matches!(RandomString::from_regex("^").unwrap().ast, Node::Assertion));
    assert!(matches!(RandomString::from_regex("(?i)").unwrap().ast, Node::Flags));
    match RandomString::from_regex("ab|c").unwrap().ast {
        Node::Alternation(alts) => assert_eq!(alts.len(), 2),
        other => panic!("unexpected {:?}", other),
    }
}

#[test]
fn empty_property_name_is_reported_by_the_lookup() {
    let t = tables();
    assert!(matches!(ucd_ranges_from_name(&t, ""), Err(GenerateError::EmptyPropertyName)));
}
