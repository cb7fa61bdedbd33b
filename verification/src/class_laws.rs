//! What the class and property lookups mean, stated over the tables' contents
//! and over sets of characters.
use vstd::prelude::*;
use crate::class::{
    ascii_kind_spans, binary_op_spans, bracketed_spans, item_spans, maybe_negated,
    one_letter_spans, perl_kind_spans, perl_spans, set_spans, union_spans, unicode_spans_of,
    AsciiClassKind, BracketedClass, PerlClass, PerlClassKind, SetExpr, SetItem, SetOp,
    UnicodeClass, UnicodeClassKind,
};
use crate::error::ErrorModel;
use crate::pattern::{count_within, RepeatKind, REP_MAX};
use crate::laws::{
    law_class_operation_is_set_operation, law_difference_is_set_difference, lemma_canon_exists,
    lemma_clip,
};
use crate::range_spec::{
    canon, char_spans, cover, in_spans, is_scalar, lemma_in_spans_concat, lemma_in_spans_empty,
    lemma_in_spans_single, normalized, sorted_disjoint,
};
use crate::range_walks::difference_spans;
use crate::ranges::{ascii_spans, clip, unicode_spans};
use crate::ucd::{
    category_lookup, category_of, entry_lookup, lowercase_of, ranges_from_category,
    ranges_from_name, UcdCategory, UcdEntry, UcdTables,
};

verus! {

/// Entry `i` is the first of `entries` named `key`.
pub open spec fn first_entry_named(entries: Seq<UcdEntry>, key: Seq<char>, i: int) -> bool {
    &&& 0 <= i < entries.len()
    &&& entries[i].name@ == key
    &&& forall|j: int| 0 <= j < i ==> (#[trigger] entries[j]).name@ != key
}

/// No entry of `entries` is named `key`.
pub open spec fn no_entry_named(entries: Seq<UcdEntry>, key: Seq<char>) -> bool {
    forall|j: int| 0 <= j < entries.len() ==> (#[trigger] entries[j]).name@ != key
}

/// Category `i` is the first of `cats` named `key`.
pub open spec fn first_category_named(cats: Seq<UcdCategory>, key: Seq<char>, i: int) -> bool {
    &&& 0 <= i < cats.len()
    &&& cats[i].name@ == key
    &&& forall|j: int| 0 <= j < i ==> (#[trigger] cats[j]).name@ != key
}

/// No category of `cats` is named `key`.
pub open spec fn no_category_named(cats: Seq<UcdCategory>, key: Seq<char>) -> bool {
    forall|j: int| 0 <= j < cats.len() ==> (#[trigger] cats[j]).name@ != key
}

/// Looking a name up among entries finds the ranges of the first entry with
/// that name, and nothing when no entry has it.
pub proof fn law_entry_lookup(entries: Seq<UcdEntry>, key: Seq<char>)
    ensures
        no_entry_named(entries, key) ==> entry_lookup(entries, key) is None,
        forall|i: int|
            first_entry_named(entries, key, i) ==> entry_lookup(entries, key) == Some(
                char_spans(#[trigger] entries[i].ranges@),
            ),
    decreases entries.len(),
{
    if entries.len() > 0 {
        let d = entries.drop_first();
        law_entry_lookup(d, key);
        if entries[0].name@ != key {
            if no_entry_named(entries, key) {
                assert forall|j: int| 0 <= j < d.len() implies (#[trigger] d[j]).name@ != key by {
                    assert(d[j] == entries[j + 1]);
                }
            }
            assert forall|i: int| first_entry_named(entries, key, i) implies entry_lookup(entries, key)
                == Some(char_spans(#[trigger] entries[i].ranges@)) by {
                assert(i > 0);
                assert(d[i - 1] == entries[i]);
                assert forall|j: int| 0 <= j < i - 1 implies (#[trigger] d[j]).name@ != key by {
                    assert(d[j] == entries[j + 1]);
                }
                assert(first_entry_named(d, key, i - 1));
            }
        } else {
            assert forall|i: int| first_entry_named(entries, key, i) implies entry_lookup(entries, key)
                == Some(char_spans(#[trigger] entries[i].ranges@)) by {
                if i > 0 {
                    assert(entries[0].name@ != key);
                }
            }
        }
    }
}

/// Looking a name up among categories finds the values of the first category
/// with that name, and nothing when no category has it.
pub proof fn law_category_lookup(cats: Seq<UcdCategory>, key: Seq<char>)
    ensures
        no_category_named(cats, key) ==> category_lookup(cats, key) is None,
        forall|i: int|
            first_category_named(cats, key, i) ==> category_lookup(cats, key) == Some(
                (#[trigger] cats[i]).values@,
            ),
    decreases cats.len(),
{
    if cats.len() > 0 {
        let d = cats.drop_first();
        law_category_lookup(d, key);
        if cats[0].name@ != key {
            if no_category_named(cats, key) {
                assert forall|j: int| 0 <= j < d.len() implies (#[trigger] d[j]).name@ != key by {
                    assert(d[j] == cats[j + 1]);
                }
            }
            assert forall|i: int| first_category_named(cats, key, i) implies category_lookup(cats, key)
                == Some((#[trigger] cats[i]).values@) by {
                assert(i > 0);
                assert(d[i - 1] == cats[i]);
                assert forall|j: int| 0 <= j < i - 1 implies (#[trigger] d[j]).name@ != key by {
                    assert(d[j] == cats[j + 1]);
                }
                assert(first_category_named(d, key, i - 1));
            }
        } else {
            assert forall|i: int| first_category_named(cats, key, i) implies category_lookup(cats, key)
                == Some((#[trigger] cats[i]).values@) by {
                if i > 0 {
                    assert(cats[0].name@ != key);
                }
            }
        }
    }
}

/// `\p{name=value}` takes the values of the first category of the tables
/// named by the lowercased `name`, and in them the first value named by the
/// lowercased `value`; a missing category or value is the matching error.
pub proof fn law_property_value_lookup(t: UcdTables, name: Seq<char>, value: Seq<char>)
    ensures
        forall|i: int|
            first_category_named(t.categories@, lowercase_of(name), i) ==> category_of(t, name) == Ok::<
                Seq<UcdEntry>,
                ErrorModel,
            >((#[trigger] t.categories@[i]).values@),
        no_category_named(t.categories@, lowercase_of(name)) ==> category_of(t, name) == Err::<
            Seq<UcdEntry>,
            ErrorModel,
        >(ErrorModel::UnknownCategory(lowercase_of(name))),
        no_category_named(t.categories@, lowercase_of(name)) ==> ranges_from_category(t, name, value)
            == Err::<Seq<(int, int)>, ErrorModel>(ErrorModel::UnknownCategory(lowercase_of(name))),
        forall|i: int, j: int|
            first_category_named(t.categories@, lowercase_of(name), i) && first_entry_named(
                t.categories@[i].values@,
                lowercase_of(value),
                j,
            ) ==> ranges_from_category(t, name, value) == Ok::<Seq<(int, int)>, ErrorModel>(
                char_spans(#[trigger] t.categories@[i].values@[j].ranges@),
            ),
        forall|i: int|
            first_category_named(t.categories@, lowercase_of(name), i) && no_entry_named(
                #[trigger] t.categories@[i].values@,
                lowercase_of(value),
            ) ==> ranges_from_category(t, name, value) == Err::<Seq<(int, int)>, ErrorModel>(
                ErrorModel::UnknownPropertyValue(name, lowercase_of(value)),
            ),
{
    law_category_lookup(t.categories@, lowercase_of(name));
    assert forall|i: int|
        first_category_named(t.categories@, lowercase_of(name), i) implies #[trigger] entry_lookup(
        t.categories@[i].values@,
        lowercase_of(value),
    ) == entry_lookup(t.categories@[i].values@, lowercase_of(value)) by {
        law_entry_lookup(t.categories@[i].values@, lowercase_of(value));
    }
    assert forall|i: int, j: int|
        first_category_named(t.categories@, lowercase_of(name), i) && first_entry_named(
            t.categories@[i].values@,
            lowercase_of(value),
            j,
        ) implies ranges_from_category(t, name, value) == Ok::<Seq<(int, int)>, ErrorModel>(
        char_spans(#[trigger] t.categories@[i].values@[j].ranges@),
    ) by {
        law_entry_lookup(t.categories@[i].values@, lowercase_of(value));
    }
    assert forall|i: int|
        first_category_named(t.categories@, lowercase_of(name), i) && no_entry_named(
            #[trigger] t.categories@[i].values@,
            lowercase_of(value),
        ) implies ranges_from_category(t, name, value) == Err::<Seq<(int, int)>, ErrorModel>(
        ErrorModel::UnknownPropertyValue(name, lowercase_of(value)),
    ) by {
        law_entry_lookup(t.categories@[i].values@, lowercase_of(value));
    }
}

/// `\p{name}` with a non-empty name takes the first binary property named by
/// the lowercased name, else the first general category, else the first
/// script; with none of them it is `UnknownProperty`, and an empty name is
/// `EmptyPropertyName`.
pub proof fn law_property_name_lookup(t: UcdTables, name: Seq<char>)
    ensures
        name.len() == 0 ==> ranges_from_name(t, name) == Err::<Seq<(int, int)>, ErrorModel>(
            ErrorModel::EmptyPropertyName,
        ),
        forall|i: int|
            name.len() > 0 && first_entry_named(t.binary_names@, lowercase_of(name), i) ==> ranges_from_name(
                t,
                name,
            ) == Ok::<Seq<(int, int)>, ErrorModel>(char_spans(#[trigger] t.binary_names@[i].ranges@)),
        forall|i: int|
            name.len() > 0 && no_entry_named(t.binary_names@, lowercase_of(name)) && first_entry_named(
                t.general_category@,
                lowercase_of(name),
                i,
            ) ==> ranges_from_name(t, name) == Ok::<Seq<(int, int)>, ErrorModel>(
                char_spans(#[trigger] t.general_category@[i].ranges@),
            ),
        forall|i: int|
            name.len() > 0 && no_entry_named(t.binary_names@, lowercase_of(name)) && no_entry_named(
                t.general_category@,
                lowercase_of(name),
            ) && first_entry_named(t.script@, lowercase_of(name), i) ==> ranges_from_name(t, name)
                == Ok::<Seq<(int, int)>, ErrorModel>(char_spans(#[trigger] t.script@[i].ranges@)),
        name.len() > 0 && no_entry_named(t.binary_names@, lowercase_of(name)) && no_entry_named(
            t.general_category@,
            lowercase_of(name),
        ) && no_entry_named(t.script@, lowercase_of(name)) ==> ranges_from_name(t, name) == Err::<
            Seq<(int, int)>,
            ErrorModel,
        >(ErrorModel::UnknownProperty(lowercase_of(name))),
{
    law_entry_lookup(t.binary_names@, lowercase_of(name));
    law_entry_lookup(t.general_category@, lowercase_of(name));
    law_entry_lookup(t.script@, lowercase_of(name));
}

/// `x` is an ASCII upper-case letter, `A` to `Z`.
pub open spec fn is_upper(x: int) -> bool {
    0x41 <= x <= 0x5A
}

/// `x` is an ASCII lower-case letter, `a` to `z`.
pub open spec fn is_lower(x: int) -> bool {
    0x61 <= x <= 0x7A
}

/// `x` is an ASCII digit, `0` to `9`.
pub open spec fn is_digit(x: int) -> bool {
    0x30 <= x <= 0x39
}

/// `x` is a visible ASCII character, `!` to `~`.
pub open spec fn is_graph(x: int) -> bool {
    0x21 <= x <= 0x7E
}

/// The members of a POSIX class, as POSIX (and `regex-syntax`) define them:
/// letters, digits and visible characters, and the classes built from them.
pub open spec fn posix_member(kind: AsciiClassKind, x: int) -> bool {
    match kind {
        AsciiClassKind::Upper => is_upper(x),
        AsciiClassKind::Lower => is_lower(x),
        AsciiClassKind::Digit => is_digit(x),
        AsciiClassKind::Alpha => is_upper(x) || is_lower(x),
        AsciiClassKind::Alnum => is_upper(x) || is_lower(x) || is_digit(x),
        // Letters, digits and '_'.
        AsciiClassKind::Word => is_upper(x) || is_lower(x) || is_digit(x) || x == 0x5F,
        // Digits and the letters 'A'..='F', 'a'..='f'.
        AsciiClassKind::Xdigit => is_digit(x) || 0x41 <= x <= 0x46 || 0x61 <= x <= 0x66,
        // ' ' and '\t'.
        AsciiClassKind::Blank => x == 0x20 || x == 0x09,
        // ' ' and '\t', '\n', '\x0B', '\x0C', '\r'.
        AsciiClassKind::Space => x == 0x20 || 0x09 <= x <= 0x0D,
        AsciiClassKind::Cntrl => 0 <= x <= 0x1F || x == 0x7F,
        AsciiClassKind::Graph => is_graph(x),
        AsciiClassKind::Print => is_graph(x) || x == 0x20,
        // Visible characters that are neither letters nor digits.
        AsciiClassKind::Punct => is_graph(x) && !(is_upper(x) || is_lower(x) || is_digit(x)),
        AsciiClassKind::Ascii => 0 <= x <= 0x7F,
    }
}

/// A list of at most four spans covers what one of its spans covers.
proof fn lemma_in_spans_short(sp: Seq<(int, int)>, x: int)
    requires
        sp.len() <= 4,
    ensures
        in_spans(sp, x) == ((sp.len() > 0 && sp[0].0 <= x <= sp[0].1) || (sp.len() > 1 && sp[1].0 <= x
            <= sp[1].1) || (sp.len() > 2 && sp[2].0 <= x <= sp[2].1) || (sp.len() > 3 && sp[3].0 <= x
            <= sp[3].1)),
{
    if in_spans(sp, x) {
        let i = choose|i: int| #![trigger sp[i]] 0 <= i < sp.len() && sp[i].0 <= x && x <= sp[i].1;
        assert(i == 0 || i == 1 || i == 2 || i == 3);
    }
    if sp.len() > 0 && sp[0].0 <= x <= sp[0].1 {
        assert(in_spans(sp, x));
    }
    if sp.len() > 1 && sp[1].0 <= x <= sp[1].1 {
        assert(in_spans(sp, x));
    }
    if sp.len() > 2 && sp[2].0 <= x <= sp[2].1 {
        assert(in_spans(sp, x));
    }
    if sp.len() > 3 && sp[3].0 <= x <= sp[3].1 {
        assert(in_spans(sp, x));
    }
}

/// The ranges of each POSIX class cover exactly its members: `[:upper:]` the
/// letters `A` to `Z`, `[:punct:]` the visible characters that are neither
/// letters nor digits, and so on.
pub proof fn law_posix_classes(kind: AsciiClassKind)
    ensures
        cover(ascii_kind_spans(kind)) == Set::new(|x: int| posix_member(kind, x)),
{
    let sp = ascii_kind_spans(kind);
    assert forall|x: int| cover(sp).contains(x) == posix_member(kind, x) by {
        lemma_in_spans_short(sp, x);
    }
    assert(cover(sp) =~= Set::new(|x: int| posix_member(kind, x)));
}

/// `\d`, `\s` and `\w` cover the members of `[:digit:]`, `[:space:]` and
/// `[:word:]`.
pub proof fn law_perl_classes(kind: PerlClassKind)
    ensures
        cover(perl_kind_spans(kind)) == Set::new(
            |x: int|
                posix_member(
                    match kind {
                        PerlClassKind::Digit => AsciiClassKind::Digit,
                        PerlClassKind::Space => AsciiClassKind::Space,
                        PerlClassKind::Word => AsciiClassKind::Word,
                    },
                    x,
                ),
        ),
{
    match kind {
        PerlClassKind::Digit => law_posix_classes(AsciiClassKind::Digit),
        PerlClassKind::Space => law_posix_classes(AsciiClassKind::Space),
        PerlClassKind::Word => law_posix_classes(AsciiClassKind::Word),
    }
}

/// The ASCII code points.
pub open spec fn ascii_set() -> Set<int> {
    Set::new(|x: int| 0 <= x <= 0x7F)
}

/// The code points of all chars.
pub open spec fn scalar_set() -> Set<int> {
    Set::new(|x: int| is_scalar(x))
}

/// What negating a class that holds `p` gives: within all chars where the
/// exact complement is wanted, or when `p` holds every ASCII char; else the
/// ASCII chars outside `p`.
pub open spec fn negation_of(p: Set<int>, exact: bool) -> Set<int> {
    if exact || ascii_set().subset_of(p) {
        scalar_set().difference(p)
    } else {
        ascii_set().difference(p)
    }
}

/// The two universes cover the ASCII code points and the chars.
proof fn lemma_universe_sets()
    ensures
        cover(ascii_spans()) == ascii_set(),
        cover(unicode_spans()) == scalar_set(),
        normalized(ascii_spans()),
        normalized(unicode_spans()),
{
    assert forall|x: int| cover(ascii_spans()).contains(x) == ascii_set().contains(x) by {
        lemma_in_spans_short(ascii_spans(), x);
    }
    assert forall|x: int| cover(unicode_spans()).contains(x) == scalar_set().contains(x) by {
        lemma_in_spans_short(unicode_spans(), x);
    }
    assert(cover(ascii_spans()) =~= ascii_set());
    assert(cover(unicode_spans()) =~= scalar_set());
    assert(unicode_spans()[0].1 + 1 < unicode_spans()[1].0);
}

/// The canonical list of what a canonical universe holds outside `s` covers
/// exactly that.
proof fn lemma_complement_cover(u: Seq<(int, int)>, s: Seq<(int, int)>)
    requires
        normalized(u),
    ensures
        cover(canon(cover(u).difference(cover(s)))) == cover(u).difference(cover(s)),
{
    let c = canon(cover(s));
    lemma_canon_exists(s);
    law_difference_is_set_difference(u, c);
    let d = difference_spans(u, c);
    lemma_canon_exists(d);
    assert(cover(d) =~= cover(u).difference(cover(s)));
}

/// A negated list covers exactly the negation of what the list covers (see
/// `negation_of`); a list that is not negated is kept as it is.
pub proof fn law_negation(s: Seq<(int, int)>, exact: bool)
    ensures
        cover(maybe_negated(s, true, exact)) == negation_of(cover(s), exact),
        cover(maybe_negated(s, true, exact)).disjoint(cover(s)),
        maybe_negated(s, false, exact) == s,
{
    lemma_universe_sets();
    lemma_complement_cover(unicode_spans(), s);
    lemma_complement_cover(ascii_spans(), s);
    if !exact {
        let in_ascii = ascii_set().difference(cover(s));
        if ascii_set().subset_of(cover(s)) {
            assert(in_ascii =~= Set::<int>::empty());
        } else {
            let w = choose|x: int| ascii_set().contains(x) && !cover(s).contains(x);
            assert(in_ascii.contains(w));
            assert(in_ascii != Set::<int>::empty());
        }
    }
    assert(cover(maybe_negated(s, true, exact)) =~= negation_of(cover(s), exact));
}

/// `\pX` names a general category by its letter, in either case: `L` the
/// letters, `M` the marks, `N` the numbers, `P` the punctuation, `S` the
/// symbols, `Z` the separators, `C` the other chars; any other letter is an
/// error.
pub proof fn law_one_letter_categories(t: UcdTables, c: char)
    ensures
        (c == 'l' || c == 'L') ==> one_letter_spans(t, c) == Ok::<Seq<(int, int)>, ErrorModel>(
            char_spans(t.gc_letter@),
        ),
        (c == 'm' || c == 'M') ==> one_letter_spans(t, c) == Ok::<Seq<(int, int)>, ErrorModel>(
            char_spans(t.gc_mark@),
        ),
        (c == 'n' || c == 'N') ==> one_letter_spans(t, c) == Ok::<Seq<(int, int)>, ErrorModel>(
            char_spans(t.gc_number@),
        ),
        (c == 'p' || c == 'P') ==> one_letter_spans(t, c) == Ok::<Seq<(int, int)>, ErrorModel>(
            char_spans(t.gc_punctuation@),
        ),
        (c == 's' || c == 'S') ==> one_letter_spans(t, c) == Ok::<Seq<(int, int)>, ErrorModel>(
            char_spans(t.gc_symbol@),
        ),
        (c == 'z' || c == 'Z') ==> one_letter_spans(t, c) == Ok::<Seq<(int, int)>, ErrorModel>(
            char_spans(t.gc_separator@),
        ),
        (c == 'c' || c == 'C') ==> one_letter_spans(t, c) == Ok::<Seq<(int, int)>, ErrorModel>(
            char_spans(t.gc_other@),
        ),
        !(c == 'l' || c == 'L' || c == 'm' || c == 'M' || c == 'n' || c == 'N' || c == 'p' || c == 'P'
            || c == 's' || c == 'S' || c == 'z' || c == 'Z' || c == 'c' || c == 'C') ==> one_letter_spans(
            t,
            c,
        ) == Err::<Seq<(int, int)>, ErrorModel>(ErrorModel::InvalidCategoryLetter(c)),
{
}

/// The ranges a Unicode class stands for before negation: its general
/// category, property, or category value, as the tables give them.
pub open spec fn unicode_property(cu: UnicodeClass, t: UcdTables) -> Result<Seq<(int, int)>, ErrorModel> {
    match cu.kind {
        UnicodeClassKind::OneLetter(c) => one_letter_spans(t, c),
        UnicodeClassKind::Named(name) => ranges_from_name(t, name@),
        UnicodeClassKind::NamedValue { name, value } => ranges_from_category(t, name@, value@),
    }
}

/// A Unicode class stands for its property (see the laws on the lookups),
/// or, when negated (`\P{..}`, `\p{name!=value}`), for the negation of it:
/// no char of the property is drawn from a negated class.  A failed lookup
/// is the class's error.
pub proof fn law_unicode_class(cu: UnicodeClass, t: UcdTables, exact: bool)
    ensures
        unicode_property(cu, t) matches Err(e) ==> unicode_spans_of(cu, t, exact) == Err::<
            Seq<(int, int)>,
            ErrorModel,
        >(e),
        unicode_property(cu, t) matches Ok(p) ==> (unicode_spans_of(cu, t, exact) matches Ok(x) && (
        if cu.negated {
            cover(x) == negation_of(cover(p), exact) && cover(x).disjoint(cover(p))
        } else {
            x == p
        })),
{
    if let Ok(p) = unicode_property(cu, t) {
        law_negation(p, exact);
    }
}

/// `\d`, `\s`, `\w` stand for the members of `[:digit:]`, `[:space:]`,
/// `[:word:]`, and `\D`, `\S`, `\W` for the negation of them.
pub proof fn law_perl_class(cp: PerlClass, exact: bool)
    ensures
        ({
            let members = Set::new(
                |x: int|
                    posix_member(
                        match cp.kind {
                            PerlClassKind::Digit => AsciiClassKind::Digit,
                            PerlClassKind::Space => AsciiClassKind::Space,
                            PerlClassKind::Word => AsciiClassKind::Word,
                        },
                        x,
                    ),
            );
            cover(perl_spans(cp, exact)) == if cp.negated {
                negation_of(members, exact)
            } else {
                members
            }
        }),
{
    law_perl_classes(cp.kind);
    law_negation(perl_kind_spans(cp.kind), exact);
}

/// The set that a class set operation names on the chars of its two sides.
pub open spec fn set_operation(kind: SetOp, a: Set<int>, b: Set<int>) -> Set<int> {
    match kind {
        SetOp::Intersection => a.intersect(b),
        SetOp::Difference => a.difference(b),
        SetOp::SymmetricDifference => a.difference(b).union(b.difference(a)),
    }
}

/// `A && B`, `A -- B` and `A ~~ B` stand for the intersection, the difference
/// and the symmetric difference of the chars of `A` and `B`, each side taken
/// exactly; an error of a side (the left one first) is the operation's error.
pub proof fn law_class_set_operation(
    kind: SetOp,
    lhs: Box<SetExpr>,
    rhs: Box<SetExpr>,
    t: UcdTables,
    exact: bool,
)
    ensures
        set_spans(*lhs, t, true) matches Err(e) ==> set_spans(SetExpr::BinaryOp(kind, lhs, rhs), t, exact)
            == Err::<Seq<(int, int)>, ErrorModel>(e),
        set_spans(*lhs, t, true) is Ok ==> (set_spans(*rhs, t, true) matches Err(e) ==> set_spans(
            SetExpr::BinaryOp(kind, lhs, rhs),
            t,
            exact,
        ) == Err::<Seq<(int, int)>, ErrorModel>(e)),
        set_spans(*lhs, t, true) matches Ok(a) ==> (set_spans(*rhs, t, true) matches Ok(b) ==> (set_spans(
            SetExpr::BinaryOp(kind, lhs, rhs),
            t,
            exact,
        ) matches Ok(x) && cover(x) == set_operation(
            kind,
            cover(a).intersect(scalar_set()),
            cover(b).intersect(scalar_set()),
        ) && sorted_disjoint(x))),
{
    lemma_universe_sets();
    if let Ok(a) = set_spans(*lhs, t, true) {
        if let Ok(b) = set_spans(*rhs, t, true) {
            law_class_operation_is_set_operation(kind, a, b);
            let x = binary_op_spans(kind, a, b);
            assert(cover(x) =~= set_operation(
                kind,
                cover(a).intersect(scalar_set()),
                cover(b).intersect(scalar_set()),
            ));
        }
    }
}

/// A bracketed class stands for what its contents stand for, or, for
/// `[^...]`, for the negation of it (the contents then taken exactly).
pub proof fn law_bracketed_class(cb: BracketedClass, t: UcdTables, exact: bool)
    ensures
        set_spans(cb.kind, t, exact || cb.negated) matches Err(e) ==> bracketed_spans(cb, t, exact)
            == Err::<Seq<(int, int)>, ErrorModel>(e),
        set_spans(cb.kind, t, exact || cb.negated) matches Ok(c) ==> (bracketed_spans(cb, t, exact)
            matches Ok(x) && cover(x) == if cb.negated {
            negation_of(cover(c), exact)
        } else {
            cover(c)
        }),
{
    if let Ok(c) = set_spans(cb.kind, t, exact || cb.negated) {
        law_negation(c, exact);
    }
}

/// The chars of the first `n` items of a union, when none of them fails.
pub open spec fn union_members(items: Seq<SetItem>, t: UcdTables, exact: bool) -> Set<int> {
    Set::new(
        |x: int|
            exists|i: int|
                0 <= i < items.len() && (#[trigger] item_spans(items[i], t, exact) matches Ok(r) && in_spans(
                    r,
                    x,
                )),
    )
}

/// The items of a union side by side fail with the first item's error, else
/// cover what any of them covers.
proof fn lemma_union_spans(items: Seq<SetItem>, t: UcdTables, exact: bool)
    ensures
        (forall|i: int| 0 <= i < items.len() ==> (#[trigger] item_spans(items[i], t, exact)) is Ok)
            ==> (union_spans(items, t, exact) matches Ok(all) && cover(all) == union_members(
            items,
            t,
            exact,
        )),
        forall|i: int|
            0 <= i < items.len() && (#[trigger] item_spans(items[i], t, exact)) is Err && (forall|j: int|
                0 <= j < i ==> (#[trigger] item_spans(items[j], t, exact)) is Ok) ==> union_spans(
                items,
                t,
                exact,
            ) == item_spans(items[i], t, exact),
    decreases items.len(),
{
    if items.len() > 0 {
        let front = items.drop_last();
        let n = items.len() - 1;
        lemma_union_spans(front, t, exact);
        assert forall|i: int| 0 <= i < front.len() implies front[i] == items[i] by {}
        if forall|i: int| 0 <= i < items.len() ==> (#[trigger] item_spans(items[i], t, exact)) is Ok {
            assert forall|i: int| 0 <= i < front.len() implies (#[trigger] item_spans(
                front[i],
                t,
                exact,
            )) is Ok by {
                assert(front[i] == items[i]);
            }
            let f = union_spans(front, t, exact)->Ok_0;
            assert(item_spans(items[n], t, exact) is Ok);
            let r = item_spans(items[n], t, exact)->Ok_0;
            assert forall|x: int| cover(f + r).contains(x) == union_members(items, t, exact).contains(x) by {
                lemma_in_spans_concat(f, r, x);
                assert(cover(f).contains(x) == union_members(front, t, exact).contains(x));
                if union_members(front, t, exact).contains(x) {
                    let i = choose|i: int|
                        0 <= i < front.len() && (#[trigger] item_spans(front[i], t, exact) matches Ok(q)
                            && in_spans(q, x));
                    assert(front[i] == items[i]);
                    assert(0 <= i < items.len() && (item_spans(items[i], t, exact) matches Ok(q) && in_spans(
                        q,
                        x,
                    )));
                }
                if in_spans(r, x) {
                    assert(0 <= n < items.len() && (item_spans(items[n], t, exact) matches Ok(q) && in_spans(
                        q,
                        x,
                    )));
                }
                if union_members(items, t, exact).contains(x) {
                    let i = choose|i: int|
                        0 <= i < items.len() && (#[trigger] item_spans(items[i], t, exact) matches Ok(q)
                            && in_spans(q, x));
                    if i < n {
                        assert(front[i] == items[i]);
                        assert(0 <= i < front.len() && (item_spans(front[i], t, exact) matches Ok(q)
                            && in_spans(q, x)));
                    }
                }
            }
            assert(cover(f + r) =~= union_members(items, t, exact));
        }
        assert forall|i: int|
            0 <= i < items.len() && (#[trigger] item_spans(items[i], t, exact)) is Err && (forall|j: int|
                0 <= j < i ==> (#[trigger] item_spans(items[j], t, exact)) is Ok) implies union_spans(
            items,
            t,
            exact,
        ) == item_spans(items[i], t, exact) by {
            if i < n {
                assert(front[i] == items[i]);
                assert forall|j: int| 0 <= j < i implies (#[trigger] item_spans(front[j], t, exact)) is Ok by {
                    assert(front[j] == items[j]);
                }
            } else {
                assert forall|j: int| 0 <= j < front.len() implies (#[trigger] item_spans(
                    front[j],
                    t,
                    exact,
                )) is Ok by {
                    assert(front[j] == items[j]);
                }
            }
        }
    }
}

/// Each item of a bracketed class stands for its chars: nothing, one char,
/// the chars from one end of a range to the other, the members of a POSIX
/// class or their negation, a Unicode, Perl or nested class (see their
/// laws), or, for items side by side, every char that one of them holds.
pub proof fn law_class_item(item: SetItem, t: UcdTables, exact: bool)
    ensures
        item matches SetItem::Empty ==> (item_spans(item, t, exact) matches Ok(x) && cover(x)
            == Set::<int>::empty()),
        item matches SetItem::Literal(c) ==> (item_spans(item, t, exact) matches Ok(x) && cover(x)
            == Set::<int>::empty().insert(c as int)),
        item matches SetItem::Range(s, e) ==> (item_spans(item, t, exact) matches Ok(x) && cover(x)
            == Set::new(|y: int| s as int <= y <= e as int)),
        item matches SetItem::Ascii(ca) ==> (item_spans(item, t, exact) matches Ok(x) && cover(x) == if ca.negated {
            negation_of(Set::new(|y: int| posix_member(ca.kind, y)), exact)
        } else {
            Set::new(|y: int| posix_member(ca.kind, y))
        }),
        item matches SetItem::Unicode(cu) ==> item_spans(item, t, exact) == unicode_spans_of(cu, t, exact),
        item matches SetItem::Perl(cp) ==> item_spans(item, t, exact) == Ok::<Seq<(int, int)>, ErrorModel>(
            perl_spans(cp, exact),
        ),
        item matches SetItem::Bracketed(cb) ==> item_spans(item, t, exact) == bracketed_spans(*cb, t, exact),
        item matches SetItem::Union(items) ==> ((forall|i: int|
            0 <= i < items@.len() ==> (#[trigger] item_spans(items@[i], t, exact)) is Ok) ==> (item_spans(
            item,
            t,
            exact,
        ) matches Ok(x) && cover(x) == union_members(items@, t, exact).intersect(scalar_set()))),
        item matches SetItem::Union(items) ==> forall|i: int|
            0 <= i < items@.len() && (#[trigger] item_spans(items@[i], t, exact)) is Err && (forall|j: int|
                0 <= j < i ==> (#[trigger] item_spans(items@[j], t, exact)) is Ok) ==> item_spans(item, t, exact)
                == item_spans(items@[i], t, exact),
{
    lemma_universe_sets();
    match item {
        SetItem::Empty => {
            assert forall|y: int| !cover(Seq::<(int, int)>::empty()).contains(y) by {
                lemma_in_spans_empty(y);
            }
            assert(cover(Seq::<(int, int)>::empty()) =~= Set::<int>::empty());
        },
        SetItem::Literal(c) => {
            assert forall|y: int| cover(seq![(c as int, c as int)]).contains(y) == (y == c as int) by {
                lemma_in_spans_single((c as int, c as int), y);
            }
            assert(cover(seq![(c as int, c as int)]) =~= Set::<int>::empty().insert(c as int));
        },
        SetItem::Range(s, e) => {
            assert forall|y: int| cover(seq![(s as int, e as int)]).contains(y) == (s as int <= y <= e as int) by {
                lemma_in_spans_single((s as int, e as int), y);
            }
            assert(cover(seq![(s as int, e as int)]) =~= Set::new(|y: int| s as int <= y <= e as int));
        },
        SetItem::Ascii(ca) => {
            law_posix_classes(ca.kind);
            law_negation(ascii_kind_spans(ca.kind), exact);
        },
        SetItem::Union(items) => {
            lemma_union_spans(items@, t, exact);
            if let Ok(all) = union_spans(items@, t, exact) {
                lemma_clip(all);
            }
        },
        _ => {},
    }
}

/// How often each repetition may occur: `?` zero or one time, `*` any number
/// of times up to the cap, `+` at least once up to the cap, `{n}` exactly `n`
/// times, `{n,}` at least `n` times (up to the cap, or `n` when that is more),
/// `{n,m}` from `n` to `m` times.
pub proof fn law_repetition_counts(kind: RepeatKind, count: nat)
    ensures
        kind == RepeatKind::ZeroOrOne ==> (count_within(kind, count) <==> count <= 1),
        kind == RepeatKind::ZeroOrMore ==> (count_within(kind, count) <==> count <= REP_MAX),
        kind == RepeatKind::OneOrMore ==> (count_within(kind, count) <==> 1 <= count <= REP_MAX),
        kind matches RepeatKind::Exactly(n) ==> (count_within(kind, count) <==> count == n),
        kind matches RepeatKind::AtLeast(n) ==> (count_within(kind, count) <==> n <= count && (count
            <= REP_MAX || count == n)),
        kind matches RepeatKind::Bounded(n, m) ==> (count_within(kind, count) <==> n <= count <= m),
{
}

} // verus!
