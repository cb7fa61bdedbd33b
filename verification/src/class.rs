//! Character classes and the code point ranges they stand for.
use vstd::prelude::*;
use crate::error::{ErrorModel, GenerateError};
use crate::range_spec::{canon, char_spans, cover};
use crate::range_walks::{difference_spans, intersection_spans, symmetric_difference_spans};
use crate::ranges::{
    clip, clip_ranges, get_negated, lemma_difference_scalar, lemma_universes_wf, negated_set,
    ranges_difference, ranges_intersection, ranges_negation, ranges_symmetric_difference,
    unicode_spans, universe_unicode,
};
use crate::ucd::{
    ranges_from_category, ranges_from_name, ucd_ranges_from_category, ucd_ranges_from_name,
    UcdTables,
};

verus! {

/// The POSIX classes `[:name:]`.
#[derive(Clone, Copy, Debug)]
pub enum AsciiClassKind {
    Alnum,
    Alpha,
    Ascii,
    Blank,
    Cntrl,
    Digit,
    Graph,
    Lower,
    Print,
    Punct,
    Space,
    Upper,
    Word,
    Xdigit,
}

/// The Perl classes `\d`, `\s`, `\w`.
#[derive(Clone, Copy, Debug)]
pub enum PerlClassKind {
    Digit,
    Space,
    Word,
}

/// A Perl class, negated for `\D`, `\S`, `\W`.
#[derive(Clone, Copy, Debug)]
pub struct PerlClass {
    pub kind: PerlClassKind,
    pub negated: bool,
}

/// A POSIX class inside brackets, negated for `[:^name:]`.
#[derive(Clone, Copy, Debug)]
pub struct AsciiClass {
    pub kind: AsciiClassKind,
    pub negated: bool,
}

/// The forms of a Unicode class.
#[derive(Debug)]
pub enum UnicodeClassKind {
    /// `\pN`
    OneLetter(char),
    /// `\p{Greek}`: a binary property, general category or script.
    Named(String),
    /// `\p{scx=Katakana}`: a category and one of its values.
    NamedValue { name: String, value: String },
}

/// A Unicode class; `negated` says whether the class as a whole is negated
/// (`\P{..}`, or `\p{name!=value}`, but not `\P{name!=value}`).
#[derive(Debug)]
pub struct UnicodeClass {
    pub negated: bool,
    pub kind: UnicodeClassKind,
}

/// An item of a bracketed class.
#[derive(Debug)]
pub enum SetItem {
    /// `[]` parts that hold nothing.
    Empty,
    /// A single character.
    Literal(char),
    /// `a-z`: the range from the first to the second character.
    Range(char, char),
    Ascii(AsciiClass),
    Unicode(UnicodeClass),
    Perl(PerlClass),
    /// A nested bracketed class.
    Bracketed(Box<BracketedClass>),
    /// Items side by side: their union.
    Union(Vec<SetItem>),
}

/// `&&`, `--` and `~~` between two class sets.
#[derive(Clone, Copy, Debug)]
pub enum SetOp {
    Intersection,
    Difference,
    SymmetricDifference,
}

/// The contents of a bracketed class.
#[derive(Debug)]
pub enum SetExpr {
    Item(SetItem),
    BinaryOp(SetOp, Box<SetExpr>, Box<SetExpr>),
}

/// `[...]`, negated for `[^...]`.
#[derive(Debug)]
pub struct BracketedClass {
    pub negated: bool,
    pub kind: SetExpr,
}

/// The ranges of a POSIX class.
pub open spec fn ascii_kind_spans(kind: AsciiClassKind) -> Seq<(int, int)> {
    match kind {
        AsciiClassKind::Alnum => seq![(0x30int, 0x39int), (0x41int, 0x5Aint), (0x61int, 0x7Aint)],
        AsciiClassKind::Alpha => seq![(0x41int, 0x5Aint), (0x61int, 0x7Aint)],
        AsciiClassKind::Ascii => seq![(0x00int, 0x7Fint)],
        AsciiClassKind::Blank => seq![(0x09int, 0x09int), (0x20int, 0x20int)],
        AsciiClassKind::Cntrl => seq![(0x00int, 0x1Fint), (0x7Fint, 0x7Fint)],
        AsciiClassKind::Digit => seq![(0x30int, 0x39int)],
        AsciiClassKind::Graph => seq![(0x21int, 0x7Eint)],
        AsciiClassKind::Lower => seq![(0x61int, 0x7Aint)],
        AsciiClassKind::Print => seq![(0x20int, 0x7Eint)],
        AsciiClassKind::Punct => seq![
            (0x21int, 0x2Fint),
            (0x3Aint, 0x40int),
            (0x5Bint, 0x60int),
            (0x7Bint, 0x7Eint),
        ],
        AsciiClassKind::Space => seq![(0x09int, 0x0Dint), (0x20int, 0x20int)],
        AsciiClassKind::Upper => seq![(0x41int, 0x5Aint)],
        AsciiClassKind::Word => seq![
            (0x30int, 0x39int),
            (0x41int, 0x5Aint),
            (0x5Fint, 0x5Fint),
            (0x61int, 0x7Aint),
        ],
        AsciiClassKind::Xdigit => seq![(0x30int, 0x39int), (0x41int, 0x46int), (0x61int, 0x66int)],
    }
}

/// The ranges of a Perl class before negation: those of `[:digit:]`,
/// `[:space:]` and `[:word:]`.
pub open spec fn perl_kind_spans(kind: PerlClassKind) -> Seq<(int, int)> {
    match kind {
        PerlClassKind::Digit => ascii_kind_spans(AsciiClassKind::Digit),
        PerlClassKind::Space => ascii_kind_spans(AsciiClassKind::Space),
        PerlClassKind::Word => ascii_kind_spans(AsciiClassKind::Word),
    }
}

/// `spans` negated, or as they are.  Where the exact set is wanted (inside
/// a class set operation, or under a negated class) the complement is taken
/// within all chars; elsewhere as `get_negated` takes it: within ASCII, or
/// within all chars when that leaves nothing.
pub open spec fn maybe_negated(spans: Seq<(int, int)>, negated: bool, exact: bool) -> Seq<(int, int)> {
    if !negated {
        spans
    } else if exact {
        canon(cover(unicode_spans()).difference(cover(spans)))
    } else {
        canon(negated_set(spans))
    }
}

/// What `class_perl_ranges` gives.
pub open spec fn perl_spans(cp: PerlClass, exact: bool) -> Seq<(int, int)> {
    maybe_negated(perl_kind_spans(cp.kind), cp.negated, exact)
}

/// The code point of `c` with an ASCII upper-case letter made lower-case.
pub open spec fn ascii_lowercase_code(c: char) -> int {
    if 0x41 <= c as int && c as int <= 0x5A {
        c as int + 0x20
    } else {
        c as int
    }
}

/// The general category that a one-letter class names, looked up by the
/// lowercase form of its letter.
pub open spec fn one_letter_spans(t: UcdTables, c: char) -> Result<Seq<(int, int)>, ErrorModel> {
    let l = ascii_lowercase_code(c);
    if l == 0x6C {
        Ok(char_spans(t.gc_letter@))
    } else if l == 0x6D {
        Ok(char_spans(t.gc_mark@))
    } else if l == 0x6E {
        Ok(char_spans(t.gc_number@))
    } else if l == 0x70 {
        Ok(char_spans(t.gc_punctuation@))
    } else if l == 0x73 {
        Ok(char_spans(t.gc_symbol@))
    } else if l == 0x7A {
        Ok(char_spans(t.gc_separator@))
    } else if l == 0x63 {
        Ok(char_spans(t.gc_other@))
    } else {
        Err(ErrorModel::InvalidCategoryLetter(c))
    }
}

/// What `class_unicode_ranges` gives.
pub open spec fn unicode_spans_of(cu: UnicodeClass, t: UcdTables, exact: bool) -> Result<Seq<(int, int)>, ErrorModel> {
    let base = match cu.kind {
        UnicodeClassKind::OneLetter(c) => one_letter_spans(t, c),
        UnicodeClassKind::Named(name) => ranges_from_name(t, name@),
        UnicodeClassKind::NamedValue { name, value } => ranges_from_category(t, name@, value@),
    };
    match base {
        Err(e) => Err(e),
        Ok(r) => Ok(maybe_negated(r, cu.negated, exact)),
    }
}

/// The result of a class set operation on the spans of its two sides, each
/// side first brought to the canonical form of the chars it covers.
pub open spec fn binary_op_spans(kind: SetOp, a: Seq<(int, int)>, b: Seq<(int, int)>) -> Seq<(int, int)> {
    let a1 = clip(a);
    let b1 = clip(b);
    match kind {
        SetOp::Intersection => intersection_spans(a1, b1),
        SetOp::Difference => difference_spans(a1, b1),
        SetOp::SymmetricDifference => symmetric_difference_spans(a1, b1),
    }
}

/// What `class_set_item_ranges` gives.
pub open spec fn item_spans(item: SetItem, t: UcdTables, exact: bool) -> Result<Seq<(int, int)>, ErrorModel>
    decreases item,
{
    match item {
        SetItem::Empty => Ok(Seq::empty()),
        SetItem::Literal(c) => Ok(seq![(c as int, c as int)]),
        SetItem::Range(s, e) => Ok(seq![(s as int, e as int)]),
        SetItem::Ascii(ca) => Ok(maybe_negated(ascii_kind_spans(ca.kind), ca.negated, exact)),
        SetItem::Unicode(cu) => unicode_spans_of(cu, t, exact),
        SetItem::Perl(cp) => Ok(perl_spans(cp, exact)),
        SetItem::Bracketed(cb) => bracketed_spans(*cb, t, exact),
        SetItem::Union(items) => match union_spans(items@, t, exact) {
            Err(e) => Err(e),
            Ok(all) => Ok(clip(all)),
        },
    }
}

/// The spans of the items of a union, side by side, or the first error.
pub open spec fn union_spans(items: Seq<SetItem>, t: UcdTables, exact: bool) -> Result<Seq<(int, int)>, ErrorModel>
    decreases items,
{
    if items.len() == 0 {
        Ok(Seq::empty())
    } else {
        match union_spans(items.drop_last(), t, exact) {
            Err(e) => Err(e),
            Ok(front) => match item_spans(items[items.len() - 1], t, exact) {
                Err(e) => Err(e),
                Ok(r) => Ok(front + r),
            },
        }
    }
}

/// What `class_set_ranges` gives; the sides of a set operation are computed
/// exactly.
pub open spec fn set_spans(cs: SetExpr, t: UcdTables, exact: bool) -> Result<Seq<(int, int)>, ErrorModel>
    decreases cs,
{
    match cs {
        SetExpr::Item(item) => item_spans(item, t, exact),
        SetExpr::BinaryOp(kind, lhs, rhs) => match set_spans(*lhs, t, true) {
            Err(e) => Err(e),
            Ok(a) => match set_spans(*rhs, t, true) {
                Err(e) => Err(e),
                Ok(b) => Ok(binary_op_spans(kind, a, b)),
            },
        },
    }
}

/// What `class_bracketed_ranges` gives; the contents of a negated class are
/// computed exactly.
pub open spec fn bracketed_spans(cb: BracketedClass, t: UcdTables, exact: bool) -> Result<Seq<(int, int)>, ErrorModel>
    decreases cb,
{
    match set_spans(cb.kind, t, exact || cb.negated) {
        Err(e) => Err(e),
        Ok(r) => Ok(maybe_negated(r, cb.negated, exact)),
    }
}

/// `char::to_ascii_lowercase`.  Claimed of std, as documented: ASCII
/// upper-case letters become lower-case, every other char stays as it is.
#[verifier::external_body]
fn char_to_ascii_lowercase(c: char) -> (r: char)
    ensures
        r as int == ascii_lowercase_code(c),
{
    c.to_ascii_lowercase()
}

/// The ranges of a POSIX class.
pub fn ascii_class_ranges(kind: AsciiClassKind) -> (r: Vec<(char, char)>)
    ensures
        char_spans(r@) == ascii_kind_spans(kind),
{
    let r = match kind {
        AsciiClassKind::Alnum => vec![('0', '9'), ('A', 'Z'), ('a', 'z')],
        AsciiClassKind::Alpha => vec![('A', 'Z'), ('a', 'z')],
        AsciiClassKind::Ascii => vec![('\x00', '\x7F')],
        AsciiClassKind::Blank => vec![('\t', '\t'), (' ', ' ')],
        AsciiClassKind::Cntrl => vec![('\x00', '\x1F'), ('\x7F', '\x7F')],
        AsciiClassKind::Digit => vec![('0', '9')],
        AsciiClassKind::Graph => vec![('!', '~')],
        AsciiClassKind::Lower => vec![('a', 'z')],
        AsciiClassKind::Print => vec![(' ', '~')],
        AsciiClassKind::Punct => vec![('!', '/'), (':', '@'), ('[', '`'), ('{', '~')],
        AsciiClassKind::Space => vec![('\t', '\r'), (' ', ' ')],
        AsciiClassKind::Upper => vec![('A', 'Z')],
        AsciiClassKind::Word => vec![('0', '9'), ('A', 'Z'), ('_', '_'), ('a', 'z')],
        AsciiClassKind::Xdigit => vec![('0', '9'), ('A', 'F'), ('a', 'f')],
    };
    proof {
        assert(char_spans(r@) =~= ascii_kind_spans(kind));
    }
    r
}

/// `ranges`, negated when `negated` holds: within all chars when `exact`,
/// else with `get_negated`.
fn negate_if(ranges: Vec<(char, char)>, negated: bool, exact: bool) -> (r: Vec<(char, char)>)
    ensures
        char_spans(r@) == maybe_negated(char_spans(ranges@), negated, exact),
{
    if !negated {
        ranges
    } else if exact {
        proof {
            lemma_universes_wf();
        }
        let uni = universe_unicode();
        ranges_negation(ranges.as_slice(), uni.as_slice())
    } else {
        get_negated(ranges.as_slice())
    }
}

/// The ranges of a Perl class, negated for `\D`, `\S`, `\W`.
pub fn class_perl_ranges(cp: &PerlClass, exact: bool) -> (r: Vec<(char, char)>)
    ensures
        char_spans(r@) == perl_spans(*cp, exact),
{
    let ranges = match cp.kind {
        PerlClassKind::Digit => ascii_class_ranges(AsciiClassKind::Digit),
        PerlClassKind::Space => ascii_class_ranges(AsciiClassKind::Space),
        PerlClassKind::Word => ascii_class_ranges(AsciiClassKind::Word),
    };
    negate_if(ranges, cp.negated, exact)
}

/// The ranges of a Unicode class, looked up in `tables`.
pub fn class_unicode_ranges(cu: &UnicodeClass, tables: &UcdTables, exact: bool) -> (r: Result<
    Vec<(char, char)>,
    GenerateError,
>)
    ensures
        match r {
            Ok(v) => unicode_spans_of(*cu, *tables, exact) == Ok::<Seq<(int, int)>, ErrorModel>(
                char_spans(v@),
            ),
            Err(e) => unicode_spans_of(*cu, *tables, exact) == Err::<Seq<(int, int)>, ErrorModel>(e@),
        },
{
    let ranges: Vec<(char, char)> = match &cu.kind {
        UnicodeClassKind::OneLetter(c) => {
            let l = char_to_ascii_lowercase(*c);
            if l == 'l' {
                vstd::slice::slice_to_vec(tables.gc_letter.as_slice())
            } else if l == 'm' {
                vstd::slice::slice_to_vec(tables.gc_mark.as_slice())
            } else if l == 'n' {
                vstd::slice::slice_to_vec(tables.gc_number.as_slice())
            } else if l == 'p' {
                vstd::slice::slice_to_vec(tables.gc_punctuation.as_slice())
            } else if l == 's' {
                vstd::slice::slice_to_vec(tables.gc_symbol.as_slice())
            } else if l == 'z' {
                vstd::slice::slice_to_vec(tables.gc_separator.as_slice())
            } else if l == 'c' {
                vstd::slice::slice_to_vec(tables.gc_other.as_slice())
            } else {
                return Err(GenerateError::InvalidCategoryLetter(*c));
            }
        },
        UnicodeClassKind::Named(name) => vstd::slice::slice_to_vec(
            ucd_ranges_from_name(tables, name.as_str())?,
        ),
        UnicodeClassKind::NamedValue { name, value } => vstd::slice::slice_to_vec(
            ucd_ranges_from_category(tables, name.as_str(), value.as_str())?,
        ),
    };
    Ok(negate_if(ranges, cu.negated, exact))
}

/// An error in a prefix of a union's items is the error of the union.
proof fn lemma_union_prefix_error(items: Seq<SetItem>, k: int, t: UcdTables, exact: bool)
    requires
        0 <= k <= items.len(),
        union_spans(items.take(k), t, exact) is Err,
    ensures
        union_spans(items, t, exact) == union_spans(items.take(k), t, exact),
    decreases items.len() - k,
{
    if k < items.len() {
        assert(items.take(k + 1).drop_last() =~= items.take(k));
        assert(items.take(k + 1)[k] == items[k]);
        lemma_union_prefix_error(items, k + 1, t, exact);
    } else {
        assert(items.take(k) =~= items);
    }
}

/// The ranges of an item of a bracketed class.
pub fn class_set_item_ranges(item: &SetItem, tables: &UcdTables, exact: bool) -> (r: Result<
    Vec<(char, char)>,
    GenerateError,
>)
    ensures
        match r {
            Ok(v) => item_spans(*item, *tables, exact) == Ok::<Seq<(int, int)>, ErrorModel>(
                char_spans(v@),
            ),
            Err(e) => item_spans(*item, *tables, exact) == Err::<Seq<(int, int)>, ErrorModel>(e@),
        },
    decreases item,
{
    match item {
        SetItem::Empty => {
            let v: Vec<(char, char)> = Vec::new();
            proof {
                assert(char_spans(v@) =~= Seq::<(int, int)>::empty());
            }
            Ok(v)
        },
        SetItem::Literal(c) => {
            let v = vec![(*c, *c)];
            proof {
                assert(char_spans(v@) =~= seq![(*c as int, *c as int)]);
            }
            Ok(v)
        },
        SetItem::Range(s, e) => {
            let v = vec![(*s, *e)];
            proof {
                assert(char_spans(v@) =~= seq![(*s as int, *e as int)]);
            }
            Ok(v)
        },
        SetItem::Ascii(ca) => Ok(negate_if(ascii_class_ranges(ca.kind), ca.negated, exact)),
        SetItem::Unicode(cu) => class_unicode_ranges(cu, tables, exact),
        SetItem::Perl(cp) => Ok(class_perl_ranges(cp, exact)),
        SetItem::Bracketed(cb) => class_bracketed_ranges(cb, tables, exact),
        SetItem::Union(items) => {
            let mut all: Vec<(char, char)> = Vec::new();
            let mut i: usize = 0;
            proof {
                assert(items@.take(0) =~= Seq::<SetItem>::empty());
                assert(char_spans(all@) =~= Seq::<(int, int)>::empty());
            }
            while i < items.len()
                invariant
                    i <= items@.len(),
                    *item == SetItem::Union(*items),
                    union_spans(items@.take(i as int), *tables, exact) == Ok::<
                        Seq<(int, int)>,
                        ErrorModel,
                    >(char_spans(all@)),
                decreases items@.len() - i,
            {
                proof {
                    assert(items@.take(i + 1).drop_last() =~= items@.take(i as int));
                    assert(items@.take(i + 1)[i as int] == items@[i as int]);
                }
                match class_set_item_ranges(&items[i], tables, exact) {
                    Ok(r) => {
                        let ghost a0 = char_spans(all@);
                        let mut r = r;
                        let ghost rv = char_spans(r@);
                        all.append(&mut r);
                        proof {
                            assert(char_spans(all@) =~= a0 + rv);
                        }
                    },
                    Err(e) => {
                        proof {
                            lemma_union_prefix_error(items@, i + 1, *tables, exact);
                        }
                        return Err(e);
                    },
                }
                i += 1;
            }
            proof {
                assert(items@.take(items@.len() as int) =~= items@);
            }
            Ok(clip_ranges(all.as_slice()))
        },
    }
}

/// The ranges of the contents of a bracketed class.  The sides of a set
/// operation are computed exactly and brought to canonical form first, so
/// that the operation gives the set it names.
pub fn class_set_ranges(cs: &SetExpr, tables: &UcdTables, exact: bool) -> (r: Result<
    Vec<(char, char)>,
    GenerateError,
>)
    ensures
        match r {
            Ok(v) => set_spans(*cs, *tables, exact) == Ok::<Seq<(int, int)>, ErrorModel>(
                char_spans(v@),
            ),
            Err(e) => set_spans(*cs, *tables, exact) == Err::<Seq<(int, int)>, ErrorModel>(e@),
        },
    decreases cs,
{
    match cs {
        SetExpr::Item(item) => class_set_item_ranges(item, tables, exact),
        SetExpr::BinaryOp(kind, lhs, rhs) => {
            let a = class_set_ranges(lhs, tables, true)?;
            let b = class_set_ranges(rhs, tables, true)?;
            let a1 = clip_ranges(a.as_slice());
            let b1 = clip_ranges(b.as_slice());
            match kind {
                SetOp::Intersection => Ok(ranges_intersection(a1.as_slice(), b1.as_slice())),
                SetOp::Difference => {
                    proof {
                        lemma_difference_scalar(char_spans(a1@), char_spans(b1@));
                    }
                    Ok(ranges_difference(a1.as_slice(), b1.as_slice()))
                },
                SetOp::SymmetricDifference => {
                    proof {
                        lemma_difference_scalar(char_spans(a1@), char_spans(b1@));
                        lemma_difference_scalar(char_spans(b1@), char_spans(a1@));
                    }
                    Ok(ranges_symmetric_difference(a1.as_slice(), b1.as_slice()))
                },
            }
        },
    }
}

/// The ranges of a bracketed class, negated for `[^...]`.
pub fn class_bracketed_ranges(cb: &BracketedClass, tables: &UcdTables, exact: bool) -> (r: Result<
    Vec<(char, char)>,
    GenerateError,
>)
    ensures
        match r {
            Ok(v) => bracketed_spans(*cb, *tables, exact) == Ok::<Seq<(int, int)>, ErrorModel>(
                char_spans(v@),
            ),
            Err(e) => bracketed_spans(*cb, *tables, exact) == Err::<Seq<(int, int)>, ErrorModel>(e@),
        },
    decreases cb,
{
    let ranges = class_set_ranges(&cb.kind, tables, exact || cb.negated)?;
    Ok(negate_if(ranges, cb.negated, exact))
}

} // verus!
