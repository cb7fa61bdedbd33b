//! Parsing a pattern with `regex-syntax` and reading its syntax tree into a
//! [`Node`].
use vstd::prelude::*;
use regex_syntax::ast;
use regex_syntax::ast::Ast;
use regex_syntax::ast::ClassAsciiKind as AstAsciiKind;
use crate::class::{
    AsciiClass, AsciiClassKind, BracketedClass, PerlClass, PerlClassKind, SetExpr,
    SetOp, SetItem, UnicodeClass, UnicodeClassKind,
};
use crate::generate::RandomString;
use crate::pattern::{Node, RepeatKind};

verus! {

/// A pattern is accepted by `regex-syntax`'s parser with its default
/// settings (a function of the pattern alone).
pub uninterp spec fn pattern_parses(pattern: Seq<char>) -> bool;

/// The tree that `regex-syntax`'s parser gives for a pattern that it accepts,
/// read into the library's form part for part (a function of the pattern
/// alone).
pub uninterp spec fn parsed_node(pattern: Seq<char>) -> Node;

/// Why a pattern could not be parsed.
#[derive(Debug)]
pub struct ParseError {
    /// What `regex-syntax` reports.
    pub message: String,
}

/// One level of a syntax tree, with its children still in `regex-syntax`'s
/// form.
enum AstShape<'a> {
    Empty,
    Flags,
    Assertion,
    Literal(char),
    Dot,
    UnicodeClass(&'a ast::ClassUnicode),
    PerlClass(&'a ast::ClassPerl),
    BracketedClass(&'a ast::ClassBracketed),
    Repetition(&'a ast::RepetitionKind, &'a Ast),
    Group(&'a Ast),
    Alternation(&'a Vec<Ast>),
    Concat(&'a Vec<Ast>),
}

/// One level of a class set.
enum ClassSetShape<'a> {
    Item(&'a ast::ClassSetItem),
    BinaryOp(&'a ast::ClassSetBinaryOpKind, &'a ast::ClassSet, &'a ast::ClassSet),
}

/// One level of a class set item.
enum ClassSetItemShape<'a> {
    Empty,
    Literal(char),
    Range(char, char),
    Ascii(&'a ast::ClassAscii),
    Unicode(&'a ast::ClassUnicode),
    Perl(&'a ast::ClassPerl),
    Bracketed(&'a ast::ClassBracketed),
    Union(&'a Vec<ast::ClassSetItem>),
}

/// `ast::parse::Parser::new().parse`, with the tree it gives read by the
/// verified `node_of`.  Claimed of regex-syntax: the result is `Ok` exactly
/// when the pattern parses, and the tree is a function of the pattern alone
/// (named `parsed_node`); both depend on nothing but the pattern.
#[verifier::external_body]
fn parse_to_node(pattern: &str) -> (r: Result<Node, ast::Error>)
    ensures
        r is Ok <==> pattern_parses(pattern@),
        r matches Ok(n) ==> n == parsed_node(pattern@),
{
    ast::parse::Parser::new().parse(pattern).map(|a| node_of(&a))
}

/// The `Display` text of a parse error.  Nothing is claimed of the text.
#[verifier::external_body]
fn error_message(e: &ast::Error) -> String {
    e.to_string()
}

/// Tells the variants of `ast::Ast` apart.  Claimed of regex-syntax: every
/// tree handed back is a part of `a` (a field of it, or an element of a
/// field), so it lies strictly below `a`; nothing else is claimed.
#[verifier::external_body]
fn ast_shape(a: &Ast) -> (r: AstShape<'_>)
    ensures
        r matches AstShape::BracketedClass(c) ==> decreases_to!(*a => *c),
        r matches AstShape::Repetition(_, c) ==> decreases_to!(*a => *c),
        r matches AstShape::Group(c) ==> decreases_to!(*a => *c),
        r matches AstShape::Alternation(xs) ==> forall|i: int|
            0 <= i < xs@.len() ==> decreases_to!(*a => #[trigger] xs@[i]),
        r matches AstShape::Concat(xs) ==> forall|i: int|
            0 <= i < xs@.len() ==> decreases_to!(*a => #[trigger] xs@[i]),
{
    match a {
        Ast::Empty(_) => AstShape::Empty,
        Ast::Flags(_) => AstShape::Flags,
        Ast::Assertion(_) => AstShape::Assertion,
        Ast::Literal(l) => AstShape::Literal(l.c),
        Ast::Dot(_) => AstShape::Dot,
        Ast::ClassUnicode(c) => AstShape::UnicodeClass(c),
        Ast::ClassPerl(c) => AstShape::PerlClass(c),
        Ast::ClassBracketed(c) => AstShape::BracketedClass(c),
        Ast::Repetition(r) => AstShape::Repetition(&r.op.kind, &r.ast),
        Ast::Group(g) => AstShape::Group(&g.ast),
        Ast::Alternation(x) => AstShape::Alternation(&x.asts),
        Ast::Concat(x) => AstShape::Concat(&x.asts),
    }
}

/// Converts `ast::RepetitionKind`, one variant for one.  Nothing is claimed.
#[verifier::external_body]
fn repetition_kind_of(k: &ast::RepetitionKind) -> RepeatKind {
    match k {
        ast::RepetitionKind::ZeroOrOne => RepeatKind::ZeroOrOne,
        ast::RepetitionKind::ZeroOrMore => RepeatKind::ZeroOrMore,
        ast::RepetitionKind::OneOrMore => RepeatKind::OneOrMore,
        ast::RepetitionKind::Range(ast::RepetitionRange::Exactly(n)) => RepeatKind::Exactly(*n),
        ast::RepetitionKind::Range(ast::RepetitionRange::AtLeast(n)) => RepeatKind::AtLeast(*n),
        ast::RepetitionKind::Range(ast::RepetitionRange::Bounded(n, m)) => RepeatKind::Bounded(*n, *m),
    }
}

/// Converts `ast::ClassPerl`.  Nothing is claimed.
#[verifier::external_body]
fn class_perl_of(c: &ast::ClassPerl) -> PerlClass {
    let kind = match c.kind {
        ast::ClassPerlKind::Digit => PerlClassKind::Digit,
        ast::ClassPerlKind::Space => PerlClassKind::Space,
        ast::ClassPerlKind::Word => PerlClassKind::Word,
    };
    PerlClass { kind, negated: c.negated }
}

/// Converts `ast::ClassUnicode`, with `negated` from its `is_negated`
/// method (which takes `\p{name!=value}` into account).  Nothing is claimed.
#[verifier::external_body]
fn class_unicode_of(c: &ast::ClassUnicode) -> UnicodeClass {
    let kind = match &c.kind {
        ast::ClassUnicodeKind::OneLetter(l) => UnicodeClassKind::OneLetter(*l),
        ast::ClassUnicodeKind::Named(n) => UnicodeClassKind::Named(n.clone()),
        ast::ClassUnicodeKind::NamedValue { name, value, .. } => UnicodeClassKind::NamedValue {
            name: name.clone(),
            value: value.clone(),
        },
    };
    UnicodeClass { negated: c.is_negated(), kind }
}

/// Converts `ast::ClassAscii`.  Nothing is claimed.
#[verifier::external_body]
fn class_ascii_of(c: &ast::ClassAscii) -> AsciiClass {
    let kind = match c.kind {
        AstAsciiKind::Alnum => AsciiClassKind::Alnum, AstAsciiKind::Alpha => AsciiClassKind::Alpha,
        AstAsciiKind::Ascii => AsciiClassKind::Ascii, AstAsciiKind::Blank => AsciiClassKind::Blank,
        AstAsciiKind::Cntrl => AsciiClassKind::Cntrl, AstAsciiKind::Digit => AsciiClassKind::Digit,
        AstAsciiKind::Graph => AsciiClassKind::Graph, AstAsciiKind::Lower => AsciiClassKind::Lower,
        AstAsciiKind::Print => AsciiClassKind::Print, AstAsciiKind::Punct => AsciiClassKind::Punct,
        AstAsciiKind::Space => AsciiClassKind::Space, AstAsciiKind::Upper => AsciiClassKind::Upper,
        AstAsciiKind::Word => AsciiClassKind::Word, AstAsciiKind::Xdigit => AsciiClassKind::Xdigit,
    };
    AsciiClass { kind, negated: c.negated }
}

/// The negation flag and the contents of `ast::ClassBracketed`.  Claimed of
/// regex-syntax: the contents are a field of `c`, so they lie strictly below
/// it; nothing else is claimed.
#[verifier::external_body]
fn class_bracketed_parts(c: &ast::ClassBracketed) -> (r: (bool, &ast::ClassSet))
    ensures
        decreases_to!(*c => *r.1),
{
    (c.negated, &c.kind)
}

/// Tells the variants of `ast::ClassSet` apart.  Claimed of regex-syntax:
/// every part handed back is a part of `c`, so it lies strictly below `c`;
/// nothing else is claimed.
#[verifier::external_body]
fn class_set_shape(c: &ast::ClassSet) -> (r: ClassSetShape<'_>)
    ensures
        r matches ClassSetShape::Item(i) ==> decreases_to!(*c => *i),
        r matches ClassSetShape::BinaryOp(_, l, rr) ==> decreases_to!(*c => *l) && decreases_to!(
            *c => *rr
        ),
{
    match c {
        ast::ClassSet::Item(item) => ClassSetShape::Item(item),
        ast::ClassSet::BinaryOp(op) => ClassSetShape::BinaryOp(&op.kind, &op.lhs, &op.rhs),
    }
}

/// Converts `ast::ClassSetBinaryOpKind`.  Nothing is claimed.
#[verifier::external_body]
fn binary_op_kind_of(k: &ast::ClassSetBinaryOpKind) -> SetOp {
    match k {
        ast::ClassSetBinaryOpKind::Intersection => SetOp::Intersection,
        ast::ClassSetBinaryOpKind::Difference => SetOp::Difference,
        ast::ClassSetBinaryOpKind::SymmetricDifference => SetOp::SymmetricDifference,
    }
}

/// Tells the variants of `ast::ClassSetItem` apart.  Claimed of regex-syntax:
/// every part handed back is a part of `i`, so it lies strictly below `i`;
/// nothing else is claimed.
#[verifier::external_body]
fn class_set_item_shape(i: &ast::ClassSetItem) -> (r: ClassSetItemShape<'_>)
    ensures
        r matches ClassSetItemShape::Bracketed(c) ==> decreases_to!(*i => *c),
        r matches ClassSetItemShape::Union(items) ==> forall|k: int|
            0 <= k < items@.len() ==> decreases_to!(*i => #[trigger] items@[k]),
{
    match i {
        ast::ClassSetItem::Empty(_) => ClassSetItemShape::Empty,
        ast::ClassSetItem::Literal(l) => ClassSetItemShape::Literal(l.c),
        ast::ClassSetItem::Range(r) => ClassSetItemShape::Range(r.start.c, r.end.c),
        ast::ClassSetItem::Ascii(c) => ClassSetItemShape::Ascii(c),
        ast::ClassSetItem::Unicode(c) => ClassSetItemShape::Unicode(c),
        ast::ClassSetItem::Perl(c) => ClassSetItemShape::Perl(c),
        ast::ClassSetItem::Bracketed(c) => ClassSetItemShape::Bracketed(c),
        ast::ClassSetItem::Union(u) => ClassSetItemShape::Union(&u.items),
    }
}

/// Reads a class set item into the library's form, part for part.
fn class_set_item_of(i: &ast::ClassSetItem) -> (r: SetItem)
    decreases i,
{
    match class_set_item_shape(i) {
        ClassSetItemShape::Empty => SetItem::Empty,
        ClassSetItemShape::Literal(c) => SetItem::Literal(c),
        ClassSetItemShape::Range(s, e) => SetItem::Range(s, e),
        ClassSetItemShape::Ascii(c) => SetItem::Ascii(class_ascii_of(c)),
        ClassSetItemShape::Unicode(c) => SetItem::Unicode(class_unicode_of(c)),
        ClassSetItemShape::Perl(c) => SetItem::Perl(class_perl_of(c)),
        ClassSetItemShape::Bracketed(c) => SetItem::Bracketed(Box::new(class_bracketed_of(c))),
        ClassSetItemShape::Union(items) => {
            let mut out: Vec<SetItem> = Vec::new();
            let mut k: usize = 0;
            while k < items.len()
                invariant
                    k <= items@.len(),
                    forall|q: int| 0 <= q < items@.len() ==> decreases_to!(*i => #[trigger] items@[q]),
                decreases items@.len() - k,
            {
                out.push(class_set_item_of(&items[k]));
                k += 1;
            }
            SetItem::Union(out)
        },
    }
}

/// Reads a class set into the library's form, part for part.
fn class_set_of(c: &ast::ClassSet) -> (r: SetExpr)
    decreases c,
{
    match class_set_shape(c) {
        ClassSetShape::Item(item) => SetExpr::Item(class_set_item_of(item)),
        ClassSetShape::BinaryOp(kind, lhs, rhs) => {
            let l = class_set_of(lhs);
            let r = class_set_of(rhs);
            SetExpr::BinaryOp(binary_op_kind_of(kind), Box::new(l), Box::new(r))
        },
    }
}

/// Reads a bracketed class into the library's form, part for part.
fn class_bracketed_of(c: &ast::ClassBracketed) -> (r: BracketedClass)
    decreases c,
{
    let (negated, kind) = class_bracketed_parts(c);
    BracketedClass { negated, kind: class_set_of(kind) }
}

/// Reads a syntax tree into the library's form, part for part.
fn node_of(a: &Ast) -> (r: Node)
    decreases a, 1int,
{
    match ast_shape(a) {
        AstShape::Empty => Node::Empty,
        AstShape::Flags => Node::Flags,
        AstShape::Assertion => Node::Assertion,
        AstShape::Literal(c) => Node::Literal(c),
        AstShape::Dot => Node::Dot,
        AstShape::UnicodeClass(c) => Node::UnicodeClass(class_unicode_of(c)),
        AstShape::PerlClass(c) => Node::PerlClass(class_perl_of(c)),
        AstShape::BracketedClass(c) => Node::BracketedClass(class_bracketed_of(c)),
        AstShape::Repetition(kind, child) => Node::Repetition(
            repetition_kind_of(kind),
            Box::new(node_of(child)),
        ),
        AstShape::Group(child) => Node::Group(Box::new(node_of(child))),
        AstShape::Alternation(asts) => Node::Alternation(nodes_of(asts, Ghost(*a))),
        AstShape::Concat(asts) => Node::Concat(nodes_of(asts, Ghost(*a))),
    }
}

/// Reads a list of syntax trees, each a part of `parent`; the result has one
/// node per tree.
fn nodes_of(asts: &Vec<Ast>, Ghost(parent): Ghost<Ast>) -> (r: Vec<Node>)
    requires
        forall|i: int| 0 <= i < asts@.len() ==> decreases_to!(parent => #[trigger] asts@[i]),
    ensures
        r@.len() == asts@.len(),
    decreases parent, 0int,
{
    let mut out: Vec<Node> = Vec::new();
    let mut k: usize = 0;
    while k < asts.len()
        invariant
            k <= asts@.len(),
            out@.len() == k,
            forall|i: int| 0 <= i < asts@.len() ==> decreases_to!(parent => #[trigger] asts@[i]),
        decreases asts@.len() - k,
    {
        out.push(node_of(&asts[k]));
        k += 1;
    }
    out
}

impl RandomString {
    /// Parses `pattern` with `regex-syntax`.
    ///
    /// A pattern that the parser accepts gives its tree, read into the
    /// library's form; a pattern that it rejects gives the parser's error.
    pub fn from_regex(pattern: &str) -> (r: Result<RandomString, ParseError>)
        ensures
            r is Ok <==> pattern_parses(pattern@),
            r matches Ok(rs) ==> rs.ast == parsed_node(pattern@),
    {
        match parse_to_node(pattern) {
            Ok(node) => Ok(RandomString { ast: node }),
            Err(e) => Err(ParseError { message: error_message(&e) }),
        }
    }
}

} // verus!
