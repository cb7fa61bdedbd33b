//! The syntax tree that generation walks, and the strings it stands for.
use vstd::prelude::*;
use crate::class::{
    bracketed_spans, perl_spans, unicode_spans_of, BracketedClass, PerlClass, UnicodeClass,
};
use crate::error::ErrorModel;
use crate::range_spec::{in_spans, scalar_spans};
use crate::ranges::clip;
use crate::ucd::UcdTables;

verus! {

/// The most times that an unbounded repetition (`*`, `+`, `{n,}`) repeats,
/// unless `{n,}` asks for more, which then repeats exactly `n` times.
pub const REP_MAX: u32 = 255;

/// How often a repeated expression occurs.
#[derive(Clone, Copy, Debug)]
pub enum RepeatKind {
    /// `?`
    ZeroOrOne,
    /// `*`
    ZeroOrMore,
    /// `+`
    OneOrMore,
    /// `{n}`
    Exactly(u32),
    /// `{n,}`
    AtLeast(u32),
    /// `{n,m}`
    Bounded(u32, u32),
}

/// A regular expression, as far as drawing a string from it is concerned.
#[derive(Debug)]
pub enum Node {
    /// The empty expression: matches the empty string.
    Empty,
    /// Flags such as `(?i)`: they add nothing to a drawn string.
    Flags,
    /// An assertion (an anchor or a word boundary): it adds nothing to a
    /// drawn string.
    Assertion,
    /// A single character.
    Literal(char),
    /// `.`: drawn from the printable ASCII characters.
    Dot,
    UnicodeClass(UnicodeClass),
    PerlClass(PerlClass),
    BracketedClass(BracketedClass),
    /// An expression repeated as the kind says.
    Repetition(RepeatKind, Box<Node>),
    /// A group: matches what its expression matches.
    Group(Box<Node>),
    /// One of several expressions.
    Alternation(Vec<Node>),
    /// Expressions one after another.
    Concat(Vec<Node>),
}

/// The least and greatest number of times a repetition occurs.
pub open spec fn repetition_bounds(kind: RepeatKind) -> (int, int) {
    match kind {
        RepeatKind::ZeroOrOne => (0, 1),
        RepeatKind::ZeroOrMore => (0, REP_MAX as int),
        RepeatKind::OneOrMore => (1, REP_MAX as int),
        RepeatKind::Exactly(n) => (n as int, n as int),
        RepeatKind::AtLeast(n) => (n as int, if n > REP_MAX { n as int } else { REP_MAX as int }),
        RepeatKind::Bounded(n, m) => (n as int, m as int),
    }
}

/// The number of code points that valid spans hold.
pub open spec fn span_total(sp: Seq<(int, int)>) -> int
    decreases sp.len(),
{
    if sp.len() == 0 {
        0
    } else {
        (sp[0].1 - sp[0].0 + 1) + span_total(sp.drop_first())
    }
}

/// Why no character can be drawn from these spans, if one cannot: more code
/// points than a `u32` counts, or none.
pub open spec fn draw_error(sp: Seq<(int, int)>) -> Option<ErrorModel> {
    if span_total(sp) > u32::MAX as int {
        Some(ErrorModel::ClassTooLarge)
    } else if span_total(sp) == 0 {
        Some(ErrorModel::EmptyClass)
    } else {
        None
    }
}

/// Drawing one character from these spans can stop with `e`: the error that
/// rules out any draw, or, when a draw is made, `SurrogateInClass` if some
/// span holds a surrogate code point (the draw may land on it).
pub open spec fn draw_can_fail_with(sp: Seq<(int, int)>, e: ErrorModel) -> bool {
    match draw_error(sp) {
        Some(x) => x == e,
        None => !scalar_spans(sp) && e == ErrorModel::SurrogateInClass,
    }
}

/// The spans of a class node.
pub open spec fn class_node_spans(node: Node, t: UcdTables) -> Result<Seq<(int, int)>, ErrorModel> {
    match node {
        Node::UnicodeClass(cu) => unicode_spans_of(cu, t, false),
        Node::PerlClass(cp) => Ok(perl_spans(cp, false)),
        Node::BracketedClass(cb) => bracketed_spans(cb, t, false),
        _ => Ok(Seq::empty()),
    }
}

/// A repetition of this kind may occur `n` times.
pub open spec fn count_within(kind: RepeatKind, n: nat) -> bool {
    repetition_bounds(kind).0 <= n && n <= repetition_bounds(kind).1
}

/// `s` is in the language of `node`.
pub open spec fn in_language(node: Node, s: Seq<char>, t: UcdTables) -> bool
    decreases node, 0nat,
{
    match node {
        Node::Empty | Node::Flags | Node::Assertion => s.len() == 0,
        Node::Literal(c) => s == seq![c],
        Node::Dot => s.len() == 1 && 0x20 <= s[0] as int && s[0] as int <= 0x7E,
        Node::UnicodeClass(_) | Node::PerlClass(_) | Node::BracketedClass(_) => s.len() == 1 && (
        match class_node_spans(node, t) {
            Ok(sp) => in_spans(clip(sp), s[0] as int),
            Err(_) => false,
        }),
        Node::Repetition(kind, child) => exists|n: nat|
            #[trigger] count_within(kind, n) && repeat_in_language(*child, s, n, t),
        Node::Group(child) => in_language(*child, s, t),
        Node::Alternation(alts) => exists|i: int|
            0 <= i < alts@.len() && in_language(#[trigger] alts@[i], s, t),
        Node::Concat(xs) => seq_in_language(xs@, s, t),
    }
}

/// `s` is `n` strings one after another, each in the language of `node`.
pub open spec fn repeat_in_language(node: Node, s: Seq<char>, n: nat, t: UcdTables) -> bool
    decreases node, n + 1,
{
    if n == 0 {
        s.len() == 0
    } else {
        exists|k: int|
            0 <= k <= s.len() && repeat_in_language(node, #[trigger] s.take(k), (n - 1) as nat, t)
                && in_language(node, s.skip(k), t)
    }
}

/// `s` is one string from each of `nodes`, in order.
pub open spec fn seq_in_language(nodes: Seq<Node>, s: Seq<char>, t: UcdTables) -> bool
    decreases nodes, 0nat,
{
    if nodes.len() == 0 {
        s.len() == 0
    } else {
        exists|k: int|
            0 <= k <= s.len() && seq_in_language(nodes.drop_last(), #[trigger] s.take(k), t)
                && in_language(nodes[nodes.len() - 1], s.skip(k), t)
    }
}

/// Drawing from `node` can stop with error `e`.
pub open spec fn can_fail_with(node: Node, t: UcdTables, e: ErrorModel) -> bool
    decreases node,
{
    match node {
        Node::UnicodeClass(_) | Node::PerlClass(_) | Node::BracketedClass(_) => match class_node_spans(
            node,
            t,
        ) {
            Err(x) => x == e,
            Ok(sp) => draw_can_fail_with(clip(sp), e),
        },
        Node::Repetition(kind, child) => if repetition_bounds(kind).0 > repetition_bounds(kind).1 {
            e == ErrorModel::RepetitionOutOfRange
        } else {
            repetition_bounds(kind).1 > 0 && can_fail_with(*child, t, e)
        },
        Node::Group(child) => can_fail_with(*child, t, e),
        Node::Alternation(alts) => if alts@.len() == 0 {
            e == ErrorModel::EmptyAlternation
        } else {
            exists|i: int| 0 <= i < alts@.len() && can_fail_with(#[trigger] alts@[i], t, e)
        },
        Node::Concat(xs) => exists|i: int| 0 <= i < xs@.len() && can_fail_with(#[trigger] xs@[i], t, e),
        _ => false,
    }
}

/// `s` is what a draw from `node` that stops with an error may have
/// appended: the complete strings of the parts drawn before the failing part,
/// then what that part appended.  A class, or a repetition whose count cannot
/// be drawn, appends nothing.
pub open spec fn failed_output(node: Node, s: Seq<char>, t: UcdTables) -> bool
    decreases node,
{
    match node {
        Node::UnicodeClass(_) | Node::PerlClass(_) | Node::BracketedClass(_) => s.len() == 0,
        Node::Repetition(_, child) => s.len() == 0 || exists|k: nat, m: int|
            #![trigger repeat_in_language(*child, s.take(m), k, t)]
            0 <= m <= s.len() && repeat_in_language(*child, s.take(m), k, t) && failed_output(
                *child,
                s.skip(m),
                t,
            ),
        Node::Group(child) => failed_output(*child, s, t),
        Node::Alternation(alts) => s.len() == 0 || exists|i: int|
            0 <= i < alts@.len() && failed_output(#[trigger] alts@[i], s, t),
        Node::Concat(xs) => exists|i: int, m: int|
            #![trigger xs@[i], s.take(m)]
            0 <= i < xs@.len() && 0 <= m <= s.len() && seq_in_language(xs@.take(i), s.take(m), t)
                && failed_output(xs@[i], s.skip(m), t),
        _ => false,
    }
}

/// Drawing from `node` can stop with some error.
pub open spec fn can_fail(node: Node, t: UcdTables) -> bool {
    exists|e: ErrorModel| #[trigger] can_fail_with(node, t, e)
}

/// A string of `node`'s language after `n` of them makes `n + 1`.
pub proof fn lemma_repeat_append(node: Node, s0: Seq<char>, p: Seq<char>, n: nat, t: UcdTables)
    requires
        repeat_in_language(node, s0, n, t),
        in_language(node, p, t),
    ensures
        repeat_in_language(node, s0 + p, n + 1, t),
{
    let s1 = s0 + p;
    assert(s1.take(s0.len() as int) =~= s0);
    assert(s1.skip(s0.len() as int) =~= p);
    let m: nat = n + 1;
    assert(((m - 1) as nat) == n);
    assert(0 <= s0.len() <= s1.len() && repeat_in_language(node, s1.take(s0.len() as int), (m - 1) as nat, t)
        && in_language(node, s1.skip(s0.len() as int), t));
}

/// One string from each of `nodes`, then one from `last`, is a string of
/// `nodes` with `last` appended.
pub proof fn lemma_seq_append(nodes: Seq<Node>, last: Node, s0: Seq<char>, p: Seq<char>, t: UcdTables)
    requires
        seq_in_language(nodes, s0, t),
        in_language(last, p, t),
    ensures
        seq_in_language(nodes.push(last), s0 + p, t),
{
    let s1 = s0 + p;
    let ns = nodes.push(last);
    assert(ns.drop_last() =~= nodes);
    assert(ns[ns.len() - 1] == last);
    assert(s1.take(s0.len() as int) =~= s0);
    assert(s1.skip(s0.len() as int) =~= p);
    assert(0 <= s0.len() <= s1.len() && seq_in_language(ns.drop_last(), s1.take(s0.len() as int), t)
        && in_language(ns[ns.len() - 1], s1.skip(s0.len() as int), t));
}

/// A string of one branch is a string of the alternation.
pub proof fn lemma_alternation_branch(alts: Vec<Node>, i: int, s: Seq<char>, t: UcdTables)
    requires
        0 <= i < alts@.len(),
        in_language(alts@[i], s, t),
    ensures
        in_language(Node::Alternation(alts), s, t),
{
    let n = Node::Alternation(alts);
    assert(n->Alternation_0 == alts);
    assert(n->Alternation_0@[i] == alts@[i]);
    assert(in_language(n->Alternation_0@[i], s, t));
    assert(exists|j: int| 0 <= j < alts@.len() && in_language(alts@[j], s, t));
}

/// An error of one branch is an error of the alternation.
pub proof fn lemma_alternation_fail(alts: Vec<Node>, i: int, t: UcdTables, e: ErrorModel)
    requires
        0 <= i < alts@.len(),
        can_fail_with(alts@[i], t, e),
    ensures
        can_fail_with(Node::Alternation(alts), t, e),
{
    let n = Node::Alternation(alts);
    assert(n->Alternation_0 == alts);
    assert(n->Alternation_0@[i] == alts@[i]);
    assert(can_fail_with(n->Alternation_0@[i], t, e));
    assert(exists|j: int| 0 <= j < alts@.len() && can_fail_with(alts@[j], t, e));
}

/// An error of one part is an error of the concatenation.
pub proof fn lemma_concat_fail(xs: Vec<Node>, i: int, t: UcdTables, e: ErrorModel)
    requires
        0 <= i < xs@.len(),
        can_fail_with(xs@[i], t, e),
    ensures
        can_fail_with(Node::Concat(xs), t, e),
{
    let n = Node::Concat(xs);
    assert(n->Concat_0 == xs);
    assert(n->Concat_0@[i] == xs@[i]);
    assert(can_fail_with(n->Concat_0@[i], t, e));
    assert(exists|j: int| 0 <= j < xs@.len() && can_fail_with(xs@[j], t, e));
}

/// `n` strings of the repeated expression, with `n` within the bounds, are a
/// string of the repetition.
pub proof fn lemma_repetition_count(kind: RepeatKind, child: Box<Node>, s: Seq<char>, n: nat, t: UcdTables)
    requires
        repetition_bounds(kind).0 <= n <= repetition_bounds(kind).1,
        repeat_in_language(*child, s, n, t),
    ensures
        in_language(Node::Repetition(kind, child), s, t),
{
    assert(count_within(kind, n) && repeat_in_language(*child, s, n, t));
}

} // verus!
