//! Drawing a random string from the language of a pattern.
use vstd::prelude::*;
use rand::Rng;
use rand::rngs::ThreadRng;
use crate::class::{
    class_bracketed_ranges, class_perl_ranges, class_unicode_ranges, BracketedClass, PerlClass,
    UnicodeClass,
};
use crate::error::{ErrorModel, GenerateError};
use crate::pattern::{
    can_fail, can_fail_with, draw_can_fail_with, draw_error, failed_output, in_language,
    lemma_alternation_branch, lemma_alternation_fail, lemma_concat_fail, lemma_repeat_append,
    lemma_repetition_count, lemma_seq_append, repeat_in_language, repetition_bounds,
    seq_in_language, span_total, Node, RepeatKind,
};
use crate::range_spec::{
    all_valid, char_spans, in_spans, is_scalar, lemma_char_is_scalar, normalized, scalar_span,
    scalar_spans,
};
use crate::ranges::{char_from_u32, clip_ranges};
use crate::ucd::UcdTables;

verus! {

#[verifier::external_type_specification]
#[verifier::external_body]
pub struct ExThreadRng(ThreadRng);

/// `rand::rng`: the thread-local random number generator.  Nothing is claimed.
#[verifier::external_body]
fn thread_rng() -> ThreadRng {
    rand::rng()
}

/// `Rng::random_range` over `lo..=hi`.  Claimed of rand, as its documentation
/// says: the result lies in the range (it panics on an empty range, which the
/// `requires` rules out).  Which value comes is chance.
#[verifier::external_body]
fn random_in(rng: &mut ThreadRng, lo: u64, hi: u64) -> (r: u64)
    requires
        lo <= hi,
    ensures
        lo <= r <= hi,
{
    rng.random_range(lo..=hi)
}

/// `String::push`.  Claimed of std: the char is appended.
#[verifier::external_body]
fn push_char(s: &mut String, c: char)
    ensures
        final(s)@ == old(s)@.push(c),
{
    s.push(c)
}

/// A pattern to draw random strings from.
#[derive(Debug)]
pub struct RandomString {
    pub ast: Node,
}

/// The state of one draw: the random number generator, the string drawn so
/// far, and the Unicode tables that classes are looked up in.
pub struct RandomStringVisitor<'a> {
    rng: ThreadRng,
    buf: String,
    tables: &'a UcdTables,
}

/// The part of `after` that follows `before`, when `after` extends `before`.
pub open spec fn extends_by(before: Seq<char>, after: Seq<char>) -> Option<Seq<char>> {
    if before.len() <= after.len() && after.take(before.len() as int) == before {
        Some(after.skip(before.len() as int))
    } else {
        None
    }
}

/// `ranges` with each range's code points in order, one range after another:
/// the code point at position `idx` of that listing.
pub open spec fn nth_code_point(sp: Seq<(int, int)>, idx: int) -> int
    decreases sp.len(),
{
    if sp.len() == 0 {
        0
    } else if idx < sp[0].1 - sp[0].0 + 1 {
        sp[0].0 + idx
    } else {
        nth_code_point(sp.drop_first(), idx - (sp[0].1 - sp[0].0 + 1))
    }
}

proof fn lemma_extends_refl(a: Seq<char>)
    ensures
        extends_by(a, a) == Some(Seq::<char>::empty()),
{
    assert(a.take(a.len() as int) =~= a);
    assert(a.skip(a.len() as int) =~= Seq::<char>::empty());
}

proof fn lemma_extends_push(a: Seq<char>, c: char)
    ensures
        extends_by(a, a.push(c)) == Some(seq![c]),
{
    assert(a.push(c).take(a.len() as int) =~= a);
    assert(a.push(c).skip(a.len() as int) =~= seq![c]);
}

proof fn lemma_extends_trans(a: Seq<char>, b: Seq<char>, c: Seq<char>)
    requires
        extends_by(a, b) is Some,
        extends_by(b, c) is Some,
    ensures
        extends_by(a, c) == Some(extends_by(a, b).unwrap() + extends_by(b, c).unwrap()),
{
    let x = b.skip(a.len() as int);
    let y = c.skip(b.len() as int);
    assert(b =~= a + x);
    assert(c =~= b + y);
    assert(c.take(a.len() as int) =~= a);
    assert(c.skip(a.len() as int) =~= x + y);
}

/// Every position below the number of code points of valid ranges names a
/// code point that the ranges cover.
pub proof fn lemma_nth_code_point(sp: Seq<(int, int)>, idx: int)
    requires
        all_valid(sp),
        0 <= idx < span_total(sp),
    ensures
        in_spans(sp, nth_code_point(sp, idx)),
    decreases sp.len(),
{
    if sp.len() > 0 {
        if idx < sp[0].1 - sp[0].0 + 1 {
            assert(sp[0].0 <= nth_code_point(sp, idx) <= sp[0].1);
        } else {
            let t = sp.drop_first();
            assert forall|i: int| 0 <= i < t.len() implies #[trigger] t[i].0 <= t[i].1 by {
                assert(t[i] == sp[i + 1]);
            }
            lemma_nth_code_point(t, idx - (sp[0].1 - sp[0].0 + 1));
            let x = nth_code_point(t, idx - (sp[0].1 - sp[0].0 + 1));
            let i = choose|i: int| #![trigger t[i]] 0 <= i < t.len() && t[i].0 <= x && x <= t[i].1;
            assert(sp[i + 1] == t[i]);
        }
    }
}

proof fn lemma_span_total_nonneg(sp: Seq<(int, int)>)
    requires
        all_valid(sp),
    ensures
        span_total(sp) >= 0,
    decreases sp.len(),
{
    if sp.len() > 0 {
        let t = sp.drop_first();
        assert forall|i: int| 0 <= i < t.len() implies #[trigger] t[i].0 <= t[i].1 by {
            assert(t[i] == sp[i + 1]);
        }
        lemma_span_total_nonneg(t);
    }
}

impl<'a> RandomStringVisitor<'a> {
    /// The string drawn so far.
    pub closed spec fn output(&self) -> Seq<char> {
        self.buf@
    }

    /// The tables that classes are looked up in.
    pub closed spec fn ucd(&self) -> UcdTables {
        *self.tables
    }

    /// A fresh draw over `tables`, with the thread's random number generator.
    pub fn new(tables: &'a UcdTables) -> (v: Self)
        ensures
            v.output() == Seq::<char>::empty(),
            v.ucd() == *tables,
    {
        RandomStringVisitor { rng: thread_rng(), buf: String::new(), tables }
    }

    /// A printable ASCII character, `' '` to `'~'`.
    fn random_dot(&mut self) -> (c: char)
        ensures
            0x20 <= c as int <= 0x7E,
            final(self).output() == old(self).output(),
            final(self).ucd() == old(self).ucd(),
    {
        let x = random_in(&mut self.rng, 0x20, 0x7E);
        char_from_u32(x as u32).unwrap()
    }

    /// How many times a repetition occurs this time: its count when least and
    /// greatest agree, else a random count between them.
    fn sample_repetition(&mut self, kind: RepeatKind) -> (r: Result<u32, GenerateError>)
        ensures
            match r {
                Ok(n) => repetition_bounds(kind).0 <= n <= repetition_bounds(kind).1,
                Err(e) => e@ == ErrorModel::RepetitionOutOfRange && repetition_bounds(kind).0
                    > repetition_bounds(kind).1,
            },
            repetition_bounds(kind).0 <= repetition_bounds(kind).1 ==> r is Ok,
            final(self).output() == old(self).output(),
            final(self).ucd() == old(self).ucd(),
    {
        let (min, max): (u32, u32) = match kind {
            RepeatKind::ZeroOrOne => (0, 1),
            RepeatKind::ZeroOrMore => (0, crate::pattern::REP_MAX),
            RepeatKind::OneOrMore => (1, crate::pattern::REP_MAX),
            RepeatKind::Exactly(n) => (n, n),
            RepeatKind::AtLeast(n) => (n, if n > crate::pattern::REP_MAX { n } else { crate::pattern::REP_MAX }),
            RepeatKind::Bounded(n, m) => (n, m),
        };
        if min == max {
            Ok(min)
        } else if min > max {
            Err(GenerateError::RepetitionOutOfRange)
        } else {
            let n = random_in(&mut self.rng, min as u64, max as u64);
            Ok(n as u32)
        }
    }

    /// A random character from `ranges`, each code point equally likely; an
    /// error when the ranges hold no code point or more than `u32::MAX` of
    /// them, or when the code point drawn is a surrogate.
    pub fn sample_char_from_ranges(&mut self, ranges: &[(char, char)]) -> (r: Result<char, GenerateError>)
        requires
            all_valid(char_spans(ranges@)),
        ensures
            match r {
                Ok(c) => in_spans(char_spans(ranges@), c as int) && draw_error(char_spans(ranges@))
                    is None && exists|idx: int|
                    0 <= idx < span_total(char_spans(ranges@)) && c as int == #[trigger] nth_code_point(
                        char_spans(ranges@),
                        idx,
                    ),
                Err(e) => draw_can_fail_with(char_spans(ranges@), e@),
            },
            draw_error(char_spans(ranges@)) is None && scalar_spans(char_spans(ranges@)) ==> r is Ok,
            final(self).output() == old(self).output(),
            final(self).ucd() == old(self).ucd(),
    {
        let ghost sp = char_spans(ranges@);
        let n = ranges.len();
        let mut total: u64 = 0;
        let mut i: usize = 0;
        proof {
            assert(sp.skip(0) =~= sp);
            lemma_span_total_nonneg(sp);
        }
        while i < n
            invariant
                i <= n,
                n == ranges@.len(),
                sp == char_spans(ranges@),
                all_valid(sp),
                total <= u32::MAX,
                total + span_total(sp.skip(i as int)) == span_total(sp),
            decreases n - i,
        {
            let (lo, hi) = ranges[i];
            proof {
                lemma_char_is_scalar(lo);
                lemma_char_is_scalar(hi);
                assert(sp[i as int] == (lo as int, hi as int));
                assert(sp.skip(i as int).drop_first() =~= sp.skip(i + 1));
                assert(sp.skip(i as int)[0] == sp[i as int]);
                let t = sp.skip(i + 1);
                assert forall|q: int| 0 <= q < t.len() implies #[trigger] t[q].0 <= t[q].1 by {
                    assert(t[q] == sp[i + 1 + q]);
                }
                lemma_span_total_nonneg(t);
            }
            let len = (hi as u64) - (lo as u64) + 1;
            total = total + len;
            if total > 0xFFFF_FFFF {
                return Err(GenerateError::ClassTooLarge);
            }
            i += 1;
        }
        proof {
            assert(sp.skip(n as int).len() == 0);
        }
        if total == 0 {
            return Err(GenerateError::EmptyClass);
        }
        let idx: u64 = random_in(&mut self.rng, 0, total - 1);
        proof {
            lemma_nth_code_point(sp, idx as int);
        }
        let r = code_point_at(ranges, idx);
        proof {
            let x = nth_code_point(sp, idx as int);
            let q = choose|q: int| #![trigger sp[q]] 0 <= q < sp.len() && sp[q].0 <= x && x <= sp[q].1;
            lemma_char_is_scalar(ranges@[q].0);
            lemma_char_is_scalar(ranges@[q].1);
            assert(sp[q] == (ranges@[q].0 as int, ranges@[q].1 as int));
            if r is Err {
                assert(!scalar_span(sp[q]));
            }
            if scalar_spans(sp) {
                assert(scalar_span(sp[q]));
            }
        }
        r
    }
}

/// The char at position `idx` when the code points of `ranges` are listed one
/// range after another, each range from its low end up; `SurrogateInClass`
/// when the code point there is a surrogate.
pub fn code_point_at(ranges: &[(char, char)], idx: u64) -> (r: Result<char, GenerateError>)
    requires
        all_valid(char_spans(ranges@)),
        idx < span_total(char_spans(ranges@)),
    ensures
        match r {
            Ok(c) => c as int == nth_code_point(char_spans(ranges@), idx as int),
            Err(e) => e@ == ErrorModel::SurrogateInClass && !is_scalar(
                nth_code_point(char_spans(ranges@), idx as int),
            ),
        },
        is_scalar(nth_code_point(char_spans(ranges@), idx as int)) ==> r is Ok,
{
    let ghost sp = char_spans(ranges@);
    let n = ranges.len();
    let mut rest = idx;
    let mut k: usize = 0;
    proof {
        assert(sp.skip(0) =~= sp);
        if n == 0 {
            assert(span_total(sp) == 0);
        }
    }
    loop
        invariant
            k < n,
            n == ranges@.len(),
            sp == char_spans(ranges@),
            all_valid(sp),
            rest < span_total(sp.skip(k as int)),
            nth_code_point(sp.skip(k as int), rest as int) == nth_code_point(sp, idx as int),
        decreases n - k,
    {
        let (lo, hi) = ranges[k];
        proof {
            lemma_char_is_scalar(lo);
            lemma_char_is_scalar(hi);
            assert(sp[k as int] == (lo as int, hi as int));
            assert(sp.skip(k as int).drop_first() =~= sp.skip(k + 1));
            assert(sp.skip(k as int)[0] == sp[k as int]);
        }
        let len = (hi as u64) - (lo as u64) + 1;
        if rest < len {
            let cp = (lo as u64) + rest;
            proof {
                assert(cp as int == nth_code_point(sp, idx as int));
            }
            return match char_from_u32(cp as u32) {
                Some(c) => Ok(c),
                None => Err(GenerateError::SurrogateInClass),
            };
        }
        proof {
            assert(span_total(sp.skip(k as int)) == len + span_total(sp.skip(k + 1)));
            if k + 1 >= n {
                assert(sp.skip(k + 1).len() == 0);
                assert(span_total(sp.skip(k + 1)) == 0);
            }
        }
        rest = rest - len;
        k += 1;
    }
}

impl<'a> RandomStringVisitor<'a> {
    /// Draws a character from a Unicode class and appends it; on an error
    /// nothing is appended.
    fn visit_class_unicode(&mut self, cu: &UnicodeClass) -> (r: Result<(), GenerateError>)
        ensures
            final(self).ucd() == old(self).ucd(),
            match r {
                Ok(()) => extends_by(old(self).output(), final(self).output()) matches Some(s)
                    && in_language(Node::UnicodeClass(*cu), s, old(self).ucd()),
                Err(e) => can_fail_with(Node::UnicodeClass(*cu), old(self).ucd(), e@)
                    && final(self).output() == old(self).output(),
            },
    {
        let ranges = match class_unicode_ranges(cu, self.tables, false) {
            Ok(r) => r,
            Err(e) => return Err(e),
        };
        let clipped = clip_ranges(ranges.as_slice());
        self.push_class_sample(&clipped)
    }

    /// Draws a character from a Perl class and appends it; on an error
    /// nothing is appended.
    fn visit_class_perl(&mut self, cp: &PerlClass) -> (r: Result<(), GenerateError>)
        ensures
            final(self).ucd() == old(self).ucd(),
            match r {
                Ok(()) => extends_by(old(self).output(), final(self).output()) matches Some(s)
                    && in_language(Node::PerlClass(*cp), s, old(self).ucd()),
                Err(e) => can_fail_with(Node::PerlClass(*cp), old(self).ucd(), e@)
                    && final(self).output() == old(self).output(),
            },
    {
        let ranges = class_perl_ranges(cp, false);
        let clipped = clip_ranges(ranges.as_slice());
        self.push_class_sample(&clipped)
    }

    /// Draws a character from a bracketed class and appends it; on an error
    /// nothing is appended.
    fn visit_class_bracketed(&mut self, cb: &BracketedClass) -> (r: Result<(), GenerateError>)
        ensures
            final(self).ucd() == old(self).ucd(),
            match r {
                Ok(()) => extends_by(old(self).output(), final(self).output()) matches Some(s)
                    && in_language(Node::BracketedClass(*cb), s, old(self).ucd()),
                Err(e) => can_fail_with(Node::BracketedClass(*cb), old(self).ucd(), e@)
                    && final(self).output() == old(self).output(),
            },
    {
        let ranges = match class_bracketed_ranges(cb, self.tables, false) {
            Ok(r) => r,
            Err(e) => return Err(e),
        };
        let clipped = clip_ranges(ranges.as_slice());
        self.push_class_sample(&clipped)
    }

    /// Draws a character from canonical `ranges` and appends it, giving the
    /// one-character string appended; on an error nothing is appended.
    fn push_class_sample(&mut self, ranges: &Vec<(char, char)>) -> (r: Result<(), GenerateError>)
        requires
            normalized(char_spans(ranges@)),
        ensures
            final(self).ucd() == old(self).ucd(),
            match r {
                Ok(()) => extends_by(old(self).output(), final(self).output()) matches Some(s)
                    && s.len() == 1 && in_spans(char_spans(ranges@), s[0] as int),
                Err(e) => draw_can_fail_with(char_spans(ranges@), e@) && final(self).output() == old(
                    self,
                ).output(),
            },
    {
        let ghost before = self.output();
        match self.sample_char_from_ranges(ranges.as_slice()) {
            Ok(c) => {
                push_char(&mut self.buf, c);
                proof {
                    lemma_extends_push(before, c);
                    assert(seq![c][0] == c);
                }
                Ok(())
            },
            Err(e) => Err(e),
        }
    }

    /// Draws a string from `node` and appends it.  On an error what the parts
    /// before the failing one appended stays: the output only grows.
    #[verifier::loop_isolation(false)]
    pub fn visit(&mut self, node: &Node) -> (r: Result<(), GenerateError>)
        ensures
            final(self).ucd() == old(self).ucd(),
            extends_by(old(self).output(), final(self).output()) is Some,
            match r {
                Ok(()) => extends_by(old(self).output(), final(self).output()) matches Some(s)
                    && in_language(*node, s, old(self).ucd()),
                Err(e) => can_fail_with(*node, old(self).ucd(), e@) && (extends_by(
                    old(self).output(),
                    final(self).output(),
                ) matches Some(s) && failed_output(*node, s, old(self).ucd())),
            },
        decreases node,
    {
        let ghost t = self.ucd();
        let ghost start = self.output();
        match node {
            Node::Empty | Node::Flags | Node::Assertion => {
                proof {
                    lemma_extends_refl(start);
                }
            },
            Node::Literal(c) => {
                push_char(&mut self.buf, *c);
                proof {
                    lemma_extends_push(start, *c);
                }
            },
            Node::Dot => {
                let c = self.random_dot();
                push_char(&mut self.buf, c);
                proof {
                    lemma_extends_push(start, c);
                }
            },
            Node::UnicodeClass(cu) => {
                let r = self.visit_class_unicode(cu);
                proof {
                    lemma_extends_refl(start);
                }
                return r;
            },
            Node::PerlClass(cp) => {
                let r = self.visit_class_perl(cp);
                proof {
                    lemma_extends_refl(start);
                }
                return r;
            },
            Node::BracketedClass(cb) => {
                let r = self.visit_class_bracketed(cb);
                proof {
                    lemma_extends_refl(start);
                }
                return r;
            },
            Node::Repetition(kind, child) => {
                let n = match self.sample_repetition(*kind) {
                    Ok(n) => n,
                    Err(e) => {
                        proof {
                            lemma_extends_refl(start);
                        }
                        return Err(e);
                    },
                };
                let mut k: u32 = 0;
                proof {
                    lemma_extends_refl(start);
                    assert(repeat_in_language(**child, Seq::<char>::empty(), 0, t));
                }
                while k < n
                    invariant
                        k <= n,
                        repetition_bounds(*kind).0 <= n <= repetition_bounds(*kind).1,
                        self.ucd() == t,
                        *node == Node::Repetition(*kind, *child),
                        extends_by(start, self.output()) matches Some(s) && repeat_in_language(
                            **child,
                            s,
                            k as nat,
                            t,
                        ),
                    decreases n - k,
                {
                    let ghost before = self.output();
                    let ghost s0 = extends_by(start, before).unwrap();
                    match self.visit(child) {
                        Ok(()) => {},
                        Err(e) => {
                            proof {
                                assert(repetition_bounds(*kind).1 > 0);
                                lemma_extends_trans(start, before, self.output());
                                let p = extends_by(before, self.output()).unwrap();
                                let s = extends_by(start, self.output()).unwrap();
                                assert(s =~= s0 + p);
                                assert(s.take(s0.len() as int) =~= s0);
                                assert(s.skip(s0.len() as int) =~= p);
                                assert(repeat_in_language(**child, s.take(s0.len() as int), k as nat, t));
                                assert(*node == Node::Repetition(*kind, *child));
                            }
                            return Err(e);
                        },
                    }
                    proof {
                        let p = extends_by(before, self.output()).unwrap();
                        lemma_extends_trans(start, before, self.output());
                        lemma_repeat_append(**child, s0, p, k as nat, t);
                    }
                    k += 1;
                }
                proof {
                    let s = extends_by(start, self.output()).unwrap();
                    assert(repeat_in_language(**child, s, n as nat, t));
                    lemma_repetition_count(*kind, *child, s, n as nat, t);
                    assert(*node == Node::Repetition(*kind, *child));
                }
            },
            Node::Group(child) => {
                return self.visit(child);
            },
            Node::Alternation(alts) => {
                if alts.len() == 0 {
                    proof {
                        lemma_extends_refl(start);
                    }
                    return Err(GenerateError::EmptyAlternation);
                }
                let hi = (alts.len() - 1) as u64;
                let idx = random_in(&mut self.rng, 0, hi) as usize;
                proof {
                    assert(self.output() == start);
                    assert(self.ucd() == t);
                }
                let r = self.visit(&alts[idx]);
                proof {
                    if r is Ok {
                        assert(extends_by(start, self.output()) is Some);
                        let s = extends_by(start, self.output()).unwrap();
                        lemma_alternation_branch(*alts, idx as int, s, t);
                        assert(*node == Node::Alternation(*alts));
                        assert(in_language(*node, s, t));
                    } else {
                        lemma_alternation_fail(*alts, idx as int, t, r->Err_0@);
                        assert(*node == Node::Alternation(*alts));
                        let s = extends_by(start, self.output()).unwrap();
                        assert(failed_output(alts@[idx as int], s, t));
                    }
                }
                return r;
            },
            Node::Concat(xs) => {
                let mut i: usize = 0;
                proof {
                    lemma_extends_refl(start);
                    assert(xs@.take(0) =~= Seq::<Node>::empty());
                }
                while i < xs.len()
                    invariant
                        i <= xs@.len(),
                        self.ucd() == t,
                        *node == Node::Concat(*xs),
                        extends_by(start, self.output()) matches Some(s) && seq_in_language(
                            xs@.take(i as int),
                            s,
                            t,
                        ),
                    decreases xs@.len() - i,
                {
                    let ghost before = self.output();
                    let ghost s0 = extends_by(start, before).unwrap();
                    match self.visit(&xs[i]) {
                        Ok(()) => {},
                        Err(e) => {
                            proof {
                                lemma_concat_fail(*xs, i as int, t, e@);
                                assert(*node == Node::Concat(*xs));
                                lemma_extends_trans(start, before, self.output());
                                let p = extends_by(before, self.output()).unwrap();
                                let s = extends_by(start, self.output()).unwrap();
                                assert(s =~= s0 + p);
                                assert(s.take(s0.len() as int) =~= s0);
                                assert(s.skip(s0.len() as int) =~= p);
                                assert(seq_in_language(xs@.take(i as int), s.take(s0.len() as int), t));
                                assert(failed_output(xs@[i as int], s.skip(s0.len() as int), t));
                            }
                            return Err(e);
                        },
                    }
                    proof {
                        let p = extends_by(before, self.output()).unwrap();
                        lemma_extends_trans(start, before, self.output());
                        lemma_seq_append(xs@.take(i as int), xs@[i as int], s0, p, t);
                        assert(xs@.take(i as int).push(xs@[i as int]) =~= xs@.take(i + 1));
                    }
                    i += 1;
                }
                proof {
                    assert(xs@.take(xs@.len() as int) =~= xs@);
                    assert(*node == Node::Concat(*xs));
                }
            },
        }
        Ok(())
    }

    /// Draws a string from `ast` and gives the whole string drawn.
    pub fn into_output(self, ast: &Node) -> (r: Result<String, GenerateError>)
        ensures
            match r {
                Ok(s) => extends_by(self.output(), s@) matches Some(x) && in_language(*ast, x, self.ucd()),
                Err(e) => can_fail_with(*ast, self.ucd(), e@),
            },
    {
        let mut v = self;
        match v.visit(ast) {
            Ok(()) => Ok(v.buf),
            Err(e) => Err(e),
        }
    }
}

impl RandomString {
    /// Draws a random string that the tree `ast` matches.
    ///
    /// On success the string is in the language of the tree; on failure
    /// the error is one that some part of the pattern can give; and when no
    /// part of the pattern can fail, the draw succeeds.
    pub fn generate(&self, tables: &UcdTables) -> (r: Result<String, GenerateError>)
        ensures
            match r {
                Ok(s) => in_language(self.ast, s@, *tables),
                Err(e) => can_fail_with(self.ast, *tables, e@),
            },
            !can_fail(self.ast, *tables) ==> r is Ok,
    {
        let v = RandomStringVisitor::new(tables);
        let r = v.into_output(&self.ast);
        proof {
            if r is Ok {
                let s = r->Ok_0;
                assert(s@.take(0) =~= Seq::<char>::empty());
                assert(s@.skip(0) =~= s@);
            }
        }
        r
    }
}

} // verus!
