//! Expressions and the executable expression parser.
use vstd::prelude::*;
use vstd::string::StringSliceAdditionalSpecFns;
use vstd::utf8::{
    encode_utf8_valid_utf8, is_char_boundary, is_char_boundary_start_end_of_seq,
    is_continuation_byte, length_of_first_scalar, pop_first_scalar, valid_first_scalar, valid_utf8, valid_utf8_split,
};
use crate::syntax::{
    after, alternative_at, binary_at, choice_at, decimal, expression_at, fail_at, identifier_at,
    in_class, literal_at, merge, no_reasons, number_at, operand_at, paren_at, parse_expression,
    range_at, range_spelling, run, text_at, union, Alt, Class, Diagnostic, Outcome, Reasons, Tree,
};

verus! {

/// An expression, borrowing its literals and names from the source text.
#[derive(PartialEq, Debug)]
pub enum Expr<'a> {
    /// A number literal.
    Number(usize),
    /// A string literal, with its quotes.
    Text(&'a str),
    /// A name.
    Identifier(&'a str),
    /// The range literal `[1;100]`.
    RangeLiteral(&'a str),
    /// An operator spelling and its two operands.
    BinaryOp(&'a str, Box<Expr<'a>>, Box<Expr<'a>>),
}

impl<'a> Expr<'a> {
    /// The tree that this expression stands for, literals as their bytes.
    pub open spec fn tree(&self) -> Tree
        decreases self,
    {
        match self {
            Expr::Number(n) => Tree::Number(*n as nat),
            Expr::Text(s) => Tree::Text(s.spec_bytes()),
            Expr::Identifier(s) => Tree::Identifier(s.spec_bytes()),
            Expr::RangeLiteral(s) => Tree::RangeLiteral(s.spec_bytes()),
            Expr::BinaryOp(op, l, r) => Tree::BinaryOp(
                op.spec_bytes(),
                Box::new(l.tree()),
                Box::new(r.tree()),
            ),
        }
    }
}

/// In valid UTF-8, a position next to an ASCII byte starts a character.
proof fn lemma_ascii_boundary(b: Seq<u8>, j: int)
    requires
        valid_utf8(b),
        0 <= j <= b.len(),
        j == 0 || j == b.len() || b[j] < 0x80 || b[j - 1] < 0x80,
    ensures
        is_char_boundary(b, j),
    decreases b.len(),
{
    if j > 0 {
        let l = length_of_first_scalar(b);
        let t = pop_first_scalar(b);
        assert(t =~= b.subrange(l, b.len() as int));
        assert(valid_first_scalar(b));
        if j < l {
            assert(is_continuation_byte(b[j]));
            assert(b[j - 1] >= 0x80);
        } else {
            assert(j - l == t.len() || t[j - l] == b[j] || (j - l > 0 && t[j - l - 1] == b[j - 1]));
            reveal_with_fuel(is_char_boundary, 2);
            assert(valid_utf8(t));
            if j > l {
                lemma_ascii_boundary(t, j - l);
            }
        }
    }
}

/// Whether byte `c` is of class `k`.
pub(crate) fn class_has(c: u8, k: Class) -> (r: bool)
    ensures
        r == in_class(c, k),
{
    match k {
        Class::Space => c == 0x20 || c == 0x09 || c == 0x0a || c == 0x0b || c == 0x0c || c == 0x0d,
        Class::Letter => (0x41 <= c && c <= 0x5a) || (0x61 <= c && c <= 0x7a),
        Class::Digit => 0x30 <= c && c <= 0x39,
        Class::Symbol => c == 0x40 || c == 0x23 || c == 0x24 || c == 0x25 || c == 0x5e || c == 0x26
            || c == 0x2a || c == 0x2b || c == 0x2d || c == 0x3c || c == 0x3e || c == 0x2c || c
            == 0x3b || c == 0x3a,
        Class::Body => c != 0x22,
    }
}

/// The length of the run of bytes of class `k` from `p`.
pub(crate) fn scan(b: &[u8], p: usize, k: Class) -> (n: usize)
    requires
        p <= b@.len(),
    ensures
        n == run(b@, p as int, k),
        p + n <= b@.len(),
        forall|i: int| p <= i < p + n ==> in_class(#[trigger] b@[i], k),
        p + n < b@.len() ==> !in_class(b@[p + n], k),
{
    let mut i: usize = p;
    while i < b.len() && class_has(b[i], k)
        invariant
            p <= i <= b@.len(),
            run(b@, p as int, k) == (i - p) + run(b@, i as int, k),
            forall|j: int| p <= j < i ==> in_class(#[trigger] b@[j], k),
        decreases b@.len() - i,
    {
        i = i + 1;
    }
    i - p
}

/// Both sets of reasons.
pub(crate) fn union_of(a: Reasons, b: Reasons) -> (r: Reasons)
    ensures
        r == union(a, b),
{
    Reasons {
        expression: a.expression || b.expression,
        operator: a.operator || b.operator,
        closing_paren: a.closing_paren || b.closing_paren,
        closing_quote: a.closing_quote || b.closing_quote,
        end_of_input: a.end_of_input || b.end_of_input,
        name: a.name || b.name,
        number_too_large: a.number_too_large || b.number_too_large,
    }
}

/// The furthest of two failures; at the same position, both reasons.
pub(crate) fn merge_of(a: Option<Diagnostic>, b: Option<Diagnostic>) -> (r: Option<Diagnostic>)
    ensures
        r == merge(a, b),
{
    match (a, b) {
        (None, _) => b,
        (_, None) => a,
        (Some(x), Some(y)) => if x.start > y.start {
            a
        } else if y.start > x.start {
            b
        } else {
            Some(
                Diagnostic {
                    start: x.start,
                    end: if x.end >= y.end { x.end } else { y.end },
                    reasons: union_of(x.reasons, y.reasons),
                },
            )
        },
    }
}

/// The part of `src` between two byte positions that each touch an ASCII
/// byte (or an end of the text).
pub(crate) fn slice<'a>(src: &'a str, i: usize, j: usize) -> (r: &'a str)
    requires
        i <= j <= src.spec_bytes().len(),
        i == j || src.spec_bytes()[i as int] < 0x80,
        j == src.spec_bytes().len() || src.spec_bytes()[j as int] < 0x80 || (j > 0
            && src.spec_bytes()[j - 1] < 0x80),
    ensures
        r.spec_bytes() == src.spec_bytes().subrange(i as int, j as int),
{
    let ghost b = src.spec_bytes();
    proof {
        encode_utf8_valid_utf8(src@);
        if i < b.len() {
            lemma_ascii_boundary(b, i as int);
        } else {
            is_char_boundary_start_end_of_seq(b);
        }
    }
    let (_, tail) = src.split_at(i);
    proof {
        valid_utf8_split(b, i as int);
        let t = tail.spec_bytes();
        if i == j {
        } else {
            assert(t[0] == b[i as int]);
            if j == b.len() {
            } else if b[j as int] < 0x80 {
                assert(t[j - i] == b[j as int]);
            } else {
                assert(t[j - i - 1] == b[j - 1]);
            }
        }
        lemma_ascii_boundary(t, j - i);
    }
    let (mid, _) = tail.split_at(j - i);
    proof {
        assert(mid.spec_bytes() =~= b.subrange(i as int, j as int));
    }
    mid
}

/// The value of the `k` digits at `q`, when it fits in a `usize`.
fn decimal_of(b: &[u8], q: usize, k: usize) -> (r: Option<usize>)
    requires
        q + k <= b@.len() <= usize::MAX,
        forall|i: int| q <= i < q + k ==> in_class(#[trigger] b@[i], Class::Digit),
    ensures
        match r {
            Some(v) => v == decimal(b@.subrange(q as int, q + k)),
            None => decimal(b@.subrange(q as int, q + k)) > usize::MAX,
        },
{
    let mut acc: usize = 0;
    let mut i: usize = q;
    assert(b@.subrange(q as int, q as int) =~= Seq::<u8>::empty());
    while i < q + k
        invariant
            q <= i <= q + k,
            q + k <= b@.len() <= usize::MAX,
            forall|j: int| q <= j < q + k ==> in_class(#[trigger] b@[j], Class::Digit),
            acc == decimal(b@.subrange(q as int, i as int)),
        decreases q + k - i,
    {
        let d = (b[i] - 0x30) as usize;
        let ghost next = b@.subrange(q as int, i + 1);
        proof {
            assert(next.drop_last() =~= b@.subrange(q as int, i as int));
            assert(in_class(b@[i as int], Class::Digit));
            lemma_decimal_prefix(b@.subrange(q as int, q + k), i + 1 - q);
            assert(b@.subrange(q as int, q + k).subrange(0, i + 1 - q) =~= next);
        }
        match acc.checked_mul(10) {
            None => {
                return None;
            },
            Some(m) => match m.checked_add(d) {
                None => {
                    return None;
                },
                Some(v) => {
                    acc = v;
                },
            },
        }
        i = i + 1;
    }
    assert(b@.subrange(q as int, i as int) =~= b@.subrange(q as int, q + k));
    Some(acc)
}

/// A prefix of a digit sequence is worth no more than the whole.
proof fn lemma_decimal_prefix(s: Seq<u8>, i: int)
    requires
        0 <= i <= s.len(),
    ensures
        decimal(s.subrange(0, i)) <= decimal(s),
    decreases s.len(),
{
    if i < s.len() {
        lemma_decimal_prefix(s.drop_last(), i);
        assert(s.drop_last().subrange(0, i) =~= s.subrange(0, i));
    } else {
        assert(s.subrange(0, i) =~= s);
    }
}

/// What one production gave: an expression and the number of bytes it used,
/// with the furthest failure met on the way; or a failure.
pub(crate) enum Step<'a> {
    Parsed(Expr<'a>, usize, Option<Diagnostic>),
    Failed(Diagnostic),
}

impl<'a> Step<'a> {
    pub(crate) open spec fn outcome(&self) -> Outcome {
        match self {
            Step::Parsed(e, used, alt) => Outcome::Parsed {
                tree: e.tree(),
                used: *used as nat,
                alt: *alt,
            },
            Step::Failed(d) => Outcome::Failed { failure: *d },
        }
    }

    pub(crate) open spec fn used(&self) -> int {
        match self {
            Step::Parsed(_, used, _) => *used as int,
            Step::Failed(_) => 0,
        }
    }
}

/// `o` with the failure `f` met before it.
fn after_step<'a>(f: Option<Diagnostic>, o: Step<'a>) -> (r: Step<'a>)
    ensures
        r.outcome() == after(f, o.outcome()),
        r.used() == o.used(),
{
    match o {
        Step::Parsed(e, used, alt) => Step::Parsed(e, used, merge_of(f, alt)),
        Step::Failed(d) => Step::Failed(merge_of(f, Some(d)).unwrap()),
    }
}

/// No reasons at all.
pub(crate) fn nothing() -> (r: Reasons)
    ensures
        r == no_reasons(),
{
    Reasons {
        expression: false,
        operator: false,
        closing_paren: false,
        closing_quote: false,
        end_of_input: false,
        name: false,
        number_too_large: false,
    }
}

/// The failures remembered at one position, one per alternative.
#[derive(Clone, Copy)]
pub(crate) struct Slots {
    pub(crate) paren: Option<Diagnostic>,
    pub(crate) binary: Option<Diagnostic>,
    pub(crate) range: Option<Diagnostic>,
    pub(crate) text: Option<Diagnostic>,
    pub(crate) identifier: Option<Diagnostic>,
    pub(crate) number: Option<Diagnostic>,
}

impl Slots {
    pub(crate) open spec fn at(&self, a: Alt) -> Option<Diagnostic> {
        match a {
            Alt::Paren => self.paren,
            Alt::Binary => self.binary,
            Alt::Range => self.range,
            Alt::Text => self.text,
            Alt::Identifier => self.identifier,
            Alt::Number => self.number,
        }
    }

    fn empty() -> (r: Slots)
        ensures
            forall|a: Alt| r.at(a) is None,
    {
        Slots { paren: None, binary: None, range: None, text: None, identifier: None, number: None }
    }

    fn get(&self, a: Alt) -> (r: Option<Diagnostic>)
        ensures
            r == self.at(a),
    {
        match a {
            Alt::Paren => self.paren,
            Alt::Binary => self.binary,
            Alt::Range => self.range,
            Alt::Text => self.text,
            Alt::Identifier => self.identifier,
            Alt::Number => self.number,
        }
    }

    fn put(&mut self, a: Alt, d: Diagnostic)
        ensures
            forall|x: Alt| #[trigger] final(self).at(x) == if x == a {
                Some(d)
            } else {
                old(self).at(x)
            },
    {
        match a {
            Alt::Paren => self.paren = Some(d),
            Alt::Binary => self.binary = Some(d),
            Alt::Range => self.range = Some(d),
            Alt::Text => self.text = Some(d),
            Alt::Identifier => self.identifier = Some(d),
            Alt::Number => self.number = Some(d),
        }
    }
}

/// The exec ranks of the recursive alternatives: the binary one reaches its
/// operand at the same position, the others move on or stop.
spec fn alt_rank(a: Alt) -> int {
    if a is Binary {
        6
    } else {
        2
    }
}

/// The state of one parse of one source text: the text and a table of the
/// failures of each alternative at each position, filled as they are met.
/// An empty table remembers nothing.
pub(crate) struct Engine<'a> {
    pub(crate) src: &'a str,
    pub(crate) b: &'a [u8],
    pub(crate) memo: Vec<Slots>,
}

impl<'a> Engine<'a> {
    pub(crate) open spec fn wf(&self) -> bool {
        &&& self.b@ == self.src.spec_bytes()
        &&& self.b@.len() <= usize::MAX
        &&& self.memo@.len() <= self.b@.len()
        &&& forall|q: int, a: Alt|
            0 <= q < self.memo@.len() && (#[trigger] self.memo@[q].at(a)) is Some
                ==> alternative_at(self.b@, a, q) == (Outcome::Failed {
                failure: self.memo@[q].at(a)->Some_0,
            })
    }

    pub(crate) open spec fn same(&self, other: &Engine<'a>) -> bool {
        &&& self.src == other.src
        &&& self.b@ == other.b@
        &&& self.memo@.len() == other.memo@.len()
    }

    pub(crate) fn new(src: &'a str, memoise: bool) -> (r: Engine<'a>)
        ensures
            r.wf(),
            r.src == src,
    {
        let b = src.as_bytes();
        let _n = b.len();
        let mut memo: Vec<Slots> = Vec::new();
        if memoise {
            while memo.len() < b.len()
                invariant
                    memo@.len() <= b@.len(),
                    forall|i: int, a: Alt| 0 <= i < memo@.len() ==> (#[trigger] memo@[i].at(a)) is None,
                decreases b@.len() - memo@.len(),
            {
                memo.push(Slots::empty());
            }
        }
        Engine { src, b, memo }
    }

    /// A failure at `p` for reasons `r`.
    pub(crate) fn fail_here(&self, p: usize, r: Reasons) -> (d: Diagnostic)
        requires
            p <= self.b@.len(),
        ensures
            d == fail_at(self.b@, p as int, r),
    {
        Diagnostic { start: p, end: if p < self.b.len() { p + 1 } else { p }, reasons: r }
    }

    fn no_start(&self, q: usize) -> (r: Step<'a>)
        requires
            q <= self.b@.len(),
        ensures
            r.outcome() == crate::syntax::no_start(self.b@, q as int),
            r.used() == 0,
    {
        Step::Failed(self.fail_here(q, Reasons { expression: true, ..nothing() }))
    }

    fn range(&self, q: usize) -> (r: Step<'a>)
        requires
            self.wf(),
            q <= self.b@.len(),
        ensures
            r.outcome() == range_at(self.b@, q as int),
            q + r.used() <= self.b@.len(),
    {
        let b = self.b;
        if 7 <= b.len() && q <= b.len() - 7 && b[q] == 0x5b && b[q + 1] == 0x31 && b[q + 2] == 0x3b && b[q + 3]
            == 0x31 && b[q + 4] == 0x30 && b[q + 5] == 0x30 && b[q + 6] == 0x5d {
            assert(b@.subrange(q as int, q + 7) =~= range_spelling());
            Step::Parsed(Expr::RangeLiteral(slice(self.src, q, q + 7)), 7, None)
        } else {
            proof {
                if q + 7 <= b@.len() && b@.subrange(q as int, q + 7) == range_spelling() {
                    assert(b@.subrange(q as int, q + 7)[0] == b@[q as int]);
                    assert(b@.subrange(q as int, q + 7)[1] == b@[q + 1]);
                    assert(b@.subrange(q as int, q + 7)[2] == b@[q + 2]);
                    assert(b@.subrange(q as int, q + 7)[3] == b@[q + 3]);
                    assert(b@.subrange(q as int, q + 7)[4] == b@[q + 4]);
                    assert(b@.subrange(q as int, q + 7)[5] == b@[q + 5]);
                    assert(b@.subrange(q as int, q + 7)[6] == b@[q + 6]);
                }
            }
            self.no_start(q)
        }
    }

    fn text(&self, q: usize) -> (r: Step<'a>)
        requires
            self.wf(),
            q <= self.b@.len(),
        ensures
            r.outcome() == text_at(self.b@, q as int),
            q + r.used() <= self.b@.len(),
    {
        let b = self.b;
        if q < b.len() && b[q] == 0x22 {
            let k = scan(b, q + 1, Class::Body);
            if q + 1 + k < b.len() {
                Step::Parsed(Expr::Text(slice(self.src, q, q + k + 2)), k + 2, None)
            } else {
                Step::Failed(self.fail_here(b.len(), Reasons { closing_quote: true, ..nothing() }))
            }
        } else {
            self.no_start(q)
        }
    }

    fn identifier(&self, q: usize) -> (r: Step<'a>)
        requires
            self.wf(),
            q <= self.b@.len(),
        ensures
            r.outcome() == identifier_at(self.b@, q as int),
            q + r.used() <= self.b@.len(),
    {
        let k = scan(self.b, q, Class::Letter);
        if k > 0 {
            Step::Parsed(Expr::Identifier(slice(self.src, q, q + k)), k, None)
        } else {
            self.no_start(q)
        }
    }

    fn number(&self, q: usize) -> (r: Step<'a>)
        requires
            self.wf(),
            q <= self.b@.len(),
        ensures
            r.outcome() == number_at(self.b@, q as int),
            q + r.used() <= self.b@.len(),
    {
        let k = scan(self.b, q, Class::Digit);
        if k == 0 {
            self.no_start(q)
        } else {
            match decimal_of(self.b, q, k) {
                Some(v) => Step::Parsed(Expr::Number(v), k, None),
                None => Step::Failed(
                    Diagnostic {
                        start: q,
                        end: q + k,
                        reasons: Reasons { number_too_large: true, ..nothing() },
                    },
                ),
            }
        }
    }

    /// One alternative at `q`, through the table of remembered failures.
    fn alternative(&mut self, a: Alt, q: usize) -> (r: Step<'a>)
        requires
            old(self).wf(),
            q <= old(self).b@.len(),
        ensures
            final(self).wf(),
            final(self).same(old(self)),
            r.outcome() == alternative_at(old(self).b@, a, q as int),
            q + r.used() <= old(self).b@.len(),
        decreases old(self).b@.len() - q, alt_rank(a),
    {
        if q < self.memo.len() {
            let slots = self.memo[q];
            match slots.get(a) {
                Some(d) => {
                    return Step::Failed(d);
                },
                None => {},
            }
        }
        let r = match a {
            Alt::Paren => self.paren(q),
            Alt::Binary => self.binary(q),
            Alt::Range => self.range(q),
            Alt::Text => self.text(q),
            Alt::Identifier => self.identifier(q),
            Alt::Number => self.number(q),
        };
        match r {
            Step::Failed(d) => {
                if q < self.memo.len() {
                    let mut slots = self.memo[q];
                    slots.put(a, d);
                    self.memo.set(q, slots);
                }
            },
            _ => {},
        }
        r
    }

    /// The literal alternatives at `q`, in order.
    fn literal(&mut self, q: usize) -> (r: Step<'a>)
        requires
            old(self).wf(),
            q <= old(self).b@.len(),
        ensures
            final(self).wf(),
            final(self).same(old(self)),
            r.outcome() == literal_at(old(self).b@, q as int),
            q + r.used() <= old(self).b@.len(),
        decreases old(self).b@.len() - q, 3int,
    {
        let o1 = self.alternative(Alt::Range, q);
        match o1 {
            Step::Parsed(..) => o1,
            Step::Failed(d1) => {
                let o2 = self.alternative(Alt::Text, q);
                match o2 {
                    Step::Parsed(..) => after_step(Some(d1), o2),
                    Step::Failed(d2) => {
                        let o3 = self.alternative(Alt::Identifier, q);
                        match o3 {
                            Step::Parsed(..) => after_step(Some(d1), after_step(Some(d2), o3)),
                            Step::Failed(d3) => {
                                let o4 = self.alternative(Alt::Number, q);
                                after_step(
                                    Some(d1),
                                    after_step(Some(d2), after_step(Some(d3), o4)),
                                )
                            },
                        }
                    },
                }
            },
        }
    }

    /// An expression at `p`, with the whitespace around it.
    pub(crate) fn expression(&mut self, p: usize) -> (r: Step<'a>)
        requires
            old(self).wf(),
            p <= old(self).b@.len(),
        ensures
            final(self).wf(),
            final(self).same(old(self)),
            r.outcome() == expression_at(old(self).b@, p as int),
            p + r.used() <= old(self).b@.len(),
        decreases old(self).b@.len() - p, 8int,
    {
        let w = scan(self.b, p, Class::Space);
        match self.choice(p + w) {
            Step::Parsed(e, used, alt) => {
                let t = scan(self.b, p + w + used, Class::Space);
                Step::Parsed(e, w + used + t, alt)
            },
            o => o,
        }
    }

    /// The alternatives at `q`, in order.
    fn choice(&mut self, q: usize) -> (r: Step<'a>)
        requires
            old(self).wf(),
            q <= old(self).b@.len(),
        ensures
            final(self).wf(),
            final(self).same(old(self)),
            r.outcome() == choice_at(old(self).b@, q as int),
            q + r.used() <= old(self).b@.len(),
        decreases old(self).b@.len() - q, 7int,
    {
        let o1 = self.alternative(Alt::Paren, q);
        match o1 {
            Step::Parsed(..) => o1,
            Step::Failed(d1) => {
                let o2 = self.alternative(Alt::Binary, q);
                match o2 {
                    Step::Parsed(..) => after_step(Some(d1), o2),
                    Step::Failed(d2) => {
                        let o3 = self.literal(q);
                        after_step(Some(d1), after_step(Some(d2), o3))
                    },
                }
            },
        }
    }

    fn paren(&mut self, q: usize) -> (r: Step<'a>)
        requires
            old(self).wf(),
            q <= old(self).b@.len(),
        ensures
            final(self).wf(),
            final(self).same(old(self)),
            r.outcome() == paren_at(old(self).b@, q as int),
            q + r.used() <= old(self).b@.len(),
        decreases old(self).b@.len() - q, 1int,
    {
        if q < self.b.len() && self.b[q] == 0x28 {
            match self.expression(q + 1) {
                Step::Parsed(e, used, alt) => {
                    let m = q + 1 + used;
                    if m < self.b.len() && self.b[m] == 0x29 {
                        Step::Parsed(e, used + 2, alt)
                    } else {
                        let d = self.fail_here(m, Reasons { closing_paren: true, ..nothing() });
                        Step::Failed(merge_of(alt, Some(d)).unwrap())
                    }
                },
                o => o,
            }
        } else {
            self.no_start(q)
        }
    }

    fn operand(&mut self, q: usize) -> (r: Step<'a>)
        requires
            old(self).wf(),
            q <= old(self).b@.len(),
        ensures
            final(self).wf(),
            final(self).same(old(self)),
            r.outcome() == operand_at(old(self).b@, q as int),
            q + r.used() <= old(self).b@.len(),
        decreases old(self).b@.len() - q, 4int,
    {
        let o1 = self.alternative(Alt::Paren, q);
        match o1 {
            Step::Parsed(..) => o1,
            Step::Failed(d1) => {
                let o2 = self.literal(q);
                after_step(Some(d1), o2)
            },
        }
    }

    fn binary(&mut self, q: usize) -> (r: Step<'a>)
        requires
            old(self).wf(),
            q <= old(self).b@.len(),
        ensures
            final(self).wf(),
            final(self).same(old(self)),
            r.outcome() == binary_at(old(self).b@, q as int),
            q + r.used() <= old(self).b@.len(),
        decreases old(self).b@.len() - q, 5int,
    {
        match self.operand(q) {
            Step::Parsed(left, used, alt) => {
                let e1 = q + used;
                let w = scan(self.b, e1, Class::Space);
                let s = e1 + w;
                let k = scan(self.b, s, Class::Symbol);
                if k == 0 {
                    let d = self.fail_here(s, Reasons { operator: true, ..nothing() });
                    Step::Failed(merge_of(alt, Some(d)).unwrap())
                } else {
                    let op = slice(self.src, s, s + k);
                    match self.expression(s + k) {
                        Step::Parsed(right, r, alt2) => Step::Parsed(
                            Expr::BinaryOp(op, Box::new(left), Box::new(right)),
                            s + k + r - q,
                            merge_of(alt, alt2),
                        ),
                        Step::Failed(d) => Step::Failed(merge_of(alt, Some(d)).unwrap()),
                    }
                }
            },
            o => o,
        }
    }
}

/// The result that `parse_expression` gives for `src`, as an exec value.
pub open spec fn expression_result(src: &str, r: Result<Expr, Vec<Diagnostic>>) -> bool {
    match parse_expression(src.spec_bytes()) {
        Ok(t) => r matches Ok(e) && e.tree() == t,
        Err(d) => r matches Err(ds) && ds@ == seq![d],
    }
}

impl<'a> Expr<'a> {
    /// Parses all of `src` as one expression, whitespace around it allowed.
    /// The result is the tree that the grammar gives, or the one diagnostic at
    /// the furthest position where it failed.
    pub fn parse(src: &'a str) -> (r: Result<Expr<'a>, Vec<Diagnostic>>)
        ensures
            expression_result(src, r),
    {
        Self::parse_with(src, true)
    }

    /// `parse`, with or without remembering the failures of alternatives.
    /// The result is the same either way: only the time taken differs.
    pub fn parse_with(src: &'a str, memoise: bool) -> (r: Result<Expr<'a>, Vec<Diagnostic>>)
        ensures
            expression_result(src, r),
    {
        let mut engine = Engine::new(src, memoise);
        let n = engine.b.len();
        match engine.expression(0) {
            Step::Parsed(e, used, alt) => {
                if used == n {
                    Ok(e)
                } else {
                    let d = engine.fail_here(used, Reasons { end_of_input: true, ..nothing() });
                    let mut ds = Vec::new();
                    ds.push(merge_of(alt, Some(d)).unwrap());
                    assert(ds@ =~= seq![ds@[0]]);
                    Err(ds)
                }
            },
            Step::Failed(d) => {
                let mut ds = Vec::new();
                ds.push(d);
                assert(ds@ =~= seq![d]);
                Err(ds)
            },
        }
    }
}

} // verus!
