//! The grammar, stated as spec functions over the bytes of a source text.
//!
//! Every function here describes one production as a PEG: alternatives are
//! tried in order and the first one that succeeds wins. An outcome records,
//! beside the result, the furthest failure met on the way, so that a failed
//! parse can report every expectation at the point where it went wrong.
use vstd::prelude::*;

verus! {

/// Classes of bytes that the grammar reads in runs.
#[derive(Clone, Copy, Debug, PartialEq, Eq)]
pub enum Class {
    /// Space, tab, line feed, vertical tab, form feed, carriage return.
    Space,
    /// ASCII letters.
    Letter,
    /// ASCII decimal digits.
    Digit,
    /// The operator alphabet `@ # $ % ^ & * + - < > , ; :`.
    Symbol,
    /// Anything but a double quote: the body of a string literal.
    Body,
}

pub open spec fn in_class(c: u8, k: Class) -> bool {
    match k {
        Class::Space => c == 0x20 || c == 0x09 || c == 0x0a || c == 0x0b || c == 0x0c || c == 0x0d,
        Class::Letter => (0x41 <= c <= 0x5a) || (0x61 <= c <= 0x7a),
        Class::Digit => 0x30 <= c <= 0x39,
        Class::Symbol => c == 0x40 || c == 0x23 || c == 0x24 || c == 0x25 || c == 0x5e || c == 0x26
            || c == 0x2a || c == 0x2b || c == 0x2d || c == 0x3c || c == 0x3e || c == 0x2c || c
            == 0x3b || c == 0x3a,
        Class::Body => c != 0x22,
    }
}

/// The length of the longest run of bytes of class `k` that starts at `p`.
pub open spec fn run(b: Seq<u8>, p: int, k: Class) -> nat
    decreases b.len() - p,
{
    if 0 <= p < b.len() && in_class(b[p], k) {
        1 + run(b, p + 1, k)
    } else {
        0
    }
}

/// A run never reaches past the end.
pub proof fn lemma_run_bound(b: Seq<u8>, p: int, k: Class)
    requires
        0 <= p <= b.len(),
    ensures
        p + run(b, p, k) <= b.len(),
    decreases b.len() - p,
{
    if p < b.len() && in_class(b[p], k) {
        lemma_run_bound(b, p + 1, k);
    }
}

/// The value of a sequence of decimal digits.
pub open spec fn decimal(d: Seq<u8>) -> nat
    decreases d.len(),
{
    if d.len() == 0 {
        0
    } else {
        decimal(d.drop_last()) * 10 + (d.last() - 0x30) as nat
    }
}

/// The one spelling of a range literal: `[1;100]`.
pub open spec fn range_spelling() -> Seq<u8> {
    seq![0x5bu8, 0x31u8, 0x3bu8, 0x31u8, 0x30u8, 0x30u8, 0x5du8]
}

/// An expression tree, with each literal or name held as the source bytes
/// that spell it.
pub enum Tree {
    Number(nat),
    Text(Seq<u8>),
    Identifier(Seq<u8>),
    RangeLiteral(Seq<u8>),
    BinaryOp(Seq<u8>, Box<Tree>, Box<Tree>),
}

/// What a parser expected, or found wrong, at a position.
#[derive(Clone, Copy, Debug, PartialEq, Eq)]
pub struct Reasons {
    /// An expression could not start here.
    pub expression: bool,
    /// An operator could have continued the expression here.
    pub operator: bool,
    /// A parenthesis was opened and not closed.
    pub closing_paren: bool,
    /// A string literal was opened and not closed.
    pub closing_quote: bool,
    /// The input should have ended here.
    pub end_of_input: bool,
    /// A declaration name should have started here.
    pub name: bool,
    /// A number literal does not fit in a `usize`.
    pub number_too_large: bool,
}

/// A parse error: the byte span `start..end` it is anchored to and what was
/// wrong there.
#[derive(Clone, Copy, Debug, PartialEq, Eq)]
pub struct Diagnostic {
    pub start: usize,
    pub end: usize,
    pub reasons: Reasons,
}

pub open spec fn no_reasons() -> Reasons {
    Reasons {
        expression: false,
        operator: false,
        closing_paren: false,
        closing_quote: false,
        end_of_input: false,
        name: false,
        number_too_large: false,
    }
}

pub open spec fn union(a: Reasons, b: Reasons) -> Reasons {
    Reasons {
        expression: a.expression || b.expression,
        operator: a.operator || b.operator,
        closing_paren: a.closing_paren || b.closing_paren,
        closing_quote: a.closing_quote || b.closing_quote,
        end_of_input: a.end_of_input || b.end_of_input,
        name: a.name || b.name,
        number_too_large: a.number_too_large || b.number_too_large,
    }
}

/// A failure at `p`, spanning the byte found there (none at the end).
pub open spec fn fail_at(b: Seq<u8>, p: int, r: Reasons) -> Diagnostic {
    Diagnostic { start: p as usize, end: (if p < b.len() { p + 1 } else { p }) as usize, reasons: r }
}

/// The furthest of two failures; at the same position, both reasons.
pub open spec fn merge(a: Option<Diagnostic>, b: Option<Diagnostic>) -> Option<Diagnostic> {
    match (a, b) {
        (None, _) => b,
        (_, None) => a,
        (Some(x), Some(y)) => if x.start > y.start {
            a
        } else if y.start > x.start {
            b
        } else {
            Some(
                Diagnostic {
                    start: x.start,
                    end: if x.end >= y.end { x.end } else { y.end },
                    reasons: union(x.reasons, y.reasons),
                },
            )
        },
    }
}

/// The result of one production at one position: a tree and the number of
/// bytes it used, or a failure. `alt` is the furthest failure met in
/// alternatives that were given up on the way to the tree.
pub enum Outcome {
    Parsed { tree: Tree, used: nat, alt: Option<Diagnostic> },
    Failed { failure: Diagnostic },
}

/// Every failure an outcome has met, merged.
pub open spec fn failures(o: Outcome) -> Option<Diagnostic> {
    match o {
        Outcome::Parsed { alt, .. } => alt,
        Outcome::Failed { failure } => Some(failure),
    }
}

/// `o` with the failure `f` met before it.
pub open spec fn after(f: Option<Diagnostic>, o: Outcome) -> Outcome {
    match o {
        Outcome::Parsed { tree, used, alt } => Outcome::Parsed { tree, used, alt: merge(f, alt) },
        Outcome::Failed { failure } => Outcome::Failed {
            failure: merge(f, Some(failure))->Some_0,
        },
    }
}

/// Ordered choice: `o1` if it parsed, else `o2` with the failure of `o1`.
pub open spec fn first(o1: Outcome, o2: Outcome) -> Outcome {
    if o1 is Parsed {
        o1
    } else {
        after(failures(o1), o2)
    }
}

/// The expected-expression failure of an alternative that cannot start at `q`.
pub open spec fn no_start(b: Seq<u8>, q: int) -> Outcome {
    Outcome::Failed { failure: fail_at(b, q, Reasons { expression: true, ..no_reasons() }) }
}

/// The range literal `[1;100]`, spelled exactly.
pub open spec fn range_at(b: Seq<u8>, q: int) -> Outcome {
    if 0 <= q && q + 7 <= b.len() && b.subrange(q, q + 7) == range_spelling() {
        Outcome::Parsed { tree: Tree::RangeLiteral(range_spelling()), used: 7, alt: None }
    } else {
        no_start(b, q)
    }
}

/// A string literal: a quote, any bytes but a quote, a quote. The tree holds
/// the literal with both quotes.
pub open spec fn text_at(b: Seq<u8>, q: int) -> Outcome {
    if 0 <= q < b.len() && b[q] == 0x22 {
        let k = run(b, q + 1, Class::Body);
        if q + 1 + k < b.len() {
            Outcome::Parsed { tree: Tree::Text(b.subrange(q, q + k + 2)), used: k + 2, alt: None }
        } else {
            Outcome::Failed {
                failure: fail_at(b, b.len() as int, Reasons { closing_quote: true, ..no_reasons() }),
            }
        }
    } else {
        no_start(b, q)
    }
}

/// An identifier: one or more ASCII letters.
pub open spec fn identifier_at(b: Seq<u8>, q: int) -> Outcome {
    let k = run(b, q, Class::Letter);
    if k > 0 {
        Outcome::Parsed { tree: Tree::Identifier(b.subrange(q, q + k)), used: k, alt: None }
    } else {
        no_start(b, q)
    }
}

/// A number: one or more decimal digits whose value fits in a `usize`.
pub open spec fn number_at(b: Seq<u8>, q: int) -> Outcome {
    let k = run(b, q, Class::Digit);
    if k == 0 {
        no_start(b, q)
    } else if decimal(b.subrange(q, q + k)) <= usize::MAX {
        Outcome::Parsed { tree: Tree::Number(decimal(b.subrange(q, q + k))), used: k, alt: None }
    } else {
        Outcome::Failed {
            failure: Diagnostic {
                start: q as usize,
                end: (q + k) as usize,
                reasons: Reasons { number_too_large: true, ..no_reasons() },
            },
        }
    }
}

/// The alternatives of an expression.
#[derive(Clone, Copy, Debug, PartialEq, Eq)]
pub enum Alt {
    Paren,
    Binary,
    Range,
    Text,
    Identifier,
    Number,
}

/// The literal alternatives, in order: range, string, identifier, number.
pub open spec fn literal_at(b: Seq<u8>, q: int) -> Outcome {
    first(range_at(b, q), first(text_at(b, q), first(identifier_at(b, q), number_at(b, q))))
}

/// An expression at `p`: whitespace, then the first alternative that parses
/// at the first byte that is not whitespace, then whitespace.
pub open spec fn expression_at(b: Seq<u8>, p: int) -> Outcome
    decreases b.len() - p, 5int,
{
    if 0 <= p <= b.len() {
        let w = run(b, p, Class::Space);
        proof {
            lemma_run_bound(b, p, Class::Space);
        }
        match choice_at(b, p + w) {
            Outcome::Parsed { tree, used, alt } => Outcome::Parsed {
                tree,
                used: w + used + run(b, p + w + used, Class::Space),
                alt,
            },
            o => o,
        }
    } else {
        no_start(b, p)
    }
}

/// The alternatives in order: parenthesised, binary, then the literals.
pub open spec fn choice_at(b: Seq<u8>, q: int) -> Outcome
    decreases b.len() - q, 4int,
{
    first(paren_at(b, q), first(binary_at(b, q), literal_at(b, q)))
}

/// `(` expression `)`.
pub open spec fn paren_at(b: Seq<u8>, q: int) -> Outcome
    decreases b.len() - q, 1int,
{
    if 0 <= q < b.len() && b[q] == 0x28 {
        match expression_at(b, q + 1) {
            Outcome::Parsed { tree, used, alt } => {
                let m = q + 1 + used;
                if m < b.len() && b[m] == 0x29 {
                    Outcome::Parsed { tree, used: used + 2, alt }
                } else {
                    Outcome::Failed {
                        failure: merge(
                            alt,
                            Some(fail_at(b, m, Reasons { closing_paren: true, ..no_reasons() })),
                        )->Some_0,
                    }
                }
            },
            o => o,
        }
    } else {
        no_start(b, q)
    }
}

/// The left operand of a binary operation: an expression that starts at the
/// operation's own position, so every alternative but the binary one.
pub open spec fn operand_at(b: Seq<u8>, q: int) -> Outcome
    decreases b.len() - q, 2int,
{
    first(paren_at(b, q), literal_at(b, q))
}

/// operand, whitespace, one or more operator symbols, expression.
///
/// Operators have no precedence: the right operand is a whole expression, so
/// `a+b*c` groups as `a+(b*c)`. Since the parenthesised alternative comes
/// first, an expression that starts with a group is that group alone:
/// `(a)+b` leaves `+b` unparsed.
pub open spec fn binary_at(b: Seq<u8>, q: int) -> Outcome
    decreases b.len() - q, 3int,
{
    match operand_at(b, q) {
        Outcome::Parsed { tree: left, used, alt } => {
            let s = q + used + run(b, q + used, Class::Space);
            let k = run(b, s, Class::Symbol);
            if k == 0 || s + k > b.len() {
                Outcome::Failed {
                    failure: merge(
                        alt,
                        Some(fail_at(b, s, Reasons { operator: true, ..no_reasons() })),
                    )->Some_0,
                }
            } else {
                match expression_at(b, s + k) {
                    Outcome::Parsed { tree: right, used: r, alt: alt2 } => Outcome::Parsed {
                        tree: Tree::BinaryOp(b.subrange(s, s + k), Box::new(left), Box::new(right)),
                        used: (s + k + r - q) as nat,
                        alt: merge(alt, alt2),
                    },
                    Outcome::Failed { failure } => Outcome::Failed {
                        failure: merge(alt, Some(failure))->Some_0,
                    },
                }
            }
        },
        o => o,
    }
}

/// One alternative at `q`, named.
pub open spec fn alternative_at(b: Seq<u8>, a: Alt, q: int) -> Outcome {
    match a {
        Alt::Paren => paren_at(b, q),
        Alt::Binary => binary_at(b, q),
        Alt::Range => range_at(b, q),
        Alt::Text => text_at(b, q),
        Alt::Identifier => identifier_at(b, q),
        Alt::Number => number_at(b, q),
    }
}

/// What parsing all of `b` as one expression gives: the tree, or the
/// furthest failure, which includes trailing input left over.
pub open spec fn parse_expression(b: Seq<u8>) -> Result<Tree, Diagnostic> {
    match expression_at(b, 0) {
        Outcome::Parsed { tree, used, alt } => if used == b.len() {
            Ok(tree)
        } else {
            Err(
                merge(
                    alt,
                    Some(fail_at(b, used as int, Reasons { end_of_input: true, ..no_reasons() })),
                )->Some_0,
            )
        },
        Outcome::Failed { failure } => Err(failure),
    }
}

/// What the declarations from a position on give: each name with its tree,
/// in order, and the furthest failure met; or the failure that stopped them.
pub enum Units {
    Done { decls: Seq<(Seq<u8>, Tree)>, alt: Option<Diagnostic> },
    Stuck { failure: Diagnostic },
}

/// The declarations from `p` to the end: a name of ASCII letters, then an
/// expression, again and again. A declaration that fails stops them all.
pub open spec fn units_at(b: Seq<u8>, p: int) -> Units
    decreases if p < b.len() { b.len() - p } else { 0 },
{
    if p < 0 || p >= b.len() {
        Units::Done { decls: seq![], alt: None }
    } else {
        let k = run(b, p, Class::Letter);
        let stop = fail_at(b, p, Reasons { end_of_input: true, ..no_reasons() });
        if k == 0 {
            Units::Stuck {
                failure: merge(
                    Some(fail_at(b, p, Reasons { name: true, ..no_reasons() })),
                    Some(stop),
                )->Some_0,
            }
        } else {
            match expression_at(b, p + k) {
                Outcome::Failed { failure } => Units::Stuck {
                    failure: merge(Some(failure), Some(stop))->Some_0,
                },
                Outcome::Parsed { tree, used, alt } => join(
                    seq![(b.subrange(p, p + k), tree)],
                    alt,
                    units_at(b, p + k + used),
                ),
            }
        }
    }
}

/// Declarations `ds` with failure `a`, followed by `u`.
pub open spec fn join(ds: Seq<(Seq<u8>, Tree)>, a: Option<Diagnostic>, u: Units) -> Units {
    match u {
        Units::Done { decls, alt } => Units::Done { decls: ds + decls, alt: merge(a, alt) },
        Units::Stuck { failure } => Units::Stuck { failure: merge(a, Some(failure))->Some_0 },
    }
}

/// A whole source file: leading whitespace, then declarations to the end.
pub open spec fn program(b: Seq<u8>) -> Units {
    units_at(b, run(b, 0, Class::Space) as int)
}

/// The mapping that declarations make: a later one of a name replaces an
/// earlier one.
pub open spec fn decl_map(ds: Seq<(Seq<u8>, Tree)>) -> Map<Seq<u8>, Tree>
    decreases ds.len(),
{
    if ds.len() == 0 {
        Map::empty()
    } else {
        decl_map(ds.drop_last()).insert(ds.last().0, ds.last().1)
    }
}

/// Failures may be merged in any grouping.
pub proof fn lemma_merge_assoc(a: Option<Diagnostic>, b: Option<Diagnostic>, c: Option<Diagnostic>)
    ensures
        merge(merge(a, b), c) == merge(a, merge(b, c)),
{
}

/// Joining twice is joining once with both.
pub proof fn lemma_join_join(
    d1: Seq<(Seq<u8>, Tree)>,
    a1: Option<Diagnostic>,
    d2: Seq<(Seq<u8>, Tree)>,
    a2: Option<Diagnostic>,
    u: Units,
)
    ensures
        join(d1, a1, join(d2, a2, u)) == join(d1 + d2, merge(a1, a2), u),
{
    lemma_merge_assoc(a1, a2, failures_of(u));
    match u {
        Units::Done { decls, alt } => {
            assert(d1 + (d2 + decls) =~= (d1 + d2) + decls);
        },
        Units::Stuck { failure } => {},
    }
}

pub open spec fn failures_of(u: Units) -> Option<Diagnostic> {
    match u {
        Units::Done { alt, .. } => alt,
        Units::Stuck { failure } => Some(failure),
    }
}

/// A run of class `k` from `p` that stops at `j` has length `j - p`.
pub proof fn lemma_run_exact(b: Seq<u8>, p: int, j: int, k: Class)
    requires
        0 <= p <= j <= b.len(),
        forall|i: int| p <= i < j ==> in_class(#[trigger] b[i], k),
        j == b.len() || !in_class(b[j], k),
    ensures
        run(b, p, k) == j - p,
    decreases j - p,
{
    if p < j {
        lemma_run_exact(b, p + 1, j, k);
    }
}

/// A literal that starts with a byte that opens no other alternative, and
/// that nothing follows, parses as itself.
proof fn lemma_lone_literal(b: Seq<u8>, lit: Outcome)
    requires
        b.len() > 0,
        b[0] != 0x28 && b[0] != 0x5b,
        !in_class(b[0], Class::Space),
        lit == literal_at(b, 0),
        lit matches Outcome::Parsed { used, .. } && used == b.len(),
    ensures
        parse_expression(b) == Ok::<Tree, Diagnostic>(lit->tree),
{
    lemma_run_exact(b, 0, 0, Class::Space);
    lemma_run_exact(b, b.len() as int, b.len() as int, Class::Space);
    lemma_run_exact(b, b.len() as int, b.len() as int, Class::Symbol);
    assert(paren_at(b, 0) is Failed);
    assert(operand_at(b, 0) == after(failures(paren_at(b, 0)), lit));
    assert(binary_at(b, 0) is Failed);
    assert(choice_at(b, 0) is Parsed);
    assert(expression_at(b, 0) is Parsed);
}

/// A sequence of decimal digits whose value fits in a `usize` parses to the
/// number it spells.
pub proof fn lemma_number_round_trip(d: Seq<u8>)
    requires
        d.len() > 0,
        forall|i: int| 0 <= i < d.len() ==> in_class(#[trigger] d[i], Class::Digit),
        decimal(d) <= usize::MAX,
    ensures
        parse_expression(d) == Ok::<Tree, Diagnostic>(Tree::Number(decimal(d))),
{
    lemma_run_exact(d, 0, 0, Class::Letter);
    lemma_run_exact(d, 0, d.len() as int, Class::Digit);
    assert(d.subrange(0, d.len() as int) =~= d);
    if 7 <= d.len() && d.subrange(0, 7) == range_spelling() {
        assert(d.subrange(0, 7)[0] == d[0]);
    }
    assert(range_at(d, 0) is Failed);
    assert(number_at(d, 0) is Parsed);
    lemma_lone_literal(d, literal_at(d, 0));
}

/// A double quote, bytes that hold no double quote, and a double quote parse
/// to a string literal that holds all of them.
pub proof fn lemma_quoted_text(s: Seq<u8>)
    requires
        forall|i: int| 0 <= i < s.len() ==> #[trigger] s[i] != 0x22,
    ensures
        parse_expression(seq![0x22u8] + s + seq![0x22u8]) == Ok::<Tree, Diagnostic>(
            Tree::Text(seq![0x22u8] + s + seq![0x22u8]),
        ),
{
    let b = seq![0x22u8] + s + seq![0x22u8];
    assert forall|i: int| 1 <= i < 1 + s.len() implies in_class(#[trigger] b[i], Class::Body) by {
        assert(b[i] == s[i - 1]);
    }
    lemma_run_exact(b, 1, 1 + s.len() as int, Class::Body);
    assert(b.subrange(0, s.len() as int + 2) =~= b);
    if 7 <= b.len() && b.subrange(0, 7) == range_spelling() {
        assert(b.subrange(0, 7)[0] == b[0]);
    }
    assert(range_at(b, 0) is Failed);
    assert(text_at(b, 0) is Parsed);
    lemma_lone_literal(b, literal_at(b, 0));
}

} // verus!
