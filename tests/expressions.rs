use hugo::{Diagnostic, Expr};

fn ident(s: &str) -> Expr<'_> {
    Expr::Identifier(s)
}

fn op<'a>(o: &'a str, l: Expr<'a>, r: Expr<'a>) -> Expr<'a> {
    Expr::BinaryOp(o, Box::new(l), Box::new(r))
}

fn only_error(r: Result<Expr<'_>, Vec<Diagnostic>>) -> Diagnostic {
    match r {
        Ok(e) => panic!("parsed unexpectedly: {:?}", e),
        Err(ds) => {
            assert_eq!(ds.len(), 1);
            ds[0]
        }
    }
}

#[test]
fn number_round_trips() {
    assert_eq!(Expr::parse("42"), Ok(Expr::Number(42)));
    assert_eq!(Expr::parse("0"), Ok(Expr::Number(0)));
    assert_eq!(Expr::parse("007"), Ok(Expr::Number(7)));
}

#[test]
fn largest_number_fits() {
    let s = usize::MAX.to_string();
    assert_eq!(Expr::parse(&s), Ok(Expr::Number(usize::MAX)));
}

#[test]
fn number_too_large_is_reported() {
    let s = format!("{}0", usize::MAX);
    let d = only_error(Expr::parse(&s));
    assert!(d.reasons.number_too_large);
    assert_eq!((d.start, d.end), (0, s.len()));
}

#[test]
fn quoted_text_keeps_its_quotes() {
    assert_eq!(Expr::parse("\"hello world\""), Ok(Expr::Text("\"hello world\"")));
    assert_eq!(Expr::parse("\"\""), Ok(Expr::Text("\"\"")));
    assert_eq!(Expr::parse("\"h\u{e9}+(\""), Ok(Expr::Text("\"h\u{e9}+(\"")));
}

#[test]
fn unterminated_string_is_reported() {
    let d = only_error(Expr::parse("\"abc"));
    assert!(d.reasons.closing_quote);
    assert_eq!((d.start, d.end), (4, 4));
}

#[test]
fn parentheses_are_transparent() {
    assert_eq!(Expr::parse("(((1)))"), Expr::parse("1"));
    assert_eq!(Expr::parse("(((1)))"), Ok(Expr::Number(1)));
}

#[test]
fn unclosed_parenthesis_is_reported() {
    let d = only_error(Expr::parse("(1"));
    assert!(d.reasons.closing_paren);
    assert!(d.reasons.operator);
    assert_eq!((d.start, d.end), (2, 2));
}

#[test]
fn binary_operations() {
    assert_eq!(Expr::parse("a+b"), Ok(op("+", ident("a"), ident("b"))));
    assert_eq!(Expr::parse("a+-b"), Ok(op("+-", ident("a"), ident("b"))));
}

#[test]
fn operators_group_to_the_right() {
    assert_eq!(
        Expr::parse("a+b*c"),
        Ok(op("+", ident("a"), op("*", ident("b"), ident("c"))))
    );
    assert_eq!(
        Expr::parse("1<<\"x\",[1;100]"),
        Ok(op("<<", Expr::Number(1), op(",", Expr::Text("\"x\""), Expr::RangeLiteral("[1;100]"))))
    );
}

#[test]
fn parenthesised_group_is_tried_first() {
    let d = only_error(Expr::parse("(a)+b"));
    assert!(d.reasons.end_of_input);
    assert_eq!(d.start, 3);
    assert_eq!(Expr::parse("a+(b)"), Ok(op("+", ident("a"), ident("b"))));
}

#[test]
fn range_literal_has_one_spelling() {
    assert_eq!(Expr::parse("[1;100]"), Ok(Expr::RangeLiteral("[1;100]")));
    let d = only_error(Expr::parse("[1;101]"));
    assert!(d.reasons.expression);
    assert_eq!((d.start, d.end), (0, 1));
}

#[test]
fn whitespace_is_insignificant() {
    assert_eq!(Expr::parse("  a  +  b  "), Expr::parse("a+b"));
    assert_eq!(Expr::parse("\t( 1 )\n"), Ok(Expr::Number(1)));
}

#[test]
fn empty_input_expects_an_expression() {
    let d = only_error(Expr::parse(""));
    assert!(d.reasons.expression);
    assert_eq!((d.start, d.end), (0, 0));
}

#[test]
fn dangling_operator_is_reported() {
    let d = only_error(Expr::parse("a+"));
    assert!(d.reasons.expression);
    assert_eq!(d.start, 2);
}

#[test]
fn memoisation_is_transparent() {
    let inputs = [
        "a+b",
        "(((1)))",
        "((((((((((((a",
        "(1",
        "a + (b) * \"c\"",
        "[1;101]",
        "x+y+",
        "12345678901234567890123",
        "",
    ];
    for s in inputs {
        assert_eq!(Expr::parse_with(s, true), Expr::parse_with(s, false));
        assert_eq!(Expr::parse(s), Expr::parse_with(s, false));
    }
}
