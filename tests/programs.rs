use hugo::{Expr, HugoIR};

#[test]
fn declarations_build_the_mapping() {
    let (ir, errs) = HugoIR::parse("f 1\ng 2");
    assert!(errs.is_empty());
    let ir = ir.unwrap();
    assert_eq!(ir.len(), 2);
    assert_eq!(ir.get("f"), Some(&Expr::Number(1)));
    assert_eq!(ir.get("g"), Some(&Expr::Number(2)));
    assert_eq!(ir.get("h"), None);
}

#[test]
fn dangling_operator_gives_no_mapping() {
    let (ir, errs) = HugoIR::parse("f 1+\ng 2");
    assert!(ir.is_none());
    assert_eq!(errs.len(), 1);
    let d = errs[0];
    assert_eq!((d.start, d.end), (7, 8));
    assert!(d.reasons.name);
}

#[test]
fn later_declaration_wins() {
    let (ir, errs) = HugoIR::parse("f 1\nf 2");
    assert!(errs.is_empty());
    let ir = ir.unwrap();
    assert_eq!(ir.len(), 1);
    assert_eq!(ir.get("f"), Some(&Expr::Number(2)));
}

#[test]
fn empty_source_is_an_empty_mapping() {
    let (ir, errs) = HugoIR::parse("");
    assert!(errs.is_empty());
    assert_eq!(ir.unwrap().len(), 0);
    let (ir, errs) = HugoIR::parse(" \n\t ");
    assert!(errs.is_empty());
    assert_eq!(ir.unwrap().len(), 0);
}

#[test]
fn surrounding_whitespace_is_trimmed() {
    let (ir, errs) = HugoIR::parse("\n  main  a + \"b\"  \n\n");
    assert!(errs.is_empty());
    let ir = ir.unwrap();
    assert_eq!(
        ir.get("main"),
        Some(&Expr::BinaryOp("+", Box::new(Expr::Identifier("a")), Box::new(Expr::Text("\"b\""))))
    );
}

#[test]
fn missing_name_is_reported() {
    let (ir, errs) = HugoIR::parse("1 2");
    assert!(ir.is_none());
    assert_eq!(errs.len(), 1);
    assert_eq!(errs[0].start, 0);
    assert!(errs[0].reasons.name);
    assert!(errs[0].reasons.end_of_input);
}

#[test]
fn bad_expression_stops_the_file() {
    let (ir, errs) = HugoIR::parse("f (1\ng 2");
    assert!(ir.is_none());
    assert_eq!(errs.len(), 1);
    assert!(errs[0].reasons.closing_paren);
}

#[test]
fn declare_replaces_and_optimise_keeps() {
    let mut ir = HugoIR::new();
    ir.declare("x".to_string(), Expr::Number(1));
    ir.declare("y".to_string(), Expr::Number(2));
    ir.declare("x".to_string(), Expr::Number(3));
    assert_eq!(ir.len(), 2);
    assert_eq!(ir.get("x"), Some(&Expr::Number(3)));
    ir.optimise();
    assert_eq!(ir.get("y"), Some(&Expr::Number(2)));
}
