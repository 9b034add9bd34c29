use csc_7b_fc::expr::{compile, eval, lex, parse, Expr, Instr};

fn value_of(text: &str) -> Option<i32> {
    parse(&lex(text)).and_then(|e| eval(&e))
}

#[test]
fn lex_numbers_symbols_and_spaces() {
    let t = lex("3*20 -  9%2");
    assert_eq!(t.len(), 8);
    assert!(matches!(t[0], Expr::Val(3)));
    assert!(matches!(t[1], Expr::Sym('*')));
    assert!(matches!(t[2], Expr::Val(20)));
    assert!(matches!(t[3], Expr::Sym('-')));
    assert!(matches!(t[4], Expr::Val(9)));
    assert!(matches!(t[5], Expr::Sym('%')));
    assert!(matches!(t[6], Expr::Val(2)));
    assert!(matches!(t[7], Expr::EOF));
}

#[test]
fn lex_empty_and_trailing_number() {
    let t = lex("");
    assert_eq!(t.len(), 1);
    assert!(matches!(t[0], Expr::EOF));
    let t = lex("(12)7");
    assert_eq!(t.len(), 5);
    assert!(matches!(t[1], Expr::Val(12)));
    assert!(matches!(t[3], Expr::Val(7)));
}

#[test]
fn parse_and_evaluate() {
    assert_eq!(value_of("2+3*4"), Some(14));
    assert_eq!(value_of("3*20-9%2"), Some(59));
    assert_eq!(value_of("(1+2)*3"), Some(9));
    assert_eq!(value_of("10-4-3"), Some(3));
    assert_eq!(value_of("-(2+3)"), Some(-5));
    assert_eq!(value_of("7/0"), None);
    assert_eq!(value_of("42"), Some(42));
}

#[test]
fn parse_failures() {
    assert!(parse(&lex("2+")).is_none());
    assert!(parse(&lex("")).is_none());
}

#[test]
fn compile_negations_and_values() {
    let e = parse(&lex("-3")).unwrap();
    assert_eq!(
        compile(&e),
        vec![
            Instr::PushVal(3),
            Instr::PushZero,
            Instr::PopBx,
            Instr::PopAx,
            Instr::SubAxBx,
            Instr::PushBx
        ]
    );
    assert_eq!(compile(&Expr::Val(8)), vec![Instr::PushVal(8)]);
    let sum = parse(&lex("1+2")).unwrap();
    assert_eq!(compile(&sum), vec![Instr::Failed]);
}

#[test]
fn show_expressions() {
    assert_eq!(parse(&lex("2+3*4")).unwrap().show(), "(2+3*4)");
    assert_eq!(parse(&lex("(1-2)/3%4")).unwrap().show(), "(1-2)/3%4");
    assert_eq!(Expr::Neg(Box::new(Expr::Val(7))).show(), "-7");
    assert_eq!(Expr::Neg(Box::new(Expr::Neg(Box::new(Expr::Val(7))))).show(), "7");
    assert_eq!(Expr::Val(-120).show(), "-120");
    assert_eq!(Expr::Val(i32::MIN).show(), "-2147483648");
    assert_eq!(Expr::Val(0).show(), "0");
    assert_eq!(Expr::Sym('+').show(), " + ");
    assert_eq!(Expr::EOF.show(), " EOF ");
    assert_eq!(Expr::Dummy.show(), " Dummy ");
}
