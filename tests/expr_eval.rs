use csc_7b_fc::expr::{eval, proper, Expr};

fn b(e: Expr) -> Box<Expr> {
    Box::new(e)
}

#[test]
fn eval_arithmetic() {
    // 2 + 3 * 4
    let e = Expr::Plus(b(Expr::Val(2)), b(Expr::Times(b(Expr::Val(3)), b(Expr::Val(4)))));
    assert_eq!(eval(&e), Some(14));
    assert_eq!(e.eval_to(), Some(14));
    // 5 - 3
    assert_eq!(eval(&Expr::Minus(b(Expr::Val(5)), b(Expr::Val(3)))), Some(2));
    // -7 / 2 truncates toward zero, -7 % 2 keeps the sign of the dividend
    assert_eq!(eval(&Expr::Divide(b(Expr::Val(-7)), b(Expr::Val(2)))), Some(-3));
    assert_eq!(eval(&Expr::Mod(b(Expr::Val(-7)), b(Expr::Val(2)))), Some(-1));
    assert_eq!(eval(&Expr::Neg(b(Expr::Val(9)))), Some(-9));
}

#[test]
fn eval_failures() {
    assert_eq!(eval(&Expr::Divide(b(Expr::Val(1)), b(Expr::Val(0)))), None);
    assert_eq!(eval(&Expr::Mod(b(Expr::Val(1)), b(Expr::Val(0)))), None);
    assert_eq!(eval(&Expr::Plus(b(Expr::Val(i32::MAX)), b(Expr::Val(1)))), None);
    assert_eq!(eval(&Expr::Sym('+')), None);
    assert_eq!(eval(&Expr::Plus(b(Expr::EOF), b(Expr::Val(1)))), None);
}

#[test]
fn token_predicates() {
    assert!(Expr::Val(3).is_token());
    assert!(Expr::Sym('*').is_token());
    assert!(!Expr::Neg(b(Expr::Val(1))).is_token());
    assert!(proper(&Expr::Val(3)));
    assert!(!proper(&Expr::EOF));
    assert!(matches!(Expr::Sym('(').clone_token(), Expr::Sym('(')));
    assert!(matches!(Expr::Val(4).clone_token(), Expr::Val(4)));
    assert!(matches!(Expr::Neg(b(Expr::Val(1))).clone_token(), Expr::Dummy));
}
