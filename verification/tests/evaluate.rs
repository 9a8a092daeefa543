use arith_expr::{evaluate, Expr};

fn num(v: i32) -> Box<Expr> {
    Box::new(Expr::Number(v))
}

#[test]
fn evaluate_number_is_itself() {
    assert_eq!(evaluate(&Expr::Number(0)), 0);
    assert_eq!(evaluate(&Expr::Number(-17)), -17);
    assert_eq!(evaluate(&Expr::Number(i32::MAX)), i32::MAX);
    assert_eq!(evaluate(&Expr::Number(i32::MIN)), i32::MIN);
}

#[test]
fn evaluate_add_and_subtract() {
    assert_eq!(evaluate(&Expr::Add(num(40), num(2))), 42);
    assert_eq!(evaluate(&Expr::Sub(num(40), num(2))), 38);
    assert_eq!(evaluate(&Expr::Sub(num(2), num(40))), -38);
}

#[test]
fn evaluate_nested_tree() {
    let tree = Expr::Sub(
        Box::new(Expr::Add(num(10), Box::new(Expr::Sub(num(3), num(5))))),
        Box::new(Expr::Add(num(1), num(1))),
    );
    assert_eq!(evaluate(&tree), 6);
}

#[test]
fn evaluate_wraps_around_at_32_bits() {
    assert_eq!(evaluate(&Expr::Add(num(i32::MAX), num(1))), i32::MIN);
    assert_eq!(evaluate(&Expr::Sub(num(i32::MIN), num(1))), i32::MAX);
    assert_eq!(evaluate(&Expr::Add(num(i32::MAX), num(i32::MAX))), -2);
    assert_eq!(evaluate(&Expr::Sub(num(0), num(i32::MIN))), i32::MIN);
}

#[test]
fn evaluate_is_exact_when_only_an_intermediate_overflows() {
    let tree = Expr::Sub(Box::new(Expr::Add(num(i32::MAX), num(5))), num(10));
    assert_eq!(evaluate(&tree), i32::MAX - 5);
}
