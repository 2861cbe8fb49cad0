use countdown::expr::{eval, Expr, Op};

#[test]
fn read_good_op() {
    let res = Op::try_from('+');

    assert_eq!(res, Ok(Op::Add));
}

#[test]
fn read_bad_op() {
    let res = Op::try_from('~');

    assert!(res.is_err());
}

#[test]
fn simple_val() {
    let expr = Expr::new_val(10);

    let result = eval(&expr);
    println!("expr: {} = {:?}", expr.to_text(), result);

    assert_eq!(result, Some(10));
}

#[test]
fn simple_add() {
    // NOTE: Must be a 'valid' expression (optimisation)
    let expr = Expr::new_expr(Op::Add, Expr::new_val(10), Expr::new_val(15));

    let result = eval(&expr);
    println!("expr: {} = {:?}", expr.to_text(), result);

    assert_eq!(result, Some(25));
}

#[test]
fn nested_expr() {
    // NOTE: Must be a 'valid' expression (optimisation)
    let expr = Expr::new_expr(
        Op::Mul,
        Expr::new_expr(
            Op::Sub,
            Expr::new_expr(Op::Add, Expr::new_val(4), Expr::new_val(29)),
            Expr::new_expr(Op::Div, Expr::new_val(100), Expr::new_val(5)),
        ),
        Expr::new_val(30),
    );

    let result = eval(&expr);
    println!("expr: {} = {:?}", expr.to_text(), result);

    assert_eq!(result, Some(390));
}

#[test]
fn expr_eq_add_vals() {
    let e1 = Expr::new_expr(Op::Add, Expr::new_val(10), Expr::Val(100));
    let e2 = Expr::new_expr(Op::Add, Expr::new_val(100), Expr::Val(10));

    assert_eq!(e1, e2);
}

#[test]
fn expr_eq_mul_vals() {
    let e1 = Expr::new_expr(Op::Mul, Expr::new_val(10), Expr::Val(100));
    let e2 = Expr::new_expr(Op::Mul, Expr::new_val(100), Expr::Val(10));

    assert_eq!(e1, e2);
}

#[test]
fn expr_ne_sub_vals() {
    let e1 = Expr::new_expr(Op::Sub, Expr::new_val(10), Expr::Val(100));
    let e2 = Expr::new_expr(Op::Sub, Expr::new_val(100), Expr::Val(10));

    assert_ne!(e1, e2);
}

#[test]
fn expr_ne_div_vals() {
    let e1 = Expr::new_expr(Op::Div, Expr::new_val(10), Expr::Val(100));
    let e2 = Expr::new_expr(Op::Div, Expr::new_val(100), Expr::Val(10));

    assert_ne!(e1, e2);
}

#[test]
fn expr_eq_add_expr() {
    let e1 = Expr::new_expr(
        Op::Add,
        Expr::new_val(10),
        Expr::new_expr(
            Op::Mul,
            Expr::new_val(10),
            Expr::new_expr(Op::Mul, Expr::new_val(10), Expr::new_val(3)),
        ),
    );
    let e2 = Expr::new_expr(
        Op::Add,
        Expr::new_expr(
            Op::Mul,
            Expr::new_expr(Op::Mul, Expr::new_val(10), Expr::new_val(3)),
            Expr::new_val(10),
        ),
        Expr::new_val(10),
    );

    assert_eq!(e1, e2);
    assert_eq!(eval(&e1), eval(&e2));

    println!("{} == {} ?", e1.to_text(), e2.to_text());

    assert!(!std::ptr::eq(&e1, &e2));
}

#[test]
fn expr_eq_add_3vals() {
    // NOTE: Must be a 'valid' expressions (optimisation)
    let e1 = Expr::new_expr(
        Op::Add,
        Expr::new_val(2),
        Expr::new_expr(Op::Add, Expr::new_val(3), Expr::new_val(5)),
    );
    let e2 = Expr::new_expr(
        Op::Add,
        Expr::new_expr(Op::Add, Expr::new_val(2), Expr::new_val(3)),
        Expr::new_val(5),
    );

    assert_eq!(e1, e2);
    assert_eq!(eval(&e1), eval(&e2));

    println!("{} == {} ?", e1.to_text(), e2.to_text());

    assert!(!std::ptr::eq(&e1, &e2));
}

#[test]
fn expr_eq_mul_4vals() {
    // NOTE: Must be a 'valid' expressions (optimisation)
    let e1 = Expr::new_expr(
        Op::Mul,
        Expr::new_expr(Op::Mul, Expr::new_val(3), Expr::new_val(10)),
        Expr::new_expr(Op::Mul, Expr::new_val(2), Expr::new_val(15)),
    );
    let e2 = Expr::new_expr(
        Op::Mul,
        Expr::new_expr(Op::Mul, Expr::new_val(2), Expr::new_val(15)),
        Expr::new_expr(Op::Mul, Expr::new_val(3), Expr::new_val(10)),
    );

    assert_eq!(e1, e2);
    assert_eq!(eval(&e1), eval(&e2));

    println!("{} == {} ?", e1.to_text(), e2.to_text());

    assert!(!std::ptr::eq(&e1, &e2));
}

#[test]
fn eval_exp() {
    let expr = Expr::new_expr(Op::Exp, Expr::new_val(4), Expr::new_val(5));

    let res = eval(&expr);

    assert_eq!(Some(1024), res);
}
