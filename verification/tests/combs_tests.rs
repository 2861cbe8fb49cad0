use countdown::combinatorics::{interleave, perms, split, subs};
use countdown::expr::{eval, std_ops, Expr, Op};
use countdown::solver::{combine, exprs, solutions, solutions2};
use itertools::Itertools;

#[test]
fn combs_empty() {
    let res = subs::<usize>(&[]);
    assert_eq!(res, vec![vec![]]);
}

#[test]
fn combs_three() {
    let res = subs(&[1, 2, 3]);

    assert_eq!(
        res,
        vec![
            vec![],
            vec![3],
            vec![2],
            vec![2, 3],
            vec![1],
            vec![1, 3],
            vec![1, 2],
            vec![1, 2, 3]
        ]
    );
}

#[test]
fn combs_three_gen_exp() {
    let res = subs(&[1, 2, 3]).into_iter().sorted().collect::<Vec<_>>();
    let exp = (1..4).powerset().sorted().collect::<Vec<_>>();

    assert_eq!(res, exp);
}

#[test]
fn combs_interleave_one() {
    let res = interleave(3, &[1, 2, 4]);

    println!("res: {:?}", res);
}

#[test]
fn combs_perms_three() {
    let res = perms(&[1, 2, 3]);

    println!("res: {:?}", res);
}

#[test]
fn combs_split_empty() {
    let res = split::<usize>(&[]);
    let exp = Vec::<(Vec<usize>, Vec<usize>)>::new();

    assert_eq!(res, exp);
}

#[test]
fn combs_split_single() {
    let res = split::<usize>(&[1]);
    let exp = Vec::<(Vec<usize>, Vec<usize>)>::new();

    assert_eq!(res, exp);
}

#[test]
fn combs_split_two() {
    let res = split::<usize>(&[1, 2]);
    let mut exp = Vec::<(Vec<usize>, Vec<usize>)>::new();
    exp.push((vec![1], vec![2]));

    assert_eq!(res, exp);
}

#[test]
fn combs_split_three() {
    let res = split::<usize>(&[1, 2, 3]);
    let mut exp = Vec::<(Vec<usize>, Vec<usize>)>::new();
    exp.push((vec![1], vec![2, 3]));
    exp.push((vec![1, 2], vec![3]));

    assert_eq!(res, exp);
}

#[test]
fn combs_combine_vals() {
    let res = combine(Expr::new_val(0), Expr::new_val(1));
    let mut exp = Vec::<Expr>::new();
    exp.push(Expr::new_expr(Op::Add, Expr::new_val(0), Expr::new_val(1)));
    exp.push(Expr::new_expr(Op::Sub, Expr::new_val(0), Expr::new_val(1)));
    exp.push(Expr::new_expr(Op::Mul, Expr::new_val(0), Expr::new_val(1)));
    exp.push(Expr::new_expr(Op::Div, Expr::new_val(0), Expr::new_val(1)));

    assert_eq!(res, exp);
}

#[test]
fn combs_exprs_two() {
    let res = exprs(&[1, 2]);

    res.iter().for_each(|ex| println!("ex: {}", ex.to_text()));
}

#[test]
fn combs_exprs_three() {
    let input = [1, 2, 3];
    let res = exprs(&input);

    res.iter()
        .for_each(|ex| println!("ex: {} = {:?}", ex.to_text(), eval(&ex)));

    println!("{} expressions from {input:?}", res.len());
}

#[test]
fn combs_exprs_four() {
    let input = [1, 2, 3, 4];
    let res = exprs(&input);

    res.iter()
        .for_each(|ex| println!("ex: {} = {:?}", ex.to_text(), eval(&ex)));

    println!("{} expressions from {input:?}", res.len());
}

#[test]
fn combs_exprs_three_make_6() {
    let input = [1, 2, 3];

    const TARGET: i32 = 6;

    let solns = solutions(&input, TARGET);

    println!(
        "{} solutions to make {} from {:?} - {} checked",
        solns.0.len(),
        TARGET,
        input,
        solns.1
    );

    solns.0.iter().for_each(|s| {
        println!("ex: {} = {TARGET}", s.to_text());
    });
}

#[test]
fn combs_want_608() {
    // Using the unpruned brute-force variant, this test takes too long!
    if false {
        const TARGET: i32 = 608;

        let input = [50, 25, 75, 100, 4, 1];

        let solns = solutions(&input, TARGET);

        println!(
            "{} solutions to make {} from {:?} - {} checked",
            solns.0.len(),
            TARGET,
            input,
            solns.1
        );

        solns.0.iter().for_each(|s| {
            println!("ex: {} = {TARGET}", s.to_text());
        });
    }
}

#[test]
fn combs_want_608_v2() {
    const TARGET: i32 = 608;

    let input = [50, 25, 75, 100, 4, 1];

    let solns = solutions2(&input, TARGET, &std_ops());

    println!(
        "{} solutions to make {} from {:?} - {} checked",
        solns.0.len(),
        TARGET,
        input,
        solns.1
    );

    solns.0.iter().for_each(|s| {
        println!("ex: {} = {}", s.0.to_text(), s.1);
    });
}
