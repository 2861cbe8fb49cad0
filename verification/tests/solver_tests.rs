use countdown::combinatorics::choices;
use countdown::expr::{eval, Expr, Op};
use countdown::solver::{combine, dedup, exprs, results, solutions, solutions2, Evaluated};

#[test]
fn solver_v1_combine_vals() {
    let res = combine(Expr::new_val(0), Expr::new_val(1));
    let mut exp = Vec::<Expr>::new();
    exp.push(Expr::new_expr(Op::Add, Expr::new_val(0), Expr::new_val(1)));
    exp.push(Expr::new_expr(Op::Sub, Expr::new_val(0), Expr::new_val(1)));
    exp.push(Expr::new_expr(Op::Mul, Expr::new_val(0), Expr::new_val(1)));
    exp.push(Expr::new_expr(Op::Div, Expr::new_val(0), Expr::new_val(1)));

    assert_eq!(res, exp);
}

#[test]
fn solver_v1_exprs_two() {
    let res = exprs(&[1, 2]);

    res.iter().for_each(|ex| println!("ex: {}", ex.to_text()));
}

#[test]
fn solver_v1_exprs_three() {
    let input = [1, 2, 3];
    let res = exprs(&input);

    res.iter()
        .for_each(|ex| println!("ex: {} = {:?}", ex.to_text(), eval(&ex)));

    println!("{} expressions from {input:?}", res.len());
}

#[test]
fn solver_v1_exprs_four() {
    let input = [1, 2, 3, 4];
    let res = exprs(&input);

    res.iter()
        .for_each(|ex| println!("ex: {} = {:?}", ex.to_text(), eval(&ex)));

    println!("{} expressions from {input:?}", res.len());
}

#[test]
fn solver_v1_exprs_three_make_6() {
    let input = [1, 2, 3];

    const TARGET: i32 = 6;

    let solns = solutions(&input, TARGET);

    println!(
        "{} solutions to make {} from {:?} - {} checked",
        solns.0.len(),
        TARGET,
        input,
        solns.1
    );

    solns.0.iter().for_each(|s| {
        println!("ex: {} = {TARGET}", s.to_text());
    });
}

#[test]
fn solver_v1_want_608() {
    // Using the unpruned brute-force variant, this test takes too long!
    if false {
        const TARGET: i32 = 608;

        let input = [50, 25, 75, 100, 4, 1];

        let solns = solutions(&input, TARGET);

        println!(
            "{} solutions to make {} from {:?} - {} checked",
            solns.0.len(),
            TARGET,
            input,
            solns.1
        );

        solns.0.iter().for_each(|s| {
            println!("ex: {} = {TARGET}", s.to_text());
        });
    }
}

#[test]
fn solver_v2_want_608_v2() {
    const TARGET: i32 = 608;

    let input = [50, 25, 75, 100, 4, 1];

    let solns = solutions2(&input, TARGET, &countdown::expr::std_ops());

    println!(
        "{} solutions to make {} from {:?} - {} checked",
        solns.0.len(),
        TARGET,
        input,
        solns.1
    );

    solns.0.iter().for_each(|s| {
        println!("ex: {} = {}", s.0.to_text(), s.1);
    });
}

#[test]
fn add_dups() {
    let input = [1, 2, 5];
    let ops = [Op::Add, Op::Mul].to_vec();

    let mut total: usize = 0;
    let mut res = Vec::<Evaluated>::new();

    choices(&input).into_iter().for_each(|choice| {
        let found = results(choice.as_slice(), &ops);

        found.into_iter().for_each(|result| {
            total += 1;

            res.push(result);
        });
    });

    let expected_res = 13;
    assert_eq!(res.len(), expected_res);

    let (deduped, dups_log) = dedup(&res);
    let expected_dups = 2;

    assert_eq!(dups_log.len(), expected_dups);
    assert_eq!(deduped.len(), expected_res - expected_dups);
}
