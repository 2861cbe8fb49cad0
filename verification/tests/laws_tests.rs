use countdown::combinatorics::{choices, split};
use countdown::expr::{all_ops, apply, eval, std_ops, unique_ops, valid, Expr, Op};
use countdown::solver::{dedup, results, solutions2, Evaluated};

#[test]
fn choices_counts_small() {
    // 1 tile: 1 selection; 2 tiles: 2 + 2 = 4; 3 tiles: 3 + 6 + 6 = 15.
    assert_eq!(choices::<i32>(&[]).len(), 0);
    assert_eq!(choices(&[7]).len(), 1);
    assert_eq!(choices(&[1, 2]).len(), 4);
    assert_eq!(choices(&[1, 2, 3]).len(), 15);
    // Duplicate tile values are chosen by position, not collapsed.
    assert_eq!(choices(&[4, 4]).len(), 4);
}

#[test]
fn split_covers_every_cut() {
    let input = [1, 2, 3, 4];
    let cuts = split(&input);

    assert_eq!(cuts.len(), input.len() - 1);
    for (prefix, suffix) in &cuts {
        assert!(!prefix.is_empty());
        assert!(!suffix.is_empty());
        assert_eq!(prefix.len() + suffix.len(), input.len());
        let mut joined = prefix.clone();
        joined.extend_from_slice(suffix);
        assert_eq!(joined, input.to_vec());
    }
}

#[test]
fn results_pairs_are_consistent() {
    let found = results(&[2, 3, 5], &std_ops());

    assert!(!found.is_empty());
    for (expr, value) in &found {
        assert_eq!(eval(expr), Some(*value));
    }
}

#[test]
fn valid_implies_apply_succeeds() {
    let samples: Vec<(Op, i32, i32)> = vec![
        (Op::Add, 2, 3),
        (Op::Sub, 9, 4),
        (Op::Mul, 3, 7),
        (Op::Div, 10, 2),
        (Op::Exp, 2, 10),
        (Op::Mod, 7, 3),
        (Op::Mod, 7, -3),
    ];

    for (op, a, b) in samples {
        assert!(valid(&op, a, b));
        let r = apply(&op, &Expr::new_val(a), &Expr::new_val(b));
        assert!(r.is_some(), "{:?} {} {}", op, a, b);
    }

    assert_eq!(
        apply(&Op::Add, &Expr::new_val(2), &Expr::new_val(3)),
        Some(5)
    );
    assert_eq!(
        apply(&Op::Exp, &Expr::new_val(2), &Expr::new_val(10)),
        Some(1024)
    );
    assert_eq!(
        apply(&Op::Mod, &Expr::new_val(7), &Expr::new_val(-3)),
        Some(1)
    );
}

#[test]
fn arithmetic_overflow_yields_no_value() {
    // The gates for multiplication and exponentiation refuse overflow.
    assert!(!valid(&Op::Mul, 2, i32::MAX));
    assert!(!valid(&Op::Exp, 2, 40));
    // Addition overflow surfaces as an absent value, never a panic.
    let big = Expr::new_val(i32::MAX - 1);
    let bigger = Expr::new_val(i32::MAX);
    assert_eq!(apply(&Op::Add, &big, &bigger), None);
}

#[test]
fn div_gate_exactness() {
    // Divisor at most one, or inexact division: never applied.
    assert_eq!(
        apply(&Op::Div, &Expr::new_val(10), &Expr::new_val(1)),
        None
    );
    assert_eq!(
        apply(&Op::Div, &Expr::new_val(10), &Expr::new_val(3)),
        None
    );
    assert_eq!(
        apply(&Op::Div, &Expr::new_val(10), &Expr::new_val(0)),
        None
    );
    assert_eq!(
        apply(&Op::Div, &Expr::new_val(10), &Expr::new_val(-2)),
        None
    );
    // Divisor above one dividing exactly: always the exact quotient.
    assert_eq!(
        apply(&Op::Div, &Expr::new_val(10), &Expr::new_val(2)),
        Some(5)
    );
    assert_eq!(
        apply(&Op::Div, &Expr::Val(-6), &Expr::new_val(3)),
        Some(-2)
    );
}

#[test]
fn dedup_is_idempotent() {
    let input = [1, 2, 5];
    let ops = [Op::Add, Op::Mul].to_vec();

    let mut res = Vec::<Evaluated>::new();
    for choice in choices(&input) {
        for pair in results(choice.as_slice(), &ops) {
            res.push(pair);
        }
    }

    let (once, _) = dedup(&res);
    let (twice, log) = dedup(&once);

    assert!(log.is_empty());
    assert_eq!(twice, once);
}

#[test]
fn dedup_logs_both_renderings() {
    let a: Evaluated = (
        Expr::new_expr(Op::Add, Expr::new_val(10), Expr::new_val(100)),
        110,
    );
    let b: Evaluated = (
        Expr::new_expr(Op::Add, Expr::new_val(100), Expr::new_val(10)),
        110,
    );

    let (kept, log) = dedup(&vec![a, b]);

    assert_eq!(kept.len(), 1);
    assert_eq!(log, vec!["100 + 10 == 10 + 100".to_string()]);
}

#[test]
fn expr_text_parenthesizes_children_only() {
    let expr = Expr::new_expr(
        Op::Mul,
        Expr::new_expr(
            Op::Sub,
            Expr::new_expr(Op::Add, Expr::new_val(4), Expr::new_val(29)),
            Expr::new_expr(Op::Div, Expr::new_val(100), Expr::new_val(5)),
        ),
        Expr::new_val(30),
    );

    assert_eq!(expr.to_text(), "((4 + 29) - (100 / 5)) * 30");
    assert_eq!(Expr::Val(-17).to_text(), "-17");
    assert_eq!(
        Expr::new_expr(Op::Mod, Expr::new_val(7), Expr::new_val(3)).to_text(),
        "7 % 3"
    );
}

#[test]
fn operator_sets() {
    assert_eq!(
        all_ops(),
        vec![Op::Add, Op::Sub, Op::Mul, Op::Div, Op::Exp, Op::Mod]
    );
    assert_eq!(std_ops(), vec![Op::Add, Op::Sub, Op::Mul, Op::Div]);
    assert_eq!(
        unique_ops(&vec![Op::Add, Op::Mul, Op::Add, Op::Div, Op::Mul]),
        vec![Op::Add, Op::Mul, Op::Div]
    );
}

#[test]
fn op_symbols_round() {
    assert_eq!(Op::try_from('-'), Ok(Op::Sub));
    assert_eq!(Op::try_from('*'), Ok(Op::Mul));
    assert_eq!(Op::try_from('/'), Ok(Op::Div));
    assert_eq!(Op::try_from('^'), Ok(Op::Exp));
    assert_eq!(Op::try_from('%'), Ok(Op::Mod));
    assert!(Op::try_from('x').is_err());
}

#[test]
fn empty_tiles_yield_nothing() {
    let (sols, checked) = solutions2(&[], 6, &std_ops());

    assert!(sols.is_empty());
    assert_eq!(checked, 0);
}

#[test]
fn make_6_from_1_2_3() {
    let input = [1, 2, 3];
    let (sols, checked) = solutions2(&input, 6, &std_ops());
    let (uniq, log) = dedup(&sols);

    assert_eq!((sols.len(), checked, uniq.len()), (5, 34, 2));
    assert_eq!(sols.len() - log.len(), uniq.len());

    // The additive solution over all three tiles survives dedup.
    let sum_ref = Expr::new_expr(
        Op::Add,
        Expr::new_val(1),
        Expr::new_expr(Op::Add, Expr::new_val(2), Expr::new_val(3)),
    );
    assert!(uniq.iter().any(|p| p.0 == sum_ref && p.1 == 6));

    // The validity rule admits no multiplication by one, so the product solution
    // the search reaches is 2 * 3 (the tile 1 left unused).
    let prod_ref = Expr::new_expr(Op::Mul, Expr::new_val(2), Expr::new_val(3));
    assert!(uniq.iter().any(|p| p.0 == prod_ref && p.1 == 6));
}

#[test]
fn make_608_regression() {
    let input = [50, 25, 75, 100, 4, 1];
    let (sols, checked) = solutions2(&input, 608, &std_ops());

    assert_eq!((sols.len(), checked), (50, 290342));
    assert!(sols.len() > 0);
}
