use countdown::combinatorics::{interleave, perms, split, subs};
use itertools::Itertools;

#[test]
fn combinatorics_empty() {
    let res = subs::<usize>(&[]);
    assert_eq!(res, vec![vec![]]);
}

#[test]
fn combinatorics_three() {
    let res = subs(&[1, 2, 3]);

    assert_eq!(
        res,
        vec![
            vec![],
            vec![3],
            vec![2],
            vec![2, 3],
            vec![1],
            vec![1, 3],
            vec![1, 2],
            vec![1, 2, 3]
        ]
    );
}

#[test]
fn combinatorics_three_gen_exp() {
    let res = subs(&[1, 2, 3]).into_iter().sorted().collect::<Vec<_>>();
    let exp = (1..4).powerset().sorted().collect::<Vec<_>>();

    assert_eq!(res, exp);
}

#[test]
fn combinatorics_interleave_one() {
    let res = interleave(3, &[1, 2, 4]);

    println!("res: {:?}", res);
}

#[test]
fn combinatorics_perms_three() {
    let res = perms(&[1, 2, 3]);

    println!("res: {:?}", res);
}

#[test]
fn combinatorics_split_empty() {
    let res = split::<usize>(&[]);
    let exp = Vec::<(Vec<usize>, Vec<usize>)>::new();

    assert_eq!(res, exp);
}

#[test]
fn combinatorics_split_single() {
    let res = split::<usize>(&[1]);
    let exp = Vec::<(Vec<usize>, Vec<usize>)>::new();

    assert_eq!(res, exp);
}

#[test]
fn combinatorics_split_two() {
    let res = split::<usize>(&[1, 2]);
    let mut exp = Vec::<(Vec<usize>, Vec<usize>)>::new();
    exp.push((vec![1], vec![2]));

    assert_eq!(res, exp);
}

#[test]
fn combinatorics_split_three() {
    let res = split::<usize>(&[1, 2, 3]);
    let mut exp = Vec::<(Vec<usize>, Vec<usize>)>::new();
    exp.push((vec![1], vec![2, 3]));
    exp.push((vec![1, 2], vec![3]));

    assert_eq!(res, exp);
}
