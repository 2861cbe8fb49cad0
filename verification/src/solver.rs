//! The search driver: builds every expression over every ordered tile
//! selection, in two variants.  The first (`combine`, `exprs`, `solutions`)
//! materializes every tree over a fixed operator list and evaluates it
//! afterwards; the second (`combine2`, `results`, `solutions2`) carries an
//! already-computed value with each expression and gates construction on the
//! validity check.  `dedup` collapses equivalent solutions afterwards.

use vstd::prelude::*;
use crate::expr::{Expr, Op, OpsType, eval_expr, valid_op, valid, eval, equiv, eq_expr, expr_str};
use crate::combinatorics::{choices, choices_seq, split, views_of};

verus! {

/// An expression paired with its already-computed value.
pub type Evaluated = (Expr, i32);

/// An operator node over the given children.
pub open spec fn node(op: Op, l: Expr, r: Expr) -> Expr {
    Expr::Expr(op, Box::new(l), Box::new(r))
}

/// What one gated operator application contributes: the new node with its
/// value when the rule admits the cached operands and the node evaluates,
/// nothing otherwise.
pub open spec fn combine2_one(l: Evaluated, r: Evaluated, op: Op) -> Seq<Evaluated> {
    if valid_op(op, l.1, r.1) {
        match eval_expr(node(op, l.0, r.0)) {
            Some(v) => seq![(node(op, l.0, r.0), v)],
            None => Seq::empty(),
        }
    } else {
        Seq::empty()
    }
}

/// Every gated application of the operators of `ops`, in order, to one
/// pair of evaluated operands.
pub open spec fn combine2_seq(l: Evaluated, r: Evaluated, ops: Seq<Op>) -> Seq<Evaluated>
    decreases ops.len(),
{
    if ops.len() == 0 {
        Seq::empty()
    } else {
        combine2_seq(l, r, ops.drop_last()) + combine2_one(l, r, ops.last())
    }
}

/// `combine2_seq` over one left operand and every right operand.
pub open spec fn with2_seq(le: Evaluated, rs: Seq<Evaluated>, ops: Seq<Op>) -> Seq<Evaluated>
    decreases rs.len(),
{
    if rs.len() == 0 {
        Seq::empty()
    } else {
        with2_seq(le, rs.drop_last(), ops) + combine2_seq(le, rs.last(), ops)
    }
}

/// `combine2_seq` over every pair of left and right operands.
pub open spec fn pairs2_seq(ls: Seq<Evaluated>, rs: Seq<Evaluated>, ops: Seq<Op>) -> Seq<
    Evaluated,
>
    decreases ls.len(),
{
    if ls.len() == 0 {
        Seq::empty()
    } else {
        pairs2_seq(ls.drop_last(), rs, ops) + with2_seq(ls.last(), rs, ops)
    }
}

/// Every evaluated pair reachable from `s` using cut positions `1..=m`.
pub open spec fn results_cuts(s: Seq<i32>, ops: Seq<Op>, m: int) -> Seq<Evaluated>
    decreases s.len(), 0int, m,
    when m < s.len() || m < 1
{
    if m < 1 {
        Seq::empty()
    } else {
        results_cuts(s, ops, m - 1) + pairs2_seq(
            results_seq(s.take(m), ops),
            results_seq(s.skip(m), ops),
            ops,
        )
    }
}

/// Every evaluated pair the search reaches for one ordered sequence: a
/// single leaf pair for one tile, and otherwise, for every contiguous cut,
/// every gated combination of a left result and a right result.
pub open spec fn results_seq(s: Seq<i32>, ops: Seq<Op>) -> Seq<Evaluated>
    decreases s.len(), 1int, 0int,
{
    if s.len() == 1 {
        seq![(Expr::Val(s[0]), s[0])]
    } else {
        results_cuts(s, ops, s.len() - 1)
    }
}

/// Attempts every operator of `ops` on one pair of evaluated operands;
/// keeps each expression that passes the validity rule and evaluates, paired with
/// its value.
pub fn combine2(l: Evaluated, r: Evaluated, ops: &OpsType) -> (res: Vec<Evaluated>)
    ensures
        res@ == combine2_seq(l, r, ops@),
{
    let mut res: Vec<Evaluated> = Vec::new();
    let mut k: usize = 0;
    proof {
        assert(res@ =~= combine2_seq(l, r, ops@.take(0)));
    }
    while k < ops.len()
        invariant
            k <= ops@.len(),
            res@ == combine2_seq(l, r, ops@.take(k as int)),
        decreases ops@.len() - k,
    {
        proof {
            assert(ops@.take(k + 1).drop_last() =~= ops@.take(k as int));
            assert(ops@.take(k + 1).last() == ops@[k as int]);
        }
        let op = ops[k];
        if valid(&op, l.1, r.1) {
            let expr = Expr::new_expr(op, l.0.dup(), r.0.dup());
            match eval(&expr) {
                Some(val) => {
                    res.push((expr, val));
                },
                None => {},
            }
        }
        proof {
            assert(res@ =~= combine2_seq(l, r, ops@.take(k + 1)));
        }
        k = k + 1;
    }
    proof {
        assert(ops@.take(ops@.len() as int) =~= ops@);
    }
    res
}

/// Every evaluated pair reachable from the ordered sequence `src` under
/// the operator set `ops`.
pub fn results(src: &[i32], ops: &OpsType) -> (res: Vec<Evaluated>)
    ensures
        res@ == results_seq(src@, ops@),
    decreases src@.len(),
{
    let mut res: Vec<Evaluated> = Vec::new();
    if src.len() == 1 {
        let v = *vstd::slice::slice_index_get(src, 0);
        res.push((Expr::new_val(v), v));
        proof {
            assert(res@ =~= results_seq(src@, ops@));
        }
        res
    } else {
        let cuts = split(src);
        let mut i: usize = 0;
        proof {
            assert(res@ =~= results_cuts(src@, ops@, 0));
            assert forall|t: int| #![trigger cuts@[t]] 0 <= t < cuts@.len()
                implies cuts@[t].0@ == src@.take(t + 1) && cuts@[t].1@ == src@.skip(t + 1) by {
                assert(cuts@[t].0@ == src@.take(t + 1));
                assert(cuts@[t].1@ == src@.skip(t + 1));
            }
        }
        while i < cuts.len()
            invariant
                i <= cuts@.len(),
                src@.len() != 1,
                cuts@.len() == (if src@.len() <= 1 { 0int } else { src@.len() - 1 }),
                forall|t: int| #![trigger cuts@[t]] 0 <= t < cuts@.len()
                    ==> cuts@[t].0@ == src@.take(t + 1) && cuts@[t].1@ == src@.skip(t + 1),
                res@ == results_cuts(src@, ops@, i as int),
            decreases cuts@.len() - i,
        {
            let lefts = results(cuts[i].0.as_slice(), ops);
            let rights = results(cuts[i].1.as_slice(), ops);
            let ghost ls = results_seq(src@.take(i + 1), ops@);
            let ghost rs = results_seq(src@.skip(i + 1), ops@);
            let ghost before = res@;
            let mut j: usize = 0;
            proof {
                assert(res@ =~= before + pairs2_seq(ls.take(0), rs, ops@));
            }
            while j < lefts.len()
                invariant
                    j <= lefts@.len(),
                    lefts@ == ls,
                    rights@ == rs,
                    res@ == before + pairs2_seq(ls.take(j as int), rs, ops@),
                decreases lefts@.len() - j,
            {
                let ghost mid = res@;
                let mut k: usize = 0;
                proof {
                    assert(res@ =~= mid + with2_seq(ls[j as int], rs.take(0), ops@));
                }
                while k < rights.len()
                    invariant
                        j < lefts@.len(),
                        k <= rights@.len(),
                        lefts@ == ls,
                        rights@ == rs,
                        res@ == mid + with2_seq(ls[j as int], rs.take(k as int), ops@),
                    decreases rights@.len() - k,
                {
                    let le = (lefts[j].0.dup(), lefts[j].1);
                    let re = (rights[k].0.dup(), rights[k].1);
                    proof {
                        assert(le == ls[j as int]);
                        assert(re == rs[k as int]);
                    }
                    let mut cs = combine2(le, re, ops);
                    res.append(&mut cs);
                    proof {
                        assert(rs.take(k + 1).drop_last() =~= rs.take(k as int));
                        assert(rs.take(k + 1).last() == rs[k as int]);
                        assert(res@ =~= mid + with2_seq(ls[j as int], rs.take(k + 1), ops@));
                    }
                    k = k + 1;
                }
                proof {
                    assert(rs.take(rs.len() as int) =~= rs);
                    assert(ls.take(j + 1).drop_last() =~= ls.take(j as int));
                    assert(ls.take(j + 1).last() == ls[j as int]);
                    assert(res@ =~= before + pairs2_seq(ls.take(j + 1), rs, ops@));
                }
                j = j + 1;
            }
            proof {
                assert(ls.take(ls.len() as int) =~= ls);
            }
            i = i + 1;
        }
        proof {
            if src@.len() == 0 {
                assert(res@ =~= results_seq(src@, ops@));
            }
        }
        res
    }
}

/// Whether an evaluated pair's value is `target`.
pub open spec fn target_pred(target: i32) -> spec_fn(Evaluated) -> bool {
    |p: Evaluated| p.1 == target
}

/// The evaluated pairs of `es` whose value is `target`.
pub open spec fn hits2(es: Seq<Evaluated>, target: i32) -> Seq<Evaluated> {
    es.filter(target_pred(target))
}

/// The number of evaluated pairs the search considers over the ordered
/// sequences of `cs`.
pub open spec fn total2(cs: Seq<Seq<i32>>, ops: Seq<Op>) -> nat
    decreases cs.len(),
{
    if cs.len() == 0 {
        0
    } else {
        total2(cs.drop_last(), ops) + results_seq(cs.last(), ops).len()
    }
}

/// The target matches collected over the ordered sequences of `cs`, in
/// discovery order.
pub open spec fn sols2(cs: Seq<Seq<i32>>, target: i32, ops: Seq<Op>) -> Seq<Evaluated>
    decreases cs.len(),
{
    if cs.len() == 0 {
        Seq::empty()
    } else {
        sols2(cs.drop_last(), target, ops) + hits2(results_seq(cs.last(), ops), target)
    }
}

/// A prefix of the choice list never accounts for more pairs than the
/// whole of it.
proof fn lemma_total2_mono(cs: Seq<Seq<i32>>, ops: Seq<Op>, m: int)
    requires
        0 <= m <= cs.len(),
    ensures
        total2(cs.take(m), ops) <= total2(cs, ops),
    decreases cs.len() - m,
{
    if m == cs.len() {
        assert(cs.take(m) =~= cs);
    } else {
        lemma_total2_mono(cs, ops, m + 1);
        assert(cs.take(m + 1).drop_last() =~= cs.take(m));
        assert(cs.take(m + 1).last() == cs[m]);
    }
}

/// Searches every ordered selection of `input` for expressions whose value
/// is `target`: the matches in discovery order, along with how many pairs
/// were considered in all.
pub fn solutions2(input: &[i32], target: i32, ops: &OpsType) -> (res: (Vec<Evaluated>, usize))
    requires
        total2(choices_seq(input@), ops@) <= usize::MAX,
    ensures
        res.0@ == sols2(choices_seq(input@), target, ops@),
        res.1 == total2(choices_seq(input@), ops@),
{
    let mut total: usize = 0;
    let mut res: Vec<Evaluated> = Vec::new();
    let cs = choices(input);
    let ghost base = choices_seq(input@);
    let mut i: usize = 0;
    proof {
        assert(res@ =~= sols2(base.take(0), target, ops@));
    }
    while i < cs.len()
        invariant
            i <= cs@.len(),
            views_of(cs@) == base,
            total2(base, ops@) <= usize::MAX,
            res@ == sols2(base.take(i as int), target, ops@),
            total == total2(base.take(i as int), ops@),
        decreases cs@.len() - i,
    {
        proof {
            assert(views_of(cs@)[i as int] == cs@[i as int]@);
            assert(base.take(i + 1).drop_last() =~= base.take(i as int));
            assert(base.take(i + 1).last() == base[i as int]);
            lemma_total2_mono(base, ops@, i + 1);
        }
        let found = results(cs[i].as_slice(), ops);
        let ghost fs = results_seq(base[i as int], ops@);
        let ghost mid = res@;
        let ghost sofar = total as nat;
        let mut k: usize = 0;
        proof {
            reveal(Seq::filter);
            assert(res@ =~= mid + hits2(fs.take(0), target));
        }
        while k < found.len()
            invariant
                k <= found@.len(),
                found@ == fs,
                sofar + fs.len() <= usize::MAX,
                total == sofar + k,
                res@ == mid + hits2(fs.take(k as int), target),
            decreases found@.len() - k,
        {
            total = total + 1;
            proof {
                reveal(Seq::filter);
                assert(fs.take(k + 1).drop_last() =~= fs.take(k as int));
                assert(fs.take(k + 1).last() == fs[k as int]);
            }
            if found[k].1 == target {
                res.push((found[k].0.dup(), found[k].1));
                proof {
                    assert(res@ =~= mid + hits2(fs.take(k + 1), target));
                }
            } else {
                proof {
                    assert(res@ =~= mid + hits2(fs.take(k + 1), target));
                }
            }
            k = k + 1;
        }
        proof {
            assert(fs.take(fs.len() as int) =~= fs);
        }
        i = i + 1;
    }
    proof {
        assert(base.take(base.len() as int) =~= base);
    }
    (res, total)
}


/// The four fixed operator nodes the brute-force variant builds over one
/// pair of children, validity unchecked.
pub open spec fn combine_seq(l: Expr, r: Expr) -> Seq<Expr> {
    seq![
        node(Op::Add, l, r),
        node(Op::Sub, l, r),
        node(Op::Mul, l, r),
        node(Op::Div, l, r),
    ]
}

/// `combine_seq` over one left child and every right child.
pub open spec fn with_seq(le: Expr, rs: Seq<Expr>) -> Seq<Expr>
    decreases rs.len(),
{
    if rs.len() == 0 {
        Seq::empty()
    } else {
        with_seq(le, rs.drop_last()) + combine_seq(le, rs.last())
    }
}

/// `combine_seq` over every pair of left and right children.
pub open spec fn pairs_seq(ls: Seq<Expr>, rs: Seq<Expr>) -> Seq<Expr>
    decreases ls.len(),
{
    if ls.len() == 0 {
        Seq::empty()
    } else {
        pairs_seq(ls.drop_last(), rs) + with_seq(ls.last(), rs)
    }
}

/// Every tree the brute-force variant builds from `s` using cut positions
/// `1..=m`.
pub open spec fn exprs_cuts(s: Seq<i32>, m: int) -> Seq<Expr>
    decreases s.len(), 0int, m,
    when m < s.len() || m < 1
{
    if m < 1 {
        Seq::empty()
    } else {
        exprs_cuts(s, m - 1) + pairs_seq(exprs_seq(s.take(m)), exprs_seq(s.skip(m)))
    }
}

/// Every binary tree over the ordered sequence `s`: a leaf for one tile,
/// and otherwise four candidate nodes for every pair of subtrees over
/// every contiguous cut.
pub open spec fn exprs_seq(s: Seq<i32>) -> Seq<Expr>
    decreases s.len(), 1int, 0int,
{
    if s.len() == 1 {
        seq![Expr::Val(s[0])]
    } else {
        exprs_cuts(s, s.len() - 1)
    }
}

/// Builds the four fixed candidate nodes over one pair of children.
pub fn combine(l: Expr, r: Expr) -> (res: Vec<Expr>)
    ensures
        res@ == combine_seq(l, r),
{
    let mut res: Vec<Expr> = Vec::new();
    res.push(Expr::new_expr(Op::Add, l.dup(), r.dup()));
    res.push(Expr::new_expr(Op::Sub, l.dup(), r.dup()));
    res.push(Expr::new_expr(Op::Mul, l.dup(), r.dup()));
    res.push(Expr::new_expr(Op::Div, l.dup(), r.dup()));
    proof {
        assert(res@ =~= combine_seq(l, r));
    }
    res
}

/// Every binary tree over the ordered sequence `src`, unevaluated.
pub fn exprs(src: &[i32]) -> (res: Vec<Expr>)
    ensures
        res@ == exprs_seq(src@),
    decreases src@.len(),
{
    let mut res: Vec<Expr> = Vec::new();
    if src.len() == 1 {
        let v = *vstd::slice::slice_index_get(src, 0);
        res.push(Expr::new_val(v));
        proof {
            assert(res@ =~= exprs_seq(src@));
        }
        res
    } else {
        let cuts = split(src);
        let mut i: usize = 0;
        proof {
            assert(res@ =~= exprs_cuts(src@, 0));
            assert forall|t: int| #![trigger cuts@[t]] 0 <= t < cuts@.len()
                implies cuts@[t].0@ == src@.take(t + 1) && cuts@[t].1@ == src@.skip(t + 1) by {
                assert(cuts@[t].0@ == src@.take(t + 1));
                assert(cuts@[t].1@ == src@.skip(t + 1));
            }
        }
        while i < cuts.len()
            invariant
                i <= cuts@.len(),
                src@.len() != 1,
                cuts@.len() == (if src@.len() <= 1 { 0int } else { src@.len() - 1 }),
                forall|t: int| #![trigger cuts@[t]] 0 <= t < cuts@.len()
                    ==> cuts@[t].0@ == src@.take(t + 1) && cuts@[t].1@ == src@.skip(t + 1),
                res@ == exprs_cuts(src@, i as int),
            decreases cuts@.len() - i,
        {
            let lefts = exprs(cuts[i].0.as_slice());
            let rights = exprs(cuts[i].1.as_slice());
            let ghost ls = exprs_seq(src@.take(i + 1));
            let ghost rs = exprs_seq(src@.skip(i + 1));
            let ghost before = res@;
            let mut j: usize = 0;
            proof {
                assert(res@ =~= before + pairs_seq(ls.take(0), rs));
            }
            while j < lefts.len()
                invariant
                    j <= lefts@.len(),
                    lefts@ == ls,
                    rights@ == rs,
                    res@ == before + pairs_seq(ls.take(j as int), rs),
                decreases lefts@.len() - j,
            {
                let ghost mid = res@;
                let mut k: usize = 0;
                proof {
                    assert(res@ =~= mid + with_seq(ls[j as int], rs.take(0)));
                }
                while k < rights.len()
                    invariant
                        j < lefts@.len(),
                        k <= rights@.len(),
                        lefts@ == ls,
                        rights@ == rs,
                        res@ == mid + with_seq(ls[j as int], rs.take(k as int)),
                    decreases rights@.len() - k,
                {
                    let mut cs = combine(lefts[j].dup(), rights[k].dup());
                    res.append(&mut cs);
                    proof {
                        assert(rs.take(k + 1).drop_last() =~= rs.take(k as int));
                        assert(rs.take(k + 1).last() == rs[k as int]);
                        assert(res@ =~= mid + with_seq(ls[j as int], rs.take(k + 1)));
                    }
                    k = k + 1;
                }
                proof {
                    assert(rs.take(rs.len() as int) =~= rs);
                    assert(ls.take(j + 1).drop_last() =~= ls.take(j as int));
                    assert(ls.take(j + 1).last() == ls[j as int]);
                    assert(res@ =~= before + pairs_seq(ls.take(j + 1), rs));
                }
                j = j + 1;
            }
            proof {
                assert(ls.take(ls.len() as int) =~= ls);
            }
            i = i + 1;
        }
        proof {
            if src@.len() == 0 {
                assert(res@ =~= exprs_seq(src@));
            }
        }
        res
    }
}

/// The trees of `es` that evaluate exactly to `target`.
pub open spec fn hits(es: Seq<Expr>, target: i32) -> Seq<Expr> {
    es.filter(|e: Expr| eval_expr(e) == Some(target))
}

/// The number of trees the brute-force search considers over the ordered
/// sequences of `cs`.
pub open spec fn total_count(cs: Seq<Seq<i32>>) -> nat
    decreases cs.len(),
{
    if cs.len() == 0 {
        0
    } else {
        total_count(cs.drop_last()) + exprs_seq(cs.last()).len()
    }
}

/// The brute-force target matches over the ordered sequences of `cs`, in
/// discovery order.
pub open spec fn sols(cs: Seq<Seq<i32>>, target: i32) -> Seq<Expr>
    decreases cs.len(),
{
    if cs.len() == 0 {
        Seq::empty()
    } else {
        sols(cs.drop_last(), target) + hits(exprs_seq(cs.last()), target)
    }
}

/// A prefix of the choice list never accounts for more trees than the
/// whole of it.
proof fn lemma_total_count_mono(cs: Seq<Seq<i32>>, m: int)
    requires
        0 <= m <= cs.len(),
    ensures
        total_count(cs.take(m)) <= total_count(cs),
    decreases cs.len() - m,
{
    if m == cs.len() {
        assert(cs.take(m) =~= cs);
    } else {
        lemma_total_count_mono(cs, m + 1);
        assert(cs.take(m + 1).drop_last() =~= cs.take(m));
        assert(cs.take(m + 1).last() == cs[m]);
    }
}

/// Brute-force search: builds every tree over every ordered selection of
/// `input`, evaluates each, and keeps those whose value is `target`,
/// along with how many trees were considered in all.
pub fn solutions(input: &[i32], target: i32) -> (res: (Vec<Expr>, usize))
    requires
        total_count(choices_seq(input@)) <= usize::MAX,
    ensures
        res.0@ == sols(choices_seq(input@), target),
        res.1 == total_count(choices_seq(input@)),
{
    let mut total: usize = 0;
    let mut res: Vec<Expr> = Vec::new();
    let cs = choices(input);
    let ghost base = choices_seq(input@);
    let mut i: usize = 0;
    proof {
        assert(res@ =~= sols(base.take(0), target));
    }
    while i < cs.len()
        invariant
            i <= cs@.len(),
            views_of(cs@) == base,
            total_count(base) <= usize::MAX,
            res@ == sols(base.take(i as int), target),
            total == total_count(base.take(i as int)),
        decreases cs@.len() - i,
    {
        proof {
            assert(views_of(cs@)[i as int] == cs@[i as int]@);
            assert(base.take(i + 1).drop_last() =~= base.take(i as int));
            assert(base.take(i + 1).last() == base[i as int]);
            lemma_total_count_mono(base, i + 1);
        }
        let found = exprs(cs[i].as_slice());
        let ghost fs = exprs_seq(base[i as int]);
        let ghost mid = res@;
        let ghost sofar = total as nat;
        let mut k: usize = 0;
        proof {
            reveal(Seq::filter);
            assert(res@ =~= mid + hits(fs.take(0), target));
        }
        while k < found.len()
            invariant
                k <= found@.len(),
                found@ == fs,
                sofar + fs.len() <= usize::MAX,
                total == sofar + k,
                res@ == mid + hits(fs.take(k as int), target),
            decreases found@.len() - k,
        {
            total = total + 1;
            proof {
                reveal(Seq::filter);
                assert(fs.take(k + 1).drop_last() =~= fs.take(k as int));
                assert(fs.take(k + 1).last() == fs[k as int]);
            }
            let keep = match eval(&found[k]) {
                Some(val) => val == target,
                None => false,
            };
            if keep {
                res.push(found[k].dup());
                proof {
                    assert(res@ =~= mid + hits(fs.take(k + 1), target));
                }
            } else {
                proof {
                    assert(res@ =~= mid + hits(fs.take(k + 1), target));
                }
            }
            k = k + 1;
        }
        proof {
            assert(fs.take(fs.len() as int) =~= fs);
        }
        i = i + 1;
    }
    proof {
        assert(base.take(base.len() as int) =~= base);
    }
    (res, total)
}


/// Two evaluated pairs are duplicates when their expressions are
/// equivalent and their values agree.
pub open spec fn pair_equiv(q: Evaluated, p: Evaluated) -> bool {
    equiv(q.0, p.0) && q.1 == p.1
}

/// Whether the kept list already holds a duplicate of `p`.
pub open spec fn has_dup(kept: Seq<Evaluated>, p: Evaluated) -> bool {
    exists|i: int| 0 <= i < kept.len() && pair_equiv(kept[i], p)
}

/// The first index of a duplicate of `p` in the kept list.
pub open spec fn first_dup(kept: Seq<Evaluated>, p: Evaluated) -> int
    decreases kept.len(),
{
    if kept.len() == 0 {
        0
    } else if pair_equiv(kept[0], p) {
        0
    } else {
        1 + first_dup(kept.drop_first(), p)
    }
}

/// The semantically distinct pairs of `s`, first seen kept, in order.
pub open spec fn dedup_kept(s: Seq<Evaluated>) -> Seq<Evaluated>
    decreases s.len(),
{
    if s.len() == 0 {
        Seq::empty()
    } else {
        let k = dedup_kept(s.drop_last());
        if has_dup(k, s.last()) {
            k
        } else {
            k.push(s.last())
        }
    }
}

/// One duplicate-log line: the discarded rendering, then the kept one.
pub open spec fn log_entry(cand: Expr, kept: Expr) -> Seq<char> {
    expr_str(cand) + seq![' ', '=', '=', ' '] + expr_str(kept)
}

/// The duplicate log of `s`, one line per discarded pair, in order.
pub open spec fn dedup_log(s: Seq<Evaluated>) -> Seq<Seq<char>>
    decreases s.len(),
{
    if s.len() == 0 {
        Seq::empty()
    } else {
        let k = dedup_kept(s.drop_last());
        let l = dedup_log(s.drop_last());
        if has_dup(k, s.last()) {
            l.push(log_entry(s.last().0, k[first_dup(k, s.last())].0))
        } else {
            l
        }
    }
}

/// The character sequences of a vector of strings.
pub open spec fn strings_of(vs: Seq<String>) -> Seq<Seq<char>> {
    vs.map_values(|x: String| x@)
}

/// When `j` is the first index whose entry duplicates `p`, `first_dup`
/// finds exactly `j`.
proof fn lemma_first_dup_at(kept: Seq<Evaluated>, p: Evaluated, j: int)
    requires
        0 <= j < kept.len(),
        pair_equiv(kept[j], p),
        forall|t: int| 0 <= t < j ==> !pair_equiv(kept[t], p),
    ensures
        first_dup(kept, p) == j,
    decreases kept.len(),
{
    if j > 0 {
        lemma_first_dup_at(kept.drop_first(), p, j - 1);
    }
}

/// Pushing a string corresponds to pushing its character sequence.
proof fn lemma_strings_push(vs: Seq<String>, x: String)
    ensures
        strings_of(vs.push(x)) == strings_of(vs).push(x@),
{
    assert(strings_of(vs.push(x)) =~= strings_of(vs).push(x@));
}

/// Scans the solution list once, keeping each pair unless an equivalent
/// pair was already kept; a discarded pair leaves one log line naming
/// both renderings.
pub fn dedup(all_solns: &Vec<Evaluated>) -> (r: (Vec<Evaluated>, Vec<String>))
    ensures
        r.0@ == dedup_kept(all_solns@),
        strings_of(r.1@) == dedup_log(all_solns@),
{
    let mut deduped: Vec<Evaluated> = Vec::new();
    let mut dups_log: Vec<String> = Vec::new();
    let mut i: usize = 0;
    proof {
        assert(all_solns@.take(0) =~= Seq::<Evaluated>::empty());
        assert(strings_of(dups_log@) =~= dedup_log(all_solns@.take(0)));
    }
    while i < all_solns.len()
        invariant
            i <= all_solns@.len(),
            deduped@ == dedup_kept(all_solns@.take(i as int)),
            strings_of(dups_log@) == dedup_log(all_solns@.take(i as int)),
        decreases all_solns@.len() - i,
    {
        let ghost cand = all_solns@[i as int];
        let n = deduped.len();
        let mut j: usize = 0;
        let mut hit = false;
        while j < n && !hit
            invariant
                j <= n,
                n == deduped@.len(),
                i < all_solns@.len(),
                cand == all_solns@[i as int],
                forall|t: int| 0 <= t < j ==> !pair_equiv(deduped@[t], cand),
                hit ==> j < n && pair_equiv(deduped@[j as int], cand),
            decreases n - j + (if hit { 0int } else { 1int }),
        {
            if eq_expr(&deduped[j].0, &all_solns[i].0) && deduped[j].1 == all_solns[i].1 {
                hit = true;
            } else {
                j = j + 1;
            }
        }
        proof {
            assert(all_solns@.take(i + 1).drop_last() =~= all_solns@.take(i as int));
            assert(all_solns@.take(i + 1).last() == cand);
        }
        if hit {
            proof {
                assert(has_dup(deduped@, cand));
                lemma_first_dup_at(deduped@, cand, j as int);
            }
            let mut entry = all_solns[i].0.to_text();
            proof {
                reveal_strlit(" == ");
            }
            entry.append(" == ");
            let kept_text = deduped[j].0.to_text();
            entry.append(kept_text.as_str());
            proof {
                assert(" == "@ =~= seq![' ', '=', '=', ' ']);
                assert(entry@ =~= log_entry(cand.0, deduped@[j as int].0));
            }
            let ghost prev_log = dups_log@;
            dups_log.push(entry);
            proof {
                lemma_strings_push(prev_log, entry);
            }
        } else {
            proof {
                assert(!has_dup(deduped@, cand));
            }
            let ex = all_solns[i].0.dup();
            let vl = all_solns[i].1;
            proof {
                assert((ex, vl) == cand);
            }
            deduped.push((ex, vl));
        }
        i = i + 1;
    }
    proof {
        assert(all_solns@.take(all_solns@.len() as int) =~= all_solns@);
    }
    (deduped, dups_log)
}

/// No two kept pairs duplicate one another.
pub open spec fn pairwise_distinct(s: Seq<Evaluated>) -> bool {
    forall|i: int, j: int| 0 <= i < j < s.len() ==> !pair_equiv(s[i], s[j])
}

/// Deduplication keeps no pair that duplicates an earlier kept one.
pub proof fn lemma_dedup_pairwise(s: Seq<Evaluated>)
    ensures
        pairwise_distinct(dedup_kept(s)),
    decreases s.len(),
{
    if s.len() > 0 {
        lemma_dedup_pairwise(s.drop_last());
        let k = dedup_kept(s.drop_last());
        if !has_dup(k, s.last()) {
            let out = k.push(s.last());
            assert forall|i: int, j: int| 0 <= i < j < out.len()
                implies !pair_equiv(out[i], out[j]) by {
                if j == out.len() - 1 {
                    assert(!pair_equiv(k[i], s.last()));
                }
            }
        }
    }
}

/// A list without internal duplicates passes through deduplication
/// unchanged, with an empty log.
proof fn lemma_dedup_distinct_fixpoint(t: Seq<Evaluated>)
    requires
        pairwise_distinct(t),
    ensures
        dedup_kept(t) == t,
        dedup_log(t) == Seq::<Seq<char>>::empty(),
    decreases t.len(),
{
    if t.len() == 0 {
        assert(dedup_kept(t) =~= t);
    } else {
        let front = t.drop_last();
        assert(pairwise_distinct(front)) by {
            assert(forall|i: int, j: int| 0 <= i < j < front.len()
                ==> front[i] == t[i] && front[j] == t[j]);
        }
        lemma_dedup_distinct_fixpoint(front);
        if has_dup(front, t.last()) {
            let w = choose|w: int| 0 <= w < front.len() && pair_equiv(front[w], t.last());
            assert(!pair_equiv(t[w], t[t.len() - 1]));
            assert(false);
        }
        assert(dedup_kept(t) =~= t);
    }
}

/// Deduplication is idempotent: running it on its own kept list keeps
/// every pair and logs nothing.
pub proof fn lemma_dedup_idempotent(s: Seq<Evaluated>)
    ensures
        dedup_kept(dedup_kept(s)) == dedup_kept(s),
        dedup_log(dedup_kept(s)) == Seq::<Seq<char>>::empty(),
{
    lemma_dedup_pairwise(s);
    lemma_dedup_distinct_fixpoint(dedup_kept(s));
}

/// Every pair carries exactly the value its expression evaluates to.
pub open spec fn all_consistent(es: Seq<Evaluated>) -> bool {
    forall|i: int| 0 <= i < es.len() ==> eval_expr(es[i].0) == Some(es[i].1)
}

/// Consistency is preserved by concatenation.
proof fn lemma_consistent_cat(a: Seq<Evaluated>, b: Seq<Evaluated>)
    requires
        all_consistent(a),
        all_consistent(b),
    ensures
        all_consistent(a + b),
{
    assert forall|i: int| 0 <= i < (a + b).len()
        implies eval_expr((a + b)[i].0) == Some((a + b)[i].1) by {
        if i < a.len() {
            assert((a + b)[i] == a[i]);
        } else {
            assert((a + b)[i] == b[i - a.len()]);
        }
    }
}

/// Every pair a gated combination emits carries its expression's value.
proof fn lemma_combine2_consistent(l: Evaluated, r: Evaluated, ops: Seq<Op>)
    ensures
        all_consistent(combine2_seq(l, r, ops)),
    decreases ops.len(),
{
    if ops.len() > 0 {
        lemma_combine2_consistent(l, r, ops.drop_last());
        assert(all_consistent(combine2_one(l, r, ops.last())));
        lemma_consistent_cat(combine2_seq(l, r, ops.drop_last()), combine2_one(l, r, ops.last()));
    }
}

/// Consistency over one left operand and every right operand.
proof fn lemma_with2_consistent(le: Evaluated, rs: Seq<Evaluated>, ops: Seq<Op>)
    ensures
        all_consistent(with2_seq(le, rs, ops)),
    decreases rs.len(),
{
    if rs.len() > 0 {
        lemma_with2_consistent(le, rs.drop_last(), ops);
        lemma_combine2_consistent(le, rs.last(), ops);
        lemma_consistent_cat(with2_seq(le, rs.drop_last(), ops), combine2_seq(le, rs.last(), ops));
    }
}

/// Consistency over every pair of operands.
proof fn lemma_pairs2_consistent(ls: Seq<Evaluated>, rs: Seq<Evaluated>, ops: Seq<Op>)
    ensures
        all_consistent(pairs2_seq(ls, rs, ops)),
    decreases ls.len(),
{
    if ls.len() > 0 {
        lemma_pairs2_consistent(ls.drop_last(), rs, ops);
        lemma_with2_consistent(ls.last(), rs, ops);
        lemma_consistent_cat(pairs2_seq(ls.drop_last(), rs, ops), with2_seq(ls.last(), rs, ops));
    }
}

/// Consistency over the cut positions `1..=m`.
proof fn lemma_cuts_consistent(s: Seq<i32>, ops: Seq<Op>, m: int)
    requires
        m < s.len() || m < 1,
    ensures
        all_consistent(results_cuts(s, ops, m)),
    decreases s.len(), 0int, m,
{
    if m >= 1 {
        lemma_cuts_consistent(s, ops, m - 1);
        lemma_pairs2_consistent(results_seq(s.take(m), ops), results_seq(s.skip(m), ops), ops);
        lemma_consistent_cat(
            results_cuts(s, ops, m - 1),
            pairs2_seq(results_seq(s.take(m), ops), results_seq(s.skip(m), ops), ops),
        );
    }
}

/// Every evaluated pair the search produces carries exactly the value its
/// expression re-evaluates to.
pub proof fn lemma_results_consistent(s: Seq<i32>, ops: Seq<Op>)
    ensures
        all_consistent(results_seq(s, ops)),
    decreases s.len(), 1int, 0int,
{
    if s.len() != 1 {
        lemma_cuts_consistent(s, ops, s.len() - 1);
    }
}

/// Filtering by target value preserves consistency.
proof fn lemma_hits2_consistent(es: Seq<Evaluated>, target: i32)
    requires
        all_consistent(es),
    ensures
        all_consistent(hits2(es, target)),
    decreases es.len(),
{
    reveal(Seq::filter);
    if es.len() > 0 {
        let front = es.drop_last();
        assert(all_consistent(front)) by {
            assert(forall|t: int| 0 <= t < front.len() ==> front[t] == es[t]);
        }
        lemma_hits2_consistent(front, target);
        let f = hits2(es, target);
        let ff = hits2(front, target);
        assert forall|i: int| 0 <= i < f.len()
            implies eval_expr(f[i].0) == Some(f[i].1) by {
            if target_pred(target)(es.last()) {
                if i < ff.len() {
                    assert(f[i] == ff[i]);
                } else {
                    assert(f[i] == es.last());
                    assert(eval_expr(es[es.len() - 1].0) == Some(es[es.len() - 1].1));
                }
            } else {
                assert(f[i] == ff[i]);
            }
        }
    }
}

/// Every solution the search returns carries exactly the value its
/// expression re-evaluates to.
pub proof fn lemma_sols2_consistent(cs: Seq<Seq<i32>>, target: i32, ops: Seq<Op>)
    ensures
        all_consistent(sols2(cs, target, ops)),
    decreases cs.len(),
{
    if cs.len() > 0 {
        lemma_sols2_consistent(cs.drop_last(), target, ops);
        lemma_results_consistent(cs.last(), ops);
        lemma_hits2_consistent(results_seq(cs.last(), ops), target);
        lemma_consistent_cat(
            sols2(cs.drop_last(), target, ops),
            hits2(results_seq(cs.last(), ops), target),
        );
    }
}

} // verus!
