//! Sequence generators for the search: ordered sub-collections
//! (`subs`), permutations (`interleave`, `perms`), every ordered
//! selection of a tile multiset (`choices`), and contiguous bipartitions
//! (`split`).

use vstd::prelude::*;
use vstd::slice::{slice_index_get, slice_subrange, slice_to_vec};

verus! {

/// The element sequences of a vector of vectors.
pub open spec fn views_of<T>(vs: Seq<Vec<T>>) -> Seq<Seq<T>> {
    vs.map_values(|v: Vec<T>| v@)
}

/// Every sequence of `vs` with `x` prepended.
pub open spec fn cons_all<T>(x: T, vs: Seq<Seq<T>>) -> Seq<Seq<T>> {
    vs.map_values(|v: Seq<T>| seq![x] + v)
}

/// The order-preserving sub-sequences of `s`, positions chosen or skipped
/// recursively: all sub-sequences without the head, then the same with the
/// head prepended.
pub open spec fn subs_seq<T>(s: Seq<T>) -> Seq<Seq<T>>
    decreases s.len(),
{
    if s.len() == 0 {
        seq![Seq::<T>::empty()]
    } else {
        subs_seq(s.drop_first()) + cons_all(s[0], subs_seq(s.drop_first()))
    }
}

/// `x` inserted into every slot of `w`: first at the front, then, for each
/// tail position, behind the retained head.
pub open spec fn interleave_seq<T>(x: T, w: Seq<T>) -> Seq<Seq<T>>
    decreases w.len(),
{
    if w.len() == 0 {
        seq![seq![x]]
    } else {
        seq![seq![x] + w] + cons_all(w[0], interleave_seq(x, w.drop_first()))
    }
}

/// Concatenation of `interleave_seq(x, p)` over all `p` in `ps`.
pub open spec fn cat_inter<T>(x: T, ps: Seq<Seq<T>>) -> Seq<Seq<T>>
    decreases ps.len(),
{
    if ps.len() == 0 {
        Seq::<Seq<T>>::empty()
    } else {
        cat_inter(x, ps.drop_last()) + interleave_seq(x, ps.last())
    }
}

/// Every permutation of `s`: the head inserted into every slot of every
/// permutation of the tail.
pub open spec fn perms_seq<T>(s: Seq<T>) -> Seq<Seq<T>>
    decreases s.len(),
{
    if s.len() == 0 {
        seq![Seq::<T>::empty()]
    } else {
        cat_inter(s[0], perms_seq(s.drop_first()))
    }
}

/// Concatenation of the permutations of every non-empty sequence of `ss`.
pub open spec fn cat_perms<T>(ss: Seq<Seq<T>>) -> Seq<Seq<T>>
    decreases ss.len(),
{
    if ss.len() == 0 {
        Seq::<Seq<T>>::empty()
    } else {
        cat_perms(ss.drop_last()) + (if ss.last().len() > 0 {
            perms_seq(ss.last())
        } else {
            Seq::<Seq<T>>::empty()
        })
    }
}

/// Every ordered selection of a non-empty sub-collection of `s`.
pub open spec fn choices_seq<T>(s: Seq<T>) -> Seq<Seq<T>> {
    cat_perms(subs_seq(s))
}

/// Pushing a vector corresponds to pushing its element sequence.
proof fn lemma_views_push<T>(vs: Seq<Vec<T>>, w: Vec<T>)
    ensures
        views_of(vs.push(w)) == views_of(vs).push(w@),
{
    assert(views_of(vs.push(w)) =~= views_of(vs).push(w@));
}

/// The order-preserving sub-sequences of `src`; the empty one comes first
/// and the full input last.
pub fn subs<T: Copy>(src: &[T]) -> (res: Vec<Vec<T>>)
    ensures
        views_of(res@) == subs_seq(src@),
    decreases src@.len(),
{
    let n = src.len();
    if n == 0 {
        let mut res: Vec<Vec<T>> = Vec::new();
        res.push(Vec::new());
        proof {
            assert(views_of(res@) =~= subs_seq(src@));
        }
        res
    } else {
        let elem = *slice_index_get(src, 0);
        let rest = slice_subrange(src, 1, n);
        proof {
            assert(rest@ =~= src@.drop_first());
        }
        let mut res = subs(rest);
        let tails = subs(rest);
        let ghost base = subs_seq(rest@);
        let mut i: usize = 0;
        proof {
            assert(views_of(res@) =~= base + cons_all(src@[0], base).take(0));
        }
        while i < tails.len()
            invariant
                i <= tails@.len(),
                elem == src@[0],
                views_of(tails@) == base,
                views_of(res@) == base + cons_all(src@[0], base).take(i as int),
            decreases tails@.len() - i,
        {
            let mut w = slice_to_vec(tails[i].as_slice());
            w.insert(0, elem);
            proof {
                assert(views_of(tails@)[i as int] == tails@[i as int]@);
                assert(w@ =~= seq![src@[0]] + base[i as int]);
            }
            let ghost prev = res@;
            res.push(w);
            proof {
                lemma_views_push(prev, w);
                assert(cons_all(src@[0], base).take(i + 1)
                    =~= cons_all(src@[0], base).take(i as int).push(w@));
                assert((base + cons_all(src@[0], base).take(i as int)).push(w@)
                    =~= base + cons_all(src@[0], base).take(i + 1));
            }
            i = i + 1;
        }
        proof {
            assert(cons_all(src@[0], base).take(base.len() as int) =~= cons_all(src@[0], base));
            assert(views_of(res@) =~= subs_seq(src@));
        }
        res
    }
}

/// `item` inserted into every slot of `with`, front slot first.
pub fn interleave<T: Copy>(item: T, with: &[T]) -> (res: Vec<Vec<T>>)
    ensures
        views_of(res@) == interleave_seq(item, with@),
    decreases with@.len(),
{
    let n = with.len();
    let mut res: Vec<Vec<T>> = Vec::new();
    if n == 0 {
        let mut v: Vec<T> = Vec::new();
        v.push(item);
        res.push(v);
        proof {
            assert(v@ =~= seq![item]);
            assert(views_of(res@) =~= interleave_seq(item, with@));
        }
        res
    } else {
        let mut first = slice_to_vec(with);
        first.insert(0, item);
        proof {
            assert(first@ =~= seq![item] + with@);
        }
        res.push(first);
        let elem = *slice_index_get(with, 0);
        let rest = slice_subrange(with, 1, n);
        proof {
            assert(rest@ =~= with@.drop_first());
        }
        let subres = interleave(item, rest);
        let ghost base = interleave_seq(item, rest@);
        let mut i: usize = 0;
        proof {
            assert(views_of(res@) =~= seq![seq![item] + with@]
                + cons_all(with@[0], base).take(0));
        }
        while i < subres.len()
            invariant
                i <= subres@.len(),
                elem == with@[0],
                views_of(subres@) == base,
                views_of(res@) == seq![seq![item] + with@] + cons_all(with@[0], base).take(i as int),
            decreases subres@.len() - i,
        {
            let mut w = slice_to_vec(subres[i].as_slice());
            w.insert(0, elem);
            proof {
                assert(views_of(subres@)[i as int] == subres@[i as int]@);
                assert(w@ =~= seq![with@[0]] + base[i as int]);
            }
            let ghost prev = res@;
            res.push(w);
            proof {
                lemma_views_push(prev, w);
                assert(cons_all(with@[0], base).take(i + 1)
                    =~= cons_all(with@[0], base).take(i as int).push(w@));
                assert((seq![seq![item] + with@] + cons_all(with@[0], base).take(i as int)).push(w@)
                    =~= seq![seq![item] + with@] + cons_all(with@[0], base).take(i + 1));
            }
            i = i + 1;
        }
        proof {
            assert(cons_all(with@[0], base).take(base.len() as int) =~= cons_all(with@[0], base));
            assert(views_of(res@) =~= interleave_seq(item, with@));
        }
        res
    }
}

/// Every permutation of `src`.
pub fn perms<T: Copy>(src: &[T]) -> (res: Vec<Vec<T>>)
    ensures
        views_of(res@) == perms_seq(src@),
    decreases src@.len(),
{
    let mut res: Vec<Vec<T>> = Vec::new();
    let n = src.len();
    if n > 0 {
        let elem = *slice_index_get(src, 0);
        let rest = slice_subrange(src, 1, n);
        proof {
            assert(rest@ =~= src@.drop_first());
        }
        let rest_perms = perms(rest);
        let ghost base = perms_seq(rest@);
        let mut i: usize = 0;
        proof {
            assert(views_of(res@) =~= cat_inter(src@[0], base.take(0)));
        }
        while i < rest_perms.len()
            invariant
                i <= rest_perms@.len(),
                elem == src@[0],
                views_of(rest_perms@) == base,
                views_of(res@) == cat_inter(src@[0], base.take(i as int)),
            decreases rest_perms@.len() - i,
        {
            proof {
                assert(views_of(rest_perms@)[i as int] == rest_perms@[i as int]@);
            }
            let ivs = interleave(elem, rest_perms[i].as_slice());
            let ghost mid = views_of(res@);
            let mut k: usize = 0;
            proof {
                assert(views_of(res@) =~= mid + views_of(ivs@).take(0));
            }
            while k < ivs.len()
                invariant
                    k <= ivs@.len(),
                    views_of(res@) == mid + views_of(ivs@).take(k as int),
                decreases ivs@.len() - k,
            {
                let w = slice_to_vec(ivs[k].as_slice());
                let ghost prev = res@;
                res.push(w);
                proof {
                    lemma_views_push(prev, w);
                    assert(views_of(ivs@)[k as int] == ivs@[k as int]@);
                    assert(views_of(ivs@).take(k + 1)
                        =~= views_of(ivs@).take(k as int).push(w@));
                    assert((mid + views_of(ivs@).take(k as int)).push(w@)
                        =~= mid + views_of(ivs@).take(k + 1));
                }
                k = k + 1;
            }
            proof {
                assert(views_of(ivs@).take(ivs@.len() as int) =~= views_of(ivs@));
                assert(base.take(i + 1).drop_last() =~= base.take(i as int));
                assert(base.take(i + 1).last() == base[i as int]);
                assert(views_of(res@) =~= cat_inter(src@[0], base.take(i + 1)));
            }
            i = i + 1;
        }
        proof {
            assert(base.take(base.len() as int) =~= base);
            assert(views_of(res@) =~= perms_seq(src@));
        }
    } else {
        res.push(Vec::new());
        proof {
            assert(views_of(res@) =~= perms_seq(src@));
        }
    }
    res
}

/// Every ordered selection of a non-empty sub-collection of `src`: each
/// permutation of each non-empty sub-sequence, grouped by sub-sequence.
pub fn choices<T: Copy>(src: &[T]) -> (res: Vec<Vec<T>>)
    ensures
        views_of(res@) == choices_seq(src@),
        res@.len() == sel_sum(src@.len(), src@.len()),
{
    let mut res: Vec<Vec<T>> = Vec::new();
    let subsets = subs(src);
    let ghost base = subs_seq(src@);
    let mut i: usize = 0;
    proof {
        assert(views_of(res@) =~= cat_perms(base.take(0)));
    }
    while i < subsets.len()
        invariant
            i <= subsets@.len(),
            views_of(subsets@) == base,
            views_of(res@) == cat_perms(base.take(i as int)),
        decreases subsets@.len() - i,
    {
        proof {
            assert(views_of(subsets@)[i as int] == subsets@[i as int]@);
            assert(base.take(i + 1).drop_last() =~= base.take(i as int));
            assert(base.take(i + 1).last() == base[i as int]);
        }
        if subsets[i].len() > 0 {
            let ps = perms(subsets[i].as_slice());
            let ghost mid = views_of(res@);
            let mut k: usize = 0;
            proof {
                assert(views_of(res@) =~= mid + views_of(ps@).take(0));
            }
            while k < ps.len()
                invariant
                    k <= ps@.len(),
                    views_of(res@) == mid + views_of(ps@).take(k as int),
                decreases ps@.len() - k,
            {
                let w = slice_to_vec(ps[k].as_slice());
                let ghost prev = res@;
                res.push(w);
                proof {
                    lemma_views_push(prev, w);
                    assert(views_of(ps@)[k as int] == ps@[k as int]@);
                    assert(views_of(ps@).take(k + 1)
                        =~= views_of(ps@).take(k as int).push(w@));
                    assert((mid + views_of(ps@).take(k as int)).push(w@)
                        =~= mid + views_of(ps@).take(k + 1));
                }
                k = k + 1;
            }
            proof {
                assert(views_of(ps@).take(ps@.len() as int) =~= views_of(ps@));
                assert(views_of(res@) =~= cat_perms(base.take(i + 1)));
            }
        } else {
            proof {
                assert(views_of(res@) =~= cat_perms(base.take(i + 1)));
            }
        }
        i = i + 1;
    }
    proof {
        assert(base.take(base.len() as int) =~= base);
        lemma_choices_count(src@);
    }
    res
}

/// Every contiguous bipartition of `src` into a non-empty prefix and a
/// non-empty suffix, shortest prefix first: exactly `len - 1` pairs, each
/// pair concatenating back to `src`.
pub fn split<T: Copy>(src: &[T]) -> (res: Vec<(Vec<T>, Vec<T>)>)
    ensures
        src@.len() <= 1 ==> res@.len() == 0,
        src@.len() > 1 ==> res@.len() == src@.len() - 1,
        forall|i: int| 0 <= i < res@.len()
            ==> #[trigger] res@[i].0@ == src@.take(i + 1) && res@[i].1@ == src@.skip(i + 1),
        forall|i: int| 0 <= i < res@.len()
            ==> #[trigger] res@[i].0@.len() + res@[i].1@.len() == src@.len(),
        forall|i: int| 0 <= i < res@.len() ==> #[trigger] (res@[i].0@ + res@[i].1@) == src@,
{
    let n = src.len();
    let mut res: Vec<(Vec<T>, Vec<T>)> = Vec::new();
    if n > 1 {
        let mut c: usize = 1;
        while c < n
            invariant
                1 <= c <= n,
                n == src@.len(),
                res@.len() == c - 1,
                forall|i: int| #![trigger res@[i]] 0 <= i < res@.len()
                    ==> res@[i].0@ == src@.take(i + 1) && res@[i].1@ == src@.skip(i + 1),
            decreases n - c,
        {
            let a = slice_to_vec(slice_subrange(src, 0, c));
            let b = slice_to_vec(slice_subrange(src, c, n));
            proof {
                assert(a@ =~= src@.take(c as int));
                assert(b@ =~= src@.skip(c as int));
            }
            let ghost prev = res@;
            res.push((a, b));
            proof {
                assert forall|i: int| #![trigger res@[i]] 0 <= i < res@.len()
                    implies res@[i].0@ == src@.take(i + 1)
                        && res@[i].1@ == src@.skip(i + 1) by {
                    if i == res@.len() - 1 {
                        assert(res@[i] == (a, b));
                    } else {
                        assert(res@[i] == prev[i]);
                    }
                }
            }
            c = c + 1;
        }
    }
    proof {
        assert forall|i: int| 0 <= i < res@.len()
            implies #[trigger] (res@[i].0@ + res@[i].1@) == src@ by {
            assert(res@[i].0@ + res@[i].1@ =~= src@);
        }
    }
    res
}


/// The factorial.
pub open spec fn fact(n: nat) -> nat
    decreases n,
{
    if n == 0 {
        1
    } else {
        n * fact((n - 1) as nat)
    }
}

/// The binomial coefficient, by Pascal's rule.
pub open spec fn binom(n: nat, k: nat) -> nat
    decreases n,
{
    if k == 0 {
        1
    } else if n == 0 {
        0
    } else {
        binom((n - 1) as nat, k) + binom((n - 1) as nat, (k - 1) as nat)
    }
}

/// How many ordered selections one sub-collection of size `k` yields:
/// none for the empty one, `k!` otherwise.
pub open spec fn pc(k: nat) -> nat {
    if k == 0 {
        0
    } else {
        fact(k)
    }
}

/// The selection count over every sub-collection of `ss`.
pub open spec fn sum_pc<T>(ss: Seq<Seq<T>>) -> nat
    decreases ss.len(),
{
    if ss.len() == 0 {
        0
    } else {
        sum_pc(ss.drop_last()) + pc(ss.last().len())
    }
}

/// How many sequences of `ss` have length `k`.
pub open spec fn count_len<T>(ss: Seq<Seq<T>>, k: nat) -> nat
    decreases ss.len(),
{
    if ss.len() == 0 {
        0
    } else {
        count_len(ss.drop_last(), k) + (if ss.last().len() == k {
            1nat
        } else {
            0nat
        })
    }
}

/// The selection count of `ss` grouped by sub-collection size, over sizes
/// `0..=cap`.
pub open spec fn ksum<T>(ss: Seq<Seq<T>>, cap: nat) -> nat
    decreases cap,
{
    if cap == 0 {
        count_len(ss, 0) * pc(0)
    } else {
        ksum(ss, (cap - 1) as nat) + count_len(ss, cap) * pc(cap)
    }
}

/// The number of ordered selections of a collection of size `n`, summed
/// over selection sizes `1..=cap`: each size `k` contributes
/// `binom(n, k) * k!`, the count written `n! / (n-k)!` once multiplied
/// out against `(n-k)!` (see `lemma_binom_fact`).
pub open spec fn sel_sum(n: nat, cap: nat) -> nat
    decreases cap,
{
    if cap == 0 {
        0
    } else {
        sel_sum(n, (cap - 1) as nat) + binom(n, cap) * fact(cap)
    }
}

/// Interleaving yields one sequence per slot, each one element longer.
proof fn lemma_interleave_props<T>(x: T, w: Seq<T>)
    ensures
        interleave_seq(x, w).len() == w.len() + 1,
        forall|t: int| 0 <= t < interleave_seq(x, w).len()
            ==> #[trigger] interleave_seq(x, w)[t].len() == w.len() + 1,
    decreases w.len(),
{
    if w.len() > 0 {
        lemma_interleave_props(x, w.drop_first());
        let rec = interleave_seq(x, w.drop_first());
        let whole = interleave_seq(x, w);
        assert forall|t: int| 0 <= t < whole.len()
            implies #[trigger] whole[t].len() == w.len() + 1 by {
            if t >= 1 {
                assert(whole[t] == cons_all(w[0], rec)[t - 1]);
                assert(cons_all(w[0], rec)[t - 1] == seq![w[0]] + rec[t - 1]);
            }
        }
    }
}

/// Concatenated interleavings of equal-length sequences: count and
/// element lengths.
proof fn lemma_cat_inter_props<T>(x: T, ps: Seq<Seq<T>>, len_in: nat)
    requires
        forall|t: int| 0 <= t < ps.len() ==> #[trigger] ps[t].len() == len_in,
    ensures
        cat_inter(x, ps).len() == ps.len() * (len_in + 1),
        forall|t: int| 0 <= t < cat_inter(x, ps).len()
            ==> #[trigger] cat_inter(x, ps)[t].len() == len_in + 1,
    decreases ps.len(),
{
    if ps.len() == 0 {
        assert(ps.len() * (len_in + 1) == 0) by (nonlinear_arith)
            requires ps.len() == 0;
    } else {
        let front = ps.drop_last();
        assert(forall|t: int| 0 <= t < front.len() ==> #[trigger] front[t].len() == len_in);
        lemma_cat_inter_props(x, front, len_in);
        assert(ps.last().len() == len_in);
        lemma_interleave_props(x, ps.last());
        let a = cat_inter(x, front);
        let b = interleave_seq(x, ps.last());
        assert(cat_inter(x, ps) == a + b);
        assert((a + b).len() == front.len() * (len_in + 1) + (len_in + 1));
        assert(front.len() * (len_in + 1) + (len_in + 1) == ps.len() * (len_in + 1))
            by (nonlinear_arith)
            requires front.len() + 1 == ps.len();
        assert forall|t: int| 0 <= t < (a + b).len()
            implies #[trigger] (a + b)[t].len() == len_in + 1 by {
            if t < a.len() {
                assert((a + b)[t] == a[t]);
            } else {
                assert((a + b)[t] == b[t - a.len()]);
            }
        }
    }
}

/// A collection of `n` elements has `n!` permutations, each of length `n`.
pub proof fn lemma_perms_props<T>(s: Seq<T>)
    ensures
        perms_seq(s).len() == fact(s.len()),
        forall|t: int| 0 <= t < perms_seq(s).len()
            ==> #[trigger] perms_seq(s)[t].len() == s.len(),
    decreases s.len(),
{
    if s.len() > 0 {
        lemma_perms_props(s.drop_first());
        lemma_cat_inter_props(s[0], perms_seq(s.drop_first()), s.drop_first().len());
        assert(fact((s.len() - 1) as nat) * ((s.len() - 1) + 1) == s.len() * fact(
            (s.len() - 1) as nat,
        )) by (nonlinear_arith);
    }
}

/// No sub-sequence is longer than the sequence it came from.
proof fn lemma_subs_elem_len<T>(s: Seq<T>)
    ensures
        forall|t: int| 0 <= t < subs_seq(s).len()
            ==> #[trigger] subs_seq(s)[t].len() <= s.len(),
    decreases s.len(),
{
    if s.len() > 0 {
        lemma_subs_elem_len(s.drop_first());
        let a = subs_seq(s.drop_first());
        let whole = subs_seq(s);
        assert forall|t: int| 0 <= t < whole.len()
            implies #[trigger] whole[t].len() <= s.len() by {
            if t < a.len() {
                assert(whole[t] == a[t]);
            } else {
                assert(whole[t] == cons_all(s[0], a)[t - a.len()]);
                assert(cons_all(s[0], a)[t - a.len()] == seq![s[0]] + a[t - a.len()]);
            }
        }
    }
}

/// Length counts add over concatenation.
proof fn lemma_count_cat<T>(a: Seq<Seq<T>>, b: Seq<Seq<T>>, k: nat)
    ensures
        count_len(a + b, k) == count_len(a, k) + count_len(b, k),
    decreases b.len(),
{
    if b.len() == 0 {
        assert(a + b =~= a);
    } else {
        lemma_count_cat(a, b.drop_last(), k);
        assert((a + b).drop_last() =~= a + b.drop_last());
        assert((a + b).last() == b.last());
    }
}

/// Prepending an element shifts every length count up by one.
proof fn lemma_count_cons<T>(x: T, vs: Seq<Seq<T>>, k: nat)
    ensures
        count_len(cons_all(x, vs), k) == (if k >= 1 {
            count_len(vs, (k - 1) as nat)
        } else {
            0
        }),
    decreases vs.len(),
{
    if vs.len() > 0 {
        lemma_count_cons(x, vs.drop_last(), k);
        assert(cons_all(x, vs).drop_last() =~= cons_all(x, vs.drop_last()));
        assert(cons_all(x, vs).last() == seq![x] + vs.last());
        assert((seq![x] + vs.last()).len() == vs.last().len() + 1);
    }
}

/// The sub-sequences of a collection of size `n` hold `binom(n, k)` of
/// each length `k`.
proof fn lemma_subs_count<T>(s: Seq<T>, k: nat)
    ensures
        count_len(subs_seq(s), k) == binom(s.len(), k),
    decreases s.len(),
{
    if s.len() == 0 {
        assert(subs_seq(s) =~= seq![Seq::<T>::empty()]);
        assert(subs_seq(s).drop_last() =~= Seq::<Seq<T>>::empty());
        assert(count_len(Seq::<Seq<T>>::empty(), k) == 0);
        assert(subs_seq(s).last().len() == 0);
        assert(count_len(subs_seq(s), k) == (if k == 0 { 1nat } else { 0nat }));
        if k > 0 {
            lemma_binom_high(0, k);
        }
    } else {
        let a = subs_seq(s.drop_first());
        lemma_subs_count(s.drop_first(), k);
        if k >= 1 {
            lemma_subs_count(s.drop_first(), (k - 1) as nat);
        }
        lemma_count_cat(a, cons_all(s[0], a), k);
        lemma_count_cons(s[0], a, k);
    }
}

/// The grouped search yields the grouped count.
proof fn lemma_cat_perms_len<T>(ss: Seq<Seq<T>>)
    ensures
        cat_perms(ss).len() == sum_pc(ss),
    decreases ss.len(),
{
    if ss.len() > 0 {
        lemma_cat_perms_len(ss.drop_last());
        if ss.last().len() > 0 {
            lemma_perms_props(ss.last());
        }
    }
}

/// An empty collection has a zero grouped count at any cap.
proof fn lemma_ksum_empty<T>(cap: nat)
    ensures
        ksum(Seq::<Seq<T>>::empty(), cap) == 0,
    decreases cap,
{
    assert(count_len(Seq::<Seq<T>>::empty(), cap) == 0);
    assert(count_len(Seq::<Seq<T>>::empty(), cap) * pc(cap) == 0) by (nonlinear_arith)
        requires count_len(Seq::<Seq<T>>::empty(), cap) == 0;
    if cap > 0 {
        lemma_ksum_empty::<T>((cap - 1) as nat);
    }
}

/// Dropping the final sub-collection removes exactly its contribution
/// from the grouped count, provided its size is within the cap.
proof fn lemma_ksum_snoc<T>(ss: Seq<Seq<T>>, cap: nat)
    requires
        ss.len() > 0,
        ss.last().len() <= cap,
    ensures
        ksum(ss, cap) == ksum(ss.drop_last(), cap) + pc(ss.last().len()),
    decreases cap,
{
    let front = ss.drop_last();
    let tail_len = ss.last().len();
    if cap == 0 {
        assert(count_len(ss, 0) * pc(0) == 0) by (nonlinear_arith)
            requires pc(0) == 0;
        assert(count_len(front, 0) * pc(0) == 0) by (nonlinear_arith)
            requires pc(0) == 0;
    } else {
        if tail_len <= cap - 1 {
            lemma_ksum_snoc(ss, (cap - 1) as nat);
            assert(count_len(ss, cap) == count_len(front, cap));
            assert(count_len(ss, cap) * pc(cap) == count_len(front, cap) * pc(cap));
        } else {
            assert(tail_len == cap);
            assert(ksum(ss, (cap - 1) as nat) == ksum(front, (cap - 1) as nat)) by {
                lemma_ksum_same_below(ss, front, (cap - 1) as nat);
            }
            assert(count_len(ss, cap) == count_len(front, cap) + 1);
            assert((count_len(front, cap) + 1) * pc(cap) == count_len(front, cap) * pc(cap)
                + pc(cap)) by (nonlinear_arith);
        }
    }
}

/// Two collections with equal length counts up to a cap have equal
/// grouped counts up to it.
proof fn lemma_ksum_same_below<T>(ss: Seq<Seq<T>>, front: Seq<Seq<T>>, cap: nat)
    requires
        forall|k: nat| k <= cap ==> #[trigger] count_len(ss, k) == count_len(front, k),
    ensures
        ksum(ss, cap) == ksum(front, cap),
    decreases cap,
{
    assert(count_len(ss, 0) == count_len(front, 0));
    if cap > 0 {
        lemma_ksum_same_below(ss, front, (cap - 1) as nat);
        assert(count_len(ss, cap) == count_len(front, cap));
    }
}

/// When every sub-collection fits under the cap, the plain and the
/// grouped counts agree.
proof fn lemma_sum_by_count<T>(ss: Seq<Seq<T>>, cap: nat)
    requires
        forall|t: int| 0 <= t < ss.len() ==> #[trigger] ss[t].len() <= cap,
    ensures
        sum_pc(ss) == ksum(ss, cap),
    decreases ss.len(),
{
    if ss.len() == 0 {
        lemma_ksum_empty::<T>(cap);
        assert(ss =~= Seq::<Seq<T>>::empty());
    } else {
        let front = ss.drop_last();
        assert(forall|t: int| 0 <= t < front.len() ==> #[trigger] front[t].len() <= cap);
        lemma_sum_by_count(front, cap);
        assert(ss[ss.len() - 1].len() <= cap);
        lemma_ksum_snoc(ss, cap);
    }
}

/// The grouped count of the sub-sequences is the binomial-weighted sum.
proof fn lemma_ksum_sel<T>(s: Seq<T>, cap: nat)
    ensures
        ksum(subs_seq(s), cap) == sel_sum(s.len(), cap),
    decreases cap,
{
    lemma_subs_count(s, cap);
    if cap == 0 {
        assert(count_len(subs_seq(s), 0) * pc(0) == 0) by (nonlinear_arith)
            requires pc(0) == 0;
    } else {
        lemma_ksum_sel(s, (cap - 1) as nat);
    }
}

/// The number of ordered selections of a collection of `n` tiles is
/// the sum over selection sizes `k` of `1..=n` of `binom(n, k) * k!`,
/// the closed count of ordered `k`-selections.
pub proof fn lemma_choices_count<T>(s: Seq<T>)
    ensures
        choices_seq(s).len() == sel_sum(s.len(), s.len()),
{
    lemma_cat_perms_len(subs_seq(s));
    lemma_subs_elem_len(s);
    lemma_sum_by_count(subs_seq(s), s.len());
    lemma_ksum_sel(s, s.len());
}

/// For sizes above the collection there is nothing to choose.
proof fn lemma_binom_high(n: nat, k: nat)
    requires
        k > n,
    ensures
        binom(n, k) == 0,
    decreases n,
{
    if n > 0 {
        lemma_binom_high((n - 1) as nat, k);
        lemma_binom_high((n - 1) as nat, (k - 1) as nat);
    }
}

/// Choosing everything can be done in exactly one way.
proof fn lemma_binom_diag(n: nat)
    ensures
        binom(n, n) == 1,
    decreases n,
{
    if n > 0 {
        lemma_binom_high((n - 1) as nat, n);
        lemma_binom_diag((n - 1) as nat);
    }
}

/// Each addend of the selection-count sum, `binom(n, k) * k!`, is the
/// falling factorial `n! / (n-k)!`: multiplied by `(n-k)!` it gives `n!`.
pub proof fn lemma_binom_fact(n: nat, k: nat)
    requires
        k <= n,
    ensures
        binom(n, k) * fact(k) * fact((n - k) as nat) == fact(n),
    decreases n,
{
    if n == 0 {
        assert(binom(0, 0) * fact(0) * fact(0) == 1) by (nonlinear_arith)
            requires binom(0, 0) == 1 && fact(0) == 1;
    } else if k == 0 {
        assert(binom(n, 0) * fact(0) * fact(n) == fact(n)) by (nonlinear_arith)
            requires binom(n, 0) == 1 && fact(0) == 1;
    } else if k == n {
        lemma_binom_diag(n);
        assert(binom(n, n) * fact(n) * fact(0) == fact(n)) by (nonlinear_arith)
            requires binom(n, n) == 1 && fact(0) == 1;
    } else {
        let m = (n - 1) as nat;
        lemma_binom_fact(m, k);
        lemma_binom_fact(m, (k - 1) as nat);
        let b1 = binom(m, k);
        let b2 = binom(m, (k - 1) as nat);
        assert(fact((n - k) as nat) == (n - k) * fact((m - k) as nat));
        assert(fact(k) == k * fact((k - 1) as nat));
        assert(b1 * fact(k) * fact((n - k) as nat) == fact(m) * (n - k)) by (nonlinear_arith)
            requires
                fact((n - k) as nat) == (n - k) * fact((m - k) as nat),
                b1 * fact(k) * fact((m - k) as nat) == fact(m),
                n > k,
        ;
        assert(b2 * fact(k) * fact((n - k) as nat) == fact(m) * k) by (nonlinear_arith)
            requires
                fact(k) == k * fact((k - 1) as nat),
                b2 * fact((k - 1) as nat) * fact((n - k) as nat) == fact(m),
        ;
        assert(binom(n, k) == b1 + b2);
        assert((b1 + b2) * fact(k) * fact((n - k) as nat) == fact(m) * (n - k) + fact(m) * k)
            by (nonlinear_arith)
            requires
                b1 * fact(k) * fact((n - k) as nat) == fact(m) * (n - k),
                b2 * fact(k) * fact((n - k) as nat) == fact(m) * k,
        ;
        assert(fact(m) * (n - k) + fact(m) * k == n * fact(m)) by (nonlinear_arith)
            requires n >= k;
        assert(fact(n) == n * fact(m));
    }
}

} // verus!
