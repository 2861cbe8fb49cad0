//! Expression algebra: the operator set, the expression tree, per-operator
//! validity gates, and the partial evaluator.
//!
//! An operator application is *valid* only when it is the canonical
//! representative of its class of symmetric or degenerate expressions
//! (`a + b` with `a <= b`, no multiplication by one, only exact division,
//! and so on).  `op_result` yields a value exactly when that rule holds and
//! the arithmetic stays inside `i32`; everything else is an ordinary
//! "no value" outcome, never a panic.

use vstd::prelude::*;
use vstd::arithmetic::power::{pow, lemma_pow_increases, lemma_pow_positive};
use vstd::arithmetic::div_mod::{
    lemma_fundamental_div_mod, lemma_mod_multiples_basic, lemma_mod_division_less_than_divisor,
    lemma_div_multiples_vanish, lemma_div_nonincreasing, lemma_div_pos_is_pos,
};
use vstd::math::abs;
use vstd::multiset::Multiset;
use vstd::string::{StringExecFns, StrSliceExecFns};

verus! {

/// The closed set of binary operators a search may draw from.
#[derive(Clone, Copy, Debug, PartialEq, Eq, Structural)]
pub enum Op {
    Add,
    Sub,
    Mul,
    Div,
    Exp,
    Mod,
}

/// An ordered operator collection, as configured for one run.
pub type OpsType = Vec<Op>;

/// A recursive binary expression tree: a leaf value or an operator node
/// that exclusively owns its two children.
#[derive(Debug)]
pub enum Expr {
    Val(i32),
    Expr(Op, Box<Expr>, Box<Expr>),
}

/// Number of nodes of an expression tree; used as a recursion measure.
pub open spec fn esize(e: Expr) -> nat
    decreases e,
{
    match e {
        Expr::Val(_) => 1,
        Expr::Expr(_, a, b) => 1 + esize(*a) + esize(*b),
    }
}

/// The validity gate: `op` may be applied to `a` and `b` only when this
/// holds.  Each rule admits exactly one representative of a class of
/// operator-symmetric or degenerate expressions.
pub open spec fn valid_op(op: Op, a: i32, b: i32) -> bool {
    match op {
        Op::Add => a <= b,
        Op::Sub => a > b,
        Op::Mul => a != 1 && b != 1 && a <= b && i32::MIN <= a * b <= i32::MAX,
        Op::Div => b > 1 && (a as int) % (b as int) == 0,
        Op::Exp => a > 1 && b > 1 && pow(a as int, b as nat) <= i32::MAX,
        Op::Mod => a > 0 && b != 0,
    }
}

/// The value of one operator application: `Some` exactly when the validity
/// gate holds and the arithmetic result is representable in `i32`.
pub open spec fn op_result(op: Op, a: i32, b: i32) -> Option<i32> {
    if !valid_op(op, a, b) {
        None
    } else {
        match op {
            Op::Add => if i32::MIN <= a + b <= i32::MAX {
                Some((a + b) as i32)
            } else {
                None
            },
            Op::Sub => if a - b <= i32::MAX {
                Some((a - b) as i32)
            } else {
                None
            },
            Op::Mul => Some((a * b) as i32),
            Op::Div => Some(((a as int) / (b as int)) as i32),
            Op::Exp => Some(pow(a as int, b as nat) as i32),
            Op::Mod => Some(((a as int) % (abs(b as int) as int)) as i32),
        }
    }
}

/// The meaning of an expression: its value, or `None` as soon as any
/// subtree applies an operator outside its gate or outside `i32`.
pub open spec fn eval_expr(e: Expr) -> Option<i32>
    decreases e,
{
    match e {
        Expr::Val(v) => Some(v),
        Expr::Expr(op, a, b) => match (eval_expr(*a), eval_expr(*b)) {
            (Some(x), Some(y)) => op_result(op, x, y),
            _ => None,
        },
    }
}

/// Whether `a^b` stays within `i32`, and its value if so.
fn pow_checked(a: i32, b: i32) -> (r: Option<i32>)
    requires
        a > 1,
        b > 1,
    ensures
        r == (if pow(a as int, b as nat) <= i32::MAX {
            Some(pow(a as int, b as nat) as i32)
        } else {
            None::<i32>
        }),
{
    let mut acc: i32 = a;
    let mut i: i32 = 1;
    proof {
        vstd::arithmetic::power::lemma_pow1(a as int);
    }
    while i < b
        invariant
            1 < a,
            1 < b,
            1 <= i <= b,
            acc == pow(a as int, i as nat),
        decreases b - i,
    {
        proof {
            reveal(pow);
            assert(pow(a as int, (i + 1) as nat) == a as int * pow(a as int, i as nat));
            assert(acc as int * a as int == a as int * acc as int) by (nonlinear_arith);
        }
        match acc.checked_mul(a) {
            Some(next) => {
                acc = next;
                i = i + 1;
            },
            None => {
                proof {
                    lemma_pow_positive(a as int, i as nat);
                    assert(acc * a == pow(a as int, (i + 1) as nat));
                    assert(acc * a > 0) by (nonlinear_arith)
                        requires acc > 0 && a > 0;
                    assert(pow(a as int, (i + 1) as nat) > i32::MAX);
                    lemma_pow_increases(a as nat, (i + 1) as nat, b as nat);
                }
                return None;
            },
        }
    }
    Some(acc)
}

/// For a positive divisor, negating the dividend preserves exact
/// divisibility.
proof fn lemma_neg_divisible(x: int, d: int)
    requires
        d > 0,
    ensures
        ((-x) % d == 0) <==> (x % d == 0),
{
    lemma_fundamental_div_mod(x, d);
    lemma_fundamental_div_mod(-x, d);
    if x % d == 0 {
        assert(-x == (-(x / d)) * d) by (nonlinear_arith)
            requires x == d * (x / d);
        lemma_mod_multiples_basic(-(x / d), d);
    }
    if (-x) % d == 0 {
        assert(x == (-((-x) / d)) * d) by (nonlinear_arith)
            requires -x == d * ((-x) / d);
        lemma_mod_multiples_basic(-((-x) / d), d);
    }
}

/// Whether `b` divides `a` exactly, for a divisor greater than one.
fn rem_is_zero(a: i32, b: i32) -> (r: bool)
    requires
        b > 1,
    ensures
        r == ((a as int) % (b as int) == 0),
{
    proof {
        lemma_mod_division_less_than_divisor(a as int, b as int);
        lemma_mod_division_less_than_divisor(-(a as int), b as int);
        lemma_neg_divisible(a as int, b as int);
        lemma_mod_multiples_basic(0, b as int);
    }
    match a.checked_rem(b) {
        Some(x) => x == 0,
        None => false,
    }
}

/// Executable form of the validity gate.
pub fn valid(op: &Op, a: i32, b: i32) -> (r: bool)
    ensures
        r == valid_op(*op, a, b),
{
    match op {
        Op::Add => a <= b,
        Op::Sub => a > b,
        Op::Mul => a != 1 && b != 1 && a <= b && a.checked_mul(b).is_some(),
        Op::Div => b > 1 && rem_is_zero(a, b),
        Op::Exp => a > 1 && b > 1 && pow_checked(a, b).is_some(),
        Op::Mod => a > 0 && b != 0,
    }
}

/// Computes one operator application, assuming its gate already holds.
fn op_apply(op: &Op, a: i32, b: i32) -> (r: Option<i32>)
    requires
        valid_op(*op, a, b),
    ensures
        r == op_result(*op, a, b),
{
    match op {
        Op::Add => a.checked_add(b),
        Op::Sub => a.checked_sub(b),
        Op::Mul => a.checked_mul(b),
        Op::Div => {
            proof {
                lemma_div_exact_matches(a as int, b as int);
            }
            a.checked_div(b)
        },
        Op::Exp => pow_checked(a, b),
        Op::Mod => {
            proof {
                if b > 0 {
                    lemma_mod_division_less_than_divisor(a as int, b as int);
                } else {
                    lemma_mod_division_less_than_divisor(a as int, -(b as int));
                }
            }
            a.checked_rem(b)
        },
    }
}

/// For an exact division with divisor above one, truncating and Euclidean
/// division agree and the quotient is representable.
proof fn lemma_div_exact_matches(x: int, d: int)
    requires
        d > 1,
        x % d == 0,
        i32::MIN <= x <= i32::MAX,
    ensures
        x > 0 ==> x / d == ((x / d) as i32) as int && 0 <= x / d <= x,
        x < 0 ==> (-x) / d == -(x / d) && x <= x / d <= 0,
        x == 0 ==> x / d == 0,
{
    lemma_fundamental_div_mod(x, d);
    let q = x / d;
    if x > 0 {
        lemma_div_pos_is_pos(x, d);
        lemma_div_nonincreasing(x, d);
    } else if x < 0 {
        assert(-x == d * (-q)) by (nonlinear_arith)
            requires x == d * q;
        lemma_div_multiples_vanish(-q, d);
        assert((-x) / d == -q);
        assert(q < 0) by (nonlinear_arith)
            requires x == d * q && x < 0 && d > 1;
        assert(d * q <= q) by (nonlinear_arith)
            requires q < 0 && d >= 1;
    } else {
        assert(0 == d * q + 0);
        assert(q == 0) by (nonlinear_arith)
            requires 0 == d * q && d > 1;
    }
}

/// Evaluates both children and, if each yields a value and the rule admits
/// the pair, the operator application; `None` otherwise.
pub fn apply(op: &Op, a: &Expr, b: &Expr) -> (r: Option<i32>)
    ensures
        r == (match (eval_expr(*a), eval_expr(*b)) {
            (Some(x), Some(y)) => op_result(*op, x, y),
            _ => None::<i32>,
        }),
    decreases esize(*a) + esize(*b),
{
    if let Some(x) = eval(a) {
        if let Some(y) = eval(b) {
            if valid(op, x, y) {
                return op_apply(op, x, y);
            }
        }
    }
    None
}

/// Evaluates an expression tree; failure anywhere in a subtree propagates
/// as `None`.
pub fn eval(expr: &Expr) -> (r: Option<i32>)
    ensures
        r == eval_expr(*expr),
    decreases esize(*expr),
{
    match expr {
        Expr::Val(v) => Some(*v),
        Expr::Expr(op, a, b) => apply(op, a, b),
    }
}

impl Expr {
    /// Builds a leaf.
    pub fn new_val(val: i32) -> (e: Expr)
        ensures
            e == Expr::Val(val),
    {
        Expr::Val(val)
    }

    /// Builds an operator node owning the two given children.
    pub fn new_expr(op: Op, a: Expr, b: Expr) -> (e: Expr)
        ensures
            e == Expr::Expr(op, Box::new(a), Box::new(b)),
    {
        Expr::Expr(op, Box::new(a), Box::new(b))
    }

    /// Structural copy of a tree.
    pub fn dup(&self) -> (e: Expr)
        ensures
            e == *self,
        decreases esize(*self),
    {
        match self {
            Expr::Val(v) => Expr::Val(*v),
            Expr::Expr(op, a, b) => Expr::Expr(*op, Box::new((&**a).dup()), Box::new((&**b).dup())),
        }
    }
}

impl Op {
    /// Reads an operator from its display symbol.
    pub fn try_from(value: char) -> (r: Result<Op, &'static str>)
        ensures
            match op_of_char(value) {
                Some(op) => r == Ok::<Op, &'static str>(op),
                None => r is Err,
            },
    {
        match value {
            '+' => Ok(Op::Add),
            '-' => Ok(Op::Sub),
            '*' => Ok(Op::Mul),
            '/' => Ok(Op::Div),
            '^' => Ok(Op::Exp),
            '%' => Ok(Op::Mod),
            _ => Err("Invalid op - only + - * / ^ are allowed"),
        }
    }
}

/// The operator denoted by a display symbol, if any.
pub open spec fn op_of_char(c: char) -> Option<Op> {
    if c == '+' {
        Some(Op::Add)
    } else if c == '-' {
        Some(Op::Sub)
    } else if c == '*' {
        Some(Op::Mul)
    } else if c == '/' {
        Some(Op::Div)
    } else if c == '^' {
        Some(Op::Exp)
    } else if c == '%' {
        Some(Op::Mod)
    } else {
        None
    }
}

/// The full operator set, in its fixed enumeration order.
pub fn all_ops() -> (v: Vec<Op>)
    ensures
        v@ == seq![Op::Add, Op::Sub, Op::Mul, Op::Div, Op::Exp, Op::Mod],
{
    let mut v: Vec<Op> = Vec::new();
    v.push(Op::Add);
    v.push(Op::Sub);
    v.push(Op::Mul);
    v.push(Op::Div);
    v.push(Op::Exp);
    v.push(Op::Mod);
    proof {
        assert(v@ =~= seq![Op::Add, Op::Sub, Op::Mul, Op::Div, Op::Exp, Op::Mod]);
    }
    v
}

/// The standard four-operator set.
pub fn std_ops() -> (v: Vec<Op>)
    ensures
        v@ == seq![Op::Add, Op::Sub, Op::Mul, Op::Div],
{
    let mut v: Vec<Op> = Vec::new();
    v.push(Op::Add);
    v.push(Op::Sub);
    v.push(Op::Mul);
    v.push(Op::Div);
    proof {
        assert(v@ =~= seq![Op::Add, Op::Sub, Op::Mul, Op::Div]);
    }
    v
}

/// An explicit operator list with duplicates removed, first occurrence
/// order preserved.
pub fn unique_ops(ops: &Vec<Op>) -> (r: Vec<Op>)
    ensures
        r@ == ops@.remove_duplicates(Seq::empty()),
{
    let mut r: Vec<Op> = Vec::new();
    let mut k: usize = 0;
    proof {
        assert(ops@.skip(0) =~= ops@);
    }
    while k < ops.len()
        invariant
            k <= ops@.len(),
            ops@.skip(k as int).remove_duplicates(r@) == ops@.remove_duplicates(Seq::empty()),
        decreases ops@.len() - k,
    {
        let op = ops[k];
        let mut seen = false;
        let mut j: usize = 0;
        while j < r.len()
            invariant
                j <= r@.len(),
                seen <==> r@.take(j as int).contains(op),
            decreases r@.len() - j,
        {
            if r[j] == op {
                seen = true;
                proof {
                    assert(r@.take(j + 1)[j as int] == op);
                }
            }
            proof {
                assert(r@.take(j + 1).drop_last() =~= r@.take(j as int));
            }
            j = j + 1;
        }
        proof {
            assert(r@.take(r@.len() as int) =~= r@);
            let tail = ops@.skip(k as int);
            assert(tail[0] == ops@[k as int]);
            assert(tail.skip(1) =~= ops@.skip(k + 1));
        }
        if !seen {
            let ghost old_r = r@;
            r.push(op);
            proof {
                assert(r@ =~= old_r + seq![op]);
            }
        }
        k = k + 1;
    }
    proof {
        assert(ops@.skip(ops@.len() as int) =~= Seq::<Op>::empty());
    }
    r
}

/// Whenever the validity gate admits an operator application whose exact
/// result is representable, the application yields a value.  Addition and
/// subtraction are the only gates that do not already bound the result;
/// multiplication and exponentiation carry their overflow checks inside
/// their checks, and exact division and modulus can never leave `i32`.
pub proof fn lemma_valid_applies(op: Op, a: i32, b: i32)
    requires
        valid_op(op, a, b),
        op == Op::Add ==> i32::MIN <= a + b <= i32::MAX,
        op == Op::Sub ==> a - b <= i32::MAX,
    ensures
        op_result(op, a, b) is Some,
{
}

/// Division is applied exactly on the gated inputs: never when the divisor
/// is at most one or the division is inexact, and always, with the exact
/// quotient, when the divisor exceeds one and divides the dividend.
pub proof fn lemma_div_gate(a: i32, b: i32)
    ensures
        (b <= 1 || (a as int) % (b as int) != 0) ==> op_result(Op::Div, a, b) is None,
        (b > 1 && (a as int) % (b as int) == 0) ==> op_result(Op::Div, a, b)
            == Some((((a as int) / (b as int)) as i32)),
{
}


/// The single leaf value of `e`, if `e` is a leaf.
pub open spec fn leaf_val(e: Expr) -> Seq<i32> {
    match e {
        Expr::Val(n) => seq![n],
        Expr::Expr(_, _, _) => Seq::empty(),
    }
}

/// The leaf values that `e` exposes directly under the operator `op`: its
/// own value for a leaf, and the leaf-valued children of a node carrying
/// the same operator.
pub open spec fn vals_of(e: Expr, op: Op) -> Seq<i32> {
    match e {
        Expr::Val(n) => seq![n],
        Expr::Expr(o, a, b) => if o == op {
            leaf_val(*a) + leaf_val(*b)
        } else {
            Seq::empty()
        },
    }
}

/// The ordering used for leaf-value comparison.
pub open spec fn i32_leq() -> spec_fn(i32, i32) -> bool {
    |x: i32, y: i32| x <= y
}

/// `<=` on `i32` is a total order.
proof fn lemma_i32_leq_total()
    ensures
        vstd::relations::total_ordering(i32_leq()),
{
    let leq = i32_leq();
    assert forall|x: i32, y: i32, z: i32| #[trigger] leq(x, y) && #[trigger] leq(y, z)
        implies leq(x, z) by {}
    assert(vstd::relations::reflexive(leq)) by {
        assert forall|x: i32| #[trigger] leq(x, x) by {}
    }
}

/// Inserting anywhere in a sequence adds exactly that value to its
/// multiset.
proof fn lemma_insert_multiset(s: Seq<i32>, p: int, x: i32)
    requires
        0 <= p <= s.len(),
    ensures
        s.insert(p, x).to_multiset() == s.to_multiset().insert(x),
{
    broadcast use vstd::seq_lib::group_to_multiset_ensures;
    let pieces = s.take(p) + seq![x] + s.skip(p);
    assert(s.insert(p, x) =~= pieces);
    vstd::seq_lib::lemma_multiset_commutative(s.take(p) + seq![x], s.skip(p));
    vstd::seq_lib::lemma_multiset_commutative(s.take(p), seq![x]);
    vstd::seq_lib::lemma_multiset_commutative(s.take(p), s.skip(p));
    assert(s.take(p) + s.skip(p) =~= s);
    assert(seq![x].to_multiset() =~= Multiset::empty().insert(x)) by {
        assert(seq![x].drop_first() =~= Seq::<i32>::empty());
    }
    assert(s.insert(p, x).to_multiset() =~= s.to_multiset().insert(x));
}

/// Inserts `x` into an already sorted vector, keeping it sorted.
fn insert_sorted(r: &mut Vec<i32>, x: i32)
    requires
        vstd::relations::sorted_by(old(r)@, i32_leq()),
    ensures
        vstd::relations::sorted_by(final(r)@, i32_leq()),
        final(r)@.to_multiset() == old(r)@.to_multiset().insert(x),
{
    let mut p: usize = 0;
    while p < r.len() && r[p] <= x
        invariant
            p <= r@.len(),
            forall|i: int| 0 <= i < p ==> r@[i] <= x,
        decreases r@.len() - p,
    {
        p = p + 1;
    }
    proof {
        lemma_insert_multiset(r@, p as int, x);
    }
    let ghost before = r@;
    r.insert(p, x);
    proof {
        let leq = i32_leq();
        let now = r@;
        assert forall|i: int, j: int| 0 <= i < j < now.len() implies #[trigger] leq(now[i], now[j]) by {
            assert(forall|i: int, j: int|
                0 <= i < j < before.len() ==> #[trigger] leq(before[i], before[j]));
            if j < p {
                assert(leq(before[i], before[j]));
            } else if i < p && j == p {
                assert(now[i] <= x);
            } else if i < p && j > p {
                assert(leq(before[i], before[j - 1]));
            } else if i == p {
                assert(now[j] == before[j - 1] && p <= j - 1);
                if p < before.len() {
                    assert(x < before[p as int] || x <= before[p as int]);
                    assert(!(before[p as int] <= x));
                    if p as int <= j - 2 {
                        assert(leq(before[p as int], before[j - 1]));
                    }
                }
            } else {
                assert(leq(before[i - 1], before[j - 1]));
            }
        }
    }
}

/// Sorts the values of a vector ascending.
fn sort_vals(v: &mut Vec<i32>)
    ensures
        vstd::relations::sorted_by(final(v)@, i32_leq()),
        final(v)@.to_multiset() == old(v)@.to_multiset(),
{
    broadcast use vstd::seq_lib::group_to_multiset_ensures;
    let mut r: Vec<i32> = Vec::new();
    let mut k: usize = 0;
    while k < v.len()
        invariant
            k <= v@.len(),
            v@ == old(v)@,
            vstd::relations::sorted_by(r@, i32_leq()),
            r@.to_multiset() == v@.take(k as int).to_multiset(),
        decreases v@.len() - k,
    {
        proof {
            assert(v@.take(k + 1) =~= v@.take(k as int).push(v@[k as int]));
            v@.take(k as int).to_multiset_ensures();
        }
        insert_sorted(&mut r, v[k]);
        k = k + 1;
    }
    proof {
        assert(v@.take(v@.len() as int) =~= v@);
    }
    *v = r;
}

/// Collects the leaf values that `e` exposes directly under `op`.
pub fn get_vals(e: &Expr, op: &Op) -> (vals: Vec<i32>)
    ensures
        vals@ == vals_of(*e, *op),
{
    let mut vals: Vec<i32> = Vec::new();
    match e {
        Expr::Val(n) => {
            vals.push(*n);
            proof {
                assert(vals@ =~= vals_of(*e, *op));
            }
        },
        Expr::Expr(o, a, b) => {
            if o == op {
                if let Expr::Val(n) = &**a {
                    vals.push(*n);
                }
                if let Expr::Val(n) = &**b {
                    vals.push(*n);
                }
            }
            proof {
                assert(vals@ =~= vals_of(*e, *op));
            }
        },
    }
    vals
}

/// The leaf values exposed by `e1` and `e2` under `op`, combined and
/// sorted ascending.
pub fn get_all_vals(e1: &Expr, e2: &Expr, op: &Op) -> (vals: Vec<i32>)
    ensures
        vals@.to_multiset() == (vals_of(*e1, *op) + vals_of(*e2, *op)).to_multiset(),
        vstd::relations::sorted_by(vals@, i32_leq()),
        vals@.len() == vals_of(*e1, *op).len() + vals_of(*e2, *op).len(),
{
    broadcast use vstd::seq_lib::group_to_multiset_ensures;
    let mut vals = get_vals(e1, op);
    let mut more = get_vals(e2, op);
    let ghost both = vals@ + more@;
    vals.append(&mut more);
    proof {
        assert(vals@ =~= both);
    }
    sort_vals(&mut vals);
    proof {
        assert(vals@.to_multiset().len() == both.to_multiset().len());
    }
    vals
}

/// The shallow commutative-chain check: both expression pairs expose, under
/// `op`, at least three leaf values forming the same multiset.
pub open spec fn eq_vals_spec(l1: Expr, l2: Expr, r1: Expr, r2: Expr, op: Op) -> bool {
    let lv = vals_of(l1, op) + vals_of(l2, op);
    let rv = vals_of(r1, op) + vals_of(r2, op);
    lv.len() >= 3 && lv.to_multiset() == rv.to_multiset()
}

/// Element-wise vector comparison.
fn vals_equal(a: &Vec<i32>, b: &Vec<i32>) -> (r: bool)
    ensures
        r == (a@ == b@),
{
    if a.len() != b.len() {
        return false;
    }
    let mut k: usize = 0;
    while k < a.len()
        invariant
            k <= a@.len(),
            a@.len() == b@.len(),
            forall|i: int| 0 <= i < k ==> a@[i] == b@[i],
        decreases a@.len() - k,
    {
        if a[k] != b[k] {
            return false;
        }
        k = k + 1;
    }
    proof {
        assert(a@ =~= b@);
    }
    true
}

/// Executable form of the shallow commutative-chain check.
pub fn eq_vals(l1: &Expr, l2: &Expr, r1: &Expr, r2: &Expr, op: &Op) -> (r: bool)
    ensures
        r == eq_vals_spec(*l1, *l2, *r1, *r2, *op),
{
    broadcast use vstd::seq_lib::group_to_multiset_ensures;
    let lv = get_all_vals(l1, l2, op);
    let rv = get_all_vals(r1, r2, op);
    let same = vals_equal(&lv, &rv);
    proof {
        if !same {
            lemma_i32_leq_total();
            if lv@.to_multiset() == rv@.to_multiset() {
                vstd::seq_lib::lemma_sorted_unique(lv@, rv@, i32_leq());
            }
        }
    }
    lv.len() >= 3 && same
}

/// The relaxed equivalence relation used for duplicate elimination: leaves
/// by value, non-commutative nodes structurally, and commutative nodes
/// either structurally up to a swap of their children or through the
/// shallow leaf-multiset check.
pub open spec fn equiv(x: Expr, y: Expr) -> bool
    decreases esize(x),
{
    match (x, y) {
        (Expr::Val(l), Expr::Val(r)) => l == r,
        (Expr::Expr(lo, l1, l2), Expr::Expr(ro, r1, r2)) => {
            if lo == Op::Add || lo == Op::Mul {
                lo == ro && ((equiv(*l1, *r1) && equiv(*l2, *r2))
                    || (equiv(*l1, *r2) && equiv(*l2, *r1))
                    || eq_vals_spec(*l1, *l2, *r1, *r2, lo))
            } else {
                lo == ro && equiv(*l1, *r1) && equiv(*l2, *r2)
            }
        },
        _ => false,
    }
}

/// Executable form of the equivalence relation.
pub fn eq_expr(a: &Expr, b: &Expr) -> (r: bool)
    ensures
        r == equiv(*a, *b),
    decreases esize(*a),
{
    match (a, b) {
        (Expr::Val(l), Expr::Val(r)) => *l == *r,
        (Expr::Expr(lo, l1, l2), Expr::Expr(ro, r1, r2)) => {
            if *lo == Op::Add || *lo == Op::Mul {
                if *lo == *ro {
                    if (eq_expr(l1, r1) && eq_expr(l2, r2))
                        || (eq_expr(l1, r2) && eq_expr(l2, r1)) {
                        true
                    } else {
                        eq_vals(l1, l2, r1, r2, lo)
                    }
                } else {
                    false
                }
            } else {
                *lo == *ro && eq_expr(l1, r1) && eq_expr(l2, r2)
            }
        },
        _ => false,
    }
}

impl PartialEq for Expr {
    /// Equality on expressions is the relaxed duplicate-elimination
    /// equivalence, not tree identity.
    fn eq(&self, other: &Self) -> (r: bool) {
        eq_expr(self, other)
    }
}

impl vstd::std_specs::cmp::PartialEqSpecImpl for Expr {
    open spec fn obeys_eq_spec() -> bool {
        true
    }

    open spec fn eq_spec(&self, other: &Expr) -> bool {
        equiv(*self, *other)
    }
}


/// The character of one decimal digit.
pub open spec fn digit_char(d: int) -> char {
    if d == 0 { '0' }
    else if d == 1 { '1' }
    else if d == 2 { '2' }
    else if d == 3 { '3' }
    else if d == 4 { '4' }
    else if d == 5 { '5' }
    else if d == 6 { '6' }
    else if d == 7 { '7' }
    else if d == 8 { '8' }
    else { '9' }
}

/// The decimal digits of a natural number, most significant first.
pub open spec fn dec_digits(n: nat) -> Seq<char>
    decreases n,
{
    if n < 10 {
        seq![digit_char(n as int)]
    } else {
        dec_digits(n / 10) + seq![digit_char((n % 10) as int)]
    }
}

/// The decimal rendering of an integer, with a leading minus sign when
/// negative.
pub open spec fn dec_str(n: int) -> Seq<char> {
    if n < 0 {
        seq!['-'] + dec_digits((-n) as nat)
    } else {
        dec_digits(n as nat)
    }
}

/// The display symbol of an operator.
pub open spec fn op_sym(op: Op) -> Seq<char> {
    match op {
        Op::Add => seq!['+'],
        Op::Sub => seq!['-'],
        Op::Mul => seq!['*'],
        Op::Div => seq!['/'],
        Op::Exp => seq!['^'],
        Op::Mod => seq!['%'],
    }
}

/// The fully parenthesized rendering of an expression.
pub open spec fn brak_str(e: Expr) -> Seq<char>
    decreases e,
{
    match e {
        Expr::Val(v) => dec_str(v as int),
        Expr::Expr(op, a, b) => seq!['('] + brak_str(*a) + seq![' '] + op_sym(op) + seq![' ']
            + brak_str(*b) + seq![')'],
    }
}

/// The rendering of an expression: every node parenthesized but the
/// outermost.
pub open spec fn expr_str(e: Expr) -> Seq<char> {
    match e {
        Expr::Val(v) => dec_str(v as int),
        Expr::Expr(op, a, b) => brak_str(*a) + seq![' '] + op_sym(op) + seq![' '] + brak_str(*b),
    }
}

/// One decimal digit as text.
fn digit_text(d: u64) -> (s: &'static str)
    requires
        d < 10,
    ensures
        s@ == seq![digit_char(d as int)],
{
    proof {
        reveal_strlit("0");
        reveal_strlit("1");
        reveal_strlit("2");
        reveal_strlit("3");
        reveal_strlit("4");
        reveal_strlit("5");
        reveal_strlit("6");
        reveal_strlit("7");
        reveal_strlit("8");
        reveal_strlit("9");
    }
    let s: &'static str = match d {
        0 => "0",
        1 => "1",
        2 => "2",
        3 => "3",
        4 => "4",
        5 => "5",
        6 => "6",
        7 => "7",
        8 => "8",
        _ => "9",
    };
    proof {
        assert(s@ =~= seq![digit_char(d as int)]);
    }
    s
}

/// Appends the decimal digits of `m` to `out`.
fn push_digits(out: &mut String, m: u64)
    ensures
        final(out)@ == old(out)@ + dec_digits(m as nat),
    decreases m,
{
    if m < 10 {
        out.append(digit_text(m));
        proof {
            assert(final(out)@ =~= old(out)@ + dec_digits(m as nat));
        }
    } else {
        push_digits(out, m / 10);
        out.append(digit_text(m % 10));
        proof {
            assert(final(out)@ =~= old(out)@ + dec_digits(m as nat));
        }
    }
}

/// The decimal text of an integer.
fn int_text(n: i32) -> (s: String)
    ensures
        s@ == dec_str(n as int),
{
    let mut s = String::new();
    let m: u64;
    if n < 0 {
        proof {
            reveal_strlit("-");
        }
        s.append("-");
        proof {
            assert(s@ =~= seq!['-']);
        }
        m = (-(n as i64)) as u64;
    } else {
        m = n as u64;
    }
    push_digits(&mut s, m);
    proof {
        assert(s@ =~= dec_str(n as int));
    }
    s
}

/// The display symbol of an operator as text.
pub fn op_text(op: &Op) -> (s: &'static str)
    ensures
        s@ == op_sym(*op),
{
    proof {
        reveal_strlit("+");
        reveal_strlit("-");
        reveal_strlit("*");
        reveal_strlit("/");
        reveal_strlit("^");
        reveal_strlit("%");
    }
    let s: &'static str = match op {
        Op::Add => "+",
        Op::Sub => "-",
        Op::Mul => "*",
        Op::Div => "/",
        Op::Exp => "^",
        Op::Mod => "%",
    };
    proof {
        assert(s@ =~= op_sym(*op));
    }
    s
}

/// Appends the fully parenthesized rendering of `e` to `out`.
fn push_brak(out: &mut String, e: &Expr)
    ensures
        final(out)@ == old(out)@ + brak_str(*e),
    decreases esize(*e),
{
    match e {
        Expr::Val(v) => {
            let t = int_text(*v);
            out.append(t.as_str());
            proof {
                assert(final(out)@ =~= old(out)@ + brak_str(*e));
            }
        },
        Expr::Expr(op, a, b) => {
            proof {
                reveal_strlit("(");
                reveal_strlit(")");
                reveal_strlit(" ");
            }
            out.append("(");
            push_brak(out, a);
            out.append(" ");
            out.append(op_text(op));
            out.append(" ");
            push_brak(out, b);
            out.append(")");
            proof {
                assert("("@ =~= seq!['(']);
                assert(")"@ =~= seq![')']);
                assert(" "@ =~= seq![' ']);
                assert(final(out)@ =~= old(out)@ + brak_str(*e));
            }
        },
    }
}

impl Expr {
    /// Renders an expression for display: children fully parenthesized,
    /// the outermost node bare.
    pub fn to_text(&self) -> (s: String)
        ensures
            s@ == expr_str(*self),
    {
        match self {
            Expr::Val(v) => {
                let s = int_text(*v);
                proof {
                    assert(s@ =~= expr_str(*self));
                }
                s
            },
            Expr::Expr(op, a, b) => {
                proof {
                    reveal_strlit(" ");
                }
                let mut s = String::new();
                push_brak(&mut s, a);
                s.append(" ");
                s.append(op_text(op));
                s.append(" ");
                push_brak(&mut s, b);
                proof {
                    assert(" "@ =~= seq![' ']);
                    assert(s@ =~= expr_str(*self));
                }
                s
            },
        }
    }
}

} // verus!
