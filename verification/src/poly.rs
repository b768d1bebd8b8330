//! Multilinear polynomials in evaluation form over the Boolean hypercube.
//!
//! A table `e` of length `2^n` holds the values of a polynomial in `n`
//! variables; index bit `i` of an entry is the value of variable `i`.

use crate::field::{
    fadd, fmul, fsub, lemma_mod_range, lemma_pow2_gt, lemma_pow2_mono, lemma_pow2_pos, p, pow2, vals,
    Fr,
};
use vstd::arithmetic::div_mod::*;
use vstd::arithmetic::mul::*;
use vstd::prelude::*;

verus! {

/// The multilinear extension of the table `e`, evaluated at `t`, before
/// reduction modulo the field order.
pub open spec fn ml_int(e: Seq<int>, t: Seq<int>) -> int
    decreases t.len(),
{
    if t.len() == 0 {
        e[0]
    } else {
        let x = t.last();
        let h = e.len() / 2;
        (1 - x) * ml_int(e.take(h as int), t.drop_last()) + x * ml_int(
            e.skip(h as int),
            t.drop_last(),
        )
    }
}

/// The multilinear extension of the table `e`, evaluated at `t` in the field.
pub open spec fn ml_eval(e: Seq<int>, t: Seq<int>) -> int {
    ml_int(e, t) % p()
}

/// One folding step: fixes the highest variable of `r` to `x`.
pub open spec fn fold(r: Seq<int>, x: int) -> Seq<int> {
    let h = r.len() / 2;
    Seq::new(h, |j: int| fadd(r[j], fmul(fsub(r[h + j], r[j]), x)))
}

/// The quotient taken off in one folding step: the high half minus the low half.
pub open spec fn quot(r: Seq<int>) -> Seq<int> {
    let h = r.len() / 2;
    Seq::new(h, |j: int| fsub(r[h + j], r[j]))
}

/// Folds the variables of `s` into `e`, the last one first.
pub open spec fn fold_all(e: Seq<int>, s: Seq<int>) -> Seq<int>
    decreases s.len(),
{
    if s.len() == 0 {
        e
    } else {
        fold(fold_all(e, s.drop_first()), s[0])
    }
}

/// The `k`-th multilinear quotient of `e` at `u`: a table in `k` variables.
pub open spec fn quotient(e: Seq<int>, u: Seq<int>, k: int) -> Seq<int> {
    quot(fold_all(e, u.skip(k + 1)))
}

/// The pointwise integer combination `a * x + b * y`.
pub open spec fn lin(a: int, x: Seq<int>, b: int, y: Seq<int>) -> Seq<int> {
    Seq::new(x.len(), |j: int| a * x[j] + b * y[j])
}

/// The equality table of `t`: entry `b` is the product over `i` of `t[i]`
/// where bit `i` of `b` is set and of `1 - t[i]` where it is not.
pub open spec fn eq_table(t: Seq<int>) -> Seq<int>
    decreases t.len(),
{
    if t.len() == 0 {
        seq![1]
    } else {
        let e = eq_table(t.drop_last());
        let x = t.last();
        e.map_values(|v: int| fmul(v, fsub(1, x))) + e.map_values(|v: int| fmul(v, x))
    }
}


proof fn lemma_mul_swap(c: int, a: int, u: int)
    ensures
        c * (a * u) == a * (c * u),
{
    lemma_mul_is_associative(c, a, u);
    lemma_mul_is_associative(a, c, u);
    lemma_mul_is_commutative(c, a);
}

/// The equality table of `t` has `2^|t|` entries.
pub proof fn lemma_eq_table_len(t: Seq<int>)
    ensures
        eq_table(t).len() == pow2(t.len()),
    decreases t.len(),
{
    if t.len() > 0 {
        lemma_eq_table_len(t.drop_last());
    }
}

/// The multilinear extension is linear in the table.
pub(crate) proof fn lemma_ml_lin(a: int, x: Seq<int>, b: int, y: Seq<int>, t: Seq<int>)
    requires
        x.len() == pow2(t.len()),
        y.len() == pow2(t.len()),
    ensures
        ml_int(lin(a, x, b, y), t) == a * ml_int(x, t) + b * ml_int(y, t),
    decreases t.len(),
{
    lemma_pow2_pos(t.len());
    if t.len() > 0 {
        let s = t.drop_last();
        let h = (x.len() / 2) as int;
        let l = lin(a, x, b, y);
        assert(pow2(t.len()) == 2 * pow2(s.len()));
        assert(l.take(h) =~= lin(a, x.take(h), b, y.take(h)));
        assert(l.skip(h) =~= lin(a, x.skip(h), b, y.skip(h)));
        lemma_ml_lin(a, x.take(h), b, y.take(h), s);
        lemma_ml_lin(a, x.skip(h), b, y.skip(h), s);
        let u1 = ml_int(x.take(h), s);
        let u2 = ml_int(x.skip(h), s);
        let v1 = ml_int(y.take(h), s);
        let v2 = ml_int(y.skip(h), s);
        let z = t.last();
        lemma_mul_is_distributive_add(1 - z, a * u1, b * v1);
        lemma_mul_is_distributive_add(z, a * u2, b * v2);
        lemma_mul_is_distributive_add(a, (1 - z) * u1, z * u2);
        lemma_mul_is_distributive_add(b, (1 - z) * v1, z * v2);
        lemma_mul_swap(1 - z, a, u1);
        lemma_mul_swap(1 - z, b, v1);
        lemma_mul_swap(z, a, u2);
        lemma_mul_swap(z, b, v2);
    }
}

/// A linear combination respects congruence of its arguments.
proof fn lemma_cong_comb(c: int, d: int, u1: int, u2: int, v1: int, v2: int)
    requires
        u1 % p() == v1 % p(),
        u2 % p() == v2 % p(),
    ensures
        (c * u1 + d * u2) % p() == (c * v1 + d * v2) % p(),
{
    lemma_mul_mod_noop_right(c, u1, p());
    lemma_mul_mod_noop_right(c, v1, p());
    lemma_mul_mod_noop_right(d, u2, p());
    lemma_mul_mod_noop_right(d, v2, p());
    lemma_add_mod_noop(c * u1, d * u2, p());
    lemma_add_mod_noop(c * v1, d * v2, p());
}

/// Tables congruent entry by entry have congruent extensions.
pub(crate) proof fn lemma_ml_cong(x: Seq<int>, y: Seq<int>, t: Seq<int>)
    requires
        x.len() == pow2(t.len()),
        y.len() == pow2(t.len()),
        forall|j: int| 0 <= j < x.len() ==> #[trigger] x[j] % p() == y[j] % p(),
    ensures
        ml_int(x, t) % p() == ml_int(y, t) % p(),
    decreases t.len(),
{
    lemma_pow2_pos(t.len());
    if t.len() > 0 {
        let s = t.drop_last();
        let h = (x.len() / 2) as int;
        assert(pow2(t.len()) == 2 * pow2(s.len()));
        assert forall|j: int| 0 <= j < x.take(h).len() implies #[trigger] x.take(h)[j] % p()
            == y.take(h)[j] % p() by {
            assert(x.take(h)[j] == x[j]);
        }
        assert forall|j: int| 0 <= j < x.skip(h).len() implies #[trigger] x.skip(h)[j] % p()
            == y.skip(h)[j] % p() by {
            assert(x.skip(h)[j] == x[h + j]);
        }
        lemma_ml_cong(x.take(h), y.take(h), s);
        lemma_ml_cong(x.skip(h), y.skip(h), s);
        lemma_cong_comb(
            1 - t.last(),
            t.last(),
            ml_int(x.take(h), s),
            ml_int(x.skip(h), s),
            ml_int(y.take(h), s),
            ml_int(y.skip(h), s),
        );
    }
}

/// One folding step is congruent to the integer combination of the halves.
pub(crate) proof fn lemma_fold_entry(lo: int, hi: int, x: int)
    ensures
        fadd(lo, fmul(fsub(hi, lo), x)) == ((1 - x) * lo + x * hi) % p(),
{
    lemma_mul_mod_noop_left(hi - lo, x, p());
    lemma_add_mod_noop_right(lo, (hi - lo) * x, p());
    lemma_mod_twice((hi - lo) * x, p());
    lemma_add_mod_noop(lo, (hi - lo) * x, p());
    lemma_mul_is_distributive_sub_other_way(x, hi, lo);
    lemma_mul_is_distributive_sub_other_way(lo, 1, x);
    lemma_mul_is_commutative(x, hi);
    lemma_mul_is_commutative(x, lo);
}

/// Folding the highest variable to `x` and then evaluating at `t` is
/// evaluating at `t` extended by `x`.
pub(crate) proof fn lemma_fold_eval(r: Seq<int>, x: int, t: Seq<int>)
    requires
        r.len() == pow2(t.len() + 1),
    ensures
        ml_int(fold(r, x), t) % p() == ml_int(r, t.push(x)) % p(),
{
    let h = (r.len() / 2) as int;
    assert(pow2(t.len() + 1) == 2 * pow2(t.len()));
    let lo = r.take(h);
    let hi = r.skip(h);
    let c = lin(1 - x, lo, x, hi);
    let f = fold(r, x);
    assert forall|j: int| 0 <= j < f.len() implies #[trigger] f[j] % p() == c[j] % p() by {
        lemma_fold_entry(r[j], r[h + j], x);
        lemma_mod_range(f[j]);
        lemma_small_mod(f[j] as nat, p() as nat);
        assert(lo[j] == r[j]);
        assert(hi[j] == r[h + j]);
    }
    lemma_ml_cong(f, c, t);
    lemma_ml_lin(1 - x, lo, x, hi, t);
    assert(t.push(x).drop_last() =~= t);
}

/// Folding all variables of `s` and evaluating at `t` is evaluating at `t ++ s`.
pub proof fn lemma_fold_all_eval(e: Seq<int>, s: Seq<int>, t: Seq<int>)
    requires
        e.len() == pow2(t.len() + s.len()),
    ensures
        fold_all(e, s).len() == pow2(t.len()),
        ml_int(fold_all(e, s), t) % p() == ml_int(e, t + s) % p(),
    decreases s.len(),
{
    if s.len() == 0 {
        assert(t + s =~= t);
    } else {
        let s1 = s.drop_first();
        let t1 = t.push(s[0]);
        lemma_fold_all_eval(e, s1, t1);
        assert(t1 + s1 =~= t + s);
        assert(pow2(t.len() + 1) == 2 * pow2(t.len()));
        lemma_fold_eval(fold_all(e, s1), s[0], t);
    }
}

/// After folding every variable, the single remaining entry is the evaluation.
pub proof fn lemma_remainder_is_eval(e: Seq<int>, u: Seq<int>)
    requires
        e.len() == pow2(u.len()),
    ensures
        fold_all(e, u).len() == 1,
        fold_all(e, u)[0] % p() == ml_eval(e, u),
{
    lemma_fold_all_eval(e, u, Seq::empty());
    assert(Seq::<int>::empty() + u =~= u);
}


/// The sum over the first `m` quotients of `(x[k] - u[k])` times the
/// extension of the `k`-th quotient at the first `k` coordinates of `x`.
pub open spec fn quotient_sum(e: Seq<int>, u: Seq<int>, x: Seq<int>, m: nat) -> int
    decreases m,
{
    if m == 0 {
        0
    } else {
        let k = (m - 1) as nat;
        quotient_sum(e, u, x, k) + (x[k as int] - u[k as int]) * ml_int(quotient(e, u, k as int), x.take(k as int))
    }
}

/// Folding every variable folds the last one first.
proof fn lemma_fold_all_last(e: Seq<int>, s: Seq<int>)
    requires
        s.len() >= 1,
    ensures
        fold_all(e, s) == fold_all(fold(e, s.last()), s.drop_last()),
    decreases s.len(),
{
    if s.len() == 1 {
        assert(s.drop_first() =~= Seq::<int>::empty());
        assert(s.drop_last() =~= Seq::<int>::empty());
        assert(fold_all(e, s.drop_first()) == e);
        assert(s.last() == s[0]);
        assert(fold_all(e, s) == fold(e, s[0]));
        assert(fold_all(fold(e, s.last()), s.drop_last()) == fold(e, s.last()));
    } else {
        let s1 = s.drop_first();
        let l = s.last();
        lemma_fold_all_last(e, s1);
        assert(s1.last() == l);
        let s2 = s.drop_last();
        assert(s2.drop_first() =~= s1.drop_last());
        assert(s2[0] == s[0]);
        assert(fold_all(e, s) == fold(fold_all(e, s1), s[0]));
        assert(fold_all(fold(e, l), s2) == fold(fold_all(fold(e, l), s2.drop_first()), s2[0]));
    }
}

/// Below the highest variable, the quotients are those of the table with
/// the highest variable folded to its coordinate.
pub(crate) proof fn lemma_quotient_of_fold(e: Seq<int>, u: Seq<int>, k: int)
    requires
        0 <= k < u.len() - 1,
    ensures
        quotient(e, u, k) == quotient(fold(e, u.last()), u.drop_last(), k),
{
    let s = u.skip(k + 1);
    lemma_fold_all_last(e, s);
    assert(s.last() == u.last());
    assert(s.drop_last() =~= u.drop_last().skip(k + 1));
}

/// Congruent integers stay congruent when scaled.
proof fn lemma_mul_cong(c: int, a: int, b: int)
    requires
        a % p() == b % p(),
    ensures
        (c * a) % p() == (c * b) % p(),
{
    lemma_mul_mod_noop_right(c, a, p());
    lemma_mul_mod_noop_right(c, b, p());
}

/// An integer combination is congruent to zero when its parts are congruent
/// to parts that sum to zero.
proof fn lemma_sum_cong(a: int, b: int, c: int, b2: int, c2: int)
    requires
        b % p() == b2 % p(),
        c % p() == c2 % p(),
        a - b2 - c2 == 0,
    ensures
        (a - b - c) % p() == 0,
{
    lemma_sub_mod_noop(a, b, p());
    lemma_sub_mod_noop(a, b2, p());
    lemma_sub_mod_noop(a - b, c, p());
    lemma_sub_mod_noop(a - b2, c2, p());
    lemma_sub_mod_noop_right(a - b, c, p());
    lemma_mod_self_0(p());
    lemma_small_mod(0, p() as nat);
    assert((a - b) % p() == (a - b2) % p()) by {
        lemma_sub_mod_noop_right(a, b, p());
        lemma_sub_mod_noop_right(a, b2, p());
    }
    assert((a - b - c) % p() == (a - b2 - c2) % p()) by {
        lemma_sub_mod_noop(a - b, c, p());
        lemma_sub_mod_noop(a - b2, c2, p());
        lemma_sub_mod_noop_right(a - b, c, p());
        lemma_sub_mod_noop_right(a - b2, c2, p());
        lemma_sub_mod_noop(a - b, c, p());
        lemma_add_mod_noop(0, 0, p());
        lemma_sub_mod_noop(a - b, c2, p());
        lemma_mod_twice(a - b, p());
        lemma_mod_twice(a - b2, p());
    }
}

/// One step of the quotient identity: the extension at `x` minus the
/// extension of the folded table at the rest of `x` is `(x_l - u_l)` times
/// the extension of the highest quotient, modulo the field order.
proof fn lemma_quotient_step(e: Seq<int>, x: Seq<int>, ul: int)
    requires
        x.len() >= 1,
        e.len() == pow2(x.len()),
    ensures
        (ml_int(e, x) - ml_int(fold(e, ul), x.drop_last()) - (x.last() - ul) * ml_int(quot(e), x.drop_last())) % p() == 0,
{
    let t = x.drop_last();
    let xl = x.last();
    let h = (e.len() / 2) as int;
    assert(pow2(x.len()) == 2 * pow2(t.len()));
    let lo = e.take(h);
    let hi = e.skip(h);
    let l = ml_int(lo, t);
    let hv = ml_int(hi, t);
    // the extension at x, by its definition
    assert(ml_int(e, x) == (1 - xl) * l + xl * hv);
    // the folded table
    lemma_fold_eval(e, ul, t);
    assert(t.push(ul).drop_last() =~= t);
    assert(ml_int(e, t.push(ul)) == (1 - ul) * l + ul * hv);
    // the quotient is the high half minus the low half
    let q = quot(e);
    let c = lin(1, hi, -1, lo);
    assert forall|j: int| 0 <= j < q.len() implies #[trigger] q[j] % p() == c[j] % p() by {
        assert(hi[j] == e[h + j]);
        assert(lo[j] == e[j]);
        lemma_mod_twice(e[h + j] - e[j], p());
    }
    lemma_ml_cong(q, c, t);
    lemma_ml_lin(1, hi, -1, lo, t);
    let qv = ml_int(q, t);
    lemma_mul_cong(xl - ul, qv, hv - l);
    assert((1 - xl) * l + xl * hv - ((1 - ul) * l + ul * hv) - (xl - ul) * (hv - l) == 0) by (nonlinear_arith);
    lemma_sum_cong(
        ml_int(e, x),
        ml_int(fold(e, ul), t),
        (xl - ul) * qv,
        (1 - ul) * l + ul * hv,
        (xl - ul) * (hv - l),
    );
}

/// The multilinear quotients of `e` at `u` satisfy, at every point `x`,
/// `f(x) = f(u) + sum_k (x_k - u_k) * q_k(x_0, ..., x_{k-1})` in the field,
/// where `f` is the extension of `e` and `q_k` that of the `k`-th quotient.
pub proof fn lemma_quotient_identity(e: Seq<int>, u: Seq<int>, x: Seq<int>)
    requires
        e.len() == pow2(u.len()),
        x.len() == u.len(),
    ensures
        ml_eval(e, x) == (ml_int(e, u) + quotient_sum(e, u, x, u.len())) % p(),
    decreases u.len(),
{
    let n = u.len();
    if n == 0 {
        assert(x =~= u);
        assert(quotient_sum(e, u, x, 0) == 0);
    } else {
        let ul = u.last();
        let e1 = fold(e, ul);
        let u1 = u.drop_last();
        let x1 = x.drop_last();
        assert(pow2(n) == 2 * pow2(u1.len()));
        assert(e1.len() == pow2(u1.len()));
        lemma_quotient_identity(e1, u1, x1);
        // the lower quotients are those of the folded table
        assert forall|m: nat| m <= n - 1 implies #[trigger] quotient_sum(e1, u1, x1, m) == quotient_sum(e, u, x, m) by {
            lemma_quotient_sum_of_fold(e, u, x, m);
        }
        // the highest quotient
        assert(u.skip(n as int) =~= Seq::<int>::empty());
        assert(quotient(e, u, n - 1) == quot(e));
        assert(x.take(n - 1) =~= x1);
        lemma_quotient_step(e, x, ul);
        // the folded table evaluates at the rest of u as e at u
        lemma_fold_eval(e, ul, u1);
        assert(u1.push(ul) =~= u);
        let a = ml_int(e, x);
        let b = ml_int(e1, x1);
        let c = (x.last() - ul) * ml_int(quot(e), x1);
        let s1 = quotient_sum(e, u, x, (n - 1) as nat);
        assert(quotient_sum(e, u, x, n) == s1 + c);
        // a == b + c and b == e(u) + s1, modulo p
        assert((a - b - c) % p() == 0);
        assert(b % p() == (ml_int(e1, u1) + s1) % p());
        assert(ml_int(e1, u1) % p() == ml_int(e, u) % p());
        lemma_identity_combine(a, b, c, ml_int(e1, u1), ml_int(e, u), s1);
    }
}

/// Chains the congruences of one step of the quotient identity.
proof fn lemma_identity_combine(a: int, b: int, c: int, b1: int, eu: int, s1: int)
    requires
        (a - b - c) % p() == 0,
        b % p() == (b1 + s1) % p(),
        b1 % p() == eu % p(),
    ensures
        a % p() == (eu + s1 + c) % p(),
{
    lemma_add_mod_noop(b1, s1, p());
    lemma_add_mod_noop(eu, s1, p());
    lemma_add_mod_noop(b, c, p());
    lemma_add_mod_noop(eu + s1, c, p());
    lemma_fundamental_div_mod(a - b - c, p());
    lemma_mod_multiples_vanish((a - b - c) / p(), b + c, p());
    assert(a == (b + c) + p() * ((a - b - c) / p()));
}

/// The first `m` terms of the quotient sum are those of the folded table.
proof fn lemma_quotient_sum_of_fold(e: Seq<int>, u: Seq<int>, x: Seq<int>, m: nat)
    requires
        u.len() >= 1,
        x.len() == u.len(),
        m <= u.len() - 1,
    ensures
        quotient_sum(fold(e, u.last()), u.drop_last(), x.drop_last(), m) == quotient_sum(e, u, x, m),
    decreases m,
{
    if m > 0 {
        let k = (m - 1) as int;
        lemma_quotient_sum_of_fold(e, u, x, (m - 1) as nat);
        lemma_quotient_of_fold(e, u, k);
        assert(x.drop_last().take(k) =~= x.take(k));
    }
}

proof fn lemma_eq_entry(v: int, x: int)
    requires
        0 <= v < p(),
    ensures
        fsub(v, fmul(v, x)) == fmul(v, fsub(1, x)),
{
    lemma_sub_mod_noop_right(v, v * x, p());
    lemma_mul_mod_noop_right(v, 1 - x, p());
    lemma_mul_is_distributive_sub(v, 1, x);
}


/// A multilinear polynomial given by its table of values on the hypercube.
#[derive(Debug)]
pub struct MultilinearPolynomial {
    evals: Vec<Fr>,
    num_vars: usize,
}

impl MultilinearPolynomial {
    #[verifier::type_invariant]
    closed spec fn well_sized(self) -> bool {
        if self.evals.len() == 0 {
            self.num_vars == 0
        } else {
            self.evals.len() == pow2(self.num_vars as nat)
        }
    }

    /// The table of values.
    pub closed spec fn table(&self) -> Seq<int> {
        vals(self.evals@)
    }

    /// The number of variables.
    pub closed spec fn vars(&self) -> nat {
        self.num_vars as nat
    }

    /// The table must be empty or of a power-of-two length `2^n`; the
    /// polynomial then has `n` variables (none when the table is empty).
    pub fn new(evals: Vec<Fr>) -> (r: Self)
        requires
            evals.len() == 0 || exists|n: nat| evals.len() == #[trigger] pow2(n),
        ensures
            r.table() == vals(evals@),
            r.table().len() == 0 ==> r.vars() == 0,
            r.table().len() > 0 ==> r.table().len() == pow2(r.vars()),
    {
        let len = evals.len();
        if len == 0 {
            return MultilinearPolynomial { evals, num_vars: 0 };
        }
        let ghost m = choose|n: nat| len == #[trigger] pow2(n);
        let mut size: usize = 1;
        let mut n: usize = 0;
        while size < len
            invariant
                len == pow2(m),
                size == pow2(n as nat),
                size <= len,
                n <= m,
            decreases len - size,
        {
            proof {
                if n == m {
                    assert(false);
                }
                lemma_pow2_mono((n + 1) as nat, m);
                lemma_pow2_gt(n as nat);
            }
            size = size * 2;
            n = n + 1;
        }
        MultilinearPolynomial { evals, num_vars: n }
    }

    /// The table of values.
    pub fn evals(&self) -> (r: &Vec<Fr>)
        ensures
            vals(r@) == self.table(),
    {
        &self.evals
    }

    /// The number of variables.
    pub fn num_vars(&self) -> (r: usize)
        ensures
            r == self.vars(),
            self.table().len() == 0 ==> r == 0,
            self.table().len() > 0 ==> self.table().len() == pow2(self.vars()),
    {
        proof {
            use_type_invariant(self);
        }
        self.num_vars
    }

    /// The table of `eq(t, .)`: entry `b` is the product over `i` of `t[i]`
    /// where bit `i` of `b` is set and of `1 - t[i]` where it is not.
    pub fn eq_xy(t: &[Fr]) -> (r: Self)
        requires
            pow2(t@.len()) <= usize::MAX,
        ensures
            r.table() == eq_table(vals(t@)),
            r.vars() == t@.len(),
    {
        let mut e: Vec<Fr> = Vec::new();
        e.push(Fr::one());
        let mut i: usize = 0;
        proof {
            assert(vals(t@).take(0) =~= Seq::<int>::empty());
            assert(vals(e@) =~= seq![1int]);
        }
        while i < t.len()
            invariant
                i <= t.len(),
                pow2(t@.len()) <= usize::MAX,
                e.len() == pow2(i as nat),
                vals(e@) == eq_table(vals(t@).take(i as int)),
            decreases t.len() - i,
        {
            let ghost prev = vals(e@);
            let n = e.len();
            proof {
                lemma_pow2_mono((i + 1) as nat, t@.len());
            }
            let mut hi: Vec<Fr> = Vec::new();
            let mut j: usize = 0;
            while j < n
                invariant
                    n == e.len(),
                    j <= n,
                    hi.len() == j,
                    prev.len() == n,
                    0 <= i < t.len(),
                    forall|k: int| 0 <= k < j ==> #[trigger] e[k]@ == fmul(prev[k], fsub(1, t[i as int]@)),
                    forall|k: int| 0 <= k < j ==> #[trigger] hi[k]@ == fmul(prev[k], t[i as int]@),
                    forall|k: int| j <= k < n ==> #[trigger] e[k]@ == prev[k],
                decreases n - j,
            {
                let v = e[j];
                v.lemma_canonical();
                let w = v.mul(&t[i]);
                proof {
                    lemma_eq_entry(v@, t[i as int]@);
                }
                hi.push(w);
                e.set(j, v.sub(&w));
                j += 1;
            }
            let mut k: usize = 0;
            while k < n
                invariant
                    k <= n,
                    hi.len() == n,
                    e.len() == n + k,
                    prev.len() == n,
                    0 <= i < t.len(),
                    forall|l: int| 0 <= l < n ==> #[trigger] hi[l]@ == fmul(prev[l], t[i as int]@),
                    forall|l: int| 0 <= l < n ==> #[trigger] e[l]@ == fmul(prev[l], fsub(1, t[i as int]@)),
                    forall|l: int| 0 <= l < k ==> #[trigger] e[n + l]@ == hi[l]@,
                decreases n - k,
            {
                e.push(hi[k]);
                k += 1;
            }
            proof {
                let tt = vals(t@).take(i + 1);
                let x = t[i as int]@;
                assert(tt.drop_last() =~= vals(t@).take(i as int));
                assert(tt.last() == x);
                let lo = prev.map_values(|v: int| fmul(v, fsub(1, x)));
                let hi2 = prev.map_values(|v: int| fmul(v, x));
                assert(eq_table(tt) == lo + hi2);
                assert forall|l: int| 0 <= l < 2 * n implies #[trigger] vals(e@)[l] == (lo + hi2)[l] by {
                    if l >= n {
                        let l2 = l - n;
                        assert(e[n + l2]@ == hi[l2]@);
                    }
                }
                assert(vals(e@) =~= lo + hi2);
                assert(pow2((i + 1) as nat) == 2 * pow2(i as nat));
            }
            i += 1;
        }
        proof {
            assert(vals(t@).take(t@.len() as int) =~= vals(t@));
            lemma_pow2_pos(i as nat);
        }
        MultilinearPolynomial { evals: e, num_vars: i }
    }

    /// Evaluates the polynomial at `point` (one coordinate per variable).
    pub fn evaluate(&self, point: &[Fr]) -> (r: Fr)
        requires
            self.table().len() > 0,
            point@.len() == self.vars(),
        ensures
            r@ == ml_eval(self.table(), vals(point@)),
    {
        let (_, r) = quotients(self, point);
        r
    }
}

/// Folds the highest variable of `r` to `x`, returning the quotient taken off.
fn fold_step(r: &mut Vec<Fr>, x: &Fr) -> (q: Vec<Fr>)
    requires
        old(r).len() >= 2,
        old(r).len() % 2 == 0,
    ensures
        final(r).len() == old(r).len() / 2,
        q.len() == old(r).len() / 2,
        vals(final(r)@) == fold(vals(old(r)@), x@),
        vals(q@) == quot(vals(old(r)@)),
{
    let ghost prev = vals(r@);
    let h = r.len() / 2;
    let mut q: Vec<Fr> = Vec::new();
    let mut j: usize = 0;
    while j < h
        invariant
            r.len() == 2 * h,
            prev.len() == 2 * h,
            j <= h,
            q.len() == j,
            forall|k: int| 0 <= k < j ==> #[trigger] q[k]@ == fsub(prev[h + k], prev[k]),
            forall|k: int| 0 <= k < j ==> #[trigger] r[k]@ == fadd(prev[k], fmul(fsub(prev[h + k], prev[k]), x@)),
            forall|k: int| j <= k < 2 * h ==> #[trigger] r[k]@ == prev[k],
        decreases h - j,
    {
        let lo = r[j];
        let hi = r[h + j];
        let d = hi.sub(&lo);
        q.push(d);
        r.set(j, lo.add(&d.mul(x)));
        j += 1;
    }
    r.truncate(h);
    proof {
        assert(vals(r@) =~= fold(prev, x@));
        assert(vals(q@) =~= quot(prev));
    }
    q
}

/// The multilinear quotients of `poly` at `point` and the remainder.
///
/// Folding the variables from the last to the first, the `k`-th quotient is
/// the high half minus the low half of the table before variable `k` is
/// folded; the remainder is the single value left, which is the evaluation.
pub fn quotients(poly: &MultilinearPolynomial, point: &[Fr]) -> (r: (Vec<Vec<Fr>>, Fr))
    requires
        poly.table().len() > 0,
        poly.vars() == point@.len(),
    ensures
        r.0.len() == point@.len(),
        forall|k: int| 0 <= k < point@.len() ==> vals(#[trigger] r.0[k]@) == quotient(poly.table(), vals(point@), k),
        forall|k: int| 0 <= k < point@.len() ==> #[trigger] r.0[k]@.len() == pow2(k as nat),
        r.1@ == fold_all(poly.table(), vals(point@))[0],
        r.1@ == ml_eval(poly.table(), vals(point@)),
{
    let n = point.len();
    proof {
        use_type_invariant(poly);
    }
    let ghost e = poly.table();
    let ghost u = vals(point@);
    let mut rem: Vec<Fr> = Vec::new();
    let mut i: usize = 0;
    while i < poly.evals.len()
        invariant
            i <= poly.evals.len(),
            rem.len() == i,
            forall|j: int| 0 <= j < i ==> #[trigger] rem[j] == poly.evals[j],
        decreases poly.evals.len() - i,
    {
        rem.push(poly.evals[i]);
        i += 1;
    }
    proof {
        assert(vals(rem@) =~= e);
        assert(u.skip(n as int) =~= Seq::<int>::empty());
    }
    let mut qs_rev: Vec<Vec<Fr>> = Vec::new();
    let mut k: usize = n;
    while k > 0
        invariant
            k <= n,
            n == point@.len(),
            u == vals(point@),
            e.len() == pow2(n as nat),
            rem.len() == pow2(k as nat),
            vals(rem@) == fold_all(e, u.skip(k as int)),
            qs_rev.len() == n - k,
            forall|j: int| 0 <= j < n - k ==> vals(#[trigger] qs_rev[j]@) == quotient(e, u, n - 1 - j),
            forall|j: int| 0 <= j < n - k ==> #[trigger] qs_rev[j]@.len() == pow2((n - 1 - j) as nat),
        decreases k,
    {
        k -= 1;
        proof {
            assert(pow2((k + 1) as nat) == 2 * pow2(k as nat));
            lemma_pow2_pos(k as nat);
            assert(u.skip(k as int).drop_first() =~= u.skip(k + 1));
            assert(u.skip(k as int)[0] == u[k as int]);
        }
        let q = fold_step(&mut rem, &point[k]);
        qs_rev.push(q);
    }
    let ghost all = qs_rev@;
    let mut qs: Vec<Vec<Fr>> = Vec::new();
    while qs_rev.len() > 0
        invariant
            all.len() == n,
            qs_rev@ == all.take(qs_rev.len() as int),
            qs.len() == n - qs_rev.len(),
            forall|l: int| 0 <= l < qs.len() ==> #[trigger] qs[l] == all[n - 1 - l],
        decreases qs_rev.len(),
    {
        let ghost before = qs_rev@;
        let q = qs_rev.pop().unwrap();
        proof {
            assert(qs_rev@ =~= all.take(qs_rev.len() as int));
        }
        qs.push(q);
    }
    rem[0].lemma_canonical();
    proof {
        assert(u.skip(0) =~= u);
        lemma_remainder_is_eval(e, u);
        lemma_small_mod(rem[0]@ as nat, p() as nat);
    }
    (qs, rem[0])
}

} // verus!
