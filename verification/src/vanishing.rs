//! The Zeromorph identity: the check polynomial of an honest opening
//! vanishes at the challenge `x`; and a batched opening of true claims
//! opens its merged table to its true value.
//!
//! With `U(e)` the univariate polynomial whose coefficients are the table
//! `e`, `Phi_m(Y) = 1 + Y + ... + Y^(2^m - 1)` and `q_k` the multilinear
//! quotients of `e` at `u`,
//! `U(e) - f(u) * Phi_n(X) = sum_k (X^(2^k) * Phi_(n-k-1)(X^(2^(k+1))) - u_k * Phi_(n-k)(X^(2^k))) * U(q_k)`.
//! The proofs work over the integers and reduce modulo the field order at
//! the end.

use crate::field::{fadd, finner, fsum, min_len, finv, fmul, fneg, fpow, fsub, is_inverse, lemma_inverse_unique, lemma_mod_range, p, pow2};
use crate::zeromorph::{
    check_poly_entry, check_poly_of, eval_scalar, lemma_left_shift_check_poly, lemma_v_of_x_quotient,
    lemma_weighted_quotients_len, offset_of_x, q_hat_entry, q_hat_of, quotient_scalar, quotients_of,
    shifted_check_poly, sq, v_of_x, weighted_quotients,
};
use crate::expression::Rotation;
use crate::pcs::rotate_table;
use crate::univariate::{uadd, uscale, ushift};
use crate::kzg::horner;
use crate::poly::{
    fold, lemma_fold_entry, lemma_fold_eval, lemma_ml_cong, lemma_ml_lin, lemma_quotient_of_fold, lin, ml_eval, ml_int,
    quot, quotient,
};
use crate::pcs::wsum;
use vstd::arithmetic::div_mod::*;
use vstd::arithmetic::mul::*;
use vstd::arithmetic::power::{lemma_pow_adds, lemma_pow_multiplies, pow};
use vstd::prelude::*;

verus! {

/// Congruence modulo the field order.
pub open spec fn cong(a: int, b: int) -> bool {
    a % p() == b % p()
}

pub(crate) proof fn lemma_cong_add(a1: int, a2: int, b1: int, b2: int)
    requires
        cong(a1, a2),
        cong(b1, b2),
    ensures
        cong(a1 + b1, a2 + b2),
{
    lemma_add_mod_noop(a1, b1, p());
    lemma_add_mod_noop(a2, b2, p());
}

pub(crate) proof fn lemma_cong_sub(a1: int, a2: int, b1: int, b2: int)
    requires
        cong(a1, a2),
        cong(b1, b2),
    ensures
        cong(a1 - b1, a2 - b2),
{
    lemma_sub_mod_noop(a1, b1, p());
    lemma_sub_mod_noop(a2, b2, p());
}

pub(crate) proof fn lemma_cong_mul(a1: int, a2: int, b1: int, b2: int)
    requires
        cong(a1, a2),
        cong(b1, b2),
    ensures
        cong(a1 * b1, a2 * b2),
{
    lemma_mul_mod_noop(a1, b1, p());
    lemma_mul_mod_noop(a2, b2, p());
}

pub(crate) proof fn lemma_cong_mod(a: int)
    ensures
        cong(a % p(), a),
{
    lemma_mod_twice(a, p());
}

/// The value at `x` of the polynomial with coefficients `c`, over the
/// integers.
pub open spec fn pe(c: Seq<int>, x: int) -> int
    decreases c.len(),
{
    if c.len() == 0 {
        0
    } else {
        c[0] + x * pe(c.drop_first(), x)
    }
}

/// The coefficients of `a` then those of `b` make `a + X^|a| * b`.
pub(crate) proof fn lemma_pe_concat(a: Seq<int>, b: Seq<int>, x: int)
    ensures
        pe(a + b, x) == pe(a, x) + pow(x, a.len()) * pe(b, x),
    decreases a.len(),
{
    if a.len() == 0 {
        assert(a + b =~= b);
        assert(pow(x, 0) == 1) by {
            reveal(pow);
        }
    } else {
        lemma_pe_concat(a.drop_first(), b, x);
        assert((a + b)[0] == a[0]);
        assert((a + b).drop_first() =~= a.drop_first() + b);
        let r = pe(a.drop_first(), x);
        let w = pow(x, (a.len() - 1) as nat);
        assert(pow(x, a.len()) == x * w) by {
            reveal(pow);
        }
        assert(x * (r + w * pe(b, x)) == x * r + (x * w) * pe(b, x)) by (nonlinear_arith);
    }
}

/// The value is linear in the coefficients.
pub(crate) proof fn lemma_pe_lin(a: int, s: Seq<int>, b: int, t: Seq<int>, x: int)
    requires
        s.len() == t.len(),
    ensures
        pe(lin(a, s, b, t), x) == a * pe(s, x) + b * pe(t, x),
    decreases s.len(),
{
    if s.len() > 0 {
        lemma_pe_lin(a, s.drop_first(), b, t.drop_first(), x);
        assert(lin(a, s, b, t).drop_first() =~= lin(a, s.drop_first(), b, t.drop_first()));
        let rs = pe(s.drop_first(), x);
        let rt = pe(t.drop_first(), x);
        assert(x * (a * rs + b * rt) == a * (x * rs) + b * (x * rt)) by (nonlinear_arith);
        assert(a * (s[0] + x * rs) == a * s[0] + a * (x * rs)) by (nonlinear_arith);
        assert(b * (t[0] + x * rt) == b * t[0] + b * (x * rt)) by (nonlinear_arith);
    }
}

/// Coefficients congruent one by one give congruent values.
pub(crate) proof fn lemma_pe_cong(s: Seq<int>, t: Seq<int>, x: int)
    requires
        s.len() == t.len(),
        forall|j: int| 0 <= j < s.len() ==> cong(#[trigger] s[j], t[j]),
    ensures
        cong(pe(s, x), pe(t, x)),
    decreases s.len(),
{
    if s.len() > 0 {
        assert forall|j: int| 0 <= j < s.drop_first().len() implies cong(#[trigger] s.drop_first()[j], t.drop_first()[j]) by {
            assert(s.drop_first()[j] == s[j + 1]);
            assert(t.drop_first()[j] == t[j + 1]);
        }
        lemma_pe_cong(s.drop_first(), t.drop_first(), x);
        lemma_cong_mul(x, x, pe(s.drop_first(), x), pe(t.drop_first(), x));
        lemma_cong_add(s[0], t[0], x * pe(s.drop_first(), x), x * pe(t.drop_first(), x));
    }
}

/// Horner's rule in the field computes the value modulo the field order.
pub(crate) proof fn lemma_horner_pe(c: Seq<int>, x: int)
    ensures
        horner(c, x) == pe(c, x) % p(),
    decreases c.len(),
{
    if c.len() > 0 {
        lemma_horner_pe(c.drop_first(), x);
        let r = pe(c.drop_first(), x);
        lemma_mul_mod_noop_right(x, r, p());
        lemma_add_mod_noop(c[0], x * r, p());
        lemma_mod_twice(x * r, p());
        lemma_mod_twice(c[0], p());
        lemma_add_mod_noop(c[0], (x * r) % p(), p());
    }
}

/// `2^a * 2^b = 2^(a + b)`.
pub(crate) proof fn lemma_pow2_add(a: nat, b: nat)
    ensures
        pow2(a) * pow2(b) == pow2(a + b),
    decreases a,
{
    if a > 0 {
        lemma_pow2_add((a - 1) as nat, b);
        assert(pow2(a + b) == 2 * pow2((a - 1 + b) as nat));
        assert(pow2(a) * pow2(b) == 2 * (pow2((a - 1) as nat) * pow2(b))) by (nonlinear_arith)
            requires
                pow2(a) == 2 * pow2((a - 1) as nat),
        ;
    } else {
        assert(pow2(0) == 1);
        assert(a + b == b);
    }
}

/// `(x^(2^a))^(2^b) = x^(2^(a + b))`.
proof fn lemma_pow_pow2(x: int, a: nat, b: nat)
    ensures
        pow(pow(x, pow2(a)), pow2(b)) == pow(x, pow2(a + b)),
{
    lemma_pow_multiplies(x, pow2(a), pow2(b));
    lemma_pow2_add(a, b);
}

/// `Phi_m(y) = 1 + y + ... + y^(2^m - 1)`, built by doubling:
/// `Phi_(m+1)(y) = Phi_m(y) * (1 + y^(2^m))`.
pub open spec fn geo(m: nat, y: int) -> int
    decreases m,
{
    if m == 0 {
        1
    } else {
        geo((m - 1) as nat, y) * (1 + pow(y, pow2((m - 1) as nat)))
    }
}

/// The coefficient of `U(q_k)` in the Zeromorph identity at `x`:
/// `x^(2^k) * Phi_(n-k-1)(x^(2^(k+1))) - u_k * Phi_(n-k)(x^(2^k))`.
pub open spec fn zm_coeff(x: int, u: Seq<int>, k: nat) -> int {
    let n = u.len();
    pow(x, pow2(k)) * geo((n - k - 1) as nat, pow(x, pow2(k + 1))) - u[k as int] * geo(
        (n - k) as nat,
        pow(x, pow2(k)),
    )
}

/// The first `m` terms of the right side of the Zeromorph identity at `x`.
pub open spec fn zm_sum(e: Seq<int>, u: Seq<int>, x: int, m: nat) -> int
    decreases m,
{
    if m == 0 {
        0
    } else {
        let k = (m - 1) as nat;
        zm_sum(e, u, x, k) + zm_coeff(x, u, k) * pe(quotient(e, u, k as int), x)
    }
}

/// Below the highest variable, a coefficient is `1 + x^(2^(n-1))` times the
/// one of the identity in a variable fewer.
proof fn lemma_zm_coeff_step(x: int, u: Seq<int>, k: nat)
    requires
        k + 1 < u.len(),
    ensures
        zm_coeff(x, u, k) == (1 + pow(x, pow2((u.len() - 1) as nat))) * zm_coeff(x, u.drop_last(), k),
{
    let n = u.len();
    let xh = pow(x, pow2((n - 1) as nat));
    let y1 = pow(x, pow2(k));
    let y2 = pow(x, pow2(k + 1));
    // Phi_(n-k-1)(y2) = Phi_(n-k-2)(y2) * (1 + y2^(2^(n-k-2)))
    lemma_pow_pow2(x, k + 1, (n - k - 2) as nat);
    assert(pow(y2, pow2((n - k - 2) as nat)) == xh);
    assert(geo((n - k - 1) as nat, y2) == geo((n - k - 2) as nat, y2) * (1 + xh));
    // Phi_(n-k)(y1) = Phi_(n-k-1)(y1) * (1 + y1^(2^(n-k-1)))
    lemma_pow_pow2(x, k, (n - k - 1) as nat);
    assert(pow(y1, pow2((n - k - 1) as nat)) == xh);
    assert(geo((n - k) as nat, y1) == geo((n - k - 1) as nat, y1) * (1 + xh));
    assert(u.drop_last()[k as int] == u[k as int]);
    let a = geo((n - k - 2) as nat, y2);
    let b = geo((n - k - 1) as nat, y1);
    let uk = u[k as int];
    assert(y1 * (a * (1 + xh)) - uk * (b * (1 + xh)) == (1 + xh) * (y1 * a - uk * b)) by (nonlinear_arith);
}

/// The terms below the highest variable are `1 + x^(2^(n-1))` times those of
/// the table with the highest variable folded.
proof fn lemma_zm_sum_step(e: Seq<int>, u: Seq<int>, x: int, m: nat)
    requires
        u.len() >= 1,
        m <= u.len() - 1,
    ensures
        zm_sum(e, u, x, m) == (1 + pow(x, pow2((u.len() - 1) as nat))) * zm_sum(fold(e, u.last()), u.drop_last(), x, m),
    decreases m,
{
    if m > 0 {
        let k = (m - 1) as nat;
        lemma_zm_sum_step(e, u, x, k);
        lemma_zm_coeff_step(x, u, k);
        lemma_quotient_of_fold(e, u, k as int);
        let c = 1 + pow(x, pow2((u.len() - 1) as nat));
        let s1 = zm_sum(fold(e, u.last()), u.drop_last(), x, k);
        let c1 = zm_coeff(x, u.drop_last(), k);
        let q = pe(quotient(e, u, k as int), x);
        assert(c * s1 + (c * c1) * q == c * (s1 + c1 * q)) by (nonlinear_arith);
    }
}

/// The Zeromorph identity at `x`: the value of `U(e)` is `f(u) * Phi_n(x)`
/// plus the weighted values of the quotients, modulo the field order.
pub proof fn lemma_zeromorph_identity(e: Seq<int>, u: Seq<int>, x: int)
    requires
        e.len() == pow2(u.len()),
    ensures
        cong(pe(e, x), ml_int(e, u) * geo(u.len(), x) + zm_sum(e, u, x, u.len())),
    decreases u.len(),
{
    let n = u.len();
    if n == 0 {
        assert(e.drop_first().len() == 0);
        assert(pe(e.drop_first(), x) == 0);
        assert(pe(e, x) == e[0]);
    } else {
        let h = pow2((n - 1) as nat) as int;
        assert(pow2(n) == 2 * pow2((n - 1) as nat));
        let lo = e.take(h);
        let hi = e.skip(h);
        assert(e =~= lo + hi);
        let xh = pow(x, pow2((n - 1) as nat));
        lemma_pe_concat(lo, hi, x);
        let ul = u.last();
        let u1 = u.drop_last();
        let e1 = fold(e, ul);
        // the folded table
        let l1 = lin(1 - ul, lo, ul, hi);
        assert forall|j: int| 0 <= j < e1.len() implies cong(#[trigger] e1[j], l1[j]) by {
            lemma_fold_entry(e[j], e[h + j], ul);
            lemma_cong_mod((1 - ul) * e[j] + ul * e[h + j]);
            assert(lo[j] == e[j]);
            assert(hi[j] == e[h + j]);
        }
        lemma_pe_cong(e1, l1, x);
        lemma_pe_lin(1 - ul, lo, ul, hi, x);
        // the highest quotient
        assert(u.skip(n as int) =~= Seq::<int>::empty());
        let q = quot(e);
        assert(quotient(e, u, n - 1) == q);
        let l2 = lin(1, hi, -1, lo);
        assert forall|j: int| 0 <= j < q.len() implies cong(#[trigger] q[j], l2[j]) by {
            lemma_cong_mod(e[h + j] - e[j]);
            assert(lo[j] == e[j]);
            assert(hi[j] == e[h + j]);
        }
        lemma_pe_cong(q, l2, x);
        lemma_pe_lin(1, hi, -1, lo, x);
        // the identity in a variable fewer
        lemma_zeromorph_identity(e1, u1, x);
        lemma_fold_eval(e, ul, u1);
        assert(u1.push(ul) =~= u);
        lemma_zm_sum_step(e, u, x, (n - 1) as nat);
        // the coefficient of the highest quotient
        assert(pow(xh, pow2(0)) == xh) by {
            vstd::arithmetic::power::lemma_pow1(xh);
        }
        assert(pow2(0) == 1);
        assert(geo(0, xh) == 1);
        assert(geo(1, xh) == geo(0, xh) * (1 + pow(xh, pow2(0))));
        assert(geo(1, xh) == 1 + xh);
        assert(geo(0, pow(x, pow2(n))) == 1);
        let c = zm_coeff(x, u, (n - 1) as nat);
        assert(c == xh - ul * (1 + xh));
        assert(geo(n, x) == geo((n - 1) as nat, x) * (1 + xh));
        // combine
        let v = ml_int(e, u);
        let v1 = ml_int(e1, u1);
        let g = geo((n - 1) as nat, x);
        let z1 = zm_sum(e1, u1, x, (n - 1) as nat);
        let pl = pe(lo, x);
        let ph = pe(hi, x);
        let pq = pe(q, x);
        let b = (1 - ul) * pl + ul * ph;
        // v1 * g + z1 is congruent to b
        lemma_cong_mul(v1, v, g, g);
        lemma_cong_add(v1 * g, v * g, z1, z1);
        lemma_cong_mul(1 + xh, 1 + xh, v * g + z1, b);
        lemma_cong_mul(c, c, pq, ph - pl);
        lemma_cong_add((1 + xh) * (v * g + z1), (1 + xh) * b, c * pq, c * (ph - pl));
        assert(v * (g * (1 + xh)) + ((1 + xh) * z1 + c * pq) == (1 + xh) * (v * g + z1) + c * pq) by (nonlinear_arith);
        assert((1 + xh) * b + (xh - ul * (1 + xh)) * (ph - pl) == pl + xh * ph) by (nonlinear_arith)
            requires
                b == (1 - ul) * pl + ul * ph,
        ;
    }
}

/// Powers in the field are integer powers reduced.
pub(crate) proof fn lemma_fpow_pow(a: int, n: nat)
    ensures
        fpow(a, n) == pow(a, n) % p(),
    decreases n,
{
    reveal(pow);
    if n == 0 {
        lemma_small_mod(1, p() as nat);
    } else {
        lemma_fpow_pow(a, (n - 1) as nat);
        lemma_mul_mod_noop_left(pow(a, (n - 1) as nat), a, p());
        lemma_mul_is_commutative(pow(a, (n - 1) as nat), a);
    }
}

/// `Phi_m(y) * (y - 1) = y^(2^m) - 1`.
proof fn lemma_geo_times(m: nat, y: int)
    ensures
        geo(m, y) * (y - 1) == pow(y, pow2(m)) - 1,
    decreases m,
{
    if m == 0 {
        vstd::arithmetic::power::lemma_pow1(y);
    } else {
        let m1 = (m - 1) as nat;
        lemma_geo_times(m1, y);
        let h = pow(y, pow2(m1));
        lemma_pow_adds(y, pow2(m1), pow2(m1));
        assert(pow2(m) == pow2(m1) + pow2(m1));
        let g = geo(m1, y);
        assert(g * (1 + h) * (y - 1) == (g * (y - 1)) * (1 + h)) by (nonlinear_arith);
        assert((h - 1) * (1 + h) == h * h - 1) by (nonlinear_arith);
    }
}

/// `a` has an inverse in the field.
pub open spec fn has_inverse(a: int) -> bool {
    exists|b: int| 0 <= b < p() && is_inverse(a, b)
}

/// No `x^(2^j)` for `j <= n` is one: each `x^(2^j) - 1` has an inverse.
pub open spec fn nondegenerate(x: int, n: nat) -> bool {
    forall|j: nat| j <= n ==> #[trigger] has_inverse(fsub(sq(x, j), 1))
}

/// Where `x^(2^k) - 1` has an inverse, `v_k` is `Phi_(n-k)(x^(2^k))`.
proof fn lemma_v_of_x_geo(x: int, k: nat, n: nat)
    requires
        k <= n,
        has_inverse(fsub(sq(x, k), 1)),
    ensures
        cong(v_of_x(x, k, n), geo((n - k) as nat, pow(x, pow2(k)))),
{
    let d = fsub(sq(x, k), 1);
    let b = choose|b: int| 0 <= b < p() && is_inverse(d, b);
    lemma_v_of_x_quotient(x, k, n, b);
    let v = v_of_x(x, k, n);
    let yk = pow(x, pow2(k));
    let g = geo((n - k) as nat, yk);
    // d is y_k - 1 and v * d is x^(2^n) - 1, modulo p
    lemma_fpow_pow(x, pow2(k));
    lemma_fpow_pow(x, pow2(n));
    lemma_sub_mod_noop(yk, 1, p());
    lemma_mod_twice(yk, p());
    assert(cong(d, yk - 1)) by {
        lemma_sub_mod_noop(yk % p(), 1, p());
        lemma_mod_twice(yk - 1, p());
        lemma_cong_sub(yk % p(), yk, 1, 1);
        lemma_cong_mod(yk % p() - 1);
    }
    lemma_geo_times((n - k) as nat, yk);
    lemma_pow_pow2(x, k, (n - k) as nat);
    assert(g * (yk - 1) == pow(x, pow2(n)) - 1);
    // v * d == x^(2^n) - 1 == g * (y_k - 1) == g * d, modulo p
    assert(cong(fmul(v, d), v * d)) by {
        lemma_cong_mod(v * d);
    }
    assert(cong(fsub(sq(x, n), 1), pow(x, pow2(n)) - 1)) by {
        lemma_cong_mod(sq(x, n) - 1);
        lemma_cong_sub(sq(x, n), pow(x, pow2(n)), 1, 1);
        lemma_cong_mod(pow(x, pow2(n)));
    }
    lemma_cong_mul(g, g, yk - 1, d);
    assert(cong(v * d, g * d));
    // multiply by the inverse of d
    lemma_cong_mul(v * d, g * d, b, b);
    assert(v * d * b == v * (d * b)) by (nonlinear_arith);
    assert(g * d * b == g * (d * b)) by (nonlinear_arith);
    assert(cong(d * b, 1)) by {
        lemma_cong_mod(d * b);
        lemma_small_mod(1, p() as nat);
    }
    lemma_cong_mul(v, v, d * b, 1);
    lemma_cong_mul(g, g, d * b, 1);
    assert(cong(v, v_of_x(x, k, n)));
}

/// The product `x^(2^k) * ... * x^(2^(n-1))` is `x^(2^n - 2^k)`.
proof fn lemma_offset_of_x(x: int, k: nat, n: nat)
    requires
        k <= n,
    ensures
        pow2(k) <= pow2(n),
        cong(offset_of_x(x, k as int, n as int), pow(x, (pow2(n) - pow2(k)) as nat)),
    decreases n - k,
{
    crate::field::lemma_pow2_mono(k, n);
    if k == n {
        reveal(pow);
        lemma_small_mod(1, p() as nat);
    } else {
        lemma_offset_of_x(x, k + 1, n);
        let o1 = offset_of_x(x, (k + 1) as int, n as int);
        let e1 = (pow2(n) - pow2(k + 1)) as nat;
        assert(pow2(k + 1) == 2 * pow2(k));
        lemma_fpow_pow(x, pow2(k));
        lemma_pow_adds(x, e1, pow2(k));
        assert(e1 + pow2(k) == pow2(n) - pow2(k));
        lemma_cong_mod(o1 * sq(x, k));
        lemma_cong_mod(pow(x, pow2(k)));
        lemma_cong_mul(o1, pow(x, e1), sq(x, k), pow(x, pow2(k)));
    }
}

/// The scalar of the evaluation is `-Phi_n(x) * z`.
proof fn lemma_eval_scalar(x: int, z: int, n: nat)
    requires
        has_inverse(fsub(sq(x, 0), 1)),
    ensures
        cong(eval_scalar(x, z, n), -geo(n, x) * z),
{
    lemma_v_of_x_geo(x, 0, n);
    assert(pow(x, pow2(0)) == x) by {
        vstd::arithmetic::power::lemma_pow1(x);
    }
    let v = v_of_x(x, 0, n);
    let g = geo(n, x);
    lemma_cong_mod(-v);
    lemma_cong_sub(0, 0, v, g);
    lemma_cong_mul(fneg(v), -g, z, z);
    lemma_cong_mod(fneg(v) * z);
}

/// The scalar of the `k`-th quotient is `-(y^k * x^(2^n - 2^k) + z * c_k)`
/// with `c_k` its coefficient in the Zeromorph identity.
proof fn lemma_quotient_scalar(y: int, x: int, z: int, u: Seq<int>, k: nat)
    requires
        k < u.len(),
        nondegenerate(x, u.len()),
    ensures
        pow2(k) <= pow2(u.len()),
        cong(quotient_scalar(y, x, z, u, k), -(fpow(y, k) * pow(x, (pow2(u.len()) - pow2(k)) as nat) + z * zm_coeff(x, u, k))),
{
    let n = u.len();
    assert(has_inverse(fsub(sq(x, k), 1)));
    assert(has_inverse(fsub(sq(x, k + 1), 1)));
    lemma_v_of_x_geo(x, k, n);
    lemma_v_of_x_geo(x, k + 1, n);
    lemma_offset_of_x(x, k, n);
    lemma_fpow_pow(x, pow2(k));
    let o = offset_of_x(x, k as int, n as int);
    let po = pow(x, (pow2(n) - pow2(k)) as nat);
    let fy = fpow(y, k);
    let sk = sq(x, k);
    let pk = pow(x, pow2(k));
    let v1 = v_of_x(x, k + 1, n);
    let g1 = geo((n - k - 1) as nat, pow(x, pow2(k + 1)));
    let v0 = v_of_x(x, k, n);
    let g0 = geo((n - k) as nat, pk);
    let uk = u[k as int];
    // the first term
    lemma_cong_mul(fy, fy, o, po);
    lemma_cong_mod(fy * o);
    // the second term
    lemma_cong_mod(pk);
    lemma_cong_mul(sk, pk, v1, g1);
    lemma_cong_mod(sk * v1);
    lemma_cong_mul(uk, uk, v0, g0);
    lemma_cong_mod(uk * v0);
    lemma_cong_sub(fmul(sk, v1), pk * g1, fmul(uk, v0), uk * g0);
    lemma_cong_mod(fmul(sk, v1) - fmul(uk, v0));
    let inner = fsub(fmul(sk, v1), fmul(uk, v0));
    lemma_cong_mul(z, z, inner, zm_coeff(x, u, k));
    lemma_cong_mod(z * inner);
    lemma_cong_add(fmul(fy, o), fy * po, fmul(z, inner), z * zm_coeff(x, u, k));
    let t = fadd(fmul(fy, o), fmul(z, inner));
    lemma_cong_mod(fmul(fy, o) + fmul(z, inner));
    lemma_cong_mod(-t);
    lemma_cong_sub(0, 0, t, fy * po + z * zm_coeff(x, u, k));
}

/// `n` zero coefficients.
pub open spec fn zeros(n: nat) -> Seq<int> {
    Seq::new(n, |i: int| 0)
}

pub(crate) proof fn lemma_pe_zeros(n: nat, x: int)
    ensures
        pe(zeros(n), x) == 0,
    decreases n,
{
    if n > 0 {
        assert(zeros(n).drop_first() =~= zeros((n - 1) as nat));
        lemma_pe_zeros((n - 1) as nat, x);
    }
}

/// Trailing zeros leave the value unchanged.
pub(crate) proof fn lemma_pe_padded(q: Seq<int>, n: nat, x: int)
    requires
        q.len() <= n,
    ensures
        pe(Seq::new(n, |i: int| if i < q.len() { q[i] } else { 0 }), x) == pe(q, x),
{
    let padded = Seq::new(n, |i: int| if i < q.len() { q[i] } else { 0 });
    assert(padded =~= q + zeros((n - q.len()) as nat));
    lemma_pe_concat(q, zeros((n - q.len()) as nat), x);
    lemma_pe_zeros((n - q.len()) as nat, x);
}

/// The sum of `sc[k]` times the value of `qs[k]` over the first `m`.
pub open spec fn weighted_values(qs: Seq<Seq<int>>, sc: Seq<int>, x: int, m: nat) -> int
    decreases m,
{
    if m == 0 {
        0
    } else {
        weighted_values(qs, sc, x, (m - 1) as nat) + sc[m - 1] * pe(qs[m - 1], x)
    }
}

/// The value of the check polynomial after `m` quotient terms.
pub(crate) proof fn lemma_check_poly_value(
    f: Seq<int>,
    qh: Seq<int>,
    qs: Seq<Seq<int>>,
    z: int,
    et: int,
    sc: Seq<int>,
    x: int,
    m: nat,
)
    requires
        f.len() >= 1,
        qh.len() == f.len(),
        m <= qs.len(),
        sc.len() == qs.len(),
        forall|k: int| 0 <= k < qs.len() ==> #[trigger] qs[k].len() <= f.len(),
    ensures
        cong(
            pe(Seq::new(f.len(), |i: int| check_poly_entry(f, qh, qs, z, et, sc, i, m)), x),
            z * pe(f, x) + pe(qh, x) + et + weighted_values(qs, sc, x, m),
        ),
    decreases m,
{
    let n = f.len();
    let c = Seq::new(n, |i: int| check_poly_entry(f, qh, qs, z, et, sc, i, m));
    if m == 0 {
        let l = lin(z, f, 1, qh);
        let delta = Seq::new(n, |i: int| if i == 0 { et } else { 0 });
        let d = lin(1, l, 1, delta);
        assert forall|i: int| 0 <= i < n implies cong(#[trigger] c[i], d[i]) by {
            let base = fadd(fmul(f[i], z), qh[i]);
            lemma_cong_mod(f[i] * z);
            lemma_cong_add(fmul(f[i], z), f[i] * z, qh[i], qh[i]);
            lemma_cong_mod(fmul(f[i], z) + qh[i]);
            assert(f[i] * z == z * f[i]) by (nonlinear_arith);
            if i == 0 {
                lemma_cong_add(base, z * f[i] + qh[i], et, et);
                lemma_cong_mod(base + et);
            }
        }
        lemma_pe_cong(c, d, x);
        lemma_pe_lin(1, l, 1, delta, x);
        lemma_pe_lin(z, f, 1, qh, x);
        assert(delta =~= seq![et] + zeros((n - 1) as nat));
        lemma_pe_concat(seq![et], zeros((n - 1) as nat), x);
        lemma_pe_zeros((n - 1) as nat, x);
        assert(pe(seq![et], x) == et) by {
            assert(seq![et].drop_first().len() == 0);
            assert(pe(seq![et].drop_first(), x) == 0);
        }
    } else {
        let k = (m - 1) as nat;
        lemma_check_poly_value(f, qh, qs, z, et, sc, x, k);
        let prev = Seq::new(n, |i: int| check_poly_entry(f, qh, qs, z, et, sc, i, k));
        let q = qs[k as int];
        let padded = Seq::new(n, |i: int| if i < q.len() { q[i] } else { 0 });
        let d = lin(1, prev, sc[k as int], padded);
        assert forall|i: int| 0 <= i < n implies cong(#[trigger] c[i], d[i]) by {
            if i < q.len() {
                lemma_cong_mod(sc[k as int] * q[i]);
                lemma_cong_add(prev[i], prev[i], fmul(sc[k as int], q[i]), sc[k as int] * q[i]);
                lemma_cong_mod(prev[i] + fmul(sc[k as int], q[i]));
            }
        }
        lemma_pe_cong(c, d, x);
        lemma_pe_lin(1, prev, sc[k as int], padded, x);
        lemma_pe_padded(q, n, x);
        let rest = z * pe(f, x) + pe(qh, x) + et;
        lemma_cong_add(pe(prev, x), rest + weighted_values(qs, sc, x, k), sc[k as int] * pe(q, x), sc[k as int] * pe(q, x));
    }
}

/// The sum of `y^k * x^(2^n - 2^k)` times the value of `qs[k]` over the
/// first `m`.
pub open spec fn batched_values(qs: Seq<Seq<int>>, y: int, x: int, n: nat, m: nat) -> int
    decreases m,
{
    if m == 0 {
        0
    } else {
        let k = (m - 1) as nat;
        batched_values(qs, y, x, n, k) + fpow(y, k) * pow(x, (pow2(n) - pow2(k)) as nat) * pe(qs[k as int], x)
    }
}

/// The value of `q_hat` after `m` quotients.
proof fn lemma_q_hat_value(qs: Seq<Seq<int>>, y: int, x: int, n: nat, m: nat)
    requires
        m <= n,
        m <= qs.len(),
        forall|k: int| 0 <= k < qs.len() ==> #[trigger] qs[k].len() == pow2(k as nat),
    ensures
        cong(pe(Seq::new(pow2(n), |i: int| q_hat_entry(qs, y, n, i, m)), x), batched_values(qs, y, x, n, m)),
    decreases m,
{
    let size = pow2(n);
    let c = Seq::new(size, |i: int| q_hat_entry(qs, y, n, i, m));
    if m == 0 {
        assert(c =~= zeros(size));
        lemma_pe_zeros(size, x);
    } else {
        let k = (m - 1) as nat;
        lemma_q_hat_value(qs, y, x, n, k);
        crate::field::lemma_pow2_mono(k, n);
        let off = (pow2(n) - pow2(k)) as nat;
        let q = qs[k as int];
        let prev = Seq::new(size, |i: int| q_hat_entry(qs, y, n, i, k));
        let shifted = zeros(off) + q;
        let d = lin(1, prev, fpow(y, k), shifted);
        assert forall|i: int| 0 <= i < size implies cong(#[trigger] c[i], d[i]) by {
            assert(c[i] == q_hat_entry(qs, y, n, i, m));
            assert(prev[i] == q_hat_entry(qs, y, n, i, k));
            assert(d[i] == 1 * prev[i] + fpow(y, k) * shifted[i]);
            if off <= i {
                assert(c[i] == fadd(prev[i], fmul(fpow(y, k), q[i - off])));
                assert(shifted[i] == q[i - off]);
                lemma_cong_mod(fpow(y, k) * q[i - off]);
                lemma_cong_add(prev[i], prev[i], fmul(fpow(y, k), q[i - off]), fpow(y, k) * q[i - off]);
                lemma_cong_mod(prev[i] + fmul(fpow(y, k), q[i - off]));
            } else {
                assert(c[i] == prev[i]);
                assert(shifted[i] == 0);
                let w = fpow(y, k);
                let sv = shifted[i];
                assert(w * sv == 0) by (nonlinear_arith)
                    requires
                        sv == 0,
                ;
                assert(d[i] == prev[i]);
            }
        }
        lemma_pe_cong(c, d, x);
        lemma_pe_lin(1, prev, fpow(y, k), shifted, x);
        lemma_pe_concat(zeros(off), q, x);
        lemma_pe_zeros(off, x);
        let pq = pe(q, x);
        let po = pow(x, off);
        assert(fpow(y, k) * (0 + po * pq) == fpow(y, k) * po * pq) by (nonlinear_arith);
        lemma_cong_add(pe(prev, x), batched_values(qs, y, x, n, k), fpow(y, k) * pe(shifted, x), fpow(y, k) * po * pq);
    }
}

/// The `k`-th quotient has `2^k` entries.
pub(crate) proof fn lemma_quotient_len(e: Seq<int>, u: Seq<int>, k: int)
    requires
        e.len() == pow2(u.len()),
        0 <= k < u.len(),
    ensures
        quotient(e, u, k).len() == pow2(k as nat),
{
    let s = u.skip(k + 1);
    let t = u.take(k + 1);
    crate::poly::lemma_fold_all_eval(e, s, t);
    assert(pow2((k + 1) as nat) == 2 * pow2(k as nat));
}

/// The quotient terms of the check polynomial: their scalars weight each
/// quotient by minus its weight in `q_hat` and minus `z` times its
/// coefficient in the Zeromorph identity.
proof fn lemma_scalar_values(e: Seq<int>, u: Seq<int>, y: int, x: int, z: int, m: nat)
    requires
        e.len() == pow2(u.len()),
        nondegenerate(x, u.len()),
        m <= u.len(),
    ensures
        cong(
            weighted_values(quotients_of(e, u), Seq::new(u.len(), |k: int| quotient_scalar(y, x, z, u, k as nat)), x, m),
            -(batched_values(quotients_of(e, u), y, x, u.len(), m) + z * zm_sum(e, u, x, m)),
        ),
    decreases m,
{
    if m > 0 {
        let n = u.len();
        let k = (m - 1) as nat;
        let qs = quotients_of(e, u);
        let sc = Seq::new(n, |j: int| quotient_scalar(y, x, z, u, j as nat));
        lemma_scalar_values(e, u, y, x, z, k);
        lemma_quotient_scalar(y, x, z, u, k);
        assert(qs[k as int] == quotient(e, u, k as int));
        let pq = pe(qs[k as int], x);
        let fy = fpow(y, k);
        let po = pow(x, (pow2(n) - pow2(k)) as nat);
        let c = zm_coeff(x, u, k);
        let w1 = weighted_values(qs, sc, x, k);
        let b1 = batched_values(qs, y, x, n, k);
        let z1 = zm_sum(e, u, x, k);
        lemma_cong_mul(sc[k as int], -(fy * po + z * c), pq, pq);
        lemma_cong_add(w1, -(b1 + z * z1), sc[k as int] * pq, -(fy * po + z * c) * pq);
        assert(-(b1 + z * z1) + -(fy * po + z * c) * pq == -((b1 + fy * po * pq) + z * (z1 + c * pq)))
            by (nonlinear_arith);
    }
}

/// The check polynomial of an honest Zeromorph opening vanishes at `x`:
/// where the claimed value is the evaluation of the table at `u`, the
/// polynomial `z * U(e) + q_hat + eval_scalar * f(u) + sum scalars[k] * U(q_k)`
/// that is opened at `x` to zero has value zero at `x`. This holds for every
/// `x` none of whose powers `x^(2^j)`, `j <= n`, is one.
pub proof fn lemma_check_poly_vanishes(e: Seq<int>, u: Seq<int>, y: int, x: int, z: int)
    requires
        e.len() == pow2(u.len()),
        nondegenerate(x, u.len()),
    ensures
        ({
            let n = u.len();
            let qs = quotients_of(e, u);
            let qh = q_hat_of(qs, y, n);
            let scalars = Seq::new(n, |k: int| quotient_scalar(y, x, z, u, k as nat));
            horner(check_poly_of(e, qh, qs, z, fmul(eval_scalar(x, z, n), ml_eval(e, u)), scalars), x) == 0
        }),
{
    let n = u.len();
    let qs = quotients_of(e, u);
    let qh = q_hat_of(qs, y, n);
    let sc = Seq::new(n, |k: int| quotient_scalar(y, x, z, u, k as nat));
    let v = ml_eval(e, u);
    let es = eval_scalar(x, z, n);
    let et = fmul(es, v);
    let check = check_poly_of(e, qh, qs, z, et, sc);
    crate::field::lemma_pow2_pos(n);
    assert forall|k: int| 0 <= k < qs.len() implies #[trigger] qs[k].len() == pow2(k as nat) by {
        lemma_quotient_len(e, u, k);
    }
    assert forall|k: int| 0 <= k < qs.len() implies #[trigger] qs[k].len() <= e.len() by {
        lemma_quotient_len(e, u, k);
        crate::field::lemma_pow2_mono(k as nat, n);
    }
    // the value of the check polynomial, part by part
    lemma_check_poly_value(e, qh, qs, z, et, sc, x, n);
    lemma_q_hat_value(qs, y, x, n, n);
    lemma_scalar_values(e, u, y, x, z, n);
    lemma_zeromorph_identity(e, u, x);
    assert(has_inverse(fsub(sq(x, 0), 1)));
    lemma_eval_scalar(x, z, n);
    let ml = ml_int(e, u);
    let g = geo(n, x);
    let pv = pe(e, x);
    let b = batched_values(qs, y, x, n, n);
    let zs = zm_sum(e, u, x, n);
    let w = weighted_values(qs, sc, x, n);
    // et is -Phi_n(x) * z * f(u)
    lemma_cong_mod(ml);
    lemma_cong_mul(es, -g * z, v, ml);
    lemma_cong_mod(es * v);
    // z * U(e)(x) is z * (f(u) * Phi_n(x) + sum), by the identity
    lemma_cong_mul(z, z, pv, ml * g + zs);
    lemma_cong_add(z * pv, z * (ml * g + zs), pe(qh, x), b);
    lemma_cong_add(z * pv + pe(qh, x), z * (ml * g + zs) + b, et, -g * z * ml);
    lemma_cong_add(z * pv + pe(qh, x) + et, z * (ml * g + zs) + b + -g * z * ml, w, -(b + z * zs));
    assert(z * (ml * g + zs) + b + -g * z * ml + -(b + z * zs) == 0) by (nonlinear_arith);
    lemma_horner_pe(check, x);
    assert(check == Seq::new(e.len(), |i: int| check_poly_entry(e, qh, qs, z, et, sc, i, qs.len())));
    lemma_small_mod(0, p() as nat);
}

/// The value of a sum of coefficient vectors is the sum of their values.
proof fn lemma_pe_uadd(a: Seq<int>, b: Seq<int>, x: int)
    ensures
        cong(pe(uadd(a, b), x), pe(a, x) + pe(b, x)),
{
    let c = uadd(a, b);
    let n = c.len();
    let pa = Seq::new(n, |i: int| if i < a.len() { a[i] } else { 0 });
    let pb = Seq::new(n, |i: int| if i < b.len() { b[i] } else { 0 });
    let l = lin(1, pa, 1, pb);
    assert forall|i: int| 0 <= i < n implies cong(#[trigger] c[i], l[i]) by {
        if i < a.len() && i < b.len() {
            lemma_cong_mod(a[i] + b[i]);
        }
    }
    lemma_pe_cong(c, l, x);
    lemma_pe_lin(1, pa, 1, pb, x);
    lemma_pe_padded(a, n, x);
    lemma_pe_padded(b, n, x);
}

/// The value of a scaled coefficient vector is the scaled value.
proof fn lemma_pe_uscale(a: Seq<int>, s: int, x: int)
    ensures
        cong(pe(uscale(a, s), x), s * pe(a, x)),
{
    let c = uscale(a, s);
    let l = lin(s, a, 0, a);
    assert forall|i: int| 0 <= i < a.len() implies cong(#[trigger] c[i], l[i]) by {
        lemma_cong_mod(a[i] * s);
        assert(a[i] * s == s * a[i] + 0 * a[i]) by (nonlinear_arith);
    }
    lemma_pe_cong(c, l, x);
    lemma_pe_lin(s, a, 0, a, x);
}

/// Multiplying by `X^k` multiplies the value by `x^k`.
proof fn lemma_pe_ushift(a: Seq<int>, k: nat, x: int)
    ensures
        pe(ushift(a, k), x) == pow(x, k) * pe(a, x),
{
    assert(ushift(a, k) =~= zeros(k) + a);
    lemma_pe_concat(zeros(k), a, x);
    lemma_pe_zeros(k, x);
}

/// The value of the weighted quotients is the constant plus the weighted
/// values.
proof fn lemma_pe_weighted_quotients(qs: Seq<Seq<int>>, sc: Seq<int>, c: int, x: int, m: nat)
    requires
        m <= qs.len(),
        m <= sc.len(),
    ensures
        cong(pe(weighted_quotients(qs, sc, c, m), x), c + weighted_values(qs, sc, x, m)),
    decreases m,
{
    if m == 0 {
        assert(seq![c].drop_first().len() == 0);
        assert(pe(seq![c].drop_first(), x) == 0);
    } else {
        let k = (m - 1) as nat;
        lemma_pe_weighted_quotients(qs, sc, c, x, k);
        let prev = weighted_quotients(qs, sc, c, k);
        let scaled = uscale(qs[k as int], sc[k as int]);
        lemma_pe_uadd(prev, scaled, x);
        lemma_pe_uscale(qs[k as int], sc[k as int], x);
        lemma_cong_add(pe(prev, x), c + weighted_values(qs, sc, x, k), pe(scaled, x), sc[k as int] * pe(qs[k as int], x));
    }
}

/// The polynomial `z * U(ed) + q_hat + t` of an honest opening of the table
/// `ed` has value zero at `x`, modulo `p`.
proof fn lemma_rotated_core_vanishes(ed: Seq<int>, u: Seq<int>, y: int, x: int, z: int)
    requires
        ed.len() == pow2(u.len()),
        nondegenerate(x, u.len()),
    ensures
        ({
            let n = u.len();
            let qs = quotients_of(ed, u);
            let qh = q_hat_of(qs, y, n);
            let scalars = Seq::new(n, |k: int| quotient_scalar(y, x, z, u, k as nat));
            let t = weighted_quotients(qs, scalars, fmul(ml_eval(ed, u), eval_scalar(x, z, n)), n);
            pe(uadd(uadd(uscale(ed, z), qh), t), x) % p() == 0
        }),
{
    let n = u.len();
    let qs = quotients_of(ed, u);
    let qh = q_hat_of(qs, y, n);
    let sc = Seq::new(n, |k: int| quotient_scalar(y, x, z, u, k as nat));
    let v = ml_eval(ed, u);
    let es = eval_scalar(x, z, n);
    let t = weighted_quotients(qs, sc, fmul(v, es), n);
    crate::field::lemma_pow2_pos(n);
    assert forall|k: int| 0 <= k < qs.len() implies #[trigger] qs[k].len() == pow2(k as nat) by {
        lemma_quotient_len(ed, u, k);
    }
    assert forall|k: int| 0 <= k < n implies #[trigger] qs[k].len() <= ed.len() by {
        lemma_quotient_len(ed, u, k);
        crate::field::lemma_pow2_mono(k as nat, n);
    }
    lemma_weighted_quotients_len(qs, sc, fmul(v, es), n, ed.len());
    lemma_pe_uadd(uadd(uscale(ed, z), qh), t, x);
    lemma_pe_uadd(uscale(ed, z), qh, x);
    lemma_pe_uscale(ed, z, x);
    lemma_pe_weighted_quotients(qs, sc, fmul(v, es), x, n);
    lemma_q_hat_value(qs, y, x, n, n);
    lemma_scalar_values(ed, u, y, x, z, n);
    lemma_zeromorph_identity(ed, u, x);
    assert(has_inverse(fsub(sq(x, 0), 1)));
    lemma_eval_scalar(x, z, n);
    let ml = ml_int(ed, u);
    let gn = geo(n, x);
    // the constant of t is -Phi_n(x) * z * f(u)
    lemma_cong_mod(ml);
    lemma_cong_mul(v, ml, es, -gn * z);
    lemma_cong_mod(v * es);
    lemma_core_combine(
        pe(uadd(uadd(uscale(ed, z), qh), t), x),
        pe(uadd(uscale(ed, z), qh), x),
        pe(uscale(ed, z), x),
        pe(t, x),
        pe(qh, x),
        pe(ed, x),
        z,
        ml,
        gn,
        zm_sum(ed, u, x, n),
        batched_values(qs, y, x, n, n),
        weighted_values(qs, sc, x, n),
        fmul(v, es),
    );
}

/// The parts of the value of `z * U(ed) + q_hat + t` add up to zero.
proof fn lemma_core_combine(
    pg: int,
    pg2: int,
    pg1: int,
    pt: int,
    pqh: int,
    pv: int,
    z: int,
    ml: int,
    gn: int,
    zs: int,
    b: int,
    w: int,
    c: int,
)
    requires
        cong(pg, pg2 + pt),
        cong(pg2, pg1 + pqh),
        cong(pg1, z * pv),
        cong(pt, c + w),
        cong(pqh, b),
        cong(w, -(b + z * zs)),
        cong(pv, ml * gn + zs),
        cong(c, ml * (-gn * z)),
    ensures
        pg % p() == 0,
{
    lemma_cong_mul(z, z, pv, ml * gn + zs);
    lemma_cong_add(pg1, z * (ml * gn + zs), pqh, b);
    lemma_cong_add(c, ml * (-gn * z), w, -(b + z * zs));
    lemma_cong_add(pg2, z * (ml * gn + zs) + b, pt, ml * (-gn * z) + -(b + z * zs));
    assert(z * (ml * gn + zs) + b + (ml * (-gn * z) + -(b + z * zs)) == 0) by (nonlinear_arith);
    lemma_small_mod(0, p() as nat);
}

/// The check polynomial of an honest opening of a table rotated to the
/// left vanishes at `x`: it is `X^d` times the check polynomial of the
/// rotated table, with the rotated table's own evaluation as the value.
/// This holds for every `x` none of whose powers `x^(2^j)`, `j <= n`, is
/// one.
pub proof fn lemma_shifted_check_poly_vanishes(e: Seq<int>, u: Seq<int>, r: Rotation, y: int, x: int, z: int)
    requires
        e.len() == pow2(u.len()),
        r.0 > 0,
        r.dist() < e.len(),
        nondegenerate(x, u.len()),
    ensures
        ({
            let n = u.len();
            let ed = rotate_table(e, r);
            let qs = quotients_of(ed, u);
            let qh = q_hat_of(qs, y, n);
            let scalars = Seq::new(n, |k: int| quotient_scalar(y, x, z, u, k as nat));
            let t = weighted_quotients(qs, scalars, fmul(ml_eval(ed, u), eval_scalar(x, z, n)), n);
            horner(shifted_check_poly(e, r, qh, t, z), x) == 0
        }),
{
    let n = u.len();
    let d = r.dist();
    let ed = rotate_table(e, r);
    assert(ed.len() == e.len());
    let qs = quotients_of(ed, u);
    let qh = q_hat_of(qs, y, n);
    let sc = Seq::new(n, |k: int| quotient_scalar(y, x, z, u, k as nat));
    let v = ml_eval(ed, u);
    let es = eval_scalar(x, z, n);
    let t = weighted_quotients(qs, sc, fmul(v, es), n);
    crate::field::lemma_pow2_pos(n);
    assert forall|k: int| 0 <= k < qs.len() implies #[trigger] qs[k].len() == pow2(k as nat) by {
        lemma_quotient_len(ed, u, k);
    }
    assert forall|k: int| 0 <= k < n implies #[trigger] qs[k].len() <= ed.len() by {
        lemma_quotient_len(ed, u, k);
        crate::field::lemma_pow2_mono(k as nat, n);
    }
    lemma_weighted_quotients_len(qs, sc, fmul(v, es), n, ed.len());
    // the check polynomial is X^d times z * ed + q_hat + t
    lemma_left_shift_check_poly(e, r, qh, t, z);
    let g = uadd(uadd(uscale(ed, z), qh), t);
    lemma_pe_ushift(g, d, x);
    lemma_rotated_core_vanishes(ed, u, y, x, z);
    // so x^d times it is zero too
    let pg = pe(g, x);
    lemma_small_mod(0, p() as nat);
    lemma_cong_mul(pow(x, d), pow(x, d), pg, 0);
    lemma_horner_pe(shifted_check_poly(e, r, qh, t, z), x);
}

/// The weighted sum of the first `m` tables evaluates to the weighted sum
/// of their evaluations, where each claimed value is its table's
/// evaluation.
proof fn lemma_wsum_eval(ws: Seq<int>, ts: Seq<Seq<int>>, vs: Seq<int>, u: Seq<int>, len: nat, m: nat)
    requires
        m <= ts.len(),
        m <= ws.len(),
        m <= vs.len(),
        len == pow2(u.len()),
        forall|k: int| 0 <= k < ts.len() ==> (#[trigger] ts[k]).len() == len,
        forall|k: int| 0 <= k < m ==> #[trigger] vs[k] == ml_eval(ts[k], u),
    ensures
        ml_eval(Seq::new(len, |j: int| wsum(ws, ts, j, m)), u) == fsum(Seq::new(m, |i: int| fmul(vs[i], ws[i]))),
    decreases m,
{
    let cur = Seq::new(len, |j: int| wsum(ws, ts, j, m));
    let terms = Seq::new(m, |i: int| fmul(vs[i], ws[i]));
    if m == 0 {
        let z = lin(0, cur, 0, cur);
        assert(cur =~= z);
        lemma_ml_lin(0, cur, 0, cur, u);
        assert(terms.len() == 0);
        lemma_small_mod(0, p() as nat);
    } else {
        let k = (m - 1) as nat;
        lemma_wsum_eval(ws, ts, vs, u, len, k);
        let prev = Seq::new(len, |j: int| wsum(ws, ts, j, k));
        let t = ts[k as int];
        let w = ws[k as int];
        let l = lin(1, prev, w, t);
        assert forall|j: int| 0 <= j < len implies #[trigger] cur[j] % p() == l[j] % p() by {
            lemma_cong_mod(w * t[j]);
            lemma_cong_add(prev[j], prev[j], fmul(w, t[j]), w * t[j]);
            lemma_cong_mod(prev[j] + fmul(w, t[j]));
        }
        lemma_ml_cong(cur, l, u);
        lemma_ml_lin(1, prev, w, t, u);
        assert(terms.drop_last() =~= Seq::new(k, |i: int| fmul(vs[i], ws[i])));
        let mp = ml_int(prev, u);
        let mt = ml_int(t, u);
        // ml_int(cur) is mp + w * mt, modulo p; the terms sum to the previous
        // sum plus vs[k] * w, with vs[k] the value of mt
        lemma_cong_mod(mp);
        lemma_cong_mod(mt);
        lemma_cong_mul(w, w, mt % p(), mt);
        lemma_cong_add(mp % p(), mp, w * (mt % p()), w * mt);
        assert(vs[k as int] * w == w * vs[k as int]) by (nonlinear_arith);
        lemma_cong_mod(vs[k as int] * w);
        lemma_cong_add(ml_eval(prev, u), mp, fmul(vs[k as int], w), w * mt);
        lemma_cong_mod(ml_eval(prev, u) + fmul(vs[k as int], w));
    }
}

/// A batched opening claims a true value: where every claim's value is the
/// evaluation of its table at `u`, the weighted sum of the values of the
/// unrotated and of the rotated claims is the evaluation at `u` of the sum
/// of all tables weighted alike, which is the table that the batched
/// opening opens.
pub proof fn lemma_batched_claims(
    w_cur: Seq<int>,
    t_cur: Seq<Seq<int>>,
    v_cur: Seq<int>,
    w_rot: Seq<int>,
    t_rot: Seq<Seq<int>>,
    v_rot: Seq<int>,
    u: Seq<int>,
)
    requires
        w_cur.len() == t_cur.len() == v_cur.len(),
        w_rot.len() == t_rot.len() == v_rot.len(),
        forall|k: int| 0 <= k < t_cur.len() ==> (#[trigger] t_cur[k]).len() == pow2(u.len()),
        forall|k: int| 0 <= k < t_rot.len() ==> (#[trigger] t_rot[k]).len() == pow2(u.len()),
        forall|k: int| 0 <= k < t_cur.len() ==> #[trigger] v_cur[k] == ml_eval(t_cur[k], u),
        forall|k: int| 0 <= k < t_rot.len() ==> #[trigger] v_rot[k] == ml_eval(t_rot[k], u),
    ensures
        fadd(finner(v_cur, w_cur), finner(v_rot, w_rot)) == ml_eval(
            Seq::new(
                pow2(u.len()),
                |j: int| fadd(wsum(w_cur, t_cur, j, t_cur.len()), wsum(w_rot, t_rot, j, t_rot.len())),
            ),
            u,
        ),
{
    let len = pow2(u.len());
    let nc = t_cur.len();
    let nr = t_rot.len();
    lemma_wsum_eval(w_cur, t_cur, v_cur, u, len, nc);
    lemma_wsum_eval(w_rot, t_rot, v_rot, u, len, nr);
    assert(Seq::new(min_len(nc, nc), |i: int| fmul(v_cur[i], w_cur[i])) =~= Seq::new(nc, |i: int| fmul(v_cur[i], w_cur[i])));
    assert(Seq::new(min_len(nr, nr), |i: int| fmul(v_rot[i], w_rot[i])) =~= Seq::new(nr, |i: int| fmul(v_rot[i], w_rot[i])));
    let a = Seq::new(len, |j: int| wsum(w_cur, t_cur, j, nc));
    let b = Seq::new(len, |j: int| wsum(w_rot, t_rot, j, nr));
    let all = Seq::new(len, |j: int| fadd(wsum(w_cur, t_cur, j, nc), wsum(w_rot, t_rot, j, nr)));
    let l = lin(1, a, 1, b);
    assert forall|j: int| 0 <= j < len implies #[trigger] all[j] % p() == l[j] % p() by {
        lemma_cong_mod(a[j] + b[j]);
    }
    lemma_ml_cong(all, l, u);
    lemma_ml_lin(1, a, 1, b, u);
    lemma_cong_mod(ml_int(a, u));
    lemma_cong_mod(ml_int(b, u));
    lemma_cong_add(ml_eval(a, u), ml_int(a, u), ml_eval(b, u), ml_int(b, u));
    lemma_cong_mod(ml_eval(a, u) + ml_eval(b, u));
}

} // verus!
