//! Honest openings verify: the points that an opening writes are the
//! generator times the values at the secret `s` of the polynomials it
//! commits to, and those values satisfy the verifier's equation.

use crate::curve::{dot, g1_generator_bytes, g1_mul, g1_muls, g2_generator_bytes, g2_mul, g2_muls};
use crate::field::{fadd, fmul, fpow, lemma_mod_range, p, pow2};
use crate::kzg::{g1_powers, g2_powers, UnivariateKzgParam};
use crate::curve::{g1_views, g2_views};
use crate::zeromorph::powers_basis;
use crate::transcript::{chunk, chunks, g1_bytes};
use crate::vanishing::{
    cong, lemma_cong_add, lemma_cong_mod, lemma_cong_mul, lemma_cong_sub, lemma_fpow_pow, lemma_pe_concat, nondegenerate, pe,
    weighted_values,
};
use crate::kzg::{div_linear, lemma_div_linear_len};
use crate::poly::{eq_table, lin, ml_eval, MultilinearPolynomial};
use crate::pcs::{
    batch_equation, batch_open_parts, ceil_log2, claim_values, eval_tables, eval_values, is_cur, merged, rotate_table, split_evals,
    wsum, EvaluationForShift,
};
use crate::transcript::{challenge_of, challenges_of, keccak256_of};
use crate::expression::Rotation;
use crate::zeromorph::{
    shifted_check_poly, shifted_equation, shifted_open_logs, shifted_open_x, weighted_quotients, check_poly_entry, check_poly_of, eval_scalar, kzg_equation, open_logs, open_x, q_hat_of, quotient_scalar, quotients_of,
};
use vstd::arithmetic::div_mod::lemma_small_mod;
use vstd::arithmetic::power::pow;
use vstd::prelude::*;

verus! {

/// The powers `s^i` for `i < n`, in the field.
pub open spec fn powers_of(s: int, n: nat) -> Seq<int> {
    Seq::new(n, |i: int| fpow(s, i as nat))
}

/// Field powers are canonical.
pub proof fn lemma_fpow_range(a: int, n: nat)
    ensures
        0 <= fpow(a, n) < p(),
{
    if n == 0 {
        assert(fpow(a, 0) == 1);
        crate::field::lemma_p_below_pow256();
    } else {
        lemma_mod_range(fpow(a, (n - 1) as nat) * a);
    }
}

/// The parameters made from the secret `s` are the generators times the
/// powers of `s`.
pub proof fn lemma_powers_are_multiples(s: int, n: nat)
    ensures
        g1_powers(s, g1_generator_bytes(), n) == g1_muls(powers_of(s, n)),
        g2_powers(s, g2_generator_bytes(), n) == g2_muls(powers_of(s, n)),
{
    assert forall|i: int| 0 <= i < n implies #[trigger] fpow(s, i as nat) % p() == fpow(s, i as nat) by {
        lemma_fpow_range(s, i as nat);
        lemma_small_mod(fpow(s, i as nat) as nat, p() as nat);
    }
    assert(g1_powers(s, g1_generator_bytes(), n) =~= g1_muls(powers_of(s, n)));
    assert(g2_powers(s, g2_generator_bytes(), n) =~= g2_muls(powers_of(s, n)));
}

/// Parameters made from the secret `s`: every prefix of the `G1` powers is
/// a basis of powers of `s`, and the verifier's points are `G1`, `G2` and
/// `s * G2`.
pub proof fn lemma_secret_parameters(param: UnivariateKzgParam, s: int)
    requires
        g1_views(param.monomial_g1@) == g1_powers(s, g1_generator_bytes(), param.monomial_g1@.len()),
        g2_views(param.powers_of_s_g2@) == g2_powers(s, g2_generator_bytes(), param.powers_of_s_g2@.len()),
        param.monomial_g1@.len() > 0,
        param.powers_of_s_g2@.len() >= 2,
    ensures
        forall|k: int| 0 <= k <= param.monomial_g1@.len() ==> #[trigger] powers_basis(param.monomial_g1@.take(k), s),
        powers_basis(param.monomial_g1@, s),
        param.monomial_g1@[0]@ == g1_mul(1),
        param.powers_of_s_g2@[0]@ == g2_mul(1),
        param.powers_of_s_g2@[1]@ == g2_mul(s),
{
    let n = param.monomial_g1@.len();
    lemma_powers_are_multiples(s, n);
    lemma_powers_are_multiples(s, param.powers_of_s_g2@.len());
    assert forall|k: int| 0 <= k <= n implies #[trigger] powers_basis(param.monomial_g1@.take(k), s) by {
        lemma_powers_are_multiples(s, k as nat);
        assert(g1_views(param.monomial_g1@.take(k)) =~= g1_powers(s, g1_generator_bytes(), k as nat)) by {
            assert forall|j: int| 0 <= j < k implies #[trigger] g1_views(param.monomial_g1@.take(k))[j]
                == g1_powers(s, g1_generator_bytes(), k as nat)[j] by {
                assert(g1_views(param.monomial_g1@)[j] == param.monomial_g1@[j]@);
            }
        }
    }
    assert(g1_views(param.monomial_g1@)[0] == param.monomial_g1@[0]@);
    assert(g2_views(param.powers_of_s_g2@)[0] == param.powers_of_s_g2@[0]@);
    assert(g2_views(param.powers_of_s_g2@)[1] == param.powers_of_s_g2@[1]@);
    assert(fpow(s, 0) == 1);
    assert(fpow(s, 1) == fmul(1, s));
    lemma_small_mod(1, p() as nat);
    lemma_mul_cong(1, fpow(s, 0));
    lemma_mul_cong(s, fpow(s, 1));
    lemma_cong_mod(s);
}

/// Multiples by congruent values are one point.
pub proof fn lemma_mul_cong(a: int, b: int)
    requires
        cong(a, b),
    ensures
        g1_mul(a) == g1_mul(b),
        g2_mul(a) == g2_mul(b),
{
    assert(seq![a % p()] =~= seq![b % p()]);
}

/// Commitments add up: where the basis is the powers of `s`, a commitment
/// to a table is `e(s) * G1` (`Zeromorph::commit`), so the commitment to
/// `a * p + b * q`, taken entry by entry in the field, is
/// `(a * p(s) + b * q(s)) * G1`, the point that a multi-scalar
/// multiplication of `(a, b)` over the commitments to `p` and `q` gives.
pub proof fn lemma_commit_additive(p1: Seq<int>, q1: Seq<int>, a: int, b: int, s: int)
    requires
        p1.len() == q1.len(),
    ensures
        g1_mul(pe(Seq::new(p1.len(), |i: int| fadd(fmul(a, p1[i]), fmul(b, q1[i]))), s))
            == g1_mul(dot(seq![a, b], seq![pe(p1, s), pe(q1, s)])),
{
    let c = Seq::new(p1.len(), |i: int| fadd(fmul(a, p1[i]), fmul(b, q1[i])));
    let l = lin(a, p1, b, q1);
    assert forall|i: int| 0 <= i < c.len() implies cong(#[trigger] c[i], l[i]) by {
        lemma_cong_mod(a * p1[i]);
        lemma_cong_mod(b * q1[i]);
        lemma_cong_add(fmul(a, p1[i]), a * p1[i], fmul(b, q1[i]), b * q1[i]);
        lemma_cong_mod(fmul(a, p1[i]) + fmul(b, q1[i]));
    }
    crate::vanishing::lemma_pe_cong(c, l, s);
    crate::vanishing::lemma_pe_lin(a, p1, b, q1, s);
    lemma_dot_small(a, b, 0, 0, pe(p1, s), pe(q1, s), 0, 0);
    lemma_mul_cong(pe(c, s), a * pe(p1, s) + b * pe(q1, s));
}

/// The products of the coefficients with the powers of `s` sum to the value
/// at `s`.
pub proof fn lemma_dot_powers(c: Seq<int>, s: int)
    ensures
        cong(dot(c, powers_of(s, c.len())), pe(c, s)),
    decreases c.len(),
{
    if c.len() > 0 {
        let n = c.len();
        let c1 = c.drop_last();
        lemma_dot_powers(c1, s);
        assert(powers_of(s, n).drop_last() =~= powers_of(s, c1.len()));
        assert(c =~= c1 + seq![c.last()]);
        lemma_pe_concat(c1, seq![c.last()], s);
        assert(pe(seq![c.last()], s) == c.last()) by {
            let one = seq![c.last()];
            assert(one.drop_first() =~= Seq::<int>::empty());
            assert(pe(one.drop_first(), s) == 0);
            assert(pe(one, s) == one[0] + s * pe(one.drop_first(), s));
        }
        lemma_fpow_pow(s, c1.len());
        lemma_cong_mod(pow(s, c1.len()));
        lemma_cong_mul(c.last(), c.last(), fpow(s, c1.len()), pow(s, c1.len()));
        assert(pow(s, c1.len()) * c.last() == c.last() * pow(s, c1.len())) by (nonlinear_arith);
        lemma_cong_add(dot(c1, powers_of(s, c1.len())), pe(c1, s), c.last() * fpow(s, c1.len()), c.last() * pow(s, c1.len()));
    }
}

/// The products over two sequences one after the other add up.
pub proof fn lemma_dot_concat(a: Seq<int>, b: Seq<int>, c: Seq<int>, d: Seq<int>)
    requires
        a.len() == c.len(),
        b.len() == d.len(),
    ensures
        dot(a + b, c + d) == dot(a, c) + dot(b, d),
    decreases b.len(),
{
    if b.len() == 0 {
        assert(a + b =~= a);
        assert(c + d =~= c);
    } else {
        lemma_dot_concat(a, b.drop_last(), c, d.drop_last());
        assert((a + b).drop_last() =~= a + b.drop_last());
        assert((c + d).drop_last() =~= c + d.drop_last());
    }
}

/// The encodings of 32-byte points one after the other are read back one
/// by one.
pub proof fn lemma_g1_bytes_chunks(pre: Seq<u8>, cs: Seq<Seq<u8>>, rest: Seq<u8>)
    requires
        forall|k: int| 0 <= k < cs.len() ==> (#[trigger] cs[k]).len() == 32,
    ensures
        g1_bytes(cs).len() == 32 * cs.len(),
        chunks(pre + g1_bytes(cs) + rest, pre.len() as int, cs.len()) == cs,
    decreases cs.len(),
{
    if cs.len() > 0 {
        let c1 = cs.drop_last();
        lemma_g1_bytes_chunks(pre, c1, cs.last() + rest);
        assert(pre + g1_bytes(cs) + rest =~= pre + g1_bytes(c1) + (cs.last() + rest));
        let st = pre + g1_bytes(cs) + rest;
        assert forall|k: int| 0 <= k < cs.len() implies #[trigger] chunks(st, pre.len() as int, cs.len())[k] == cs[k] by {
            if k < c1.len() {
                assert(chunks(st, pre.len() as int, c1.len())[k] == c1[k]);
            } else {
                assert(chunk(st, pre.len() + 32 * k) =~= cs.last());
            }
        }
        assert(chunks(st, pre.len() as int, cs.len()) =~= cs);
    } else {
        assert(chunks(pre + g1_bytes(cs) + rest, pre.len() as int, 0) =~= cs);
    }
}

/// The rotated pairing check's exponent vanishes where its equation holds:
/// `f * (-1 * o) + pi * (s + (-x))` is `pi * (s - x) - o * f` modulo `p`.
pub proof fn lemma_shifted_pairing(f: int, pi: int, s: int, x: int, o: int)
    requires
        (pi * (s - x) - o * f) % p() == 0,
    ensures
        (f * (crate::field::fneg(1) * o) + pi * (1 * s + crate::field::fneg(x) * 1)) % p() == 0,
{
    let m = p();
    let nx = crate::field::fneg(x);
    let n1 = crate::field::fneg(1);
    lemma_cong_mod(-x);
    lemma_cong_mod(-1);
    lemma_cong_mul(n1, -1, o, o);
    lemma_cong_mul(f, f, n1 * o, -1 * o);
    lemma_cong_add(1 * s, s, nx * 1, -x);
    lemma_cong_mul(pi, pi, 1 * s + nx * 1, s - x);
    lemma_cong_add(f * (n1 * o), f * (-1 * o), pi * (1 * s + nx * 1), pi * (s - x));
    assert(f * (-1 * o) + pi * (s - x) == pi * (s - x) - o * f) by (nonlinear_arith);
}

/// Products of short sequences.
pub proof fn lemma_dot_small(a0: int, a1: int, a2: int, a3: int, b0: int, b1: int, b2: int, b3: int)
    ensures
        dot(seq![a0], seq![b0]) == a0 * b0,
        dot(seq![a0, a1], seq![b0, b1]) == a0 * b0 + a1 * b1,
        dot(seq![a0, a1, a2, a3], seq![b0, b1, b2, b3]) == a0 * b0 + a1 * b1 + a2 * b2 + a3 * b3,
{
    assert(seq![a0].drop_last() =~= Seq::<int>::empty());
    assert(seq![b0].drop_last() =~= Seq::<int>::empty());
    assert(seq![a0, a1].drop_last() =~= seq![a0]);
    assert(seq![b0, b1].drop_last() =~= seq![b0]);
    assert(seq![a0, a1, a2].drop_last() =~= seq![a0, a1]);
    assert(seq![b0, b1, b2].drop_last() =~= seq![b0, b1]);
    assert(seq![a0, a1, a2, a3].drop_last() =~= seq![a0, a1, a2]);
    assert(seq![b0, b1, b2, b3].drop_last() =~= seq![b0, b1, b2]);
    assert(dot(Seq::<int>::empty(), Seq::<int>::empty()) == 0);
    assert(dot(seq![a0], seq![b0]) == a0 * b0);
    assert(dot(seq![a0, a1], seq![b0, b1]) == a0 * b0 + a1 * b1);
    assert(dot(seq![a0, a1, a2], seq![b0, b1, b2]) == a0 * b0 + a1 * b1 + a2 * b2);
}

/// The pairing check's exponent vanishes where the verifier's equation
/// holds: with `d = q_hat + z * c + et + x * pi + w`,
/// `pi * s + d * (-1)` is `pi * (s - x) - (q_hat + z * c + et + w)` modulo `p`.
pub proof fn lemma_verifier_equation(pi: int, s: int, x: int, qh: int, z: int, c: int, et: int, w: int, d: int)
    requires
        d == 1 * qh + z * c + et * 1 + x * pi + w,
        (pi * (s - x) - (qh + z * c + et + w)) % p() == 0,
    ensures
        (pi * s + d * (crate::field::fneg(1) * 1)) % p() == 0,
{
    let m = p();
    assert(crate::field::fneg(1) == m - 1) by {
        vstd::arithmetic::div_mod::lemma_mod_add_multiples_vanish(-1, m);
        lemma_small_mod((m - 1) as nat, m as nat);
    }
    assert(pi * s + d * ((m - 1) * 1) == (pi * (s - x) - (qh + z * c + et + w)) + d * m) by (nonlinear_arith)
        requires
            d == 1 * qh + z * c + et * 1 + x * pi + w,
    ;
    vstd::arithmetic::div_mod::lemma_mod_multiples_vanish(d, pi * (s - x) - (qh + z * c + et + w), m);
}

/// The constant coefficient of the quotient by `X - x` is the value at `x`
/// of the polynomial without its constant coefficient.
proof fn lemma_div_linear_first(f: Seq<int>, x: int)
    requires
        f.len() >= 2,
    ensures
        cong(div_linear(f, x)[0], pe(f.drop_first(), x)),
    decreases f.len(),
{
    let g = f.drop_first();
    lemma_div_linear_len(g, x);
    let rest = div_linear(g, x);
    if rest.len() == 0 {
        assert(g.drop_first().len() == 0);
        assert(pe(g.drop_first(), x) == 0);
        assert(pe(g, x) == g[0]);
        lemma_cong_mod(f[1]);
    } else {
        lemma_div_linear_first(g, x);
        // div_linear(f)[0] = f[1] + x * rest[0], rest[0] ~ pe(g.drop_first(), x)
        lemma_cong_mod(x * rest[0]);
        lemma_cong_mul(x, x, rest[0], pe(g.drop_first(), x));
        lemma_cong_add(f[1], f[1], x * rest[0], x * pe(g.drop_first(), x));
        lemma_cong_mod(f[1] + x * rest[0]);
        lemma_cong_mod(fmul(x, rest[0]));
        lemma_cong_add(f[1], f[1], fmul(x, rest[0]), x * rest[0]);
        lemma_cong_mod(f[1] + fmul(x, rest[0]));
    }
}

/// Division by `X - x`: `f(s) = (s - x) * q(s) + f(x)` modulo `p`, `q` the
/// quotient.
pub proof fn lemma_div_linear_value(f: Seq<int>, x: int, s: int)
    ensures
        cong(pe(f, s), (s - x) * pe(div_linear(f, x), s) + pe(f, x)),
    decreases f.len(),
{
    if f.len() <= 1 {
        assert(div_linear(f, x).len() == 0);
        assert(pe(div_linear(f, x), s) == 0);
        if f.len() == 1 {
            assert(f.drop_first().len() == 0);
            assert(pe(f.drop_first(), s) == 0);
            assert(pe(f.drop_first(), x) == 0);
            assert(pe(f, s) == f[0] + s * 0);
            assert(pe(f, x) == f[0] + x * 0);
        }
        assert((s - x) * 0 == 0);
    } else {
        let g = f.drop_first();
        let q = div_linear(f, x);
        let rest = div_linear(g, x);
        lemma_div_linear_value(g, x, s);
        lemma_div_linear_first(f, x);
        assert(q.drop_first() =~= rest);
        // pe(q, s) = q[0] + s * pe(rest, s)
        let q0 = q[0];
        let gx = pe(g, x);
        let gs = pe(g, s);
        let rs = pe(rest, s);
        // f(s) = f0 + s * g(s) ~ f0 + s * ((s - x) * rs + gx)
        lemma_cong_mul(s, s, gs, (s - x) * rs + gx);
        lemma_cong_add(f[0], f[0], s * gs, s * ((s - x) * rs + gx));
        // (s - x) * (q0 + s * rs) + f0 + x * gx ~ (s - x) * (gx + s * rs) + f0 + x * gx
        lemma_cong_add(q0, gx, s * rs, s * rs);
        lemma_cong_mul(s - x, s - x, q0 + s * rs, gx + s * rs);
        lemma_cong_add((s - x) * (q0 + s * rs), (s - x) * (gx + s * rs), f[0] + x * gx, f[0] + x * gx);
        assert(f[0] + s * ((s - x) * rs + gx) == (s - x) * (gx + s * rs) + (f[0] + x * gx)) by (nonlinear_arith);
        assert(pe(f, s) == f[0] + s * gs);
        assert(pe(f, x) == f[0] + x * gx);
        assert(pe(q, s) == q0 + s * rs);
    }
}

/// The quotients' weighted values are the products of the scalars with the
/// quotients' values.
proof fn lemma_weighted_values_dot(qs: Seq<Seq<int>>, sc: Seq<int>, s: int, m: nat)
    requires
        m <= qs.len(),
        m <= sc.len(),
    ensures
        weighted_values(qs, sc, s, m) == dot(sc.take(m as int), Seq::new(m, |k: int| pe(qs[k], s))),
    decreases m,
{
    if m > 0 {
        lemma_weighted_values_dot(qs, sc, s, (m - 1) as nat);
        assert(sc.take(m as int).drop_last() =~= sc.take(m - 1));
        assert(Seq::new(m, |k: int| pe(qs[k], s)).drop_last() =~= Seq::new((m - 1) as nat, |k: int| pe(qs[k], s)));
    }
}

/// An honest Zeromorph opening satisfies the verifier's equation: where the
/// claimed value is the evaluation of the table `e` at `u`, the bases are
/// the powers of `s` and the stream holds, from `pos`, the points that the
/// opening writes, the values at `s` of the polynomials behind them satisfy
/// `pi * (s - x) == q_hat + z * c + eval_scalar * eval + sum scalars[k] * q_k`
/// for the commitment `c = e(s)`. This holds for every `x` none of whose
/// powers `x^(2^j)`, `j <= n`, is one.
pub proof fn lemma_open_satisfies_verifier(s: int, e: Seq<int>, u: Seq<int>, state: Seq<u8>, stream: Seq<u8>, pos: int)
    requires
        e.len() == pow2(u.len()),
        nondegenerate(open_x(s, e, u, state), u.len()),
        chunks(stream, pos, u.len() + 2) == g1_muls(open_logs(s, e, u, ml_eval(e, u), state)),
    ensures
        kzg_equation(s, pe(e, s), open_logs(s, e, u, ml_eval(e, u), state), u, ml_eval(e, u), state, stream, pos),
{
    let n = u.len();
    let v = ml_eval(e, u);
    let logs = open_logs(s, e, u, v, state);
    let qs = quotients_of(e, u);
    let ql = Seq::new(n, |k: int| pe(qs[k], s));
    let st1 = state + g1_bytes(g1_muls(ql));
    let y = challenge_of(st1);
    let st2 = keccak256_of(st1);
    let qh = q_hat_of(qs, y, n);
    let st3 = st2 + g1_mul(pe(qh, s));
    let x = challenge_of(st3);
    let st4 = keccak256_of(st3);
    let z = challenge_of(st4);
    let sc = Seq::new(n, |k: int| quotient_scalar(y, x, z, u, k as nat));
    let et = fmul(eval_scalar(x, z, n), v);
    let f = check_poly_of(e, qh, qs, z, et, sc);
    let w = div_linear(f, x);
    assert(logs =~= ql + seq![pe(qh, s), pe(w, s)]);
    // the verifier reads the same points and squeezes the same challenges
    let ch = chunks(stream, pos, n + 2);
    assert(chunks(stream, pos, n) =~= g1_muls(ql)) by {
        assert forall|k: int| 0 <= k < n implies #[trigger] chunks(stream, pos, n)[k] == g1_muls(ql)[k] by {
            assert(ch[k] == g1_muls(logs)[k]);
        }
    }
    assert(chunk(stream, pos + 32 * n) == g1_mul(pe(qh, s))) by {
        assert(ch[n as int] == g1_muls(logs)[n as int]);
    }
    // the check polynomial vanishes at x
    crate::vanishing::lemma_check_poly_vanishes(e, u, y, x, z);
    crate::vanishing::lemma_horner_pe(f, x);
    // its value at s
    crate::field::lemma_pow2_pos(n);
    assert forall|k: int| 0 <= k < qs.len() implies #[trigger] qs[k].len() <= e.len() by {
        crate::vanishing::lemma_quotient_len(e, u, k);
        crate::field::lemma_pow2_mono(k as nat, n);
    }
    crate::vanishing::lemma_check_poly_value(e, qh, qs, z, et, sc, s, n);
    assert(f =~= Seq::new(e.len(), |i: int| check_poly_entry(e, qh, qs, z, et, sc, i, n)));
    lemma_weighted_values_dot(qs, sc, s, n);
    assert(sc.take(n as int) =~= sc);
    assert(logs.take(n as int) =~= ql);
    let wv = weighted_values(qs, sc, s, n);
    // f(s) = (s - x) * w(s) + f(x), f(x) = 0 mod p
    lemma_div_linear_value(f, x, s);
    let fs = pe(f, s);
    let fx = pe(f, x);
    let lhs = pe(w, s) * (s - x) - (pe(qh, s) + z * pe(e, s) + et + wv);
    assert(fx % p() == 0);
    assert(cong(fs, z * pe(e, s) + pe(qh, s) + et + wv));
    assert(cong(fs, (s - x) * pe(w, s) + fx));
    assert(lhs == ((s - x) * pe(w, s) + fx) - (z * pe(e, s) + pe(qh, s) + et + wv) - fx) by {
        assert(pe(w, s) * (s - x) == (s - x) * pe(w, s)) by (nonlinear_arith);
    }
    lemma_cong_sub((s - x) * pe(w, s) + fx, z * pe(e, s) + pe(qh, s) + et + wv, z * pe(e, s) + pe(qh, s) + et + wv, z * pe(e, s) + pe(qh, s) + et + wv);
    lemma_cong_sub(((s - x) * pe(w, s) + fx) - (z * pe(e, s) + pe(qh, s) + et + wv), 0, fx, 0);
    lemma_small_mod(0, p() as nat);
}

/// An honest proof of a rotated evaluation satisfies the rotated
/// verifier's equation, for a rotation to the left: where the bases are the
/// powers of `s`, the parameters' offset is zero and the stream holds, from
/// `pos`, the points that the proof writes, the values at `s` of its check
/// polynomial `f` and of the opening `pi` satisfy `pi * (s - x) == f`. This
/// holds for every `x` none of whose powers `x^(2^j)`, `j <= n`, is one.
pub proof fn lemma_shifted_open_satisfies_verifier(
    s: int,
    e: Seq<int>,
    u: Seq<int>,
    r: Rotation,
    state: Seq<u8>,
    stream: Seq<u8>,
    pos: int,
)
    requires
        e.len() == pow2(u.len()),
        r.0 > 0,
        r.dist() < e.len(),
        nondegenerate(shifted_open_x(s, e, u, r, state), u.len()),
        chunks(stream, pos, u.len() + 3) == g1_muls(shifted_open_logs(s, e, u, r, state)),
    ensures
        shifted_equation(s, 1, shifted_open_logs(s, e, u, r, state), u.len(), state, stream, pos),
{
    let n = u.len();
    let logs = shifted_open_logs(s, e, u, r, state);
    let ed = rotate_table(e, r);
    let qs = quotients_of(ed, u);
    let ql = Seq::new(n, |k: int| pe(qs[k], s));
    let st1 = state + g1_bytes(g1_muls(ql));
    let y = challenge_of(st1);
    let st2 = keccak256_of(st1);
    let qh = q_hat_of(qs, y, n);
    let st3 = st2 + g1_mul(pe(qh, s));
    let x = challenge_of(st3);
    let st4 = keccak256_of(st3);
    let z = challenge_of(st4);
    let scalars = Seq::new(n, |k: int| quotient_scalar(y, x, z, u, k as nat));
    let t = weighted_quotients(qs, scalars, fmul(ml_eval(ed, u), eval_scalar(x, z, n)), n);
    let fd = shifted_check_poly(e, r, qh, t, z);
    let w = div_linear(fd, x);
    assert(logs =~= ql + seq![pe(qh, s), pe(fd, s), pe(w, s)]);
    let ch = chunks(stream, pos, n + 3);
    assert(chunks(stream, pos, n) =~= g1_muls(ql)) by {
        assert forall|k: int| 0 <= k < n implies #[trigger] chunks(stream, pos, n)[k] == g1_muls(ql)[k] by {
            assert(ch[k] == g1_muls(logs)[k]);
        }
    }
    assert(chunk(stream, pos + 32 * n) == g1_mul(pe(qh, s))) by {
        assert(ch[n as int] == g1_muls(logs)[n as int]);
    }
    crate::vanishing::lemma_shifted_check_poly_vanishes(e, u, r, y, x, z);
    crate::vanishing::lemma_horner_pe(fd, x);
    lemma_div_linear_value(fd, x, s);
    let fs = pe(fd, s);
    let fx = pe(fd, x);
    assert(fx % p() == 0);
    assert(pe(w, s) * (s - x) - 1 * fs == ((s - x) * pe(w, s) + fx) - fs - fx) by {
        assert(pe(w, s) * (s - x) == (s - x) * pe(w, s)) by (nonlinear_arith);
    }
    lemma_cong_sub((s - x) * pe(w, s) + fx, fs, fs, fs);
    lemma_cong_sub(((s - x) * pe(w, s) + fx) - fs, 0, fx, 0);
    lemma_small_mod(0, p() as nat);
}

/// The value at `s` of the weighted sum of tables is the weighted sum of
/// their values, modulo `p`.
pub proof fn lemma_pe_wsum(ws: Seq<int>, ts: Seq<Seq<int>>, len: nat, m: nat, s: int)
    requires
        m <= ts.len(),
        m <= ws.len(),
        forall|k: int| 0 <= k < m ==> (#[trigger] ts[k]).len() == len,
    ensures
        cong(pe(Seq::new(len, |j: int| wsum(ws, ts, j, m)), s), dot(ws.take(m as int), Seq::new(m, |k: int| pe(ts[k], s)))),
    decreases m,
{
    let tm = Seq::new(len, |j: int| wsum(ws, ts, j, m));
    if m == 0 {
        assert(tm =~= Seq::new(len, |j: int| 0int));
        crate::vanishing::lemma_pe_zeros(len, s);
        assert(Seq::new(len, |j: int| 0int) =~= crate::vanishing::zeros(len));
    } else {
        let k = (m - 1) as nat;
        lemma_pe_wsum(ws, ts, len, k, s);
        let tk = Seq::new(len, |j: int| wsum(ws, ts, j, k));
        let w = ws[k as int];
        let t = ts[k as int];
        let l = lin(1, tk, w, t);
        assert forall|j: int| 0 <= j < len implies cong(#[trigger] tm[j], l[j]) by {
            lemma_cong_mod(w * t[j]);
            lemma_cong_add(tk[j], tk[j], fmul(w, t[j]), w * t[j]);
            lemma_cong_mod(tk[j] + fmul(w, t[j]));
        }
        crate::vanishing::lemma_pe_cong(tm, l, s);
        crate::vanishing::lemma_pe_lin(1, tk, w, t, s);
        let d1 = dot(ws.take(k as int), Seq::new(k, |i: int| pe(ts[i], s)));
        assert(ws.take(m as int).drop_last() =~= ws.take(k as int));
        assert(Seq::new(m, |i: int| pe(ts[i], s)).drop_last() =~= Seq::new(k, |i: int| pe(ts[i], s)));
        lemma_cong_add(pe(tk, s), d1, w * pe(t, s), w * pe(t, s));
    }
}

/// A value congruent to the commitment's keeps the verifier's equation.
pub proof fn lemma_kzg_equation_cong(
    s: int,
    c1: int,
    c2: int,
    logs: Seq<int>,
    u: Seq<int>,
    eval: int,
    state: Seq<u8>,
    stream: Seq<u8>,
    pos: int,
)
    requires
        cong(c1, c2),
        kzg_equation(s, c1, logs, u, eval, state, stream, pos),
    ensures
        kzg_equation(s, c2, logs, u, eval, state, stream, pos),
{
    let n = u.len();
    let qc = chunks(stream, pos, n);
    let st1 = state + g1_bytes(qc);
    let y = challenge_of(st1);
    let st2 = keccak256_of(st1);
    let qh = chunk(stream, pos + 32 * n);
    let st3 = st2 + qh;
    let x = challenge_of(st3);
    let st4 = keccak256_of(st3);
    let z = challenge_of(st4);
    let sc = Seq::new(n, |k: int| quotient_scalar(y, x, z, u, k as nat));
    let rest = fmul(eval_scalar(x, z, n), eval) + dot(sc, logs.take(n as int));
    let a = logs[n + 1int] * (s - x) - logs[n as int];
    lemma_cong_mul(z, z, c1, c2);
    lemma_cong_sub(a, a, z * c1, z * c2);
    lemma_cong_sub(a - z * c1, a - z * c2, rest, rest);
    assert(a - z * c1 - rest == logs[n + 1int] * (s - x) - (logs[n as int] + z * c1 + rest));
    assert(a - z * c2 - rest == logs[n + 1int] * (s - x) - (logs[n as int] + z * c2 + rest));
}

/// The table that a claim is about: the polynomial's own, rotated for a
/// rotated claim.
pub open spec fn claim_table(polys: Seq<&MultilinearPolynomial>, e: EvaluationForShift) -> Seq<int> {
    if is_cur(e) {
        polys[e.poly as int].table()
    } else {
        rotate_table(polys[e.poly as int].table(), e.rotation)
    }
}

/// An honest batched opening satisfies the verifier's equation: where every
/// claim's value is the evaluation at `u` of the table it is about, the
/// commitments are `e_i(s) * G1` for the polynomials' tables `e_i`, the
/// bases are the powers of `s` and the stream holds, from `pos`, what the
/// batched opening writes, the verifier's equation holds for the commitment
/// it combines and the Zeromorph proof that follows. This holds for every
/// challenge `x` of that proof none of whose powers `x^(2^j)`, `j <= n`, is
/// one.
pub proof fn lemma_batch_open_satisfies_verifier(
    s: int,
    polys: Seq<&MultilinearPolynomial>,
    evals: Seq<EvaluationForShift>,
    u: Seq<int>,
    state: Seq<u8>,
    stream: Seq<u8>,
    pos: int,
)
    requires
        forall|k: int| 0 <= k < evals.len() ==> (#[trigger] evals[k]).poly < polys.len()
            && polys[evals[k].poly as int].table().len() == pow2(u.len())
            && evals[k].rotation.dist() <= pow2(u.len())
            && evals[k].value@ == ml_eval(claim_table(polys, evals[k]), u),
        ({
            let (rlog, st2, all, tilde) = batch_open_parts(s, polys, evals, pow2(u.len()), state);
            &&& chunk(stream, pos) == g1_mul(rlog)
            &&& chunks(stream, pos + 32, u.len() + 2) == g1_muls(open_logs(s, all, u, tilde, st2))
            &&& nondegenerate(open_x(s, all, u, st2), u.len())
        }),
    ensures
        ({
            let (rlog, st2, all, tilde) = batch_open_parts(s, polys, evals, pow2(u.len()), state);
            let cvals = Seq::new(polys.len(), |i: int| pe(polys[i].table(), s));
            batch_equation(s, cvals, rlog, open_logs(s, all, u, tilde, st2), evals, u, state, stream, pos)
        }),
{
    let n = u.len();
    let len = pow2(n);
    let (rlog, st2, all, tilde) = batch_open_parts(s, polys, evals, len, state);
    let cvals = Seq::new(polys.len(), |i: int| pe(polys[i].table(), s));
    let (t, st1) = challenges_of(state, ceil_log2(evals.len()));
    let eq = eq_table(t);
    let cur = split_evals(evals, true);
    let rot = split_evals(evals, false);
    let nc = cur.len();
    let nr = rot.len();
    let wc = eq.take(nc as int);
    let wr = eq.subrange(nc as int, (nc + nr) as int);
    let tc = eval_tables(polys, cur);
    let tr = eval_tables(polys, rot);
    // lengths
    crate::transcript::lemma_challenges_len(state, ceil_log2(evals.len()));
    crate::poly::lemma_eq_table_len(t);
    crate::pcs::lemma_ceil_log2(evals.len());
    crate::pcs::lemma_split_lens(evals);
    crate::pcs::lemma_split_subset(evals, true);
    crate::pcs::lemma_split_subset(evals, false);
    crate::field::lemma_pow2_pos(n);
    // the claims are true
    assert forall|k: int| 0 <= k < nc implies (#[trigger] tc[k]).len() == len && eval_values(cur)[k] == ml_eval(tc[k], u)
        && pe(tc[k], s) == claim_values(cvals, cur)[k] by {
        let j = choose|j: int| 0 <= j < evals.len() && evals[j] == cur[k];
        assert(evals[j].poly < polys.len());
    }
    assert forall|k: int| 0 <= k < nr implies (#[trigger] tr[k]).len() == len && eval_values(rot)[k] == ml_eval(tr[k], u) by {
        let j = choose|j: int| 0 <= j < evals.len() && evals[j] == rot[k];
        assert(evals[j].poly < polys.len());
        let e = polys[rot[k].poly as int].table();
        let d = rot[k].rotation.dist() as int;
        if rot[k].rotation.0 > 0 {
            assert(tr[k].len() == (e.skip(d) + e.take(d)).len());
        } else {
            assert(tr[k].len() == (e.skip(e.len() - d) + e.take(e.len() - d)).len());
        }
    }
    crate::vanishing::lemma_batched_claims(wc, tc, eval_values(cur), wr, tr, eval_values(rot), u);
    assert(all =~= Seq::new(len, |j: int| fadd(wsum(wc, tc, j, tc.len()), wsum(wr, tr, j, tr.len()))));
    assert(tilde == ml_eval(all, u));
    // the Zeromorph proof satisfies the equation for the merged table
    lemma_open_satisfies_verifier(s, all, u, st2, stream, pos + 32);
    // the commitment that the verifier combines is that of the merged table
    let a = Seq::new(len, |j: int| wsum(wc, tc, j, nc));
    let b = Seq::new(len, |j: int| wsum(wr, tr, j, nr));
    lemma_pe_wsum(wc, tc, len, nc, s);
    lemma_pe_wsum(wr, tr, len, nr, s);
    assert(wc.take(nc as int) =~= wc);
    assert(Seq::new(nc, |k: int| pe(tc[k], s)) =~= claim_values(cvals, cur));
    let l = lin(1, a, 1, b);
    assert forall|j: int| 0 <= j < len implies cong(#[trigger] all[j], l[j]) by {
        lemma_cong_mod(a[j] + b[j]);
    }
    crate::vanishing::lemma_pe_cong(all, l, s);
    crate::vanishing::lemma_pe_lin(1, a, 1, b, s);
    if nr == 0 {
        assert(b =~= crate::vanishing::zeros(len));
        crate::vanishing::lemma_pe_zeros(len, s);
        assert(rlog == pe(Seq::<int>::empty(), s));
        assert(rlog == 0);
    } else {
        assert(b =~= merged(wr, tr, len));
    }
    let c = dot(wc, claim_values(cvals, cur)) + rlog;
    lemma_cong_add(pe(a, s), dot(wc, claim_values(cvals, cur)), pe(b, s), rlog);
    lemma_kzg_equation_cong(s, pe(all, s), c, open_logs(s, all, u, tilde, st2), u, tilde, st2, stream, pos + 32);
}

} // verus!
