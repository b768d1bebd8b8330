//! The Zeromorph reduction from multilinear to univariate KZG openings.

use crate::arithmetic::{batch_invert, powers, squares};
use crate::curve::{
    dot, g2_mul, g2_muls, g1_generator_bytes, g1_mul, g1_muls, g1_msm, g1_msm_of, g1_views, g2_msm, g2_msm_of, pairing_product_is_identity,
    pairing_product_is_identity_of, G1, G2,
};
use crate::error::Error;
use crate::field::{
    fadd, finv, fmul, fneg, fpow, fsub, is_inverse, lemma_fmul_assoc, lemma_inverse_unique,
    lemma_mod_range, lemma_pow2_mono, lemma_pow2_pos, p, pow2, vals, Fr,
};
use crate::kzg::{
    commit_monomial, commit_of, div_linear, err_too_large_deree, g1_powers, g2_powers, too_large_degree_msg,
    UnivariateKzgParam, UnivariateKzgProverParam, UnivariateKzgVerifierParam,
};
use crate::expression::Rotation;
use crate::message::{decimal, decimal_string, signed_decimal, signed_decimal_string};
use crate::pcs::{rotate_table, rotated};
use crate::poly::{ml_eval, quotient, quotients, MultilinearPolynomial};
use crate::univariate::{poly_add, poly_scale, poly_shift, poly_sub, uadd, uscale, ushift, usub};
use crate::vanishing::pe;
use crate::transcript::{
    challenge_of, chunk, chunks, g1_bytes, keccak256_of, read_comm_msg, reads_ok, Keccak256Transcript,
};
use vstd::arithmetic::div_mod::*;
use vstd::prelude::*;

verus! {

/// `x^(2^i)`.
pub open spec fn sq(x: int, i: nat) -> int {
    fpow(x, pow2(i))
}

/// The product of `x^(2^i)` for `k <= i < n`.
pub open spec fn offset_of_x(x: int, k: int, n: int) -> int
    decreases n - k,
{
    if k >= n {
        1
    } else {
        fmul(offset_of_x(x, k + 1, n), sq(x, k as nat))
    }
}

/// `(x^(2^n) - 1) / (x^(2^k) - 1)`, with a zero denominator inverted to zero.
pub open spec fn v_of_x(x: int, k: nat, n: nat) -> int {
    fmul(fsub(sq(x, n), 1), finv(fsub(sq(x, k), 1)))
}

/// The scalar of the evaluation in the Zeromorph check: `-v_0 * z`.
pub open spec fn eval_scalar(x: int, z: int, n: nat) -> int {
    fmul(fneg(v_of_x(x, 0, n)), z)
}

/// The scalar of the `k`-th quotient commitment in the Zeromorph check:
/// `-(y^k * offset_k + z * (x^(2^k) * v_(k+1) - u_k * v_k))`.
pub open spec fn quotient_scalar(y: int, x: int, z: int, u: Seq<int>, k: nat) -> int {
    let n = u.len();
    fneg(
        fadd(
            fmul(fpow(y, k), offset_of_x(x, k as int, n as int)),
            fmul(
                z,
                fsub(fmul(sq(x, k), v_of_x(x, k + 1, n)), fmul(u[k as int], v_of_x(x, k, n))),
            ),
        ),
    )
}

/// Where `x^(2^k) - 1` has an inverse, `v_k` times `x^(2^k) - 1` is
/// `x^(2^n) - 1`.
pub proof fn lemma_v_of_x_quotient(x: int, k: nat, n: nat, b: int)
    requires
        0 <= b < p(),
        is_inverse(fsub(sq(x, k), 1), b),
    ensures
        fmul(v_of_x(x, k, n), fsub(sq(x, k), 1)) == fsub(sq(x, n), 1),
{
    let d = fsub(sq(x, k), 1);
    let num = fsub(sq(x, n), 1);
    lemma_mod_range(sq(x, n) - 1);
    lemma_inverse_unique(d, b);
    assert(finv(d) == b);
    lemma_fmul_assoc(num, b, d);
    crate::field::lemma_fmul_comm(b, d);
    assert(fmul(b, d) == 1);
    assert(fmul(num, 1) == num) by {
        lemma_small_mod(num as nat, p() as nat);
    }
}

/// The scalar of the evaluation and the scalars of the quotient commitments
/// in the Zeromorph identity, for challenges `y`, `x`, `z` and point `u`.
pub fn eval_and_quotient_scalars(y: &Fr, x: &Fr, z: &Fr, u: &[Fr]) -> (r: (Fr, Vec<Fr>))
    requires
        u@.len() < usize::MAX,
    ensures
        r.0@ == eval_scalar(x@, z@, u@.len()),
        r.1.len() == u@.len(),
        forall|k: int| 0 <= k < u@.len() ==> #[trigger] r.1[k]@ == quotient_scalar(y@, x@, z@, vals(u@), k as nat),
{
    let n = u.len();
    let sqs = squares(x, n + 1);
    // offsets, from the last down
    let mut offs: Vec<Fr> = Vec::new();
    let mut i: usize = 0;
    while i < n
        invariant
            i <= n,
            offs.len() == i,
        decreases n - i,
    {
        offs.push(Fr::zero());
        i += 1;
    }
    let mut state = Fr::one();
    let mut k: usize = n;
    while k > 0
        invariant
            k <= n,
            offs.len() == n,
            sqs.len() == n + 1,
            forall|j: int| 0 <= j <= n ==> #[trigger] sqs[j]@ == sq(x@, j as nat),
            state@ == offset_of_x(x@, k as int, n as int),
            forall|j: int| k <= j < n ==> #[trigger] offs[j]@ == offset_of_x(x@, j, n as int),
        decreases k,
    {
        k -= 1;
        state = state.mul(&sqs[k]);
        offs.set(k, state);
    }
    // v_k = (x^(2^n) - 1) / (x^(2^k) - 1)
    let one = Fr::one();
    let numer = sqs[n].sub(&one);
    let mut denoms: Vec<Fr> = Vec::new();
    let mut j: usize = 0;
    while j <= n
        invariant
            j <= n + 1,
            sqs.len() == n + 1,
            one@ == 1,
            denoms.len() == j,
            forall|l: int| 0 <= l < j ==> #[trigger] denoms[l]@ == fsub(sq(x@, l as nat), 1),
            forall|l: int| 0 <= l <= n ==> #[trigger] sqs[l]@ == sq(x@, l as nat),
        decreases n + 1 - j,
    {
        denoms.push(sqs[j].sub(&one));
        j += 1;
    }
    batch_invert(&mut denoms);
    let mut vs: Vec<Fr> = Vec::new();
    let mut j: usize = 0;
    while j <= n
        invariant
            j <= n + 1,
            denoms.len() == n + 1,
            numer@ == fsub(sq(x@, n as nat), 1),
            vs.len() == j,
            forall|l: int| 0 <= l <= n ==> #[trigger] denoms[l]@ == finv(fsub(sq(x@, l as nat), 1)),
            forall|l: int| 0 <= l < j ==> #[trigger] vs[l]@ == v_of_x(x@, l as nat, n as nat),
        decreases n + 1 - j,
    {
        vs.push(numer.mul(&denoms[j]));
        j += 1;
    }
    let pys = powers(y, n);
    let mut qs: Vec<Fr> = Vec::new();
    let mut k: usize = 0;
    while k < n
        invariant
            k <= n,
            n == u@.len(),
            qs.len() == k,
            pys.len() == n,
            offs.len() == n,
            sqs.len() == n + 1,
            vs.len() == n + 1,
            forall|j: int| 0 <= j < n ==> #[trigger] pys[j]@ == fpow(y@, j as nat),
            forall|j: int| 0 <= j < n ==> #[trigger] offs[j]@ == offset_of_x(x@, j, n as int),
            forall|j: int| 0 <= j <= n ==> #[trigger] sqs[j]@ == sq(x@, j as nat),
            forall|j: int| 0 <= j <= n ==> #[trigger] vs[j]@ == v_of_x(x@, j as nat, n as nat),
            forall|j: int| 0 <= j < k ==> #[trigger] qs[j]@ == quotient_scalar(y@, x@, z@, vals(u@), j as nat),
        decreases n - k,
    {
        let a = pys[k].mul(&offs[k]);
        let b = sqs[k].mul(&vs[k + 1]).sub(&u[k].mul(&vs[k]));
        qs.push(a.add(&z.mul(&b)).neg());
        k += 1;
    }
    (vs[0].neg().mul(z), qs)
}

/// The values of a sequence of vectors of field elements.
pub open spec fn vals2(s: Seq<Vec<Fr>>) -> Seq<Seq<int>> {
    s.map_values(|v: Vec<Fr>| vals(v@))
}

/// Entry `i` of the batched quotient `q_hat` over the first `m` quotients:
/// the sum of `y^k * q_k[i - (2^n - 2^k)]` over `k < m` with
/// `2^n - 2^k <= i`.
pub open spec fn q_hat_entry(qs: Seq<Seq<int>>, y: int, n: nat, i: int, m: nat) -> int
    decreases m,
{
    if m == 0 {
        0
    } else {
        let k = (m - 1) as nat;
        let prev = q_hat_entry(qs, y, n, i, k);
        let off = pow2(n) - pow2(k);
        if off <= i {
            fadd(prev, fmul(fpow(y, k), qs[k as int][i - off]))
        } else {
            prev
        }
    }
}

/// The batched quotient `q_hat`: each `q_k` shifted to the top of `2^n`
/// coefficients and weighted by `y^k`.
pub open spec fn q_hat_of(qs: Seq<Seq<int>>, y: int, n: nat) -> Seq<int> {
    Seq::new(pow2(n), |i: int| q_hat_entry(qs, y, n, i, n))
}

/// Entry `i` of the polynomial whose opening at `x` to zero proves the
/// evaluation, after the first `m` quotient terms:
/// `z * f + q_hat + [i == 0] * eval_term + sum scalars[k] * q_k`.
pub open spec fn check_poly_entry(
    f: Seq<int>,
    q_hat: Seq<int>,
    qs: Seq<Seq<int>>,
    z: int,
    eval_term: int,
    scalars: Seq<int>,
    i: int,
    m: nat,
) -> int
    decreases m,
{
    if m == 0 {
        let base = fadd(fmul(f[i], z), q_hat[i]);
        if i == 0 {
            fadd(base, eval_term)
        } else {
            base
        }
    } else {
        let k = (m - 1) as nat;
        let prev = check_poly_entry(f, q_hat, qs, z, eval_term, scalars, i, k);
        if i < qs[k as int].len() {
            fadd(prev, fmul(scalars[k as int], qs[k as int][i]))
        } else {
            prev
        }
    }
}

/// The polynomial whose opening at `x` to zero proves the evaluation.
pub open spec fn check_poly_of(
    f: Seq<int>,
    q_hat: Seq<int>,
    qs: Seq<Seq<int>>,
    z: int,
    eval_term: int,
    scalars: Seq<int>,
) -> Seq<int> {
    Seq::new(
        f.len(),
        |i: int| check_poly_entry(f, q_hat, qs, z, eval_term, scalars, i, qs.len()),
    )
}

/// The multilinear quotients of the table `e` at `u`.
pub open spec fn quotients_of(e: Seq<int>, u: Seq<int>) -> Seq<Seq<int>> {
    Seq::new(u.len(), |k: int| quotient(e, u, k))
}

/// The bytes that a Zeromorph opening of the table `e` at `u` to `eval`
/// writes after the hashing state `state`, and the state it leaves: the
/// commitments to the quotients; `y`; the commitment to `q_hat`; `x` and
/// `z`; the commitment to the quotient of the check polynomial by `X - x`.
pub open spec fn open_transcript(
    commit_basis: Seq<G1>,
    open_basis: Seq<G1>,
    e: Seq<int>,
    u: Seq<int>,
    eval: int,
    state: Seq<u8>,
) -> (Seq<u8>, Seq<u8>) {
    let n = u.len();
    let qs = quotients_of(e, u);
    let comms = Seq::new(n, |k: int| commit_of(qs[k], commit_basis));
    let st1 = state + g1_bytes(comms);
    let y = challenge_of(st1);
    let st2 = keccak256_of(st1);
    let qh = q_hat_of(qs, y, n);
    let ch = commit_of(qh, commit_basis);
    let st3 = st2 + ch;
    let x = challenge_of(st3);
    let st4 = keccak256_of(st3);
    let z = challenge_of(st4);
    let st5 = keccak256_of(st4);
    let scalars = Seq::new(n, |k: int| quotient_scalar(y, x, z, u, k as nat));
    let f = check_poly_of(e, qh, qs, z, fmul(eval_scalar(x, z, n), eval), scalars);
    let pi = commit_of(div_linear(f, x), open_basis);
    (g1_bytes(comms) + ch + pi, st5 + pi)
}

/// Whether a basis is the generator of `G1` times the first powers of `s`.
pub open spec fn powers_basis(basis: Seq<G1>, s: int) -> bool {
    g1_powers(s, g1_generator_bytes(), basis.len()) == g1_views(basis)
}

/// The challenge `x` of an opening of the table `e` at `u` whose bases are
/// the powers of `s`.
pub open spec fn open_x(s: int, e: Seq<int>, u: Seq<int>, state: Seq<u8>) -> int {
    let n = u.len();
    let qs = quotients_of(e, u);
    let ql = Seq::new(n, |k: int| pe(qs[k], s));
    let st1 = state + g1_bytes(g1_muls(ql));
    let y = challenge_of(st1);
    let st2 = keccak256_of(st1);
    let qh = q_hat_of(qs, y, n);
    challenge_of(st2 + g1_mul(pe(qh, s)))
}

/// The points that an opening of the table `e` at `u` to `eval` writes,
/// where its bases are the powers of `s`, as multiples of the generator:
/// the values at `s` of the quotients, of their batch `q_hat` and of the
/// quotient of the check polynomial by `X - x`.
pub open spec fn open_logs(s: int, e: Seq<int>, u: Seq<int>, eval: int, state: Seq<u8>) -> Seq<int> {
    let n = u.len();
    let qs = quotients_of(e, u);
    let ql = Seq::new(n, |k: int| pe(qs[k], s));
    let st1 = state + g1_bytes(g1_muls(ql));
    let y = challenge_of(st1);
    let st2 = keccak256_of(st1);
    let qh = q_hat_of(qs, y, n);
    let st3 = st2 + g1_mul(pe(qh, s));
    let x = challenge_of(st3);
    let st4 = keccak256_of(st3);
    let z = challenge_of(st4);
    let scalars = Seq::new(n, |k: int| quotient_scalar(y, x, z, u, k as nat));
    let f = check_poly_of(e, qh, qs, z, fmul(eval_scalar(x, z, n), eval), scalars);
    ql + seq![pe(qh, s), pe(div_linear(f, x), s)]
}

/// The batched quotient `q_hat` of the quotients `qs` with weight `y`.
fn q_hat(qs: &Vec<Vec<Fr>>, y: &Fr, n: usize, size: usize) -> (r: Vec<Fr>)
    requires
        qs.len() == n,
        size == pow2(n as nat),
        forall|k: int| 0 <= k < n ==> #[trigger] qs[k]@.len() == pow2(k as nat),
    ensures
        vals(r@) == q_hat_of(vals2(qs@), y@, n as nat),
{
    let ghost qv = vals2(qs@);
    let mut r: Vec<Fr> = Vec::new();
    let mut i: usize = 0;
    while i < size
        invariant
            i <= size,
            r.len() == i,
            forall|j: int| 0 <= j < i ==> #[trigger] r[j]@ == 0,
        decreases size - i,
    {
        r.push(Fr::zero());
        i += 1;
    }
    let pys = powers(y, n);
    let mut k: usize = 0;
    while k < n
        invariant
            k <= n,
            qs.len() == n,
            size == pow2(n as nat),
            r.len() == size,
            pys.len() == n,
            qv == vals2(qs@),
            forall|j: int| 0 <= j < n ==> #[trigger] pys[j]@ == fpow(y@, j as nat),
            forall|j: int| 0 <= j < n ==> #[trigger] qs[j]@.len() == pow2(j as nat),
            forall|j: int| 0 <= j < size ==> #[trigger] r[j]@ == q_hat_entry(qv, y@, n as nat, j, k as nat),
        decreases n - k,
    {
        let q = &qs[k];
        let len = q.len();
        proof {
            lemma_pow2_mono(k as nat, n as nat);
        }
        let off = size - len;
        let mut j: usize = 0;
        while j < len
            invariant
                j <= len,
                k < n,
                len == q.len(),
                *q == qs@[k as int],
                qs.len() == n,
                off + len == size,
                size == pow2(n as nat),
                len == pow2(k as nat),
                r.len() == size,
                pys.len() == n,
                qv == vals2(qs@),
                pys[k as int]@ == fpow(y@, k as nat),
                forall|i2: int| 0 <= i2 < off ==> #[trigger] r[i2]@ == q_hat_entry(qv, y@, n as nat, i2, k as nat),
                forall|i2: int| off <= i2 < off + j ==> #[trigger] r[i2]@ == q_hat_entry(qv, y@, n as nat, i2, (k + 1) as nat),
                forall|i2: int| off + j <= i2 < size ==> #[trigger] r[i2]@ == q_hat_entry(qv, y@, n as nat, i2, k as nat),
            decreases len - j,
        {
            let v = r[off + j].add(&pys[k].mul(&q[j]));
            proof {
                assert(qv[k as int][j as int] == q[j as int]@);
            }
            r.set(off + j, v);
            j += 1;
        }
        k += 1;
    }
    proof {
        assert(vals(r@) =~= q_hat_of(qv, y@, n as nat));
    }
    r
}

/// The check polynomial from the table `f`, the batched quotient, the
/// quotients and the scalars.
fn check_poly(
    f: &[Fr],
    qh: &[Fr],
    qs: &Vec<Vec<Fr>>,
    z: &Fr,
    eval_term: &Fr,
    scalars: &[Fr],
) -> (r: Vec<Fr>)
    requires
        f@.len() >= 1,
        qh@.len() == f@.len(),
        scalars@.len() == qs.len(),
        forall|k: int| 0 <= k < qs.len() ==> #[trigger] qs[k]@.len() <= f@.len(),
    ensures
        vals(r@) == check_poly_of(vals(f@), vals(qh@), vals2(qs@), z@, eval_term@, vals(scalars@)),
{
    let ghost qv = vals2(qs@);
    let ghost fv = vals(f@);
    let ghost hv = vals(qh@);
    let ghost sv = vals(scalars@);
    let mut r: Vec<Fr> = Vec::new();
    let mut i: usize = 0;
    while i < f.len()
        invariant
            i <= f.len(),
            qh@.len() == f@.len(),
            f@.len() >= 1,
            fv == vals(f@),
            hv == vals(qh@),
            r.len() == i,
            forall|j: int| 0 <= j < i ==> #[trigger] r[j]@ == check_poly_entry(fv, hv, qv, z@, eval_term@, sv, j, 0),
        decreases f.len() - i,
    {
        let base = f[i].mul(z).add(&qh[i]);
        if i == 0 {
            r.push(base.add(eval_term));
        } else {
            r.push(base);
        }
        i += 1;
    }
    let mut k: usize = 0;
    while k < qs.len()
        invariant
            k <= qs.len(),
            r.len() == f@.len(),
            scalars@.len() == qs.len(),
            qv == vals2(qs@),
            sv == vals(scalars@),
            forall|l: int| 0 <= l < qs.len() ==> #[trigger] qs[l]@.len() <= f@.len(),
            forall|j: int| 0 <= j < r.len() ==> #[trigger] r[j]@ == check_poly_entry(fv, hv, qv, z@, eval_term@, sv, j, k as nat),
        decreases qs.len() - k,
    {
        let q = &qs[k];
        let mut j: usize = 0;
        while j < q.len()
            invariant
                j <= q.len(),
                k < qs.len(),
                *q == qs@[k as int],
                q.len() <= r.len(),
                r.len() == f@.len(),
                scalars@.len() == qs.len(),
                qv == vals2(qs@),
                sv == vals(scalars@),
                forall|i2: int| 0 <= i2 < j ==> #[trigger] r[i2]@ == check_poly_entry(fv, hv, qv, z@, eval_term@, sv, i2, (k + 1) as nat),
                forall|i2: int| j <= i2 < r.len() ==> #[trigger] r[i2]@ == check_poly_entry(fv, hv, qv, z@, eval_term@, sv, i2, k as nat),
            decreases q.len() - j,
        {
            let v = r[j].add(&scalars[k].mul(&q[j]));
            proof {
                assert(qv[k as int][j as int] == q[j as int]@);
            }
            r.set(j, v);
            j += 1;
        }
        proof {
            assert forall|i2: int| 0 <= i2 < r.len() implies #[trigger] r[i2]@ == check_poly_entry(fv, hv, qv, z@, eval_term@, sv, i2, (k + 1) as nat) by {
                if i2 >= q.len() {
                    assert(qv[k as int].len() == q.len());
                }
            }
        }
        k += 1;
    }
    proof {
        assert(vals(r@) =~= check_poly_of(fv, hv, qv, z@, eval_term@, sv));
    }
    r
}

/// The Zeromorph polynomial commitment scheme over univariate KZG.
pub struct Zeromorph;

/// The prover's parameters: the monomial bases to commit and to open with.
pub struct ZeromorphKzgProverParam {
    commit_pp: UnivariateKzgProverParam,
    open_pp: UnivariateKzgProverParam,
}

/// The verifier's parameters.
pub struct ZeromorphKzgVerifierParam {
    vp: UnivariateKzgVerifierParam,
    s_offset_g2: G2,
}

impl ZeromorphKzgProverParam {
    /// The basis that commitments use.
    pub closed spec fn commit_basis(&self) -> Seq<G1> {
        self.commit_pp.monomial_g1@
    }

    /// The basis that the final univariate opening uses.
    pub closed spec fn open_basis(&self) -> Seq<G1> {
        self.open_pp.monomial_g1@
    }

    /// The largest degree that the parameters commit to.
    pub fn degree(&self) -> (r: usize)
        requires
            self.commit_basis().len() > 0,
        ensures
            r == self.commit_basis().len() - 1,
    {
        self.commit_pp.degree()
    }
}

impl ZeromorphKzgVerifierParam {
    /// The generator of `G1`.
    pub closed spec fn g1_spec(&self) -> G1 {
        self.vp.g1
    }

    /// The generator of `G2`.
    pub closed spec fn g2_spec(&self) -> G2 {
        self.vp.g2
    }

    /// `s * G2`.
    pub closed spec fn s_g2_spec(&self) -> G2 {
        self.vp.s_g2
    }

    /// `s^offset * G2`.
    pub closed spec fn s_offset_g2_spec(&self) -> G2 {
        self.s_offset_g2
    }

    pub fn new(vp: UnivariateKzgVerifierParam, s_offset_g2: G2) -> (r: Self)
        ensures
            r.g1_spec() == vp.g1,
            r.g2_spec() == vp.g2,
            r.s_g2_spec() == vp.s_g2,
            r.s_offset_g2_spec() == s_offset_g2,
    {
        ZeromorphKzgVerifierParam { vp, s_offset_g2 }
    }

    pub fn g1(&self) -> (r: G1)
        ensures
            r == self.g1_spec(),
    {
        self.vp.g1()
    }

    pub fn g2(&self) -> (r: G2)
        ensures
            r == self.g2_spec(),
    {
        self.vp.g2()
    }

    pub fn s_g2(&self) -> (r: G2)
        ensures
            r == self.s_g2_spec(),
    {
        self.vp.s_g2()
    }
}

impl Zeromorph {
    /// Fresh parameters for polynomials of `poly_size` (a power of two) values.
    pub fn setup(poly_size: usize, batch_size: usize) -> (r: UnivariateKzgParam)
        requires
            exists|k: nat| poly_size == #[trigger] pow2(k),
            poly_size < usize::MAX,
        ensures
            r.monomial_g1.len() == poly_size,
            r.powers_of_s_g2.len() == if poly_size < 2 { 2 } else { poly_size },
            exists|s: int|
                #![trigger g1_powers(s, crate::curve::g1_generator_bytes(), poly_size as nat)]
                g1_views(r.monomial_g1@) == g1_powers(s, crate::curve::g1_generator_bytes(), poly_size as nat)
                    && crate::curve::g2_views(r.powers_of_s_g2@)
                    == g2_powers(s, crate::curve::g2_generator_bytes(), r.powers_of_s_g2@.len()),
    {
        crate::kzg::setup(poly_size)
    }

    /// The prover's and verifier's parameters for polynomials of
    /// `poly_size` (a power of two) values.
    pub fn trim(param: &UnivariateKzgParam, poly_size: usize, batch_size: usize) -> (r: Result<(ZeromorphKzgProverParam, ZeromorphKzgVerifierParam), Error>)
        requires
            exists|k: nat| poly_size == #[trigger] pow2(k),
            param.monomial_g1.len() > 0,
            param.powers_of_s_g2.len() >= 2,
            param.monomial_g1.len() >= poly_size ==> param.powers_of_s_g2.len() > param.monomial_g1.len() - poly_size,
        ensures
            param.monomial_g1.len() < poly_size ==> (r matches Err(Error::InvalidPcsParam(m))
                && m@ == too_large_degree_msg("trim"@, (param.monomial_g1.len() - 1) as nat, (poly_size - 1) as nat)),
            param.monomial_g1.len() >= poly_size ==> (r matches Ok((pp, vp))
                && pp.commit_basis() == param.monomial_g1@.take(poly_size as int)
                && pp.open_basis() == param.monomial_g1@.skip(param.monomial_g1.len() - poly_size)
                && vp.g1_spec() == param.monomial_g1@[0]
                && vp.g2_spec() == param.powers_of_s_g2@[0]
                && vp.s_g2_spec() == param.powers_of_s_g2@[1]
                && vp.s_offset_g2_spec() == param.powers_of_s_g2@[param.monomial_g1.len() - poly_size]),
    {
        proof {
            let k = choose|k: nat| poly_size == #[trigger] pow2(k);
            lemma_pow2_pos(k);
        }
        let (commit_pp, vp) = crate::kzg::trim(param, poly_size)?;
        let offset = param.monomial_g1.len() - poly_size;
        let mut monomial_g1: Vec<G1> = Vec::new();
        let mut i: usize = offset;
        while i < param.monomial_g1.len()
            invariant
                offset <= i <= param.monomial_g1.len(),
                monomial_g1@ == param.monomial_g1@.subrange(offset as int, i as int),
            decreases param.monomial_g1.len() - i,
        {
            monomial_g1.push(param.monomial_g1[i]);
            proof {
                assert(param.monomial_g1@.subrange(offset as int, i + 1) =~= param.monomial_g1@.subrange(offset as int, i as int).push(param.monomial_g1@[i as int]));
            }
            i += 1;
        }
        proof {
            assert(monomial_g1@ =~= param.monomial_g1@.skip(offset as int));
        }
        let open_pp = UnivariateKzgProverParam::new(crate::kzg::log2(poly_size), monomial_g1, Vec::new());
        let s_offset_g2 = param.powers_of_s_g2[offset];
        Ok((ZeromorphKzgProverParam { commit_pp, open_pp }, ZeromorphKzgVerifierParam { vp, s_offset_g2 }))
    }

    /// Commits to a multilinear polynomial: its table of values read as the
    /// coefficients of a univariate polynomial.
    pub fn commit(pp: &ZeromorphKzgProverParam, poly: &MultilinearPolynomial) -> (r: Result<G1, Error>)
        requires
            pp.commit_basis().len() > 0,
        ensures
            poly.table().len() > pp.commit_basis().len() ==> (r matches Err(Error::InvalidPcsParam(m))
                && m@ == too_large_degree_msg("commit"@, (pp.commit_basis().len() - 1) as nat, (poly.table().len() - 1) as nat)),
            poly.table().len() <= pp.commit_basis().len() ==> (r matches Ok(c)
                && c@ == commit_of(poly.table(), pp.commit_basis())
                && forall|s: int| #[trigger] powers_basis(pp.commit_basis(), s) ==> c@ == g1_mul(pe(poly.table(), s))),
    {
        let evals = poly.evals();
        if pp.commit_pp.monomial_g1.len() < evals.len() {
            let got = evals.len() - 1;
            return Err(err_too_large_deree("commit", pp.degree(), got));
        }
        Ok(commit_monomial(&pp.commit_pp, evals.as_slice()))
    }

    /// Reads `num_polys` commitments from the transcript.
    pub fn read_commitments(
        vp: &ZeromorphKzgVerifierParam,
        num_polys: usize,
        transcript: &mut Keccak256Transcript,
    ) -> (r: Result<Vec<G1>, Error>)
        requires
            old(transcript).wf(),
            old(transcript).pos() + 32 * num_polys <= usize::MAX,
        ensures
            final(transcript).wf(),
            final(transcript).stream() == old(transcript).stream(),
            reads_ok(old(transcript).stream(), old(transcript).pos(), num_polys as nat) ==> (r matches Ok(cs)
                && g1_views(cs@) == chunks(old(transcript).stream(), old(transcript).pos(), num_polys as nat)
                && final(transcript).state() == old(transcript).state() + g1_bytes(
                chunks(old(transcript).stream(), old(transcript).pos(), num_polys as nat))
                && final(transcript).pos() == old(transcript).pos() + 32 * num_polys),
            !reads_ok(old(transcript).stream(), old(transcript).pos(), num_polys as nat) ==> (r matches Err(
                Error::Transcript(_, m)) && m@ == read_comm_msg()),
    {
        transcript.read_commitments(num_polys)
    }

    /// Commits to each polynomial in turn, stopping at the first error.
    pub fn batch_commit(pp: &ZeromorphKzgProverParam, polys: &[MultilinearPolynomial]) -> (r: Result<Vec<G1>, Error>)
        requires
            pp.commit_basis().len() > 0,
        ensures
            (forall|i: int| 0 <= i < polys@.len() ==> #[trigger] polys@[i].table().len() <= pp.commit_basis().len())
                ==> (r matches Ok(cs) && cs@.len() == polys@.len()
                && forall|i: int| 0 <= i < polys@.len() ==> #[trigger] cs@[i]@ == commit_of(polys@[i].table(), pp.commit_basis())),
            !(forall|i: int| 0 <= i < polys@.len() ==> #[trigger] polys@[i].table().len() <= pp.commit_basis().len())
                ==> r matches Err(Error::InvalidPcsParam(_)),
    {
        let mut cs: Vec<G1> = Vec::new();
        let mut i: usize = 0;
        while i < polys.len()
            invariant
                i <= polys.len(),
                pp.commit_basis().len() > 0,
                cs@.len() == i,
                forall|j: int| 0 <= j < i ==> #[trigger] polys@[j].table().len() <= pp.commit_basis().len(),
                forall|j: int| 0 <= j < i ==> #[trigger] cs@[j]@ == commit_of(polys@[j].table(), pp.commit_basis()),
            decreases polys.len() - i,
        {
            let c = Self::commit(pp, &polys[i])?;
            cs.push(c);
            i += 1;
        }
        Ok(cs)
    }

    /// Proves that `poly` evaluates to `eval` at `point`.
    #[verifier::rlimit(100)]
    ///
    /// Writes the commitments to the multilinear quotients, then to their
    /// batch `q_hat`, then the univariate opening at `x` of the check
    /// polynomial, squeezing `y`, `x` and `z` in between.
    pub fn open(
        pp: &ZeromorphKzgProverParam,
        poly: &MultilinearPolynomial,
        comm: &G1,
        point: &[Fr],
        eval: &Fr,
        transcript: &mut Keccak256Transcript,
    ) -> (r: Result<(), Error>)
        requires
            old(transcript).wf(),
            pp.commit_basis().len() > 0,
            poly.table().len() <= pp.commit_basis().len() ==> {
                &&& poly.table().len() > 0
                &&& poly.vars() == point@.len()
                &&& pp.open_basis().len() > 0
            },
        ensures
            final(transcript).wf(),
            poly.table().len() > pp.commit_basis().len() ==> (r matches Err(Error::InvalidPcsParam(m))
                && m@ == too_large_degree_msg("open"@, (pp.commit_basis().len() - 1) as nat, (poly.table().len() - 1) as nat)
                && *final(transcript) == *old(transcript)),
            poly.table().len() <= pp.commit_basis().len() && poly.table().len() > pp.open_basis().len()
                ==> (r matches Err(Error::InvalidPcsParam(m))
                && m@ == too_large_degree_msg("open"@, (pp.open_basis().len() - 1) as nat, (poly.table().len() - 1) as nat)),
            poly.table().len() <= pp.commit_basis().len() && poly.table().len() <= pp.open_basis().len()
                ==> (r is Ok && ({
                let (bytes, state) = open_transcript(pp.commit_basis(), pp.open_basis(), poly.table(), vals(point@), eval@, old(transcript).state());
                &&& final(transcript).stream() == old(transcript).stream() + bytes
                &&& final(transcript).state() == state
                &&& final(transcript).pos() == old(transcript).pos()
            })),
            poly.table().len() <= pp.commit_basis().len() && poly.table().len() <= pp.open_basis().len()
                ==> forall|s: int| #[trigger] powers_basis(pp.commit_basis(), s) && powers_basis(pp.open_basis(), s) ==> ({
                let n = point@.len();
                let logs = open_logs(s, poly.table(), vals(point@), eval@, old(transcript).state());
                &&& logs.len() == n + 2
                &&& chunks(final(transcript).stream(), old(transcript).stream().len() as int, (n + 2) as nat) == g1_muls(logs)
                &&& reads_ok(final(transcript).stream(), old(transcript).stream().len() as int, (n + 2) as nat)
            }),
    {
        let evals = poly.evals();
        let size = evals.len();
        if pp.commit_pp.monomial_g1.len() < size {
            let got = size - 1;
            return Err(err_too_large_deree("open", pp.degree(), got));
        }
        let n = point.len();
        let ghost e = poly.table();
        let ghost u = vals(point@);
        let ghost basis = pp.commit_basis();
        let ghost st0 = transcript.state();
        let ghost s0 = transcript.stream();
        let _ = poly.num_vars();
        let (qs, _remainder) = quotients(poly, point);
        proof {
            assert(vals2(qs@) =~= quotients_of(e, u));
        }
        // commit to the quotients
        let mut comms: Vec<G1> = Vec::new();
        let mut k: usize = 0;
        while k < n
            invariant
                k <= n,
                n == point@.len(),
                qs.len() == n,
                size == pow2(n as nat),
                size <= pp.commit_pp.monomial_g1.len(),
                basis == pp.commit_basis(),
                vals2(qs@) == quotients_of(e, u),
                forall|j: int| 0 <= j < n ==> #[trigger] qs[j]@.len() == pow2(j as nat),
                comms.len() == k,
                forall|j: int| 0 <= j < k ==> #[trigger] comms@[j]@ == commit_of(quotients_of(e, u)[j], basis),
                forall|s: int, j: int| #![trigger comms@[j], powers_basis(basis, s)] powers_basis(basis, s) && 0 <= j < k
                    ==> comms@[j]@ == g1_mul(pe(quotients_of(e, u)[j], s)),
                forall|j: int| 0 <= j < k ==> crate::curve::g1_decodes(#[trigger] comms@[j]@) && comms@[j]@.len() == 32,
            decreases n - k,
        {
            proof {
                lemma_pow2_mono(k as nat, n as nat);
                assert(vals(qs[k as int]@) == quotients_of(e, u)[k as int]);
            }
            let c = commit_monomial(&pp.commit_pp, qs[k].as_slice());
            c.lemma_decodes();
            comms.push(c);
            k += 1;
        }
        let ghost cv = Seq::new(n as nat, |j: int| commit_of(quotients_of(e, u)[j], basis));
        proof {
            assert(g1_views(comms@) =~= cv);
        }
        transcript.write_commitments(comms.as_slice());
        let y = transcript.squeeze_challenge();
        let qh = q_hat(&qs, &y, n, size);
        proof {
            assert(vals(qh@).len() == qh@.len());
            crate::field::lemma_pow2_gt(n as nat);
        }
        let ch = commit_monomial(&pp.commit_pp, qh.as_slice());
        ch.lemma_decodes();
        let _ = transcript.write_commitment(&ch);
        let x = transcript.squeeze_challenge();
        let z = transcript.squeeze_challenge();
        let (es, scalars) = eval_and_quotient_scalars(&y, &x, &z, point);
        let eval_term = es.mul(eval);
        proof {
            assert forall|j: int| 0 <= j < qs.len() implies #[trigger] qs[j]@.len() <= evals@.len() by {
                lemma_pow2_mono(j as nat, n as nat);
            }
            assert(vals(scalars@) =~= Seq::new(n as nat, |j: int| quotient_scalar(y@, x@, z@, u, j as nat)));
        }
        let f = check_poly(evals.as_slice(), qh.as_slice(), &qs, &z, &eval_term, scalars.as_slice());
        let ghost s_mid = transcript.stream();
        let r = crate::kzg::open(&pp.open_pp, f.as_slice(), &x, transcript);
        proof {
            let qsv = quotients_of(e, u);
            let st1 = st0 + g1_bytes(cv);
            assert(y@ == challenge_of(st1));
            let st2 = keccak256_of(st1);
            let qhv = q_hat_of(qsv, y@, n as nat);
            assert(vals(qh@) == qhv);
            assert(ch@ == commit_of(qhv, basis));
            let st3 = st2 + ch@;
            assert(x@ == challenge_of(st3));
            let st4 = keccak256_of(st3);
            assert(z@ == challenge_of(st4));
            let st5 = keccak256_of(st4);
            let scal = Seq::new(n as nat, |j: int| quotient_scalar(y@, x@, z@, u, j as nat));
            let fv = check_poly_of(e, qhv, qsv, z@, fmul(eval_scalar(x@, z@, n as nat), eval@), scal);
            assert(vals(evals@) == e);
            assert(vals(f@) == fv);
            let pi = commit_of(div_linear(fv, x@), pp.open_basis());
            let (bytes, state) = open_transcript(basis, pp.open_basis(), e, u, eval@, st0);
            assert(bytes == g1_bytes(cv) + ch@ + pi);
            assert(state == st5 + pi);
            if size <= pp.open_basis().len() {
                assert(f@.len() == size);
                assert(transcript.stream() =~= s0 + bytes);
                assert(transcript.state() =~= state);
                assert forall|s: int| #[trigger] powers_basis(pp.commit_basis(), s) && powers_basis(pp.open_basis(), s) implies ({
                    let logs = open_logs(s, e, u, eval@, st0);
                    &&& logs.len() == n + 2
                    &&& chunks(transcript.stream(), s0.len() as int, (n + 2) as nat) == g1_muls(logs)
                    &&& reads_ok(transcript.stream(), s0.len() as int, (n + 2) as nat)
                }) by {
                    let ql = Seq::new(n as nat, |j: int| pe(qsv[j], s));
                    assert(cv =~= g1_muls(ql)) by {
                        assert forall|j: int| 0 <= j < n implies #[trigger] cv[j] == g1_muls(ql)[j] by {
                            assert(comms@[j]@ == g1_mul(pe(quotients_of(e, u)[j], s)));
                        }
                    }
                    assert(ch@ == g1_mul(pe(qhv, s)));
                    let wv = div_linear(fv, x@);
                    let logs = open_logs(s, e, u, eval@, st0);
                    assert(logs =~= ql + seq![pe(qhv, s), pe(wv, s)]);
                    assert(pi == g1_mul(pe(wv, s))) by {
                        assert(powers_basis(pp.open_basis(), s));
                        let b = g1_mul(pe(wv, s));
                        assert(transcript.stream() == s_mid + b);
                        assert(transcript.stream() == s_mid + pi);
                        assert(pi =~= (s_mid + pi).skip(s_mid.len() as int));
                        assert(b =~= (s_mid + b).skip(s_mid.len() as int));
                    }
                    let cs = g1_muls(logs);
                    assert forall|j: int| 0 <= j < cs.len() implies (#[trigger] cs[j]).len() == 32
                        && crate::curve::g1_decodes(cs[j]) by {
                        if j < n {
                            assert(cs[j] == comms@[j]@);
                        } else if j == n {
                            assert(cs[j] == ch@);
                        } else {
                            assert(cs[j] == pi);
                        }
                    }
                    assert(g1_bytes(cs) =~= g1_bytes(cv) + ch@ + pi) by {
                        assert(cs.drop_last() =~= g1_muls(ql + seq![pe(qhv, s)]));
                        assert(cs.drop_last().drop_last() =~= cv);
                        assert(cs.last() == pi);
                        assert(cs.drop_last().last() == ch@);
                        assert(g1_bytes(cs) == g1_bytes(cs.drop_last()) + cs.last());
                        assert(g1_bytes(cs.drop_last()) == g1_bytes(cs.drop_last().drop_last()) + cs.drop_last().last());
                    }
                    crate::completeness::lemma_g1_bytes_chunks(s0, cs, Seq::empty());
                    assert(s0 + g1_bytes(cs) + Seq::<u8>::empty() =~= transcript.stream());
                    let st = transcript.stream();
                    assert forall|j: int| 0 <= j < n + 2 implies crate::curve::g1_decodes(#[trigger] chunk(st, s0.len() + 32 * j)) by {
                        assert(chunks(st, s0.len() as int, (n + 2) as nat)[j] == cs[j]);
                    }
                }
            }
        }
        r
    }
}

/// The pairing check of a Zeromorph opening proof read at `pos` of
/// `stream`, with hashing state `state` before it: with `q_k` the quotient
/// commitments, `q_hat` their batch and `pi` the univariate opening,
/// `e(pi, s*G2) * e(c, -G2) == 1` where `c = q_hat + z*comm + eval_term*G1 +
/// x*pi + sum scalars[k] * q_k`.
pub open spec fn verify_check(
    g1: Seq<u8>,
    g2: Seq<u8>,
    s_g2: Seq<u8>,
    comm: Seq<u8>,
    u: Seq<int>,
    eval: int,
    state: Seq<u8>,
    stream: Seq<u8>,
    pos: int,
) -> bool {
    let n = u.len();
    let qc = chunks(stream, pos, n);
    let st1 = state + g1_bytes(qc);
    let y = challenge_of(st1);
    let st2 = keccak256_of(st1);
    let qh = chunk(stream, pos + 32 * n);
    let st3 = st2 + qh;
    let x = challenge_of(st3);
    let st4 = keccak256_of(st3);
    let z = challenge_of(st4);
    let pi = chunk(stream, pos + 32 * (n + 1));
    let scalars = seq![1, z, fmul(eval_scalar(x, z, n), eval), x] + Seq::new(
        n,
        |k: int| quotient_scalar(y, x, z, u, k as nat),
    );
    let bases = seq![qh, comm, g1, pi] + qc;
    let c = g1_msm_of(scalars, bases);
    let neg_g2 = g2_msm_of(seq![fneg(1)], seq![g2]);
    pairing_product_is_identity_of(seq![(pi, s_g2), (c, neg_g2)])
}

/// The verifier's equation in the exponent of `G1`, for a proof read at
/// `pos` of `stream` whose points are `logs[i] * G1` (the quotients, then
/// `q_hat`, then the opening `pi`), a commitment `c * G1` and parameters
/// made from the secret `s`:
/// `pi * (s - x) == q_hat + z * c + eval_scalar * eval + sum scalars[k] * q_k`
/// modulo `p`, the challenges squeezed as the verifier squeezes them.
pub open spec fn kzg_equation(
    s: int,
    c: int,
    logs: Seq<int>,
    u: Seq<int>,
    eval: int,
    state: Seq<u8>,
    stream: Seq<u8>,
    pos: int,
) -> bool {
    let n = u.len();
    let qc = chunks(stream, pos, n);
    let st1 = state + g1_bytes(qc);
    let y = challenge_of(st1);
    let st2 = keccak256_of(st1);
    let qh = chunk(stream, pos + 32 * n);
    let st3 = st2 + qh;
    let x = challenge_of(st3);
    let st4 = keccak256_of(st3);
    let z = challenge_of(st4);
    let sc = Seq::new(n, |k: int| quotient_scalar(y, x, z, u, k as nat));
    (logs[n + 1int] * (s - x) - (logs[n as int] + z * c + fmul(eval_scalar(x, z, n), eval) + dot(sc, logs.take(n as int))))
        % p() == 0
}

/// The message of a rejected opening.
pub open spec fn invalid_open_msg() -> Seq<char> {
    "Invalid Zeromorph KZG open"@
}

impl Zeromorph {
    /// Verifies a proof that the committed polynomial evaluates to `eval` at
    /// `point`.
    #[verifier::rlimit(100)]
    pub fn verify(
        vp: &ZeromorphKzgVerifierParam,
        comm: &G1,
        point: &[Fr],
        eval: &Fr,
        transcript: &mut Keccak256Transcript,
    ) -> (r: Result<(), Error>)
        requires
            old(transcript).wf(),
            old(transcript).pos() + 32 * (point@.len() + 2) <= usize::MAX,
        ensures
            final(transcript).wf(),
            ({
                let t = *old(transcript);
                let ok_reads = reads_ok(t.stream(), t.pos(), (point@.len() + 2) as nat);
                let check = verify_check(
                    vp.g1_spec()@,
                    vp.g2_spec()@,
                    vp.s_g2_spec()@,
                    comm@,
                    vals(point@),
                    eval@,
                    t.state(),
                    t.stream(),
                    t.pos(),
                );
                &&& ok_reads && check ==> r is Ok
                &&& ok_reads && !check ==> (r matches Err(Error::InvalidPcsOpen(m)) && m@ == invalid_open_msg())
                &&& !ok_reads ==> (r matches Err(Error::Transcript(_, m)) && m@ == read_comm_msg())
            }),
            forall|s: int, cm: int, logs: Seq<int>|
                #![trigger kzg_equation(s, cm, logs, vals(point@), eval@, old(transcript).state(), old(transcript).stream(), old(transcript).pos())]
                vp.g1_spec()@ == g1_mul(1) && vp.g2_spec()@ == g2_mul(1) && vp.s_g2_spec()@ == g2_mul(s)
                && comm@ == g1_mul(cm) && logs.len() == point@.len() + 2
                && chunks(old(transcript).stream(), old(transcript).pos(), (point@.len() + 2) as nat) == g1_muls(logs)
                && reads_ok(old(transcript).stream(), old(transcript).pos(), (point@.len() + 2) as nat)
                && kzg_equation(s, cm, logs, vals(point@), eval@, old(transcript).state(), old(transcript).stream(), old(transcript).pos())
                ==> r is Ok,
    {
        let n = point.len();
        let ghost s0 = transcript.stream();
        let ghost p0 = transcript.pos();
        let ghost st0 = transcript.state();
        let ghost all = reads_ok(s0, p0, (n + 2) as nat);
        proof {
            if all {
                assert(reads_ok(s0, p0, n as nat));
            }
            if reads_ok(s0, p0, n as nat) && p0 + 32 * (n + 2) <= s0.len()
                && crate::curve::g1_decodes(chunk(s0, p0 + 32 * n))
                && crate::curve::g1_decodes(chunk(s0, p0 + 32 * (n + 1))) {
                assert forall|k: int| 0 <= k < n + 2 implies crate::curve::g1_decodes(#[trigger] chunk(s0, p0 + 32 * k)) by {
                    if k < n {
                    } else if k == n {
                    } else {
                        assert(k == n + 1);
                    }
                }
                assert(all);
            }
        }
        let q_comms = transcript.read_commitments(n)?;
        let y = transcript.squeeze_challenge();
        let q_hat_comm = match transcript.read_commitment() {
            Ok(c) => c,
            Err(e) => {
                proof {
                    if all {
                        assert(crate::curve::g1_decodes(chunk(s0, p0 + 32 * n)));
                    }
                }
                return Err(e);
            },
        };
        let x = transcript.squeeze_challenge();
        let z = transcript.squeeze_challenge();
        proof {
            crate::field::lemma_pow2_gt(n as nat);
        }
        let (es, q_scalars) = eval_and_quotient_scalars(&y, &x, &z, point);
        let pi = match transcript.read_commitment() {
            Ok(c) => c,
            Err(e) => {
                proof {
                    if all {
                        assert(crate::curve::g1_decodes(chunk(s0, p0 + 32 * (n + 1))));
                    }
                }
                return Err(e);
            },
        };
        let one = Fr::one();
        let et = es.mul(eval);
        let mut scalars: Vec<Fr> = Vec::new();
        scalars.push(one);
        scalars.push(z);
        scalars.push(et);
        scalars.push(x);
        let mut bases: Vec<G1> = Vec::new();
        bases.push(q_hat_comm);
        bases.push(*comm);
        bases.push(vp.g1());
        bases.push(pi);
        let mut k: usize = 0;
        while k < n
            invariant
                k <= n,
                q_scalars.len() == n,
                q_comms.len() == n,
                scalars.len() == 4 + k,
                bases.len() == 4 + k,
                forall|j: int| 0 <= j < 4 + k ==> #[trigger] scalars@[j] == (seq![one, z, et, x] + q_scalars@.take(k as int))[j],
                forall|j: int| 0 <= j < 4 + k ==> #[trigger] bases@[j] == (seq![q_hat_comm, *comm, vp.g1_spec(), pi] + q_comms@.take(k as int))[j],
            decreases n - k,
        {
            scalars.push(q_scalars[k]);
            bases.push(q_comms[k]);
            k += 1;
        }
        let c = g1_msm(scalars.as_slice(), bases.as_slice());
        let neg_one = one.neg();
        let negs = [neg_one];
        let g2s = [vp.g2()];
        let neg_g2 = g2_msm(&negs, &g2s);
        let terms = [(pi, vp.s_g2()), (c, neg_g2)];
        let ok = pairing_product_is_identity(&terms);
        proof {
            let u = vals(point@);
            assert(scalars@ =~= seq![one, z, et, x] + q_scalars@);
            assert(bases@ =~= seq![q_hat_comm, *comm, vp.g1_spec(), pi] + q_comms@);
            let qc = chunks(s0, p0, n as nat);
            let st1 = st0 + g1_bytes(qc);
            let st2 = keccak256_of(st1);
            let qh = chunk(s0, p0 + 32 * n);
            let st3 = st2 + qh;
            let st4 = keccak256_of(st3);
            assert(y@ == challenge_of(st1));
            assert(q_hat_comm@ == qh);
            assert(x@ == challenge_of(st3));
            assert(z@ == challenge_of(st4));
            assert(pi@ == chunk(s0, p0 + 32 * (n + 1)));
            let sc = seq![1, z@, fmul(eval_scalar(x@, z@, n as nat), eval@), x@] + Seq::new(
                n as nat,
                |k: int| quotient_scalar(y@, x@, z@, u, k as nat),
            );
            assert(vals(scalars@) =~= sc);
            let bs = seq![qh, comm@, vp.g1_spec()@, pi@] + qc;
            assert(g1_views(bases@) =~= bs);
            assert(crate::curve::g2_views(g2s@) =~= seq![vp.g2_spec()@]);
            assert(vals(negs@) =~= seq![fneg(1)]);
            assert(crate::curve::pair_views(terms@) =~= seq![(pi@, vp.s_g2_spec()@), (c@, neg_g2@)]);
            assert(all);
            assert forall|s: int, cm: int, logs: Seq<int>|
                #![trigger kzg_equation(s, cm, logs, u, eval@, st0, s0, p0)]
                vp.g1_spec()@ == g1_mul(1) && vp.g2_spec()@ == g2_mul(1) && vp.s_g2_spec()@ == g2_mul(s)
                && comm@ == g1_mul(cm) && logs.len() == n + 2
                && chunks(s0, p0, (n + 2) as nat) == g1_muls(logs)
                && reads_ok(s0, p0, (n + 2) as nat)
                && kzg_equation(s, cm, logs, u, eval@, st0, s0, p0) implies ok by {
                let ln = logs[n as int];
                let lp = logs[n + 1];
                let lq = logs.take(n as int);
                let a = seq![ln, cm, 1, lp] + lq;
                assert(chunks(s0, p0, (n + 2) as nat)[n as int] == qh);
                assert(chunks(s0, p0, (n + 2) as nat)[n + 1] == pi@);
                assert(g1_muls(a) =~= bs) by {
                    assert forall|j: int| 0 <= j < n implies #[trigger] qc[j] == g1_muls(lq)[j] by {
                        assert(chunks(s0, p0, (n + 2) as nat)[j] == qc[j]);
                    }
                }
                let qsc = Seq::new(n as nat, |k: int| quotient_scalar(y@, x@, z@, u, k as nat));
                let et2 = fmul(eval_scalar(x@, z@, n as nat), eval@);
                crate::completeness::lemma_dot_concat(seq![1, z@, et2, x@], qsc, seq![ln, cm, 1, lp], lq);
                let d = dot(sc, a);
                crate::completeness::lemma_dot_small(1, z@, et2, x@, ln, cm, 1, lp);
                assert(c@ == g1_mul(d));
                assert(g2_muls(seq![1]) =~= crate::curve::g2_views(g2s@));
                assert(neg_g2@ == g2_mul(dot(seq![fneg(1)], seq![1])));
                crate::completeness::lemma_dot_small(fneg(1), d, 0, 0, 1, fneg(1) * 1, 0, 0);
                crate::completeness::lemma_dot_small(lp, d, 0, 0, s, fneg(1) * 1, 0, 0);
                let ga = seq![lp, d];
                let gb = seq![s, fneg(1) * 1];
                assert(crate::curve::mul_pairs(ga, gb) =~= crate::curve::pair_views(terms@));
                crate::completeness::lemma_verifier_equation(lp, s, x@, ln, z@, cm, et2, dot(qsc, lq), d);
            }
        }

        if ok {
            Ok(())
        } else {
            Err(Error::InvalidPcsOpen(String::from_str("Invalid Zeromorph KZG open")))
        }
    }
}

/// The constant term plus the quotients weighted by their scalars:
/// `c + sum scalars[k] * q_k` over the first `m` quotients.
pub open spec fn weighted_quotients(qs: Seq<Seq<int>>, scalars: Seq<int>, c: int, m: nat) -> Seq<int>
    decreases m,
{
    if m == 0 {
        seq![c]
    } else {
        let k = (m - 1) as nat;
        uadd(weighted_quotients(qs, scalars, c, k), uscale(qs[k as int], scalars[k as int]))
    }
}

/// The polynomial whose opening at `x` to zero proves an evaluation of the
/// table `e` rotated by `r`: with `P` the `d = |r|` coefficients that the
/// rotation moves and `N` the size of the table, for a left rotation
/// `z * (f - P + X^N * P) + X^d * q_hat + X^d * t`, for a right rotation
/// `z * (X^d * f - X^d * P + X^N * P) + q_hat + t`.
pub open spec fn shifted_check_poly(e: Seq<int>, r: Rotation, qh: Seq<int>, t: Seq<int>, z: int) -> Seq<int> {
    let n = e.len();
    let d = r.dist();
    if r.0 > 0 {
        let pd = e.take(d as int);
        let term1 = uadd(usub(e, pd), ushift(pd, n));
        uadd(uadd(uscale(term1, z), ushift(qh, d)), ushift(t, d))
    } else {
        let pd = e.skip(n - d);
        let term1 = uadd(usub(ushift(e, d), ushift(pd, d)), ushift(pd, n));
        uadd(uadd(uscale(term1, z), qh), t)
    }
}

/// The weighted quotients are at least one and at most `size` long.
pub proof fn lemma_weighted_quotients_len(qs: Seq<Seq<int>>, scalars: Seq<int>, c: int, m: nat, size: nat)
    requires
        size >= 1,
        m <= qs.len(),
        forall|k: int| 0 <= k < m ==> #[trigger] qs[k].len() <= size,
    ensures
        1 <= weighted_quotients(qs, scalars, c, m).len() <= size,
    decreases m,
{
    if m > 0 {
        lemma_weighted_quotients_len(qs, scalars, c, (m - 1) as nat, size);
    }
}

/// The check polynomial of a rotation is `N + |r|` long.
pub proof fn lemma_shifted_check_len(e: Seq<int>, r: Rotation, qh: Seq<int>, t: Seq<int>, z: int)
    requires
        0 < r.dist() < e.len(),
        qh.len() == e.len(),
        t.len() <= e.len(),
    ensures
        shifted_check_poly(e, r, qh, t, z).len() == e.len() + r.dist(),
{
}

/// For a rotation to the left by `d`, the check polynomial is `X^d` times
/// `z * e' + q_hat + t`, with `e'` the rotated table: the `d` coefficients
/// that the rotation takes from the bottom of the table come back at the
/// top, and nothing is left below `X^d`.
pub proof fn lemma_left_shift_check_poly(e: Seq<int>, r: Rotation, qh: Seq<int>, t: Seq<int>, z: int)
    requires
        r.0 > 0,
        r.dist() < e.len(),
        qh.len() == e.len(),
        t.len() <= e.len(),
    ensures
        shifted_check_poly(e, r, qh, t, z) == ushift(uadd(uadd(uscale(rotate_table(e, r), z), qh), t), r.dist()),
{
    let n = e.len() as int;
    let d = r.dist() as int;
    let pd = e.take(d);
    let term1 = uadd(usub(e, pd), ushift(pd, n as nat));
    let ed = rotate_table(e, r);
    let lhs = shifted_check_poly(e, r, qh, t, z);
    let g = uadd(uadd(uscale(ed, z), qh), t);
    let rhs = ushift(g, d as nat);
    assert(lhs.len() == rhs.len());
    assert forall|i: int| 0 <= i < lhs.len() implies lhs[i] == rhs[i] by {
        crate::field::lemma_mod_range(0);
        lemma_small_mod(0, p() as nat);
        if i < d {
            assert(term1[i] == fadd(fsub(e[i], e[i]), 0));
            assert(fsub(e[i], e[i]) == 0);
            assert(term1[i] == 0);
            assert(fmul(0, z) == 0) by {
                lemma_small_mod(0, p() as nat);
            }
        } else if i < n {
            assert(term1[i] == fadd(e[i], 0));
            assert(ed[i - d] == e[i]);
            lemma_add_mod_noop(e[i], 0, p());
            crate::field::lemma_fmul_mod_left(e[i], z);
            assert(fmul(term1[i], z) == fmul(e[i], z)) by {
                lemma_mod_twice(e[i], p());
            }
        } else {
            assert(term1[i] == pd[i - n]);
            assert(ed[i - d] == e[i - n]);
        }
    }
    assert(lhs =~= rhs);
}

/// The bytes that a Zeromorph opening of the table `e` rotated by `r` at `u`
/// writes after the hashing state `state`, and the state it leaves: the
/// commitments to the quotients of the rotated table; `y`; the commitment
/// to their batch `q_hat`; `x` and `z`; the commitment to the check
/// polynomial; the commitment to its quotient by `X - x`.
pub open spec fn shifted_open_transcript(
    commit_basis: Seq<G1>,
    open_basis: Seq<G1>,
    e: Seq<int>,
    u: Seq<int>,
    r: Rotation,
    state: Seq<u8>,
) -> (Seq<u8>, Seq<u8>) {
    let n = u.len();
    let ed = rotate_table(e, r);
    let qs = quotients_of(ed, u);
    let comms = Seq::new(n, |k: int| commit_of(qs[k], commit_basis));
    let st1 = state + g1_bytes(comms);
    let y = challenge_of(st1);
    let st2 = keccak256_of(st1);
    let qh = q_hat_of(qs, y, n);
    let ch = commit_of(qh, commit_basis);
    let st3 = st2 + ch;
    let x = challenge_of(st3);
    let st4 = keccak256_of(st3);
    let z = challenge_of(st4);
    let st5 = keccak256_of(st4);
    let scalars = Seq::new(n, |k: int| quotient_scalar(y, x, z, u, k as nat));
    let t = weighted_quotients(qs, scalars, fmul(ml_eval(ed, u), eval_scalar(x, z, n)), n);
    let fd = shifted_check_poly(e, r, qh, t, z);
    let cf = commit_of(fd, commit_basis);
    let pi = commit_of(div_linear(fd, x), open_basis);
    (g1_bytes(comms) + ch + cf + pi, st5 + cf + pi)
}

/// The challenge `x` of a proof of the evaluation of the table `e` rotated
/// by `r` whose bases are the powers of `s`.
pub open spec fn shifted_open_x(s: int, e: Seq<int>, u: Seq<int>, r: Rotation, state: Seq<u8>) -> int {
    open_x(s, rotate_table(e, r), u, state)
}

/// The points that a proof of the evaluation of the table `e` rotated by
/// `r` at `u` writes, where its bases are the powers of `s`, as multiples
/// of the generator: the values at `s` of the quotients of the rotated
/// table, of their batch `q_hat`, of the check polynomial and of its
/// quotient by `X - x`.
pub open spec fn shifted_open_logs(s: int, e: Seq<int>, u: Seq<int>, r: Rotation, state: Seq<u8>) -> Seq<int> {
    let n = u.len();
    let ed = rotate_table(e, r);
    let qs = quotients_of(ed, u);
    let ql = Seq::new(n, |k: int| pe(qs[k], s));
    let st1 = state + g1_bytes(g1_muls(ql));
    let y = challenge_of(st1);
    let st2 = keccak256_of(st1);
    let qh = q_hat_of(qs, y, n);
    let st3 = st2 + g1_mul(pe(qh, s));
    let x = challenge_of(st3);
    let st4 = keccak256_of(st3);
    let z = challenge_of(st4);
    let scalars = Seq::new(n, |k: int| quotient_scalar(y, x, z, u, k as nat));
    let t = weighted_quotients(qs, scalars, fmul(ml_eval(ed, u), eval_scalar(x, z, n)), n);
    let fd = shifted_check_poly(e, r, qh, t, z);
    ql + seq![pe(qh, s), pe(fd, s), pe(div_linear(fd, x), s)]
}

/// The message of a zero rotation.
pub open spec fn zero_rotation_msg() -> Seq<char> {
    "Rotation distance is zero in prove_shifted_evaluation"@
}

/// The message of a rotation as large as the table.
pub open spec fn rotation_too_large_msg(r: i32, n: nat) -> Seq<char> {
    "Rotation distance "@ + signed_decimal(r as int) + " magnitude must be smaller than polynomial size "@
        + decimal(n)
}

/// `c + sum scalars[k] * q_k`.
fn weighted_sum(qs: &Vec<Vec<Fr>>, scalars: &[Fr], c: Fr) -> (r: Vec<Fr>)
    requires
        scalars@.len() == qs.len(),
    ensures
        vals(r@) == weighted_quotients(vals2(qs@), vals(scalars@), c@, qs.len() as nat),
{
    let mut t: Vec<Fr> = Vec::new();
    t.push(c);
    proof {
        assert(vals(t@) =~= seq![c@]);
    }
    let mut k: usize = 0;
    while k < qs.len()
        invariant
            k <= qs.len(),
            scalars@.len() == qs.len(),
            vals(t@) == weighted_quotients(vals2(qs@), vals(scalars@), c@, k as nat),
        decreases qs.len() - k,
    {
        let scaled = poly_scale(qs[k].as_slice(), &scalars[k]);
        t = poly_add(t.as_slice(), scaled.as_slice());
        proof {
            assert(vals2(qs@)[k as int] == vals(qs@[k as int]@));
        }
        k += 1;
    }
    t
}

/// The check polynomial of a rotation, as the opening computes it.
fn shifted_check(e: &[Fr], r: Rotation, qh: &[Fr], t: &[Fr], z: &Fr) -> (fd: Vec<Fr>)
    requires
        0 < r.dist() < e@.len(),
        2 * e@.len() <= usize::MAX,
        qh@.len() == e@.len(),
        t@.len() <= e@.len(),
    ensures
        vals(fd@) == shifted_check_poly(vals(e@), r, vals(qh@), vals(t@), z@),
{
    let n = e.len();
    let d = r.distance();
    if r.0 > 0 {
        let pd = e.split_at(d).0;
        proof {
            assert(vals(pd@) =~= vals(e@).take(d as int));
        }
        let term1 = poly_add(poly_sub(e, pd).as_slice(), poly_shift(pd, n).as_slice());
        let scaled = poly_scale(term1.as_slice(), z);
        let fd = poly_add(scaled.as_slice(), poly_shift(qh, d).as_slice());
        poly_add(fd.as_slice(), poly_shift(t, d).as_slice())
    } else {
        let pd = e.split_at(n - d).1;
        proof {
            assert(vals(pd@) =~= vals(e@).skip(n - d));
        }
        let moved = poly_sub(poly_shift(e, d).as_slice(), poly_shift(pd, d).as_slice());
        let term1 = poly_add(moved.as_slice(), poly_shift(pd, n).as_slice());
        let scaled = poly_scale(term1.as_slice(), z);
        let fd = poly_add(scaled.as_slice(), qh);
        poly_add(fd.as_slice(), t)
    }
}

impl Zeromorph {
    /// Proves the evaluation at `point` of `poly` rotated by `rotation`:
    /// the rotated table is opened as in `open`, and the check polynomial is
    /// built from the table itself and the coefficients that the rotation
    /// moves. `comm` and `value` are not used.
    #[verifier::rlimit(80)]
    pub fn prove_shifted_evaluation(
        pp: &ZeromorphKzgProverParam,
        poly: &MultilinearPolynomial,
        comm: &G1,
        point: &[Fr],
        value: &Fr,
        rotation: &Rotation,
        transcript: &mut Keccak256Transcript,
    ) -> (r: Result<(), Error>)
        requires
            old(transcript).wf(),
            rotation.0 != 0 ==> pp.commit_basis().len() > 0,
            rotation.0 != 0 && poly.table().len() <= pp.commit_basis().len() && rotation.dist() < poly.table().len() ==> {
                &&& 2 * poly.table().len() <= usize::MAX
                &&& poly.vars() == point@.len()
                &&& pp.open_basis().len() > 0
            },
        ensures
            final(transcript).wf(),
            rotation.0 == 0 ==> (r matches Err(Error::InternalError(m)) && m@ == zero_rotation_msg()
                && *final(transcript) == *old(transcript)),
            rotation.0 != 0 && poly.table().len() > pp.commit_basis().len() ==> (r matches Err(Error::InvalidPcsParam(m))
                && m@ == too_large_degree_msg("prove_shifted_evaluation (poly degree)"@,
                    (pp.commit_basis().len() - 1) as nat, (poly.table().len() - 1) as nat)
                && *final(transcript) == *old(transcript)),
            rotation.0 != 0 && poly.table().len() <= pp.commit_basis().len() && rotation.dist() >= poly.table().len()
                ==> (r matches Err(Error::InvalidInput(m)) && m@ == rotation_too_large_msg(rotation.0, poly.table().len())
                && *final(transcript) == *old(transcript)),
            rotation.0 != 0 && poly.table().len() <= pp.commit_basis().len() && rotation.dist() < poly.table().len()
                ==> ({
                let size = poly.table().len() + rotation.dist();
                &&& size > pp.commit_basis().len() ==> (r matches Err(Error::InvalidPcsParam(m))
                    && m@ == too_large_degree_msg("commit"@, (pp.commit_basis().len() - 1) as nat, (size - 1) as nat))
                &&& size <= pp.commit_basis().len() && size > pp.open_basis().len() ==> (r matches Err(Error::InvalidPcsParam(m))
                    && m@ == too_large_degree_msg("open"@, (pp.open_basis().len() - 1) as nat, (size - 1) as nat))
                &&& size <= pp.commit_basis().len() && size <= pp.open_basis().len() ==> (r is Ok && ({
                    let (bytes, state) = shifted_open_transcript(pp.commit_basis(), pp.open_basis(), poly.table(),
                        vals(point@), *rotation, old(transcript).state());
                    &&& final(transcript).stream() == old(transcript).stream() + bytes
                    &&& final(transcript).state() == state
                    &&& final(transcript).pos() == old(transcript).pos()
                }))
                &&& size <= pp.commit_basis().len() && size <= pp.open_basis().len() ==> forall|s: int|
                    #[trigger] powers_basis(pp.commit_basis(), s) && powers_basis(pp.open_basis(), s) ==> ({
                    let logs = shifted_open_logs(s, poly.table(), vals(point@), *rotation, old(transcript).state());
                    let p0 = old(transcript).stream().len() as int;
                    &&& logs.len() == point@.len() + 3
                    &&& chunks(final(transcript).stream(), p0, (point@.len() + 3) as nat) == g1_muls(logs)
                    &&& reads_ok(final(transcript).stream(), p0, (point@.len() + 3) as nat)
                })
            }),
    {
        let signed_d = rotation.0;
        let abs_d = rotation.distance();
        let evals = poly.evals();
        let size = evals.len();
        let n = point.len();
        if signed_d == 0 {
            return Err(Error::InternalError(String::from_str("Rotation distance is zero in prove_shifted_evaluation")));
        }
        if pp.commit_pp.monomial_g1.len() < size {
            return Err(err_too_large_deree("prove_shifted_evaluation (poly degree)", pp.degree(), size - 1));
        }
        if abs_d >= size {
            let mut m = String::from_str("Rotation distance ");
            m.append(signed_decimal_string(signed_d).as_str());
            m.append(" magnitude must be smaller than polynomial size ");
            m.append(decimal_string(size).as_str());
            return Err(Error::InvalidInput(m));
        }
        let ghost e = poly.table();
        let ghost u = vals(point@);
        let ghost basis = pp.commit_basis();
        let ghost st0 = transcript.state();
        let ghost s0 = transcript.stream();
        let _ = poly.num_vars();
        // rotate the table
        let shifted = rotated(evals.as_slice(), *rotation);
        let ghost ed = rotate_table(e, *rotation);
        proof {
            assert(vals(shifted@).len() == shifted@.len());
            assert(shifted@.len() == pow2(poly.vars()));
        }
        let poly_d = MultilinearPolynomial::new(shifted);
        proof {
            crate::field::lemma_pow2_injective(poly_d.vars(), poly.vars());
        }
        let (qs, _remainder) = quotients(&poly_d, point);
        proof {
            assert(vals2(qs@) =~= quotients_of(ed, u));
        }
        // commit to the quotients
        let mut comms: Vec<G1> = Vec::new();
        let mut k: usize = 0;
        while k < n
            invariant
                k <= n,
                n == point@.len(),
                qs.len() == n,
                size == pow2(n as nat),
                size <= pp.commit_pp.monomial_g1.len(),
                basis == pp.commit_basis(),
                vals2(qs@) == quotients_of(ed, u),
                forall|j: int| 0 <= j < n ==> #[trigger] qs[j]@.len() == pow2(j as nat),
                comms.len() == k,
                forall|j: int| 0 <= j < k ==> #[trigger] comms@[j]@ == commit_of(quotients_of(ed, u)[j], basis),
                forall|s: int, j: int| #![trigger comms@[j], powers_basis(basis, s)] powers_basis(basis, s) && 0 <= j < k
                    ==> comms@[j]@ == g1_mul(pe(quotients_of(ed, u)[j], s)),
                forall|j: int| 0 <= j < k ==> crate::curve::g1_decodes(#[trigger] comms@[j]@) && comms@[j]@.len() == 32,
            decreases n - k,
        {
            proof {
                lemma_pow2_mono(k as nat, n as nat);
                assert(vals(qs[k as int]@) == quotients_of(ed, u)[k as int]);
            }
            let c = commit_monomial(&pp.commit_pp, qs[k].as_slice());
            c.lemma_decodes();
            comms.push(c);
            k += 1;
        }
        let ghost cv = Seq::new(n as nat, |j: int| commit_of(quotients_of(ed, u)[j], basis));
        proof {
            assert(g1_views(comms@) =~= cv);
        }
        transcript.write_commitments(comms.as_slice());
        let y = transcript.squeeze_challenge();
        let qh = q_hat(&qs, &y, n, size);
        proof {
            assert(vals(qh@).len() == qh@.len());
            crate::field::lemma_pow2_gt(n as nat);
        }
        let ch = commit_monomial(&pp.commit_pp, qh.as_slice());
        ch.lemma_decodes();
        let _ = transcript.write_commitment(&ch);
        let x = transcript.squeeze_challenge();
        let z = transcript.squeeze_challenge();
        let (es, scalars) = eval_and_quotient_scalars(&y, &x, &z, point);
        let value_d = poly_d.evaluate(point);
        let t = weighted_sum(&qs, scalars.as_slice(), value_d.mul(&es));
        proof {
            assert(vals(scalars@) =~= Seq::new(n as nat, |j: int| quotient_scalar(y@, x@, z@, u, j as nat)));
            assert forall|j: int| 0 <= j < n implies #[trigger] vals2(qs@)[j].len() <= size by {
                lemma_pow2_mono(j as nat, n as nat);
            }
            lemma_weighted_quotients_len(vals2(qs@), vals(scalars@), fmul(value_d@, es@), n as nat, size as nat);
        }
        let fd = shifted_check(evals.as_slice(), *rotation, qh.as_slice(), t.as_slice(), &z);
        proof {
            lemma_shifted_check_len(e, *rotation, vals(qh@), vals(t@), z@);
        }
        if pp.commit_pp.monomial_g1.len() < fd.len() {
            return Err(err_too_large_deree("commit", pp.degree(), fd.len() - 1));
        }
        let cf = commit_monomial(&pp.commit_pp, fd.as_slice());
        cf.lemma_decodes();
        let _ = transcript.write_commitment(&cf);
        let ghost s_mid = transcript.stream();
        let r = crate::kzg::open(&pp.open_pp, fd.as_slice(), &x, transcript);
        proof {
            let qsv = quotients_of(ed, u);
            let st1 = st0 + g1_bytes(cv);
            assert(y@ == challenge_of(st1));
            let st2 = keccak256_of(st1);
            let qhv = q_hat_of(qsv, y@, n as nat);
            assert(vals(qh@) == qhv);
            assert(ch@ == commit_of(qhv, basis));
            let st3 = st2 + ch@;
            assert(x@ == challenge_of(st3));
            let st4 = keccak256_of(st3);
            assert(z@ == challenge_of(st4));
            let st5 = keccak256_of(st4);
            let scal = Seq::new(n as nat, |j: int| quotient_scalar(y@, x@, z@, u, j as nat));
            assert(poly_d.table() == ed);
            let tv = weighted_quotients(qsv, scal, fmul(ml_eval(ed, u), eval_scalar(x@, z@, n as nat)), n as nat);
            assert(vals(t@) == tv);
            let fdv = shifted_check_poly(e, *rotation, qhv, tv, z@);
            assert(vals(evals@) == e);
            assert(vals(fd@) == fdv);
            let cfv = commit_of(fdv, basis);
            assert(cf@ == cfv);
            let pi = commit_of(div_linear(fdv, x@), pp.open_basis());
            let (bytes, state) = shifted_open_transcript(basis, pp.open_basis(), e, u, *rotation, st0);
            assert(bytes == g1_bytes(cv) + ch@ + cfv + pi);
            assert(state == st5 + cfv + pi);
            if fd@.len() <= pp.open_basis().len() {
                assert(transcript.stream() =~= s0 + bytes);
                assert(transcript.state() =~= state);
                assert forall|s: int| #[trigger] powers_basis(pp.commit_basis(), s) && powers_basis(pp.open_basis(), s) implies ({
                    let logs = shifted_open_logs(s, e, u, *rotation, st0);
                    &&& logs.len() == n + 3
                    &&& chunks(transcript.stream(), s0.len() as int, (n + 3) as nat) == g1_muls(logs)
                    &&& reads_ok(transcript.stream(), s0.len() as int, (n + 3) as nat)
                }) by {
                    let ql = Seq::new(n as nat, |j: int| pe(qsv[j], s));
                    assert(cv =~= g1_muls(ql)) by {
                        assert forall|j: int| 0 <= j < n implies #[trigger] cv[j] == g1_muls(ql)[j] by {
                            assert(comms@[j]@ == g1_mul(pe(quotients_of(ed, u)[j], s)));
                        }
                    }
                    assert(ch@ == g1_mul(pe(qhv, s)));
                    assert(cf@ == g1_mul(pe(fdv, s)));
                    let wv = div_linear(fdv, x@);
                    let logs = shifted_open_logs(s, e, u, *rotation, st0);
                    assert(logs =~= ql + seq![pe(qhv, s), pe(fdv, s), pe(wv, s)]);
                    assert(pi == g1_mul(pe(wv, s))) by {
                        assert(powers_basis(pp.open_basis(), s));
                        let b = g1_mul(pe(wv, s));
                        assert(transcript.stream() == s_mid + b);
                        assert(transcript.stream() == s_mid + pi);
                        assert(pi =~= (s_mid + pi).skip(s_mid.len() as int));
                        assert(b =~= (s_mid + b).skip(s_mid.len() as int));
                    }
                    let cs = g1_muls(logs);
                    assert forall|j: int| 0 <= j < cs.len() implies (#[trigger] cs[j]).len() == 32
                        && crate::curve::g1_decodes(cs[j]) by {
                        if j < n {
                            assert(cs[j] == comms@[j]@);
                        } else if j == n {
                            assert(cs[j] == ch@);
                        } else if j == n + 1 {
                            assert(cs[j] == cf@);
                        } else {
                            assert(cs[j] == pi);
                        }
                    }
                    assert(g1_bytes(cs) =~= g1_bytes(cv) + ch@ + cf@ + pi) by {
                        let c1 = cs.drop_last();
                        let c2 = c1.drop_last();
                        let c3 = c2.drop_last();
                        assert(c3 =~= cv);
                        assert(cs.last() == pi);
                        assert(c1.last() == cf@);
                        assert(c2.last() == ch@);
                        assert(g1_bytes(cs) == g1_bytes(c1) + cs.last());
                        assert(g1_bytes(c1) == g1_bytes(c2) + c1.last());
                        assert(g1_bytes(c2) == g1_bytes(c3) + c2.last());
                    }
                    crate::completeness::lemma_g1_bytes_chunks(s0, cs, Seq::empty());
                    assert(s0 + g1_bytes(cs) + Seq::<u8>::empty() =~= transcript.stream());
                    let st = transcript.stream();
                    assert forall|j: int| 0 <= j < n + 3 implies crate::curve::g1_decodes(#[trigger] chunk(st, s0.len() + 32 * j)) by {
                        assert(chunks(st, s0.len() as int, (n + 3) as nat)[j] == cs[j]);
                    }
                }
            }
        }
        r
    }
}

/// The pairing check of a proof of a rotated evaluation read at `pos` of
/// `stream`, with hashing state `state` before it: with `x` squeezed after
/// the quotient commitments and their batch, `f` the commitment to the
/// check polynomial and `pi` its opening,
/// `e(f, -s_offset*G2) * e(pi, s*G2 - x*G2) == 1`.
pub open spec fn shifted_verify_check(
    g2: Seq<u8>,
    s_g2: Seq<u8>,
    s_offset_g2: Seq<u8>,
    n: nat,
    state: Seq<u8>,
    stream: Seq<u8>,
    pos: int,
) -> bool {
    let qc = chunks(stream, pos, n);
    let st1 = state + g1_bytes(qc);
    let st2 = keccak256_of(st1);
    let qh = chunk(stream, pos + 32 * n);
    let st3 = st2 + qh;
    let x = challenge_of(st3);
    let f = chunk(stream, pos + 32 * (n + 1));
    let pi = chunk(stream, pos + 32 * (n + 2));
    let neg_offset = g2_msm_of(seq![fneg(1)], seq![s_offset_g2]);
    let s_minus_x = g2_msm_of(seq![1, fneg(x)], seq![s_g2, g2]);
    pairing_product_is_identity_of(seq![(f, neg_offset), (pi, s_minus_x)])
}

/// The rotated verifier's equation in the exponent of `G1`, for a proof
/// read at `pos` whose points are `logs[i] * G1` (the quotients, `q_hat`,
/// the check polynomial `f` and its opening `pi`) and parameters whose
/// offset point is `o * G2`: `pi * (s - x) == o * f` modulo `p`.
pub open spec fn shifted_equation(s: int, o: int, logs: Seq<int>, n: nat, state: Seq<u8>, stream: Seq<u8>, pos: int) -> bool {
    let qc = chunks(stream, pos, n);
    let st1 = state + g1_bytes(qc);
    let st2 = keccak256_of(st1);
    let qh = chunk(stream, pos + 32 * n);
    let x = challenge_of(st2 + qh);
    (logs[n + 2int] * (s - x) - o * logs[n + 1int]) % p() == 0
}

/// The message of a rejected proof of a rotated evaluation.
pub open spec fn invalid_shifted_open_msg(r: i32) -> Seq<char> {
    "Invalid Zeromorph KZG shifted open for rotation "@ + signed_decimal(r as int)
}

impl Zeromorph {
    /// Verifies a proof of an evaluation of a rotated polynomial: reads the
    /// quotient commitments and their batch, squeezing `y`, `x` and `z` as
    /// the prover did, then the commitment to the check polynomial and its
    /// opening at `x` to zero, and checks the pairing equation of that
    /// opening.
    ///
    /// The check is on the proof alone: `comm` and `value` do not enter it.
    /// The committed check polynomial is `X^d` times the Zeromorph check
    /// polynomial of the rotated table (`lemma_left_shift_check_poly`), so
    /// tying it to a commitment rebuilt from `comm` and `value` would take
    /// `s^d * G2`, which the verifier parameters do not hold.
    #[verifier::rlimit(60)]
    pub fn verify_shifted_evaluation(
        vp: &ZeromorphKzgVerifierParam,
        comm: &G1,
        point: &[Fr],
        value: &Fr,
        rotation: &Rotation,
        transcript: &mut Keccak256Transcript,
    ) -> (r: Result<(), Error>)
        requires
            old(transcript).wf(),
            old(transcript).pos() + 32 * (point@.len() + 3) <= usize::MAX,
        ensures
            final(transcript).wf(),
            ({
                let t = *old(transcript);
                let ok_reads = reads_ok(t.stream(), t.pos(), (point@.len() + 3) as nat);
                let check = shifted_verify_check(
                    vp.g2_spec()@,
                    vp.s_g2_spec()@,
                    vp.s_offset_g2_spec()@,
                    point@.len(),
                    t.state(),
                    t.stream(),
                    t.pos(),
                );
                &&& ok_reads && check ==> r is Ok
                &&& ok_reads && !check ==> (r matches Err(Error::InvalidPcsOpen(m))
                    && m@ == invalid_shifted_open_msg(rotation.0))
                &&& !ok_reads ==> (r matches Err(Error::Transcript(_, m)) && m@ == read_comm_msg())
            }),
            forall|s: int, o: int, logs: Seq<int>|
                #![trigger shifted_equation(s, o, logs, point@.len(), old(transcript).state(), old(transcript).stream(), old(transcript).pos())]
                vp.g2_spec()@ == g2_mul(1) && vp.s_g2_spec()@ == g2_mul(s) && vp.s_offset_g2_spec()@ == g2_mul(o)
                && logs.len() == point@.len() + 3
                && chunks(old(transcript).stream(), old(transcript).pos(), (point@.len() + 3) as nat) == g1_muls(logs)
                && reads_ok(old(transcript).stream(), old(transcript).pos(), (point@.len() + 3) as nat)
                && shifted_equation(s, o, logs, point@.len(), old(transcript).state(), old(transcript).stream(), old(transcript).pos())
                ==> r is Ok,
    {
        let n = point.len();
        let ghost s0 = transcript.stream();
        let ghost p0 = transcript.pos();
        let ghost st0 = transcript.state();
        let ghost all = reads_ok(s0, p0, (n + 3) as nat);
        proof {
            if all {
                assert(reads_ok(s0, p0, n as nat));
            }
            if reads_ok(s0, p0, n as nat) && p0 + 32 * (n + 3) <= s0.len()
                && crate::curve::g1_decodes(chunk(s0, p0 + 32 * n))
                && crate::curve::g1_decodes(chunk(s0, p0 + 32 * (n + 1)))
                && crate::curve::g1_decodes(chunk(s0, p0 + 32 * (n + 2))) {
                assert forall|k: int| 0 <= k < n + 3 implies crate::curve::g1_decodes(#[trigger] chunk(s0, p0 + 32 * k)) by {
                    if k < n {
                    } else if k == n {
                    } else if k == n + 1 {
                    } else {
                        assert(k == n + 2);
                    }
                }
                assert(all);
            }
        }
        let _q_comms = transcript.read_commitments(n)?;
        let _y = transcript.squeeze_challenge();
        let q_hat_comm = match transcript.read_commitment() {
            Ok(c) => c,
            Err(e) => {
                proof {
                    if all {
                        assert(crate::curve::g1_decodes(chunk(s0, p0 + 32 * n)));
                    }
                }
                return Err(e);
            },
        };
        let x = transcript.squeeze_challenge();
        let _z = transcript.squeeze_challenge();
        let f = match transcript.read_commitment() {
            Ok(c) => c,
            Err(e) => {
                proof {
                    if all {
                        assert(crate::curve::g1_decodes(chunk(s0, p0 + 32 * (n + 1))));
                    }
                }
                return Err(e);
            },
        };
        let pi = match transcript.read_commitment() {
            Ok(c) => c,
            Err(e) => {
                proof {
                    if all {
                        assert(crate::curve::g1_decodes(chunk(s0, p0 + 32 * (n + 2))));
                    }
                }
                return Err(e);
            },
        };
        let one = Fr::one();
        let negs = [one.neg()];
        let offsets = [vp.s_offset_g2];
        let neg_offset = g2_msm(&negs, &offsets);
        let coeffs = [one, x.neg()];
        let g2s = [vp.s_g2(), vp.g2()];
        let s_minus_x = g2_msm(&coeffs, &g2s);
        let terms = [(f, neg_offset), (pi, s_minus_x)];
        let ok = pairing_product_is_identity(&terms);
        proof {
            let qc = chunks(s0, p0, n as nat);
            let st1 = st0 + g1_bytes(qc);
            let st2 = keccak256_of(st1);
            let qh = chunk(s0, p0 + 32 * n);
            let st3 = st2 + qh;
            assert(q_hat_comm@ == qh);
            assert(x@ == challenge_of(st3));
            assert(f@ == chunk(s0, p0 + 32 * (n + 1)));
            assert(pi@ == chunk(s0, p0 + 32 * (n + 2)));
            assert(vals(negs@) =~= seq![fneg(1)]);
            assert(crate::curve::g2_views(offsets@) =~= seq![vp.s_offset_g2_spec()@]);
            assert(vals(coeffs@) =~= seq![1, fneg(x@)]);
            assert(crate::curve::g2_views(g2s@) =~= seq![vp.s_g2_spec()@, vp.g2_spec()@]);
            assert(crate::curve::pair_views(terms@) =~= seq![(f@, neg_offset@), (pi@, s_minus_x@)]);
            assert(all);
            assert forall|s: int, o: int, logs: Seq<int>|
                #![trigger shifted_equation(s, o, logs, n as nat, st0, s0, p0)]
                vp.g2_spec()@ == g2_mul(1) && vp.s_g2_spec()@ == g2_mul(s) && vp.s_offset_g2_spec()@ == g2_mul(o)
                && logs.len() == n + 3
                && chunks(s0, p0, (n + 3) as nat) == g1_muls(logs)
                && reads_ok(s0, p0, (n + 3) as nat)
                && shifted_equation(s, o, logs, n as nat, st0, s0, p0) implies ok by {
                let lf = logs[n + 1];
                let lp = logs[n + 2];
                assert(chunks(s0, p0, (n + 3) as nat)[n + 1] == f@);
                assert(chunks(s0, p0, (n + 3) as nat)[n + 2] == pi@);
                assert(g2_muls(seq![o]) =~= crate::curve::g2_views(offsets@));
                assert(g2_muls(seq![s, 1]) =~= crate::curve::g2_views(g2s@));
                crate::completeness::lemma_dot_small(fneg(1), 0, 0, 0, o, 0, 0, 0);
                crate::completeness::lemma_dot_small(1, fneg(x@), 0, 0, s, 1, 0, 0);
                let ga = seq![lf, lp];
                let gb = seq![fneg(1) * o, 1 * s + fneg(x@) * 1];
                assert(crate::curve::mul_pairs(ga, gb) =~= crate::curve::pair_views(terms@));
                crate::completeness::lemma_dot_small(lf, lp, 0, 0, fneg(1) * o, 1 * s + fneg(x@) * 1, 0, 0);
                crate::completeness::lemma_shifted_pairing(lf, lp, s, x@, o);
            }
        }
        if ok {
            Ok(())
        } else {
            let mut m = String::from_str("Invalid Zeromorph KZG shifted open for rotation ");
            m.append(signed_decimal_string(rotation.0).as_str());
            Err(Error::InvalidPcsOpen(m))
        }
    }
}

} // verus!
