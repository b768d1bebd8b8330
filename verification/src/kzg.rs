//! Univariate KZG commitments in the monomial basis.

use crate::completeness::{lemma_dot_powers, lemma_mul_cong, lemma_powers_are_multiples, powers_of};
use crate::vanishing::pe;
use crate::curve::{
    dot, g1_mul, g1_muls,
    g1_decodes, g1_generator_bytes, g1_msm, g1_msm_of, g1_views, g2_generator_bytes, g2_msm, g2_msm_of, g2_views, G1, G2,
};
use crate::error::Error;
use crate::field::{fadd, fmul, fpow, p, pow2, vals, Fr};
use crate::message::{decimal, decimal_string};
use crate::transcript::Keccak256Transcript;
use vstd::prelude::*;

verus! {

/// The public parameters: `s^i * G1` for `i < n` and `s^i * G2`.
pub struct UnivariateKzgParam {
    pub k: usize,
    pub monomial_g1: Vec<G1>,
    pub powers_of_s_g2: Vec<G2>,
}

/// The prover's parameters: the monomial basis `s^i * G1`.
pub struct UnivariateKzgProverParam {
    pub k: usize,
    pub monomial_g1: Vec<G1>,
    pub lagrange_g1: Vec<G1>,
}

/// The verifier's parameters: `G1`, `G2` and `s * G2`.
#[derive(Clone, Copy, Debug)]
pub struct UnivariateKzgVerifierParam {
    pub g1: G1,
    pub g2: G2,
    pub s_g2: G2,
}

/// The message of a degree that exceeds what the parameters support.
pub open spec fn too_large_degree_msg(function: Seq<char>, upto: nat, got: nat) -> Seq<char> {
    if function == "trim"@ {
        "Too large degree to "@ + function + " (param supports degree up to "@ + decimal(upto)
            + " but got "@ + decimal(got) + ")"@
    } else {
        "Too large degree of poly to "@ + function + " (param supports degree up to "@ + decimal(
            upto,
        ) + " but got "@ + decimal(got) + ")"@
    }
}

/// The error of a degree that exceeds what the parameters support.
pub fn err_too_large_deree(function: &str, upto: usize, got: usize) -> (r: Error)
    ensures
        r matches Error::InvalidPcsParam(m) && m@ == too_large_degree_msg(function@, upto as nat, got as nat),
{
    let mut m = if String::from_str(function) == String::from_str("trim") {
        String::from_str("Too large degree to ")
    } else {
        String::from_str("Too large degree of poly to ")
    };
    m.append(function);
    m.append(" (param supports degree up to ");
    m.append(decimal_string(upto).as_str());
    m.append(" but got ");
    m.append(decimal_string(got).as_str());
    m.append(")");
    Error::InvalidPcsParam(m)
}

/// The coefficients of the quotient of `f` by `X - x`, highest first:
/// `q[i] = f[i + 1] + x * q[i + 1]`, with `q[len - 2] = f[len - 1]`.
pub open spec fn div_linear(f: Seq<int>, x: int) -> Seq<int>
    decreases f.len(),
{
    if f.len() <= 1 {
        Seq::empty()
    } else {
        let rest = div_linear(f.drop_first(), x);
        let top = if rest.len() == 0 {
            f[1] % p()
        } else {
            fadd(f[1], fmul(x, rest[0]))
        };
        seq![top] + rest
    }
}

/// The value of `f` at `x` (Horner's rule).
pub open spec fn horner(f: Seq<int>, x: int) -> int
    decreases f.len(),
{
    if f.len() == 0 {
        0
    } else {
        fadd(f[0], fmul(x, horner(f.drop_first(), x)))
    }
}

/// The quotient of `f` by `X - x` (the remainder `f(x)` is dropped).
pub fn divide_by_linear(f: &[Fr], x: &Fr) -> (q: Vec<Fr>)
    ensures
        vals(q@) == div_linear(vals(f@), x@),
{
    let n = f.len();
    if n <= 1 {
        return Vec::new();
    }
    // coefficients from the top down, reversed at the end
    let mut rev: Vec<Fr> = Vec::new();
    let mut acc = f[n - 1];
    f[n - 1].lemma_canonical();
    proof {
        vstd::arithmetic::div_mod::lemma_small_mod(f[n - 1]@ as nat, p() as nat);
        assert(vals(f@).skip(n - 2).drop_first() =~= vals(f@).skip(n - 1));
        assert(div_linear(vals(f@).skip(n - 1), x@) =~= Seq::<int>::empty());
        assert(div_linear(vals(f@).skip(n - 2), x@) =~= seq![f[n - 1]@]);
    }
    rev.push(acc);
    let mut i: usize = n - 2;
    while i > 0
        invariant
            n == f.len(),
            1 <= n - 1 - i <= n - 1,
            i < n - 1,
            rev.len() == n - 1 - i,
            acc == rev[rev.len() - 1],
            forall|j: int| 0 <= j < rev.len() ==> #[trigger] rev@[j]@ == div_linear(vals(f@).skip(i as int), x@)[rev.len() - 1 - j],
            div_linear(vals(f@).skip(i as int), x@).len() == rev.len(),
        decreases i,
    {
        acc = f[i].add(&x.mul(&acc));
        proof {
            let s = vals(f@).skip(i - 1);
            assert(s.drop_first() =~= vals(f@).skip(i as int));
            assert(s[1] == f[i as int]@);
        }
        rev.push(acc);
        i -= 1;
    }
    proof {
        assert(vals(f@).skip(0) =~= vals(f@));
    }
    let mut q: Vec<Fr> = Vec::new();
    let mut j: usize = rev.len();
    while j > 0
        invariant
            j <= rev.len(),
            q.len() == rev.len() - j,
            forall|l: int| 0 <= l < q.len() ==> #[trigger] q@[l] == rev@[rev.len() - 1 - l],
        decreases j,
    {
        j -= 1;
        q.push(rev[j]);
    }
    proof {
        assert(vals(q@) =~= div_linear(vals(f@), x@));
    }
    q
}

impl UnivariateKzgProverParam {
    pub fn new(k: usize, monomial_g1: Vec<G1>, lagrange_g1: Vec<G1>) -> (r: Self)
        ensures
            r.k == k,
            r.monomial_g1 == monomial_g1,
            r.lagrange_g1 == lagrange_g1,
    {
        UnivariateKzgProverParam { k, monomial_g1, lagrange_g1 }
    }

    /// The largest degree that the parameters commit to.
    pub fn degree(&self) -> (r: usize)
        requires
            self.monomial_g1.len() > 0,
        ensures
            r == self.monomial_g1.len() - 1,
    {
        self.monomial_g1.len() - 1
    }
}

impl UnivariateKzgVerifierParam {
    pub fn g1(&self) -> (r: G1)
        ensures
            r == self.g1,
    {
        self.g1
    }

    pub fn g2(&self) -> (r: G2)
        ensures
            r == self.g2,
    {
        self.g2
    }

    pub fn s_g2(&self) -> (r: G2)
        ensures
            r == self.s_g2,
    {
        self.s_g2
    }
}

/// The commitment `sum coeffs[i] * (s^i * G1)` of a polynomial in the
/// monomial basis.
pub open spec fn commit_of(coeffs: Seq<int>, basis: Seq<G1>) -> Seq<u8> {
    g1_msm_of(coeffs, g1_views(basis.take(coeffs.len() as int)))
}

/// Commits to a polynomial given by its coefficients.
pub fn commit_monomial(pp: &UnivariateKzgProverParam, coeffs: &[Fr]) -> (r: G1)
    requires
        coeffs@.len() <= pp.monomial_g1.len(),
    ensures
        r@ == commit_of(vals(coeffs@), pp.monomial_g1@),
        forall|s: int| #[trigger] g1_powers(s, g1_generator_bytes(), pp.monomial_g1@.len()) == g1_views(pp.monomial_g1@)
            ==> r@ == g1_mul(pe(vals(coeffs@), s)),
{
    let mut bases: Vec<G1> = Vec::new();
    let mut i: usize = 0;
    while i < coeffs.len()
        invariant
            i <= coeffs.len(),
            coeffs@.len() <= pp.monomial_g1.len(),
            bases@ == pp.monomial_g1@.take(i as int),
        decreases coeffs.len() - i,
    {
        bases.push(pp.monomial_g1[i]);
        proof {
            assert(pp.monomial_g1@.take(i + 1) =~= pp.monomial_g1@.take(i as int).push(pp.monomial_g1@[i as int]));
        }
        i += 1;
    }
    let r = g1_msm(coeffs, &bases);
    proof {
        let len = coeffs@.len();
        assert forall|s: int| #[trigger] g1_powers(s, g1_generator_bytes(), pp.monomial_g1@.len()) == g1_views(pp.monomial_g1@)
            implies r@ == g1_mul(pe(vals(coeffs@), s)) by {
            let n = pp.monomial_g1@.len();
            lemma_powers_are_multiples(s, n);
            let a = powers_of(s, len);
            assert forall|j: int| 0 <= j < len implies #[trigger] g1_views(bases@)[j] == g1_muls(a)[j] by {
                assert(g1_views(bases@)[j] == pp.monomial_g1@[j]@);
                assert(g1_views(pp.monomial_g1@)[j] == pp.monomial_g1@[j]@);
                assert(g1_muls(powers_of(s, n))[j] == g1_mul(fpow(s, j as nat)));
            }
            assert(g1_muls(a) =~= g1_views(bases@));
            lemma_dot_powers(vals(coeffs@), s);
            lemma_mul_cong(dot(vals(coeffs@), a), pe(vals(coeffs@), s));
        }
    }
    r
}

/// The `G1` points `s^i * g1` for `i < n`, from the encoding of `g1`.
pub open spec fn g1_powers(s: int, g1: Seq<u8>, n: nat) -> Seq<Seq<u8>> {
    Seq::new(n, |i: int| g1_msm_of(seq![fpow(s, i as nat)], seq![g1]))
}

/// The `G2` points `s^i * g2` for `i < n`, from the encoding of `g2`.
pub open spec fn g2_powers(s: int, g2: Seq<u8>, n: nat) -> Seq<Seq<u8>> {
    Seq::new(n, |i: int| g2_msm_of(seq![fpow(s, i as nat)], seq![g2]))
}

/// The parameters from the secret `s`: `s^i * G1` for `i < poly_size` and
/// `s^i * G2` for `i < max(poly_size, 2)`, `G1` and `G2` being the
/// generators.
pub fn setup_with_secret(poly_size: usize, s: &Fr) -> (r: UnivariateKzgParam)
    requires
        poly_size < usize::MAX,
    ensures
        r.monomial_g1.len() == poly_size,
        r.powers_of_s_g2.len() == if poly_size < 2 { 2 } else { poly_size },
        g1_views(r.monomial_g1@) == g1_powers(s@, g1_generator_bytes(), poly_size as nat),
        g2_views(r.powers_of_s_g2@) == g2_powers(s@, g2_generator_bytes(), r.powers_of_s_g2@.len()),
{
    let g1 = G1::generator();
    let g2 = G2::generator();
    let n2 = if poly_size < 2 {
        2
    } else {
        poly_size
    };
    let mut monomial_g1: Vec<G1> = Vec::new();
    let mut powers_of_s_g2: Vec<G2> = Vec::new();
    let mut cur = Fr::one();
    let mut i: usize = 0;
    while i < n2
        invariant
            i <= n2,
            n2 >= poly_size,
            cur@ == fpow(s@, i as nat),
            monomial_g1.len() == if i < poly_size { i } else { poly_size },
            powers_of_s_g2.len() == i,
            forall|j: int| 0 <= j < monomial_g1.len() ==> #[trigger] monomial_g1@[j]@
                == g1_msm_of(seq![fpow(s@, j as nat)], seq![g1@]),
            forall|j: int| 0 <= j < i ==> #[trigger] powers_of_s_g2@[j]@
                == g2_msm_of(seq![fpow(s@, j as nat)], seq![g2@]),
        decreases n2 - i,
    {
        let scalar = [cur];
        let g1s = [g1];
        let g2s = [g2];
        proof {
            assert(vals(scalar@) =~= seq![fpow(s@, i as nat)]);
            assert(g1_views(g1s@) =~= seq![g1@]);
            assert(g2_views(g2s@) =~= seq![g2@]);
        }
        if i < poly_size {
            monomial_g1.push(g1_msm(&scalar, &g1s));
        }
        powers_of_s_g2.push(g2_msm(&scalar, &g2s));
        cur = cur.mul(s);
        i += 1;
    }
    proof {
        assert(g1_views(monomial_g1@) =~= g1_powers(s@, g1@, poly_size as nat));
        assert(g2_views(powers_of_s_g2@) =~= g2_powers(s@, g2@, powers_of_s_g2@.len()));
    }
    UnivariateKzgParam { k: 0, monomial_g1, powers_of_s_g2 }
}

/// Fresh parameters from a random secret: the powers of some secret `s`
/// times the generators.
pub fn setup(poly_size: usize) -> (r: UnivariateKzgParam)
    requires
        poly_size < usize::MAX,
    ensures
        r.monomial_g1.len() == poly_size,
        r.powers_of_s_g2.len() == if poly_size < 2 { 2 } else { poly_size },
        exists|s: int|
            #![trigger g1_powers(s, g1_generator_bytes(), poly_size as nat)]
            g1_views(r.monomial_g1@) == g1_powers(s, g1_generator_bytes(), poly_size as nat)
                && g2_views(r.powers_of_s_g2@) == g2_powers(s, g2_generator_bytes(), r.powers_of_s_g2@.len()),
{
    let s = Fr::random();
    setup_with_secret(poly_size, &s)
}

/// The largest power of two not above `n`, as an exponent.
pub fn log2(n: usize) -> (r: usize)
    requires
        n >= 1,
    ensures
        pow2(r as nat) <= n,
        n < 2 * pow2(r as nat),
{
    let mut r: usize = 0;
    let mut size: usize = 1;
    while size <= n / 2
        invariant
            size == pow2(r as nat),
            size <= n,
            r < size,
            1 <= size,
        decreases n - size,
    {
        proof {
            crate::field::lemma_pow2_gt(r as nat);
        }
        size = size * 2;
        r = r + 1;
    }
    r
}

impl UnivariateKzgParam {
    /// The largest degree that the parameters commit to.
    pub fn degree(&self) -> (r: usize)
        requires
            self.monomial_g1.len() > 0,
        ensures
            r == self.monomial_g1.len() - 1,
    {
        self.monomial_g1.len() - 1
    }
}

/// The prover's and verifier's parameters for polynomials of `poly_size`
/// coefficients: the first `poly_size` powers in `G1`, and `G1`, `G2`, `s * G2`.
pub fn trim(param: &UnivariateKzgParam, poly_size: usize) -> (r: Result<(UnivariateKzgProverParam, UnivariateKzgVerifierParam), Error>)
    requires
        param.monomial_g1.len() > 0,
        param.powers_of_s_g2.len() >= 2,
        poly_size >= 1,
    ensures
        param.monomial_g1.len() < poly_size ==> (r matches Err(Error::InvalidPcsParam(m))
            && m@ == too_large_degree_msg("trim"@, (param.monomial_g1.len() - 1) as nat, (poly_size - 1) as nat)),
        param.monomial_g1.len() >= poly_size ==> (r matches Ok((pp, vp))
            && pp.monomial_g1@ == param.monomial_g1@.take(poly_size as int)
            && pp.lagrange_g1@.len() == 0
            && pow2(pp.k as nat) <= poly_size < 2 * pow2(pp.k as nat)
            && vp.g1 == param.monomial_g1@[0]
            && vp.g2 == param.powers_of_s_g2@[0]
            && vp.s_g2 == param.powers_of_s_g2@[1]),
{
    if param.monomial_g1.len() < poly_size {
        return Err(err_too_large_deree("trim", param.degree(), poly_size - 1));
    }
    let mut monomial_g1: Vec<G1> = Vec::new();
    let mut i: usize = 0;
    while i < poly_size
        invariant
            i <= poly_size,
            poly_size <= param.monomial_g1.len(),
            monomial_g1@ == param.monomial_g1@.take(i as int),
        decreases poly_size - i,
    {
        monomial_g1.push(param.monomial_g1[i]);
        proof {
            assert(param.monomial_g1@.take(i + 1) =~= param.monomial_g1@.take(i as int).push(param.monomial_g1@[i as int]));
        }
        i += 1;
    }
    let pp = UnivariateKzgProverParam::new(log2(poly_size), monomial_g1, Vec::new());
    let vp = UnivariateKzgVerifierParam {
        g1: param.monomial_g1[0],
        g2: param.powers_of_s_g2[0],
        s_g2: param.powers_of_s_g2[1],
    };
    Ok((pp, vp))
}

/// Opens the polynomial with coefficients `f` at `x` to its value: writes the
/// commitment to the quotient of `f` by `X - x`.
pub fn open(pp: &UnivariateKzgProverParam, f: &[Fr], x: &Fr, transcript: &mut Keccak256Transcript) -> (r: Result<(), Error>)
    requires
        old(transcript).wf(),
        pp.monomial_g1.len() > 0,
    ensures
        final(transcript).wf(),
        f@.len() > pp.monomial_g1.len() ==> (r matches Err(Error::InvalidPcsParam(m))
            && m@ == too_large_degree_msg("open"@, (pp.monomial_g1.len() - 1) as nat, (f@.len() - 1) as nat)
            && *final(transcript) == *old(transcript)),
        f@.len() <= pp.monomial_g1.len() ==> (r is Ok && ({
            let c = commit_of(div_linear(vals(f@), x@), pp.monomial_g1@);
            &&& g1_decodes(c) && c.len() == 32
            &&& final(transcript).state() == old(transcript).state() + c
            &&& final(transcript).stream() == old(transcript).stream() + c
            &&& final(transcript).pos() == old(transcript).pos()
        })),
        f@.len() <= pp.monomial_g1.len() ==> forall|s: int|
            #[trigger] g1_powers(s, g1_generator_bytes(), pp.monomial_g1@.len()) == g1_views(pp.monomial_g1@)
                ==> final(transcript).stream() == old(transcript).stream() + g1_mul(pe(div_linear(vals(f@), x@), s)),
{
    if f.len() > pp.monomial_g1.len() {
        return Err(err_too_large_deree("open", pp.degree(), f.len() - 1));
    }
    let q = divide_by_linear(f, x);
    proof {
        lemma_div_linear_len(vals(f@), x@);
    }
    let c = commit_monomial(pp, &q);
    c.lemma_decodes();
    let _ = transcript.write_commitment(&c);
    Ok(())
}

/// The quotient by a linear factor has one coefficient fewer.
pub proof fn lemma_div_linear_len(f: Seq<int>, x: int)
    ensures
        div_linear(f, x).len() == if f.len() == 0 { 0 } else { f.len() - 1 },
    decreases f.len(),
{
    if f.len() > 1 {
        lemma_div_linear_len(f.drop_first(), x);
    }
}

} // verus!
