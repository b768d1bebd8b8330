//! Vector helpers over the scalar field.

use crate::field::{
    fadd, finner, finv, fmul, fpow, fsum, is_inverse, lemma_fpow_add, lemma_inverse_unique, min_len, p,
    pow2, vals, Fr,
};
use vstd::arithmetic::div_mod::*;
use vstd::prelude::*;

verus! {

/// `[1, x, x^2, ..., x^(n-1)]`.
pub fn powers(x: &Fr, n: usize) -> (r: Vec<Fr>)
    ensures
        r.len() == n,
        forall|i: int| 0 <= i < n ==> #[trigger] r[i]@ == fpow(x@, i as nat),
{
    let mut r: Vec<Fr> = Vec::new();
    let mut cur = Fr::one();
    while r.len() < n
        invariant
            r.len() <= n,
            cur@ == fpow(x@, r.len() as nat),
            forall|i: int| 0 <= i < r.len() ==> #[trigger] r[i]@ == fpow(x@, i as nat),
        decreases n - r.len(),
    {
        r.push(cur);
        cur = cur.mul(x);
    }
    r
}

/// `[x, x^2, x^4, ..., x^(2^(n-1))]`.
pub fn squares(x: &Fr, n: usize) -> (r: Vec<Fr>)
    ensures
        r.len() == n,
        forall|i: int| 0 <= i < n ==> #[trigger] r[i]@ == fpow(x@, pow2(i as nat)),
{
    let mut r: Vec<Fr> = Vec::new();
    let mut cur = *x;
    x.lemma_canonical();
    proof {
        lemma_small_mod(x@ as nat, p() as nat);
        lemma_small_mod(1, p() as nat);
        reveal_with_fuel(fpow, 2);
        assert(fpow(x@, 1) == fmul(1, x@));
        assert(pow2(0) == 1);
    }
    while r.len() < n
        invariant
            r.len() <= n,
            cur@ == fpow(x@, pow2(r.len() as nat)),
            forall|i: int| 0 <= i < r.len() ==> #[trigger] r[i]@ == fpow(x@, pow2(i as nat)),
        decreases n - r.len(),
    {
        proof {
            let k = r.len() as nat;
            lemma_fpow_add(x@, pow2(k), pow2(k));
            assert(pow2(k + 1) == pow2(k) + pow2(k));
        }
        r.push(cur);
        cur = cur.square();
    }
    r
}

/// Sum of a prefix, extended by one term.
proof fn lemma_fsum_take(s: Seq<int>, i: int)
    requires
        0 <= i < s.len(),
    ensures
        fsum(s.take(i + 1)) == fadd(fsum(s.take(i)), s[i]),
{
    assert(s.take(i + 1).drop_last() =~= s.take(i));
}

/// The inner product over the shorter of the two lengths.
pub fn inner_product(a: &[Fr], b: &[Fr]) -> (r: Fr)
    ensures
        r@ == finner(vals(a@), vals(b@)),
{
    let n = if a.len() <= b.len() {
        a.len()
    } else {
        b.len()
    };
    let ghost prods = Seq::new(
        min_len(vals(a@).len(), vals(b@).len()),
        |i: int| fmul(vals(a@)[i], vals(b@)[i]),
    );
    let mut acc = Fr::zero();
    let mut i: usize = 0;
    while i < n
        invariant
            n == prods.len(),
            n <= a.len(),
            n <= b.len(),
            i <= n,
            acc@ == fsum(prods.take(i as int)),
            forall|j: int| 0 <= j < n ==> #[trigger] prods[j] == fmul(a[j]@, b[j]@),
        decreases n - i,
    {
        proof {
            lemma_fsum_take(prods, i as int);
        }
        acc = acc.add(&a[i].mul(&b[i]));
        i += 1;
    }
    proof {
        assert(prods.take(n as int) =~= prods);
    }
    acc
}

/// The canonical inverse of a value returned by `invert`, and of zero.
pub proof fn lemma_finv_zero()
    ensures
        finv(0) == 0,
{
    assert forall|b: int| 0 <= b < p() implies !#[trigger] is_inverse(0, b) by {
        assert(0 * b == 0);
    }
}

/// The inverse of one element, zero for zero.
pub fn invert_or_zero(x: &Fr) -> (r: Fr)
    ensures
        r@ == finv(x@),
{
    match x.invert() {
        Some(y) => {
            y.lemma_canonical();
            proof {
                lemma_inverse_unique(x@, y@);
            }
            y
        },
        None => {
            proof {
                lemma_finv_zero();
            }
            Fr::zero()
        },
    }
}

/// Replaces each element by its inverse, leaving zeros unchanged.
pub fn batch_invert(v: &mut Vec<Fr>)
    ensures
        final(v).len() == old(v).len(),
        forall|i: int| 0 <= i < old(v).len() ==> #[trigger] final(v)[i]@ == finv(old(v)[i]@),
{
    let n = v.len();
    let mut i: usize = 0;
    while i < n
        invariant
            n == v.len(),
            n == old(v).len(),
            i <= n,
            forall|j: int| 0 <= j < i ==> #[trigger] v[j]@ == finv(old(v)[j]@),
            forall|j: int| i <= j < n ==> #[trigger] v[j] == old(v)[j],
        decreases n - i,
    {
        let y = invert_or_zero(&v[i]);
        v.set(i, y);
        i += 1;
    }
}

} // verus!
