//! Coefficient vectors of univariate polynomials: sums, differences, scaling
//! and multiplication by a power of `X`.
//!
//! A sum or a difference is as long as the longer operand; past the end of
//! the shorter one, the longer one's coefficients (negated, for the
//! subtrahend) are taken as they are.

use crate::field::{fadd, fmul, fneg, fsub, vals, Fr};
use vstd::prelude::*;

verus! {

/// The sum of two coefficient vectors.
pub open spec fn uadd(a: Seq<int>, b: Seq<int>) -> Seq<int> {
    Seq::new(
        if a.len() >= b.len() { a.len() } else { b.len() },
        |i: int|
            if i < a.len() && i < b.len() {
                fadd(a[i], b[i])
            } else if i < a.len() {
                a[i]
            } else {
                b[i]
            },
    )
}

/// The difference of two coefficient vectors.
pub open spec fn usub(a: Seq<int>, b: Seq<int>) -> Seq<int> {
    Seq::new(
        if a.len() >= b.len() { a.len() } else { b.len() },
        |i: int|
            if i < a.len() && i < b.len() {
                fsub(a[i], b[i])
            } else if i < a.len() {
                a[i]
            } else {
                fneg(b[i])
            },
    )
}

/// A coefficient vector times a scalar.
pub open spec fn uscale(a: Seq<int>, s: int) -> Seq<int> {
    Seq::new(a.len(), |i: int| fmul(a[i], s))
}

/// A coefficient vector times `X^k`: `k` zero coefficients first.
pub open spec fn ushift(a: Seq<int>, k: nat) -> Seq<int> {
    Seq::new(k + a.len(), |i: int| if i < k { 0 } else { a[i - k] })
}

/// The sum of two polynomials.
pub fn poly_add(a: &[Fr], b: &[Fr]) -> (r: Vec<Fr>)
    ensures
        vals(r@) == uadd(vals(a@), vals(b@)),
{
    let n = if a.len() >= b.len() { a.len() } else { b.len() };
    let mut r: Vec<Fr> = Vec::new();
    let mut i: usize = 0;
    while i < n
        invariant
            i <= n,
            n == if a@.len() >= b@.len() { a@.len() } else { b@.len() },
            r@.len() == i,
            forall|j: int| 0 <= j < i ==> #[trigger] r@[j]@ == uadd(vals(a@), vals(b@))[j],
        decreases n - i,
    {
        let c = if i < a.len() && i < b.len() {
            a[i].add(&b[i])
        } else if i < a.len() {
            a[i]
        } else {
            b[i]
        };
        r.push(c);
        i += 1;
    }
    proof {
        assert(vals(r@) =~= uadd(vals(a@), vals(b@)));
    }
    r
}

/// The difference of two polynomials.
pub fn poly_sub(a: &[Fr], b: &[Fr]) -> (r: Vec<Fr>)
    ensures
        vals(r@) == usub(vals(a@), vals(b@)),
{
    let n = if a.len() >= b.len() { a.len() } else { b.len() };
    let mut r: Vec<Fr> = Vec::new();
    let mut i: usize = 0;
    while i < n
        invariant
            i <= n,
            n == if a@.len() >= b@.len() { a@.len() } else { b@.len() },
            r@.len() == i,
            forall|j: int| 0 <= j < i ==> #[trigger] r@[j]@ == usub(vals(a@), vals(b@))[j],
        decreases n - i,
    {
        let c = if i < a.len() && i < b.len() {
            a[i].sub(&b[i])
        } else if i < a.len() {
            a[i]
        } else {
            b[i].neg()
        };
        r.push(c);
        i += 1;
    }
    proof {
        assert(vals(r@) =~= usub(vals(a@), vals(b@)));
    }
    r
}

/// A polynomial times a scalar.
pub fn poly_scale(a: &[Fr], s: &Fr) -> (r: Vec<Fr>)
    ensures
        vals(r@) == uscale(vals(a@), s@),
{
    let mut r: Vec<Fr> = Vec::new();
    let mut i: usize = 0;
    while i < a.len()
        invariant
            i <= a@.len(),
            r@.len() == i,
            forall|j: int| 0 <= j < i ==> #[trigger] r@[j]@ == fmul(a@[j]@, s@),
        decreases a@.len() - i,
    {
        r.push(a[i].mul(s));
        i += 1;
    }
    proof {
        assert(vals(r@) =~= uscale(vals(a@), s@));
    }
    r
}

/// A polynomial times `X^k`.
pub fn poly_shift(a: &[Fr], k: usize) -> (r: Vec<Fr>)
    requires
        k + a@.len() <= usize::MAX,
    ensures
        vals(r@) == ushift(vals(a@), k as nat),
{
    let mut r: Vec<Fr> = Vec::new();
    let mut i: usize = 0;
    while i < k
        invariant
            i <= k,
            r@.len() == i,
            forall|j: int| 0 <= j < i ==> #[trigger] r@[j]@ == 0,
        decreases k - i,
    {
        r.push(Fr::zero());
        i += 1;
    }
    let mut j: usize = 0;
    while j < a.len()
        invariant
            j <= a@.len(),
            k + a@.len() <= usize::MAX,
            r@.len() == k + j,
            forall|l: int| 0 <= l < k ==> #[trigger] r@[l]@ == 0,
            forall|l: int| k <= l < k + j ==> #[trigger] r@[l]@ == a@[l - k]@,
        decreases a@.len() - j,
    {
        r.push(a[j]);
        j += 1;
    }
    proof {
        assert(vals(r@) =~= ushift(vals(a@), k as nat));
    }
    r
}

} // verus!
