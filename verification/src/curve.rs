//! Points of the BN254 groups `G1` and `G2` and the pairing check.
//!
//! A point is held as its compressed encoding; the group operations are done
//! by `halo2curves`.

use crate::codec::le_bytes;
use crate::field::{p, pow256, vals, Fr};
use halo2curves::bn256::{G1Affine, G2Affine};
use halo2curves::ff::PrimeField;
use halo2curves::group::prime::PrimeCurveAffine;
use halo2curves::group::{Curve, Group, GroupEncoding};
use halo2curves::pairing::MillerLoopResult;
use vstd::prelude::*;

verus! {

/// Whether a byte string is the compressed encoding of a point of `G1`.
pub uninterp spec fn g1_decodes(bytes: Seq<u8>) -> bool;

/// Whether a byte string is the compressed encoding of a point of `G2`.
pub uninterp spec fn g2_decodes(bytes: Seq<u8>) -> bool;

/// The encoding of the multi-scalar multiplication `sum scalars[i] * bases[i]`
/// in `G1`, from the encodings of the bases.
pub uninterp spec fn g1_msm_of(scalars: Seq<int>, bases: Seq<Seq<u8>>) -> Seq<u8>;

/// The encoding of the multi-scalar multiplication `sum scalars[i] * bases[i]`
/// in `G2`, from the encodings of the bases.
pub uninterp spec fn g2_msm_of(scalars: Seq<int>, bases: Seq<Seq<u8>>) -> Seq<u8>;

/// Whether the product of the pairings of the encoded pairs is the identity.
pub uninterp spec fn pairing_product_is_identity_of(terms: Seq<(Seq<u8>, Seq<u8>)>) -> bool;

/// The sum of the products of the entries of two sequences of equal
/// length, over the integers.
pub open spec fn dot(a: Seq<int>, b: Seq<int>) -> int
    decreases a.len(),
{
    if a.len() == 0 || b.len() == 0 {
        0
    } else {
        dot(a.drop_last(), b.drop_last()) + a.last() * b.last()
    }
}

/// The encoding of `a * G1`, `G1` the generator, `a` taken modulo the
/// group order.
pub open spec fn g1_mul(a: int) -> Seq<u8> {
    g1_msm_of(seq![a % p()], seq![g1_generator_bytes()])
}

/// The encoding of `a * G2`, `G2` the generator, `a` taken modulo the
/// group order.
pub open spec fn g2_mul(a: int) -> Seq<u8> {
    g2_msm_of(seq![a % p()], seq![g2_generator_bytes()])
}

/// The encodings of the multiples `a[i] * G1`.
pub open spec fn g1_muls(a: Seq<int>) -> Seq<Seq<u8>> {
    Seq::new(a.len(), |i: int| g1_mul(a[i]))
}

/// The encodings of the multiples `a[i] * G2`.
pub open spec fn g2_muls(a: Seq<int>) -> Seq<Seq<u8>> {
    Seq::new(a.len(), |i: int| g2_mul(a[i]))
}

/// The pairs `(a[i] * G1, b[i] * G2)`.
pub open spec fn mul_pairs(a: Seq<int>, b: Seq<int>) -> Seq<(Seq<u8>, Seq<u8>)> {
    Seq::new(a.len(), |i: int| (g1_mul(a[i]), g2_mul(b[i])))
}

/// A point of `G1`, held as its compressed encoding.
#[derive(Clone, Copy, Debug, PartialEq, Eq)]
pub struct G1 {
    bytes: [u8; 32],
}

/// A point of `G2`, held as its compressed encoding.
#[derive(Clone, Copy, Debug, PartialEq, Eq)]
pub struct G2 {
    bytes: [u8; 64],
}

impl View for G1 {
    type V = Seq<u8>;

    closed spec fn view(&self) -> Seq<u8> {
        self.bytes@
    }
}

impl View for G2 {
    type V = Seq<u8>;

    closed spec fn view(&self) -> Seq<u8> {
        self.bytes@
    }
}

/// The integer of four 64-bit limbs, least significant first.
pub open spec fn limbs_value(l0: u64, l1: u64, l2: u64, l3: u64) -> nat {
    (l0 + l1 * pow256(8) + l2 * pow256(16) + l3 * pow256(24)) as nat
}

/// The compressed encoding of the generator `(1, 2)` of `G1`: the
/// x-coordinate `1` in 32 little-endian bytes, with no flag set.
pub open spec fn g1_generator_bytes() -> Seq<u8> {
    le_bytes(1, 32)
}

/// The compressed encoding of the generator of `G2`: the two coefficients
/// of its x-coordinate, each in 32 little-endian bytes, with no flag set.
pub open spec fn g2_generator_bytes() -> Seq<u8> {
    le_bytes(limbs_value(0x46debd5cd992f6ed, 0x674322d4f75edadd, 0x426a00665e5c4479, 0x1800deef121f1e76), 32)
        + le_bytes(limbs_value(0x97e485b7aef312c2, 0xf1aa493335a9e712, 0x7260bfb731fb5d25, 0x198e9393920d483a), 32)
}

/// The compressed encoding of the identity of `G1`: 31 zero bytes, then
/// the identity flag.
pub open spec fn g1_identity_bytes() -> Seq<u8> {
    Seq::new(32, |i: int| if i == 31 { 0x40u8 } else { 0u8 })
}

/// The encodings of a sequence of points of `G1`.
pub open spec fn g1_views(s: Seq<G1>) -> Seq<Seq<u8>> {
    s.map_values(|g: G1| g@)
}

/// The encodings of a sequence of points of `G2`.
pub open spec fn g2_views(s: Seq<G2>) -> Seq<Seq<u8>> {
    s.map_values(|g: G2| g@)
}

/// The encodings of a sequence of pairs of points.
pub open spec fn pair_views(s: Seq<(G1, G2)>) -> Seq<(Seq<u8>, Seq<u8>)> {
    s.map_values(|t: (G1, G2)| (t.0@, t.1@))
}

/// The encoding of a point of `G1` has 32 bytes.
pub proof fn lemma_g1_view_len(a: G1)
    ensures
        a@.len() == 32,
{
}

/// A point of `G1` is determined by its encoding.
pub proof fn lemma_g1_view_injective(a: G1, b: G1)
    requires
        a@ == b@,
    ensures
        a == b,
{
    assert(a.bytes =~= b.bytes);
}

impl G1 {
    #[verifier::type_invariant]
    closed spec fn encodes_point(self) -> bool {
        g1_decodes(self.bytes@)
    }

    /// The encoding is that of a point.
    pub fn lemma_decodes(&self)
        ensures
            g1_decodes(self@),
            self@.len() == 32,
    {
        proof {
            use_type_invariant(self);
        }
    }

    /// The generator of `G1` (`PrimeCurveAffine::generator` of `halo2curves`):
    /// the point `(1, 2)`, whose compressed encoding is `g1_generator_bytes`
    /// (the sign flag is clear, `2` being even).
    #[verifier::external_body]
    fn generator_halo2curves() -> (r: G1)
        ensures
            g1_decodes(r@),
            r@ == g1_generator_bytes(),
    {
        G1 { bytes: G1Affine::generator().to_bytes().into() }
    }

    /// The generator of `G1`.
    pub fn generator() -> (r: G1)
        ensures
            g1_decodes(r@),
            r@ == g1_generator_bytes(),
    {
        Self::generator_halo2curves()
    }

    /// The identity of `G1`, its default point (`Default` of `G1Affine` of
    /// `halo2curves`): a point whose compressed encoding is the zero
    /// x-coordinate with the identity flag, bit 6 of the last byte, set.
    #[verifier::external_body]
    fn identity_halo2curves() -> (r: G1)
        ensures
            g1_decodes(r@),
            r@ == g1_identity_bytes(),
    {
        G1 { bytes: G1Affine::default().to_bytes().into() }
    }

    /// The identity of `G1`.
    pub fn identity() -> (r: G1)
        ensures
            g1_decodes(r@),
            r@ == g1_identity_bytes(),
    {
        Self::identity_halo2curves()
    }

    /// The compressed encoding of this point.
    pub fn to_bytes(&self) -> (r: [u8; 32])
        ensures
            r@ == self@,
    {
        self.bytes
    }

    /// Decodes a compressed point (`GroupEncoding::from_bytes` of
    /// `halo2curves`): `None` exactly when the bytes encode no point.
    #[verifier::external_body]
    fn from_bytes_halo2curves(bytes: &[u8; 32]) -> (r: Option<G1>)
        ensures
            r is Some <==> g1_decodes(bytes@),
            r matches Some(g) ==> g@ == bytes@,
    {
        let p = G1Affine::from_bytes(&(*bytes).into());
        Option::<G1Affine>::from(p).map(|_| G1 { bytes: *bytes })
    }

    /// The point of a compressed encoding: none when the bytes encode no point.
    pub fn from_bytes(bytes: &[u8; 32]) -> (r: Option<G1>)
        ensures
            r is Some <==> g1_decodes(bytes@),
            r matches Some(g) ==> g@ == bytes@,
    {
        Self::from_bytes_halo2curves(bytes)
    }
}

impl G2 {
    #[verifier::type_invariant]
    closed spec fn encodes_point(self) -> bool {
        g2_decodes(self.bytes@)
    }

    /// The encoding is that of a point.
    pub fn lemma_decodes(&self)
        ensures
            g2_decodes(self@),
            self@.len() == 64,
    {
        proof {
            use_type_invariant(self);
        }
    }

    /// The generator of `G2` (`PrimeCurveAffine::generator` of `halo2curves`),
    /// whose compressed encoding is `g2_generator_bytes` (the sign flag is
    /// clear, the low byte of its y-coordinate being even).
    #[verifier::external_body]
    fn generator_halo2curves() -> (r: G2)
        ensures
            g2_decodes(r@),
            r@ == g2_generator_bytes(),
    {
        G2 { bytes: G2Affine::generator().to_bytes().into() }
    }

    /// The generator of `G2`.
    pub fn generator() -> (r: G2)
        ensures
            g2_decodes(r@),
            r@ == g2_generator_bytes(),
    {
        Self::generator_halo2curves()
    }

    /// The compressed encoding of this point.
    pub fn to_bytes(&self) -> (r: [u8; 64])
        ensures
            r@ == self@,
    {
        self.bytes
    }

    /// Decodes a compressed point (`GroupEncoding::from_bytes` of
    /// `halo2curves`): `None` exactly when the bytes encode no point.
    #[verifier::external_body]
    fn from_bytes_halo2curves(bytes: &[u8; 64]) -> (r: Option<G2>)
        ensures
            r is Some <==> g2_decodes(bytes@),
            r matches Some(g) ==> g@ == bytes@,
    {
        let p = G2Affine::from_bytes(&(*bytes).into());
        Option::<G2Affine>::from(p).map(|_| G2 { bytes: *bytes })
    }

    /// The point of a compressed encoding: none when the bytes encode no point.
    pub fn from_bytes(bytes: &[u8; 64]) -> (r: Option<G2>)
        ensures
            r is Some <==> g2_decodes(bytes@),
            r matches Some(g) ==> g@ == bytes@,
    {
        Self::from_bytes_halo2curves(bytes)
    }
}

/// `sum scalars[i] * bases[i]` in `G1` (`msm::msm_best` of `halo2curves`).
/// `G1` has prime order `p`, so where the bases are `a[i] * G1` the sum is
/// `G1` times `sum scalars[i] * a[i]` taken modulo `p`.
#[verifier::external_body]
pub(crate) fn g1_msm(scalars: &[Fr], bases: &[G1]) -> (r: G1)
    requires
        scalars@.len() == bases@.len(),
    ensures
        r@ == g1_msm_of(vals(scalars@), g1_views(bases@)),
        forall|a: Seq<int>| #[trigger] g1_muls(a) == g1_views(bases@) ==> r@ == g1_mul(dot(vals(scalars@), a)),
        g1_decodes(r@),
{
    let s: Vec<_> = scalars.iter().map(|x| halo2curves::bn256::Fr::from_repr(x.to_bytes().into()).unwrap()).collect();
    let b: Vec<_> = bases.iter().map(|g| G1Affine::from_bytes(&g.bytes.into()).unwrap()).collect();
    G1 { bytes: halo2curves::msm::msm_best(&s, &b).to_affine().to_bytes().into() }
}

/// `sum scalars[i] * bases[i]` in `G2` (`msm::msm_best` of `halo2curves`).
/// `G2` has prime order `p`, so where the bases are `a[i] * G2` the sum is
/// `G2` times `sum scalars[i] * a[i]` taken modulo `p`.
#[verifier::external_body]
pub(crate) fn g2_msm(scalars: &[Fr], bases: &[G2]) -> (r: G2)
    requires
        scalars@.len() == bases@.len(),
    ensures
        r@ == g2_msm_of(vals(scalars@), g2_views(bases@)),
        forall|a: Seq<int>| #[trigger] g2_muls(a) == g2_views(bases@) ==> r@ == g2_mul(dot(vals(scalars@), a)),
        g2_decodes(r@),
{
    let s: Vec<_> = scalars.iter().map(|x| halo2curves::bn256::Fr::from_repr(x.to_bytes().into()).unwrap()).collect();
    let b: Vec<_> = bases.iter().map(|g| G2Affine::from_bytes(&g.bytes.into()).unwrap()).collect();
    G2 { bytes: halo2curves::msm::msm_best(&s, &b).to_affine().to_bytes().into() }
}

/// Whether `prod e(terms[i].0, terms[i].1)` is the identity of the target
/// group (`bn256::multi_miller_loop` followed by the final exponentiation, of
/// `halo2curves`). The pairing is bilinear, so for the pairs
/// `(a[i] * G1, b[i] * G2)` the product is `e(G1, G2)` to the power
/// `sum a[i] * b[i]`: the identity where that sum is a multiple of `p`.
#[verifier::external_body]
pub(crate) fn pairing_product_is_identity(terms: &[(G1, G2)]) -> (r: bool)
    ensures
        r == pairing_product_is_identity_of(pair_views(terms@)),
        forall|a: Seq<int>, b: Seq<int>| #[trigger] mul_pairs(a, b) == pair_views(terms@) && a.len() == b.len()
            && dot(a, b) % p() == 0 ==> r,
{
    let ps: Vec<(G1Affine, G2Affine)> = terms.iter().map(|(a, b)| (G1Affine::from_bytes(&a.bytes.into()).unwrap(), G2Affine::from_bytes(&b.bytes.into()).unwrap())).collect();
    let refs: Vec<(&G1Affine, &G2Affine)> = ps.iter().map(|(a, b)| (a, b)).collect();
    bool::from(halo2curves::bn256::multi_miller_loop(&refs).final_exponentiation().is_identity())
}

} // verus!
