//! Conversions between field elements, big integers and encoded points.
//!
//! A big integer is held as its little-endian bytes; the arithmetic is done
//! by `num_bigint`.

use crate::curve::G1;
use crate::field::{
    le_value, lemma_le_value_padded, lemma_le_value_split, lemma_p_below_pow256, p, pow256, vals, Fr,
};
use halo2curves::group::GroupEncoding;
use halo2curves::ff::PrimeField;
use halo2curves::CurveAffine;
use num_bigint::BigUint;
use vstd::prelude::*;

verus! {

/// The affine coordinates of the point with the given encoding, each as its
/// canonical little-endian bytes (`(0, 0)` for the point at infinity).
pub uninterp spec fn g1_coordinates_of(bytes: Seq<u8>) -> Option<(Seq<u8>, Seq<u8>)>;

/// A non-negative integer, held as little-endian bytes.
#[derive(Clone, Debug)]
pub struct BigNat {
    bytes: Vec<u8>,
}

impl View for BigNat {
    type V = nat;

    closed spec fn view(&self) -> nat {
        le_value(self.bytes@)
    }
}

impl BigNat {
    /// The integer of the given little-endian bytes.
    pub fn from_bytes_le(bytes: &[u8]) -> (r: BigNat)
        ensures
            r@ == le_value(bytes@),
    {
        let mut v: Vec<u8> = Vec::new();
        let mut i: usize = 0;
        while i < bytes.len()
            invariant
                i <= bytes.len(),
                v@ == bytes@.take(i as int),
            decreases bytes.len() - i,
        {
            v.push(bytes[i]);
            proof {
                assert(bytes@.take(i + 1) =~= bytes@.take(i as int).push(bytes@[i as int]));
            }
            i += 1;
        }
        proof {
            assert(bytes@.take(i as int) =~= bytes@);
        }
        BigNat { bytes: v }
    }

    /// Little-endian bytes of the integer.
    pub fn to_bytes_le(&self) -> (r: Vec<u8>)
        ensures
            le_value(r@) == self@,
    {
        self.bytes.clone()
    }

    /// A small integer (`From<u64>` of `num_bigint`).
    #[verifier::external_body]
    fn from_u64_num_bigint(n: u64) -> (r: BigNat)
        ensures
            r@ == n,
    {
        BigNat { bytes: BigUint::from(n).to_bytes_le() }
    }

    /// The integer of a small number.
    pub fn from_u64(n: u64) -> (r: BigNat)
        ensures
            r@ == n,
    {
        Self::from_u64_num_bigint(n)
    }

    /// The sum (`Add` of `num_bigint`).
    #[verifier::external_body]
    fn add_num_bigint(&self, rhs: &BigNat) -> (r: BigNat)
        ensures
            r@ == self@ + rhs@,
    {
        BigNat { bytes: (BigUint::from_bytes_le(&self.bytes) + BigUint::from_bytes_le(&rhs.bytes)).to_bytes_le() }
    }

    /// The sum.
    pub fn add(&self, rhs: &BigNat) -> (r: BigNat)
        ensures
            r@ == self@ + rhs@,
    {
        self.add_num_bigint(rhs)
    }

    /// The product (`Mul` of `num_bigint`).
    #[verifier::external_body]
    fn mul_num_bigint(&self, rhs: &BigNat) -> (r: BigNat)
        ensures
            r@ == self@ * rhs@,
    {
        BigNat { bytes: (BigUint::from_bytes_le(&self.bytes) * BigUint::from_bytes_le(&rhs.bytes)).to_bytes_le() }
    }

    /// The product.
    pub fn mul(&self, rhs: &BigNat) -> (r: BigNat)
        ensures
            r@ == self@ * rhs@,
    {
        self.mul_num_bigint(rhs)
    }

    /// The quotient, rounded down (`Div` of `num_bigint`).
    #[verifier::external_body]
    fn div_num_bigint(&self, rhs: &BigNat) -> (r: BigNat)
        requires
            rhs@ > 0,
        ensures
            r@ == self@ / rhs@,
    {
        BigNat { bytes: (BigUint::from_bytes_le(&self.bytes) / BigUint::from_bytes_le(&rhs.bytes)).to_bytes_le() }
    }

    /// The quotient, rounded down.
    pub fn div(&self, rhs: &BigNat) -> (r: BigNat)
        requires
            rhs@ > 0,
        ensures
            r@ == self@ / rhs@,
    {
        self.div_num_bigint(rhs)
    }

    /// The remainder (`Rem` of `num_bigint`).
    #[verifier::external_body]
    fn rem_num_bigint(&self, rhs: &BigNat) -> (r: BigNat)
        requires
            rhs@ > 0,
        ensures
            r@ == self@ % rhs@,
    {
        BigNat { bytes: (BigUint::from_bytes_le(&self.bytes) % BigUint::from_bytes_le(&rhs.bytes)).to_bytes_le() }
    }

    /// The remainder.
    pub fn rem(&self, rhs: &BigNat) -> (r: BigNat)
        requires
            rhs@ > 0,
        ensures
            r@ == self@ % rhs@,
    {
        self.rem_num_bigint(rhs)
    }

    /// The integer shifted left by `n` bits (`Shl` of `num_bigint`).
    #[verifier::external_body]
    fn shl_num_bigint(&self, n: usize) -> (r: BigNat)
        ensures
            r@ == self@ * crate::field::pow2(n as nat),
    {
        BigNat { bytes: (BigUint::from_bytes_le(&self.bytes) << n).to_bytes_le() }
    }

    /// The integer times `2^n`.
    pub fn shl(&self, n: usize) -> (r: BigNat)
        ensures
            r@ == self@ * crate::field::pow2(n as nat),
    {
        self.shl_num_bigint(n)
    }
}

/// The affine coordinates of a point (`CurveAffine::coordinates` of
/// `halo2curves`), each as canonical little-endian bytes. Every point that
/// decodes lies on the curve, so they are always there; those of the point
/// at infinity are `(0, 0)`.
#[verifier::external_body]
fn g1_coordinates(g: &G1) -> (r: Option<([u8; 32], [u8; 32])>)
    ensures
        r is Some,
        match r {
            Some((x, y)) => g1_coordinates_of(g@) == Some((x@, y@)) && (g@ == crate::curve::g1_identity_bytes()
                ==> le_value(x@) == 0 && le_value(y@) == 0),
            None => g1_coordinates_of(g@) is None,
        },
{
    let a = halo2curves::bn256::G1Affine::from_bytes(&g.to_bytes().into()).unwrap();
    let c: Option<_> = a.coordinates().map(|c| (c.x().to_repr().into(), c.y().to_repr().into())).into();
    c
}

/// The integer of a field element.
pub fn field_to_bn(f: &Fr) -> (r: BigNat)
    ensures
        r@ == f@,
{
    let b = f.to_bytes();
    BigNat::from_bytes_le(&b)
}

/// The field element of an integer: the integer modulo the field order.
pub fn bn_to_field(bn: &BigNat) -> (r: Fr)
    ensures
        r@ == (bn@ as int) % p(),
{
    let minus_one = Fr::one().neg();
    let modulus = field_to_bn(&minus_one).add(&BigNat::from_u64(1));
    proof {
        assert(minus_one@ == p() - 1) by {
            vstd::arithmetic::div_mod::lemma_mod_add_multiples_vanish(-1, p());
            vstd::arithmetic::div_mod::lemma_small_mod((p() - 1) as nat, p() as nat);
        }
    }
    let reduced = bn.rem(&modulus);
    let bytes = reduced.to_bytes_le();
    let mut repr = [0u8; 32];
    let mut i: usize = 0;
    while i < 32 && i < bytes.len()
        invariant
            i <= 32,
            i <= bytes.len(),
            forall|j: int| 0 <= j < i ==> #[trigger] repr@[j] == bytes@[j],
            forall|j: int| i <= j < 32 ==> #[trigger] repr@[j] == 0,
        decreases 32 - i,
    {
        repr[i] = bytes[i];
        i += 1;
    }
    proof {
        let k = i as nat;
        assert(reduced@ < p()) by {
            vstd::arithmetic::div_mod::lemma_mod_bound(bn@ as int, p());
        }
        lemma_p_below_pow256();
        if bytes@.len() > 32 {
            lemma_le_value_split(bytes@, 32);
            if le_value(bytes@.skip(32)) > 0 {
                vstd::arithmetic::mul::lemma_mul_increases(le_value(bytes@.skip(32)) as int, pow256(32) as int);
            }
        } else {
            assert(bytes@.take(bytes@.len() as int) =~= bytes@);
        }
        assert(k == if bytes@.len() > 32 { 32 } else { bytes@.len() });
        lemma_le_value_padded(repr@, bytes@.take(k as int), k);
        assert(le_value(repr@) == reduced@);
    }
    Fr::from_bytes(&repr).unwrap()
}

/// The coordinates of an encoded point as integers, zero for the point at
/// infinity.
pub open spec fn coordinate_values(g: Seq<u8>) -> (nat, nat) {
    match g1_coordinates_of(g) {
        Some((x, y)) => (le_value(x), le_value(y)),
        None => (0, 0),
    }
}

/// The three limbs of the coordinates `x` and `y` of a point, cut at
/// 108-bit boundaries: `x mod 2^216`, `x / 2^216 + (y mod 2^108) * 2^108`,
/// `y / 2^108`, each reduced into the field.
pub open spec fn encode_point_of(g: Seq<u8>) -> Seq<int> {
    let (x, y) = coordinate_values(g);
    let s = crate::field::pow2(108);
    seq![
        ((x % (s * s)) as int) % p(),
        ((x / (s * s) + (y % s) * s) as int) % p(),
        ((y / s) as int) % p(),
    ]
}

/// `256^k = 2^(8k)`.
proof fn lemma_pow256_pow2(k: nat)
    ensures
        pow256(k) == crate::field::pow2(8 * k),
    decreases k,
{
    if k > 0 {
        lemma_pow256_pow2((k - 1) as nat);
        crate::vanishing::lemma_pow2_add((8 * (k - 1)) as nat, 8);
        assert(crate::field::pow2(8) == 256) by {
            reveal_with_fuel(crate::field::pow2, 9);
        }
        assert((8 * (k - 1) + 8) as nat == 8 * k);
    }
}

/// The three limbs of a point determine its coordinates: with `x` and `y`
/// its coordinates (canonical 32-byte values), the limbs are below the
/// field order, so no reduction touches them, and
/// `x == l0 + (l1 mod 2^108) * 2^216`, `y == l1 / 2^108 + l2 * 2^108`
/// with `l0` and `l1` below `2^216`: the limbs hold the low 216 bits of `x`, then the high bits of `x` with
/// the low 108 bits of `y`, then the high bits of `y`.
pub proof fn lemma_encode_point_recomposes(g: Seq<u8>)
    requires
        g1_coordinates_of(g) matches Some((x, y)) && x.len() == 32 && y.len() == 32,
    ensures
        ({
            let (x, y) = coordinate_values(g);
            let l = encode_point_of(g);
            let s = crate::field::pow2(108) as int;
            &&& 0 <= l[0] < s * s && 0 <= l[1] < s * s && 0 <= l[2]
            &&& x == l[0] + (l[1] % s) * (s * s)
            &&& y == l[1] / s + l[2] * s
        }),
{
    let (xb, yb) = g1_coordinates_of(g).unwrap();
    let (x, y) = coordinate_values(g);
    let s = crate::field::pow2(108);
    let s2 = crate::field::pow2(216);
    let big = crate::field::pow2(256);
    crate::field::lemma_le_value_bound(xb);
    crate::field::lemma_le_value_bound(yb);
    lemma_pow256_pow2(32);
    crate::vanishing::lemma_pow2_add(108, 108);
    crate::vanishing::lemma_pow2_add(216, 40);
    crate::vanishing::lemma_pow2_add(108, 216);
    crate::field::lemma_pow2_mono(40, 108);
    crate::field::lemma_pow2_mono(256, 324);
    crate::field::lemma_pow2_pos(108);
    crate::field::lemma_pow2_pos(40);
    crate::field::lemma_pow2_pos(216);
    assert(s2 < p()) by {
        lemma_pow256_pow2(27);
        reveal_with_fuel(pow256, 28);
    }
    assert(x < s2 * crate::field::pow2(40));
    assert(y < s * s2);
    let a = x % s2;
    let b0 = x / s2;
    let ys = y % s;
    let c = y / s;
    vstd::arithmetic::div_mod::lemma_multiply_divide_lt(x as int, s2 as int, crate::field::pow2(40) as int);
    vstd::arithmetic::div_mod::lemma_multiply_divide_lt(y as int, s as int, s2 as int);
    vstd::arithmetic::div_mod::lemma_mod_bound(x as int, s2 as int);
    vstd::arithmetic::div_mod::lemma_mod_bound(y as int, s as int);
    vstd::arithmetic::div_mod::lemma_fundamental_div_mod(x as int, s2 as int);
    vstd::arithmetic::div_mod::lemma_fundamental_div_mod(y as int, s as int);
    let b = b0 + ys * s;
    assert(ys * s <= (s - 1) * s) by (nonlinear_arith)
        requires
            ys < s,
            0 <= ys,
    ;
    assert(b < s * s) by (nonlinear_arith)
        requires
            b == b0 + ys * s,
            ys * s <= (s - 1) * s,
            b0 < s,
    ;
    vstd::arithmetic::div_mod::lemma_fundamental_div_mod_converse_mod(b as int, s as int, ys as int, b0 as int);
    vstd::arithmetic::div_mod::lemma_fundamental_div_mod_converse_div(b as int, s as int, ys as int, b0 as int);
    vstd::arithmetic::div_mod::lemma_small_mod(a as nat, p() as nat);
    vstd::arithmetic::div_mod::lemma_small_mod(b as nat, p() as nat);
    vstd::arithmetic::div_mod::lemma_small_mod(c as nat, p() as nat);
    let l = encode_point_of(g);
    assert(l[0] == a);
    assert(l[1] == b);
    assert(l[2] == c);
    assert(x == a + b0 * s2) by (nonlinear_arith)
        requires
            x == s2 * b0 + a,
    ;
    assert(y == ys + c * s) by (nonlinear_arith)
        requires
            y == s * c + ys,
    ;
}

/// Encodes a point as three field elements.
pub fn encode_point(point: &G1) -> (r: Vec<Fr>)
    ensures
        vals(r@) == encode_point_of(point@),
        point@ == crate::curve::g1_identity_bytes() ==> vals(r@) == seq![0int, 0, 0],
        r@.len() == 3,
        ({
            let (x, y) = coordinate_values(point@);
            let s = crate::field::pow2(108) as int;
            &&& 0 <= r@[0]@ < s * s && 0 <= r@[1]@ < s * s
            &&& x == r@[0]@ + (r@[1]@ % s) * (s * s)
            &&& y == r@[1]@ / s + r@[2]@ * s
        }),
{
    let (x, y) = match g1_coordinates(point) {
        Some((x, y)) => (BigNat::from_bytes_le(&x), BigNat::from_bytes_le(&y)),
        None => (BigNat::from_u64(0), BigNat::from_u64(0)),
    };
    let shift = BigNat::from_u64(1).shl(108);
    let shift2 = shift.mul(&shift);
    proof {
        crate::field::lemma_pow2_pos(108);
        vstd::arithmetic::mul::lemma_mul_strictly_positive(shift@ as int, shift@ as int);
    }
    let a = x.rem(&shift2);
    let b = x.div(&shift2).add(&y.rem(&shift).mul(&shift));
    let c = y.div(&shift);
    let mut r: Vec<Fr> = Vec::new();
    r.push(bn_to_field(&a));
    r.push(bn_to_field(&b));
    r.push(bn_to_field(&c));
    proof {
        assert(vals(r@) =~= encode_point_of(point@));
        lemma_encode_point_recomposes(point@);
        if point@ == crate::curve::g1_identity_bytes() {
            let s = crate::field::pow2(108);
            assert(coordinate_values(point@) == (0nat, 0nat));
            vstd::arithmetic::div_mod::lemma_small_mod(0, s * s);
            vstd::arithmetic::div_mod::lemma_small_mod(0, s);
            vstd::arithmetic::div_mod::lemma_div_of0((s * s) as int);
            vstd::arithmetic::div_mod::lemma_div_of0(s as int);
            lemma_p_below_pow256();
            vstd::arithmetic::div_mod::lemma_small_mod(0, p() as nat);
            assert(encode_point_of(point@) =~= seq![0int, 0, 0]);
        }
    }
    r
}

/// Converting a field element to an integer and back gives it back: the
/// integer's value is the element's, which the reduction leaves unchanged,
/// and an element is determined by its value. Here `back` is what
/// `bn_to_field` gives for the integer that `field_to_bn` gives for `f`.
pub proof fn lemma_field_bn_round_trip(f: Fr, back: Fr)
    requires
        f@ < p(),
        back@ == (f@ as int) % p(),
    ensures
        back == f,
{
    crate::field::lemma_fr_view_nonneg(f);
    vstd::arithmetic::div_mod::lemma_small_mod(f@ as nat, p() as nat);
    crate::field::lemma_fr_view_injective(back, f);
}

} // verus!
