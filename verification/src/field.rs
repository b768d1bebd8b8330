//! The scalar field of BN254.
//!
//! A field element is held as its canonical little-endian byte encoding.
//! The arithmetic itself is done by `halo2curves`, whose `bn256::Fr` is the
//! same field; each call converts through the canonical encoding.

use halo2curves::ff::{Field, FromUniformBytes, PrimeField};
use vstd::arithmetic::div_mod::*;
use vstd::arithmetic::mul::*;
use vstd::prelude::*;

verus! {

/// The order of the scalar field of BN254.
pub open spec fn p() -> int {
    21888242871839275222246405745257275088548364400416034343698204186575808495617int
}

/// The little-endian value of a byte string.
pub open spec fn le_value(bytes: Seq<u8>) -> nat
    decreases bytes.len(),
{
    if bytes.len() == 0 {
        0
    } else {
        bytes[0] as nat + 256 * le_value(bytes.drop_first())
    }
}

/// Field addition.
pub open spec fn fadd(a: int, b: int) -> int {
    (a + b) % p()
}

/// Field subtraction.
pub open spec fn fsub(a: int, b: int) -> int {
    (a - b) % p()
}

/// Field negation.
pub open spec fn fneg(a: int) -> int {
    (-a) % p()
}

/// Field multiplication.
pub open spec fn fmul(a: int, b: int) -> int {
    (a * b) % p()
}

/// `b` is a multiplicative inverse of `a`.
pub open spec fn is_inverse(a: int, b: int) -> bool {
    fmul(a, b) == 1
}

/// The canonical inverse of `a` (zero has none; it is then mapped to zero).
pub open spec fn finv(a: int) -> int {
    if exists|b: int| 0 <= b < p() && #[trigger] is_inverse(a, b) {
        choose|b: int| 0 <= b < p() && #[trigger] is_inverse(a, b)
    } else {
        0
    }
}

/// `a` raised to the `n`-th power in the field.
pub open spec fn fpow(a: int, n: nat) -> int
    decreases n,
{
    if n == 0 {
        1
    } else {
        fmul(fpow(a, (n - 1) as nat), a)
    }
}

/// `2^n`.
pub open spec fn pow2(n: nat) -> nat
    decreases n,
{
    if n == 0 {
        1
    } else {
        2 * pow2((n - 1) as nat)
    }
}

/// The values of a sequence of field elements.
pub open spec fn vals(s: Seq<Fr>) -> Seq<int> {
    s.map_values(|x: Fr| x@)
}

/// The field sum of a sequence of values.
pub open spec fn fsum(s: Seq<int>) -> int
    decreases s.len(),
{
    if s.len() == 0 {
        0
    } else {
        fadd(fsum(s.drop_last()), s.last())
    }
}

/// The shorter of two lengths.
pub open spec fn min_len(a: nat, b: nat) -> nat {
    if a <= b {
        a
    } else {
        b
    }
}

/// The inner product of two sequences of values, over the shorter length.
pub open spec fn finner(a: Seq<int>, b: Seq<int>) -> int {
    fsum(Seq::new(min_len(a.len(), b.len()), |i: int| fmul(a[i], b[i])))
}

/// An element of the scalar field of BN254.
#[derive(Clone, Copy, Debug, PartialEq, Eq)]
pub struct Fr {
    bytes: [u8; 32],
}

impl View for Fr {
    type V = int;

    closed spec fn view(&self) -> int {
        le_value(self.bytes@) as int
    }
}

/// Values of field operations are canonical.
pub proof fn lemma_mod_range(a: int)
    ensures
        0 <= a % p() < p(),
{
    lemma_mod_bound(a, p());
}

/// The canonical inverse is an inverse where one exists, and it is the only one.
pub proof fn lemma_inverse_unique(a: int, b: int)
    requires
        0 <= b < p(),
        is_inverse(a, b),
    ensures
        finv(a) == b,
        is_inverse(a, finv(a)),
{
    let c = choose|c: int| 0 <= c < p() && #[trigger] is_inverse(a, c);
    // c == c * (a * b) == (c * a) * b == b  (mod p)
    lemma_mul_mod_noop_right(c, a * b, p());
    lemma_mul_is_associative(c, a, b);
    lemma_mul_is_commutative(c, a);
    lemma_mul_mod_noop_left(a * c, b, p());
    lemma_small_mod(c as nat, p() as nat);
    lemma_small_mod(b as nat, p() as nat);
}

/// A fact about powers of two.
pub proof fn lemma_pow2_pos(n: nat)
    ensures
        pow2(n) >= 1,
    decreases n,
{
    if n > 0 {
        lemma_pow2_pos((n - 1) as nat);
    }
}

/// `2^n` exceeds `n`.
pub proof fn lemma_pow2_gt(n: nat)
    ensures
        pow2(n) > n,
    decreases n,
{
    if n > 0 {
        lemma_pow2_gt((n - 1) as nat);
        lemma_pow2_pos((n - 1) as nat);
    }
}

/// `2^n` grows with `n`.
pub proof fn lemma_pow2_mono(a: nat, b: nat)
    requires
        a <= b,
    ensures
        pow2(a) <= pow2(b),
    decreases b,
{
    if a < b {
        lemma_pow2_mono(a, (b - 1) as nat);
    }
}

/// `2^n` grows strictly with `n`, so it determines `n`.
pub proof fn lemma_pow2_injective(a: nat, b: nat)
    requires
        pow2(a) == pow2(b),
    ensures
        a == b,
{
    if a < b {
        lemma_pow2_mono(a + 1, b);
        lemma_pow2_pos(a);
    } else if b < a {
        lemma_pow2_mono(b + 1, a);
        lemma_pow2_pos(b);
    }
}

/// A 64-byte string whose upper half is zero has the value of its lower half.
pub proof fn lemma_le_value_zero_tail(w: Seq<u8>, h: Seq<u8>)
    requires
        w.len() == 64,
        h.len() == 32,
        forall|j: int| 0 <= j < 32 ==> #[trigger] w[j] == h[j],
        forall|j: int| 32 <= j < 64 ==> #[trigger] w[j] == 0,
    ensures
        le_value(w) == le_value(h),
{
    lemma_le_value_padded(w, h, 32);
}

pub proof fn lemma_le_value_zeros(z: Seq<u8>)
    requires
        forall|j: int| 0 <= j < z.len() ==> #[trigger] z[j] == 0,
    ensures
        le_value(z) == 0,
    decreases z.len(),
{
    if z.len() > 0 {
        lemma_le_value_zeros(z.drop_first());
    }
}

pub proof fn lemma_le_value_padded(w: Seq<u8>, h: Seq<u8>, n: nat)
    requires
        h.len() == n,
        w.len() >= n,
        forall|j: int| 0 <= j < n ==> #[trigger] w[j] == h[j],
        forall|j: int| n <= j < w.len() ==> #[trigger] w[j] == 0,
    ensures
        le_value(w) == le_value(h),
    decreases n,
{
    if n == 0 {
        lemma_le_value_zeros(w);
    } else {
        lemma_le_value_padded(w.drop_first(), h.drop_first(), (n - 1) as nat);
    }
}

/// `256^k`.
pub open spec fn pow256(k: nat) -> nat
    decreases k,
{
    if k == 0 {
        1
    } else {
        256 * pow256((k - 1) as nat)
    }
}

/// A byte string splits into its first `k` bytes and the rest.
pub proof fn lemma_le_value_split(b: Seq<u8>, k: nat)
    requires
        k <= b.len(),
    ensures
        le_value(b) == le_value(b.take(k as int)) + pow256(k) * le_value(b.skip(k as int)),
    decreases k,
{
    if k == 0 {
        assert(b.take(0) =~= Seq::<u8>::empty());
        assert(b.skip(0) =~= b);
        assert(le_value(b.take(0)) == 0);
        assert(pow256(0) == 1);
        assert(le_value(b) == le_value(b.take(k as int)) + pow256(k) * le_value(b.skip(k as int)));
    } else {
        let b1 = b.drop_first();
        lemma_le_value_split(b1, (k - 1) as nat);
        assert(b.take(k as int).drop_first() =~= b1.take(k - 1));
        assert(b.take(k as int)[0] == b[0]);
        assert(b.skip(k as int) =~= b1.skip(k - 1));
        let a = le_value(b1.take(k - 1));
        let q = pow256((k - 1) as nat);
        let r = le_value(b1.skip(k - 1));
        lemma_mul_is_distributive_add(256, a as int, (q * r) as int);
        lemma_mul_is_associative(256, q as int, r as int);
        assert(le_value(b) == b[0] as nat + 256 * le_value(b1));
        assert(le_value(b1) == a + q * r);
        assert(le_value(b.take(k as int)) == b[0] as nat + 256 * a);
        assert(pow256(k) == 256 * q);
        assert(256 * (a + q * r) == 256 * a + (256 * q) * r);
        assert(le_value(b.skip(k as int)) == r);
        assert(le_value(b) == le_value(b.take(k as int)) + pow256(k) * le_value(b.skip(k as int)));
    }
}

/// `k` bytes hold less than `256^k`.
pub proof fn lemma_le_value_bound(b: Seq<u8>)
    ensures
        le_value(b) < pow256(b.len()),
    decreases b.len(),
{
    if b.len() > 0 {
        lemma_le_value_bound(b.drop_first());
    }
}

/// The field order is below `256^32`.
pub proof fn lemma_p_below_pow256()
    ensures
        p() < pow256(32),
{
    reveal_with_fuel(pow256, 33);
}

/// Multiplication is commutative.
pub proof fn lemma_fmul_comm(a: int, b: int)
    ensures
        fmul(a, b) == fmul(b, a),
{
    lemma_mul_is_commutative(a, b);
}

/// Multiplication is associative.
pub proof fn lemma_fmul_assoc(a: int, b: int, c: int)
    ensures
        fmul(fmul(a, b), c) == fmul(a, fmul(b, c)),
{
    lemma_mul_mod_noop_left(a * b, c, p());
    lemma_mul_mod_noop_right(a, b * c, p());
    lemma_mul_is_associative(a, b, c);
}

/// Reducing an argument first does not change a product.
pub proof fn lemma_fmul_mod_left(a: int, b: int)
    ensures
        fmul(a % p(), b) == fmul(a, b),
{
    lemma_mul_mod_noop_left(a, b, p());
}

/// Powers multiply by adding exponents.
pub proof fn lemma_fpow_add(a: int, m: nat, n: nat)
    ensures
        fmul(fpow(a, m), fpow(a, n)) == fpow(a, m + n),
    decreases n,
{
    if n == 0 {
        lemma_mod_range(fpow(a, m));
        if m > 0 {
            lemma_small_mod(fpow(a, m) as nat, p() as nat);
        } else {
            lemma_small_mod(1, p() as nat);
        }
    } else {
        lemma_fpow_add(a, m, (n - 1) as nat);
        lemma_fmul_assoc(fpow(a, m), fpow(a, (n - 1) as nat), a);
    }
}

/// The value of an element is not negative.
pub proof fn lemma_fr_view_nonneg(a: Fr)
    ensures
        a@ >= 0,
{
}

/// An element is determined by its value.
pub proof fn lemma_fr_view_injective(a: Fr, b: Fr)
    requires
        a@ == b@,
    ensures
        a == b,
{
    crate::transcript::lemma_le_value_injective(a.bytes@, b.bytes@);
    assert(a.bytes =~= b.bytes);
}

impl Fr {
    #[verifier::type_invariant]
    closed spec fn canonical(self) -> bool {
        le_value(self.bytes@) < p()
    }

    /// Every element is below the modulus.
    pub fn lemma_canonical(&self)
        ensures
            0 <= self@ < p(),
    {
        proof {
            use_type_invariant(self);
        }
    }

    /// The canonical little-endian encoding of this element.
    pub fn to_bytes(&self) -> (r: [u8; 32])
        ensures
            le_value(r@) == self@,
            0 <= self@ < p(),
    {
        proof {
            use_type_invariant(self);
        }
        self.bytes
    }

    /// Reads a canonical little-endian encoding (`PrimeField::from_repr` of
    /// `halo2curves`): `None` exactly when the value is not below the modulus.
    #[verifier::external_body]
    fn from_bytes_halo2curves(bytes: &[u8; 32]) -> (r: Option<Fr>)
        ensures
            r is Some <==> le_value(bytes@) < p(),
            r matches Some(x) ==> x@ == le_value(bytes@),
    {
        let x = halo2curves::bn256::Fr::from_repr((*bytes).into());
        Option::<halo2curves::bn256::Fr>::from(x).map(|x| Fr { bytes: x.to_repr().into() })
    }

    /// The element of a canonical little-endian encoding: none when the value is not below the modulus.
    pub fn from_bytes(bytes: &[u8; 32]) -> (r: Option<Fr>)
        ensures
            r is Some <==> le_value(bytes@) < p(),
            r matches Some(x) ==> x@ == le_value(bytes@),
    {
        Self::from_bytes_halo2curves(bytes)
    }

    /// The element congruent to a 64-byte little-endian value
    /// (`FromUniformBytes::from_uniform_bytes` of `halo2curves`).
    #[verifier::external_body]
    fn from_uniform_bytes_halo2curves(bytes: &[u8; 64]) -> (r: Fr)
        ensures
            r@ == (le_value(bytes@) as int) % p(),
    {
        let x = <halo2curves::bn256::Fr as FromUniformBytes<64>>::from_uniform_bytes(bytes);
        Fr { bytes: x.to_repr().into() }
    }

    /// The element congruent to a 64-byte little-endian value.
    pub fn from_uniform_bytes(bytes: &[u8; 64]) -> (r: Fr)
        ensures
            r@ == (le_value(bytes@) as int) % p(),
    {
        Self::from_uniform_bytes_halo2curves(bytes)
    }

    /// The element of a small integer (`From<u64>` of `halo2curves`).
    #[verifier::external_body]
    fn from_u64_halo2curves(n: u64) -> (r: Fr)
        ensures
            r@ == n,
    {
        Fr { bytes: halo2curves::bn256::Fr::from(n).to_repr().into() }
    }

    /// The element of a small integer.
    pub fn from_u64(n: u64) -> (r: Fr)
        ensures
            r@ == n,
    {
        Self::from_u64_halo2curves(n)
    }

    /// A uniformly random element (`Field::random` of `halo2curves` with the
    /// thread-local generator of `rand`); nothing is stated of its value.
    #[verifier::external_body]
    fn random_halo2curves() -> (r: Fr) {
        let x = halo2curves::bn256::Fr::random(rand::thread_rng());
        Fr { bytes: x.to_repr().into() }
    }

    /// A random element: any element of the field may come out, so no more
    /// is stated of its value than that it is canonical.
    pub fn random() -> (r: Fr)
        ensures
            0 <= r@ < p(),
    {
        let r = Self::random_halo2curves();
        proof {
            use_type_invariant(&r);
        }
        r
    }

    /// Zero.
    pub fn zero() -> (r: Fr)
        ensures
            r@ == 0,
    {
        Fr::from_u64(0)
    }

    /// One.
    pub fn one() -> (r: Fr)
        ensures
            r@ == 1,
    {
        Fr::from_u64(1)
    }

    /// Sum (`Add` of `halo2curves`).
    #[verifier::external_body]
    fn add_halo2curves(&self, rhs: &Fr) -> (r: Fr)
        ensures
            r@ == fadd(self@, rhs@),
    {
        let a = halo2curves::bn256::Fr::from_repr(self.bytes.into()).unwrap();
        let b = halo2curves::bn256::Fr::from_repr(rhs.bytes.into()).unwrap();
        Fr { bytes: (a + b).to_repr().into() }
    }

    /// The sum.
    pub fn add(&self, rhs: &Fr) -> (r: Fr)
        ensures
            r@ == fadd(self@, rhs@),
    {
        self.add_halo2curves(rhs)
    }

    /// Difference (`Sub` of `halo2curves`).
    #[verifier::external_body]
    fn sub_halo2curves(&self, rhs: &Fr) -> (r: Fr)
        ensures
            r@ == fsub(self@, rhs@),
    {
        let a = halo2curves::bn256::Fr::from_repr(self.bytes.into()).unwrap();
        let b = halo2curves::bn256::Fr::from_repr(rhs.bytes.into()).unwrap();
        Fr { bytes: (a - b).to_repr().into() }
    }

    /// The difference.
    pub fn sub(&self, rhs: &Fr) -> (r: Fr)
        ensures
            r@ == fsub(self@, rhs@),
    {
        self.sub_halo2curves(rhs)
    }

    /// Negation (`Neg` of `halo2curves`).
    #[verifier::external_body]
    fn neg_halo2curves(&self) -> (r: Fr)
        ensures
            r@ == fneg(self@),
    {
        let a = halo2curves::bn256::Fr::from_repr(self.bytes.into()).unwrap();
        Fr { bytes: (-a).to_repr().into() }
    }

    /// The negation.
    pub fn neg(&self) -> (r: Fr)
        ensures
            r@ == fneg(self@),
    {
        self.neg_halo2curves()
    }

    /// Product (`Mul` of `halo2curves`).
    #[verifier::external_body]
    fn mul_halo2curves(&self, rhs: &Fr) -> (r: Fr)
        ensures
            r@ == fmul(self@, rhs@),
    {
        let a = halo2curves::bn256::Fr::from_repr(self.bytes.into()).unwrap();
        let b = halo2curves::bn256::Fr::from_repr(rhs.bytes.into()).unwrap();
        Fr { bytes: (a * b).to_repr().into() }
    }

    /// The product.
    pub fn mul(&self, rhs: &Fr) -> (r: Fr)
        ensures
            r@ == fmul(self@, rhs@),
    {
        self.mul_halo2curves(rhs)
    }

    /// The multiplicative inverse (`Field::invert` of `halo2curves`): none
    /// for zero, otherwise an element whose product with this one is one.
    #[verifier::external_body]
    fn invert_halo2curves(&self) -> (r: Option<Fr>)
        ensures
            r is Some <==> self@ != 0,
            r matches Some(x) ==> is_inverse(self@, x@),
    {
        let a = halo2curves::bn256::Fr::from_repr(self.bytes.into()).unwrap();
        Option::<halo2curves::bn256::Fr>::from(a.invert()).map(|x| Fr { bytes: x.to_repr().into() })
    }

    /// The multiplicative inverse: none for zero.
    pub fn invert(&self) -> (r: Option<Fr>)
        ensures
            r is Some <==> self@ != 0,
            r matches Some(x) ==> is_inverse(self@, x@),
    {
        self.invert_halo2curves()
    }

    /// The square.
    pub fn square(&self) -> (r: Fr)
        ensures
            r@ == fmul(self@, self@),
    {
        self.mul(self)
    }

    /// Whether this element is zero.
    pub fn is_zero(&self) -> (r: bool)
        ensures
            r == (self@ == 0),
    {
        self.invert().is_none()
    }

    /// Field equality.
    pub fn equals(&self, rhs: &Fr) -> (r: bool)
        ensures
            r == (self@ == rhs@),
    {
        proof {
            use_type_invariant(self);
            use_type_invariant(rhs);
            lemma_small_mod(self@ as nat, p() as nat);
            lemma_small_mod(rhs@ as nat, p() as nat);
        }
        self.sub(rhs).is_zero()
    }
}

} // verus!
