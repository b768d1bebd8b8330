//! The HyperPlonk backend: its parameters, their byte encoding, and the
//! verifier's bookkeeping of polynomial queries.

use crate::codec::{
    expr_at, expr_bytes, expr_valid, g1_list_bytes, g1s_at, g1s_valid, lemma_le_bytes, named_at,
    named_bytes, named_fits, named_view, read_expression, read_g1s, read_named, read_u32_at, u32_bytes, write_expression,
    write_g1s, write_named, write_u32,
};
use crate::backend::PlonkishCircuitInfo;
use crate::curve::{g1_views, G1};
use crate::field::{vals, Fr};
use crate::curve::G2;
use crate::kzg::{g1_powers, g2_powers, UnivariateKzgParam};
use crate::pcs::{batch_verify_check, ceil_log2, deref_all, lens_of, validate_msg, EvaluationForShift};
use crate::transcript::{challenge_of, challenges_of, chunks, fr_bytes, g1_bytes, keccak256_of, read_comm_msg, reads_ok, Keccak256Transcript};
use crate::zeromorph::{invalid_open_msg, Zeromorph};
use crate::error::Error;
use crate::expression::{queries_of, queries_sorted, query_lt, Expression, Query, Rotation};
use crate::field::{lemma_pow2_mono, pow2};
use crate::poly::MultilinearPolynomial;
use crate::zeromorph::{ZeromorphKzgProverParam, ZeromorphKzgVerifierParam};
use vstd::prelude::*;

verus! {

/// The queries of `expression` to committed polynomials, that is, those not
/// to one of the first `num_instance_poly` (instance) polynomials, in
/// increasing order, each once.
pub fn pcs_query(expression: &Expression, num_instance_poly: usize) -> (r: Vec<Query>)
    ensures
        queries_sorted(r@),
        forall|q: Query| #[trigger] r@.contains(q) <==> (queries_of(*expression).contains(q)
            && q.poly >= num_instance_poly),
{
    let used = expression.used_query();
    let mut r: Vec<Query> = Vec::new();
    let mut i: usize = 0;
    while i < used.len()
        invariant
            i <= used.len(),
            queries_sorted(used@),
            queries_sorted(r@),
            forall|k: int| 0 <= k < r.len() ==> exists|j: int| 0 <= j < i && #[trigger] used@[j] == #[trigger] r@[k],
            forall|k: int, j: int| 0 <= k < r.len() && i <= j < used.len() ==> query_lt(#[trigger] r@[k], #[trigger] used@[j]),
            forall|q: Query| #[trigger] r@.contains(q) <==> (exists|j: int| 0 <= j < i && #[trigger] used@[j] == q)
                && q.poly >= num_instance_poly,
        decreases used.len() - i,
    {
        let q = used[i];
        let ghost before = r@;
        if q.poly >= num_instance_poly {
            r.push(q);
            proof {
                assert forall|k: int| 0 <= k < r.len() implies exists|j: int| 0 <= j < i + 1 && #[trigger] used@[j] == #[trigger] r@[k] by {
                    if k == r.len() - 1 {
                        assert(used@[i as int] == r@[k]);
                    } else {
                        assert(r@[k] == before[k]);
                    }
                }
                assert forall|a: int, b: int| 0 <= a < b < r@.len() implies query_lt(#[trigger] r@[a], #[trigger] r@[b]) by {
                    if b == r@.len() - 1 {
                        assert(r@[a] == before[a]);
                    }
                }
            }
        }
        proof {
            assert forall|q2: Query| #[trigger] r@.contains(q2) <==> (exists|j: int| 0 <= j < i + 1 && #[trigger] used@[j] == q2)
                && q2.poly >= num_instance_poly by {
                if r@.contains(q2) && !before.contains(q2) {
                    let k = choose|k: int| 0 <= k < r@.len() && r@[k] == q2;
                    if k < before.len() {
                        assert(before[k] == q2);
                    }
                }
                if (exists|j: int| 0 <= j < i + 1 && #[trigger] used@[j] == q2) && q2.poly >= num_instance_poly {
                    if used@[i as int] == q2 {
                        assert(r@[r@.len() - 1] == q2);
                    } else {
                        assert(before.contains(q2));
                        let k = choose|k: int| 0 <= k < before.len() && before[k] == q2;
                        assert(r@[k] == q2);
                    }
                }
                if before.contains(q2) {
                    let k = choose|k: int| 0 <= k < before.len() && before[k] == q2;
                    assert(r@[k] == q2);
                }
            }
        }
        i += 1;
    }
    proof {
        assert forall|q: Query| #[trigger] r@.contains(q) <==> (queries_of(*expression).contains(q)
            && q.poly >= num_instance_poly) by {
            if queries_of(*expression).contains(q) {
                assert(used@.contains(q));
                let j = choose|j: int| 0 <= j < used@.len() && used@[j] == q;
                assert(used@[j] == q);
            }
            if exists|j: int| 0 <= j < used@.len() && #[trigger] used@[j] == q {
                let j = choose|j: int| 0 <= j < used@.len() && #[trigger] used@[j] == q;
                assert(used@.contains(used@[j]));
            }
        }
    }
    r
}

/// `s` is strictly increasing.
pub open spec fn i32s_sorted(s: Seq<i32>) -> bool {
    forall|i: int, j: int| 0 <= i < j < s.len() ==> #[trigger] s[i] < #[trigger] s[j]
}

/// `s` holds exactly the rotations of the queries `qs`.
pub open spec fn holds_rotations_of(s: Seq<i32>, qs: Seq<Query>) -> bool {
    forall|x: i32| #[trigger] s.contains(x) <==> exists|k: int| 0 <= k < qs.len() && #[trigger] qs[k].rotation.0 == x
}

/// The magnitude of a rotation value.
pub open spec fn dist_of(x: i32) -> nat {
    Rotation(x).dist()
}

/// The offset of the `i`-th rotation: the sum of `2^|s[j]|` over `j < i`.
pub open spec fn offset_at(s: Seq<i32>, i: nat) -> nat
    decreases i,
{
    if i == 0 {
        0
    } else {
        offset_at(s, (i - 1) as nat) + pow2(dist_of(s[i - 1]))
    }
}

/// Every offset, and every power of two added, fits in a `usize`.
pub open spec fn offsets_fit(s: Seq<i32>) -> bool {
    forall|i: nat| #![trigger offset_at(s, i)] 0 < i < s.len() ==> offset_at(s, i) <= usize::MAX && dist_of(s[i - 1]) < 64
}

/// Inserts `x` into the strictly increasing `v`.
fn insert_i32(v: &mut Vec<i32>, x: i32)
    requires
        i32s_sorted(old(v)@),
    ensures
        i32s_sorted(final(v)@),
        forall|y: i32| #[trigger] final(v)@.contains(y) <==> (old(v)@.contains(y) || y == x),
{
    let mut i: usize = 0;
    while i < v.len() && v[i] < x
        invariant
            i <= v.len(),
            forall|j: int| 0 <= j < i ==> #[trigger] v[j] < x,
        decreases v.len() - i,
    {
        i += 1;
    }
    if i < v.len() && v[i] == x {
        proof {
            assert(old(v)@[i as int] == x);
        }
        return ;
    }
    let ghost before = v@;
    v.insert(i, x);
    proof {
        assert(v@ =~= before.take(i as int).push(x) + before.skip(i as int));
        assert forall|a: int, b: int| 0 <= a < b < v@.len() implies #[trigger] v@[a]
            < #[trigger] v@[b] by {
            if a < i && b > i {
                assert(before[a] < before[b - 1] || a == b - 1);
            }
            if a == i && b > i + 1 {
                assert(before[i as int] < before[b - 1] || b - 1 == i);
            }
        }
        assert forall|y: i32| #[trigger] v@.contains(y) <==> (before.contains(y) || y == x) by {
            if v@.contains(y) {
                let k = choose|k: int| 0 <= k < v@.len() && v@[k] == y;
                if k < i {
                    assert(before[k] == y);
                } else if k > i {
                    assert(before[k - 1] == y);
                }
            }
            if before.contains(y) {
                let k = choose|k: int| 0 <= k < before.len() && before[k] == y;
                if k < i {
                    assert(v@[k] == y);
                } else {
                    assert(v@[k + 1] == y);
                }
            }
            if y == x {
                assert(v@[i as int] == x);
            }
        }
    }
}

/// `2^d`.
pub(crate) fn power_of_two(d: usize) -> (r: usize)
    requires
        pow2(d as nat) <= usize::MAX,
    ensures
        r == pow2(d as nat),
{
    let mut r: usize = 1;
    let mut i: usize = 0;
    while i < d
        invariant
            i <= d,
            r == pow2(i as nat),
            pow2(d as nat) <= usize::MAX,
        decreases d - i,
    {
        proof {
            lemma_pow2_mono((i + 1) as nat, d as nat);
        }
        r = r * 2;
        i += 1;
    }
    r
}

/// The offset of each rotation of the queries among the evaluation points,
/// as pairs in increasing order of rotation: the first rotation is at zero
/// and each next one after `2^|r|` points of the one before it.
pub fn point_offset(pcs_query: &[Query]) -> (r: Vec<(Rotation, usize)>)
    requires
        pcs_query@.len() > 0,
        forall|s: Seq<i32>| i32s_sorted(s) && holds_rotations_of(s, pcs_query@) ==> #[trigger] offsets_fit(s),
    ensures
        ({
            let rots = r@.map_values(|e: (Rotation, usize)| e.0.0);
            &&& i32s_sorted(rots)
            &&& holds_rotations_of(rots, pcs_query@)
            &&& forall|i: int| 0 <= i < r@.len() ==> #[trigger] r@[i].1 == offset_at(rots, i as nat)
        }),
{
    let mut rots: Vec<i32> = Vec::new();
    let mut k: usize = 0;
    while k < pcs_query.len()
        invariant
            k <= pcs_query.len(),
            i32s_sorted(rots@),
            forall|x: i32| #[trigger] rots@.contains(x) <==> exists|j: int| 0 <= j < k && #[trigger] pcs_query@[j].rotation.0 == x,
        decreases pcs_query.len() - k,
    {
        insert_i32(&mut rots, pcs_query[k].rotation.0);
        proof {
            assert forall|x: i32| #[trigger] rots@.contains(x) <==> exists|j: int| 0 <= j < k + 1 && #[trigger] pcs_query@[j].rotation.0 == x by {
                if x == pcs_query@[k as int].rotation.0 {
                    assert(pcs_query@[k as int].rotation.0 == x);
                }
            }
        }
        k += 1;
    }
    proof {
        assert(rots@.contains(pcs_query@[0].rotation.0));
        assert(offsets_fit(rots@));
    }
    let mut r: Vec<(Rotation, usize)> = Vec::new();
    r.push((Rotation(rots[0]), 0));
    let mut i: usize = 1;
    while i < rots.len()
        invariant
            1 <= i <= rots.len(),
            offsets_fit(rots@),
            r@.len() == i,
            forall|j: int| 0 <= j < i ==> #[trigger] r@[j].0.0 == rots@[j],
            forall|j: int| 0 <= j < i ==> #[trigger] r@[j].1 == offset_at(rots@, j as nat),
        decreases rots.len() - i,
    {
        let last = Rotation(rots[i - 1]);
        proof {
            assert(offset_at(rots@, i as nat) <= usize::MAX);
        }
        let off = r[i - 1].1 + power_of_two(last.distance());
        r.push((Rotation(rots[i]), off));
        i += 1;
    }
    proof {
        let rs = r@.map_values(|e: (Rotation, usize)| e.0.0);
        assert(rs =~= rots@);
    }
    r
}

/// The HyperPlonk backend, with Zeromorph over univariate KZG as its
/// polynomial commitment scheme.
#[derive(Clone, Debug)]
pub struct HyperPlonk;

/// The prover's parameters of the commitment scheme.
pub struct HyperPlonkProverSetupParam {
    pub(crate) pcs: ZeromorphKzgProverParam,
}

/// The verifier's parameters of the commitment scheme.
pub struct HyperPlonkVerifierSetupParam {
    pub pcs: ZeromorphKzgVerifierParam,
}

/// What the prover knows of a preprocessed circuit.
pub struct HyperPlonkProverParam {
    pub(crate) num_instances: usize,
    pub(crate) num_witness_polys: usize,
    pub(crate) lookups: Vec<Vec<(Expression, Expression)>>,
    pub(crate) num_permutation_z_polys: usize,
    pub(crate) num_vars: usize,
    pub(crate) expression: Expression,
    pub(crate) preprocess_polys: Vec<MultilinearPolynomial>,
    pub(crate) preprocess_comms: Vec<G1>,
    pub(crate) permutation_polys: Vec<(usize, MultilinearPolynomial)>,
    pub(crate) permutation_comms: Vec<G1>,
}

/// What the verifier knows of a preprocessed circuit.
#[derive(Debug, PartialEq, Eq)]
pub struct HyperPlonkVerifierParam {
    pub num_instances: usize,
    pub num_witness_polys: usize,
    pub num_lookups: usize,
    pub num_permutation_z_polys: usize,
    pub num_vars: usize,
    pub expression: Expression,
    pub named_advices: Vec<(String, u32)>,
    pub preprocess_comms: Vec<G1>,
    pub permutation_comms: Vec<G1>,
}

impl HyperPlonkVerifierParam {
    /// The five counts, four bytes each.
    pub open spec fn header(&self) -> Seq<u8> {
        u32_bytes(self.num_instances as nat) + u32_bytes(self.num_witness_polys as nat) + u32_bytes(
            self.num_lookups as nat,
        ) + u32_bytes(self.num_permutation_z_polys as nat) + u32_bytes(self.num_vars as nat)
    }

    /// The encoding: the counts, the expression, the named columns, then
    /// the preprocessed and the permutation commitments. A count is written
    /// in four bytes, truncated to 32 bits.
    pub open spec fn encoding(&self) -> Seq<u8> {
        self.header() + expr_bytes(self.expression) + named_bytes(named_view(self.named_advices@))
            + g1_list_bytes(self.preprocess_comms@) + g1_list_bytes(self.permutation_comms@)
    }

    /// Every constant is canonical and every commitment is a point (as in
    /// every value that this library builds).
    pub open spec fn valid(&self) -> bool {
        &&& expr_valid(self.expression)
        &&& g1s_valid(self.preprocess_comms@)
        &&& g1s_valid(self.permutation_comms@)
    }

    /// Every count and length fits the 32 bits it is written in.
    pub open spec fn fits(&self) -> bool {
        &&& self.num_instances <= u32::MAX
        &&& self.num_witness_polys <= u32::MAX
        &&& self.num_lookups <= u32::MAX
        &&& self.num_permutation_z_polys <= u32::MAX
        &&& self.num_vars <= u32::MAX
        &&& named_fits(named_view(self.named_advices@))
        &&& self.preprocess_comms@.len() <= u32::MAX
        &&& self.permutation_comms@.len() <= u32::MAX
    }

    /// The same parameters: equal fields, the named columns equal by name
    /// and index.
    pub open spec fn same(&self, other: &Self) -> bool {
        &&& self.num_instances == other.num_instances
        &&& self.num_witness_polys == other.num_witness_polys
        &&& self.num_lookups == other.num_lookups
        &&& self.num_permutation_z_polys == other.num_permutation_z_polys
        &&& self.num_vars == other.num_vars
        &&& self.expression == other.expression
        &&& named_view(self.named_advices@) == named_view(other.named_advices@)
        &&& self.preprocess_comms@ == other.preprocess_comms@
        &&& self.permutation_comms@ == other.permutation_comms@
    }

    /// Writes the parameters (`Serializable::store`).
    pub fn store(&self) -> (r: Vec<u8>)
        ensures
            r@ == self.encoding(),
    {
        let mut out: Vec<u8> = Vec::new();
        write_u32(&mut out, self.num_instances as u32);
        write_u32(&mut out, self.num_witness_polys as u32);
        write_u32(&mut out, self.num_lookups as u32);
        write_u32(&mut out, self.num_permutation_z_polys as u32);
        write_u32(&mut out, self.num_vars as u32);
        write_expression(&mut out, &self.expression);
        write_named(&mut out, &self.named_advices);
        write_g1s(&mut out, &self.preprocess_comms);
        write_g1s(&mut out, &self.permutation_comms);
        proof {
            assert(out@ =~= self.encoding());
        }
        out
    }
}

/// The encoding of `v` begins `b`.
pub open spec fn vp_at(b: Seq<u8>, v: HyperPlonkVerifierParam) -> bool {
    &&& v.encoding().len() <= b.len()
    &&& b.subrange(0, v.encoding().len() as int) == v.encoding()
}

/// Where each part of an encoding of verifier parameters stands.
pub proof fn lemma_vp_parts(b: Seq<u8>, v: HyperPlonkVerifierParam)
    requires
        vp_at(b, v),
        v.valid(),
    ensures
        20 <= b.len(),
        b.subrange(0, 4) == u32_bytes(v.num_instances as nat),
        b.subrange(4, 8) == u32_bytes(v.num_witness_polys as nat),
        b.subrange(8, 12) == u32_bytes(v.num_lookups as nat),
        b.subrange(12, 16) == u32_bytes(v.num_permutation_z_polys as nat),
        b.subrange(16, 20) == u32_bytes(v.num_vars as nat),
        expr_at(b, 20, v.expression),
        named_at(b, 20 + expr_bytes(v.expression).len() as int, named_view(v.named_advices@)),
        g1s_at(b, (20 + expr_bytes(v.expression).len() + named_bytes(named_view(v.named_advices@)).len()) as int,
            v.preprocess_comms@),
        g1s_at(b, (20 + expr_bytes(v.expression).len() + named_bytes(named_view(v.named_advices@)).len()
            + g1_list_bytes(v.preprocess_comms@).len()) as int, v.permutation_comms@),
{
    let h = v.header();
    let e = expr_bytes(v.expression);
    let n = named_bytes(named_view(v.named_advices@));
    let p = g1_list_bytes(v.preprocess_comms@);
    let q = g1_list_bytes(v.permutation_comms@);
    let enc = v.encoding();
    lemma_le_bytes((v.num_instances as u32) as nat, 4);
    lemma_le_bytes((v.num_witness_polys as u32) as nat, 4);
    lemma_le_bytes((v.num_lookups as u32) as nat, 4);
    lemma_le_bytes((v.num_permutation_z_polys as u32) as nat, 4);
    lemma_le_bytes((v.num_vars as u32) as nat, 4);
    assert(h.len() == 20);
    assert(enc == h + e + n + p + q);
    let el: int = e.len() as int;
    let nl: int = n.len() as int;
    let pl: int = p.len() as int;
    let ql: int = q.len() as int;
    assert(b.subrange(0, 4) =~= enc.subrange(0, 4));
    assert(b.subrange(4, 8) =~= enc.subrange(4, 8));
    assert(b.subrange(8, 12) =~= enc.subrange(8, 12));
    assert(b.subrange(12, 16) =~= enc.subrange(12, 16));
    assert(b.subrange(16, 20) =~= enc.subrange(16, 20));
    assert(b.subrange(20, 20 + el) =~= enc.subrange(20, 20 + el));
    assert(enc.subrange(20, 20 + el) =~= e);
    assert(b.subrange(20 + el, 20 + el + nl) =~= enc.subrange(20 + el, 20 + el + nl));
    assert(enc.subrange(20 + el, 20 + el + nl) =~= n);
    assert(b.subrange(20 + el + nl, 20 + el + nl + pl) =~= enc.subrange(20 + el + nl, 20 + el + nl + pl));
    assert(enc.subrange(20 + el + nl, 20 + el + nl + pl) =~= p);
    assert(b.subrange(20 + el + nl + pl, 20 + el + nl + pl + ql) =~= enc.subrange(20 + el + nl + pl, 20 + el + nl + pl + ql));
    assert(enc.subrange(20 + el + nl + pl, 20 + el + nl + pl + ql) =~= q);
}

impl HyperPlonkVerifierParam {
    /// Reads parameters at the start of `bytes` (`Serializable::fetch`),
    /// and how many bytes they took. Exactly when the bytes begin with the
    /// encoding of some parameters, the result is those parameters.
    pub fn fetch(bytes: &[u8]) -> (r: Result<(HyperPlonkVerifierParam, usize), Error>)
        ensures
            r matches Ok((v, end)) ==> v.valid() && v.fits() && end == v.encoding().len() && vp_at(bytes@, v),
            forall|v: HyperPlonkVerifierParam| v.valid() && v.fits() && #[trigger] vp_at(bytes@, v)
                ==> (r matches Ok((d, _)) && d.same(&v)),
            r is Err ==> r matches Err(Error::Serialization(_)),
    {
        let len = bytes.len();
        if len < 20 {
            proof {
                assert forall|v: HyperPlonkVerifierParam| v.valid() && v.fits() && #[trigger] vp_at(bytes@, v) implies false by {
                    lemma_vp_parts(bytes@, v);
                }
            }
            return Err(Error::Serialization(String::from_str("Missing verifier parameter counts")));
        }
        let num_instances = read_u32_at(bytes, 0);
        let num_witness_polys = read_u32_at(bytes, 4);
        let num_lookups = read_u32_at(bytes, 8);
        let num_permutation_z_polys = read_u32_at(bytes, 12);
        let num_vars = read_u32_at(bytes, 16);
        let (expression, p1) = match read_expression(bytes, 20) {
            Ok(x) => x,
            Err(err) => {
                proof {
                    assert forall|v: HyperPlonkVerifierParam| v.valid() && v.fits() && #[trigger] vp_at(bytes@, v) implies false by {
                        lemma_vp_parts(bytes@, v);
                    }
                }
                return Err(err);
            },
        };
        let (named_advices, p2) = match read_named(bytes, p1) {
            Ok(x) => x,
            Err(err) => {
                proof {
                    assert forall|v: HyperPlonkVerifierParam| v.valid() && v.fits() && #[trigger] vp_at(bytes@, v) implies false by {
                        lemma_vp_parts(bytes@, v);
                    }
                }
                return Err(err);
            },
        };
        let (preprocess_comms, p3) = match read_g1s(bytes, p2) {
            Ok(x) => x,
            Err(err) => {
                proof {
                    assert forall|v: HyperPlonkVerifierParam| v.valid() && v.fits() && #[trigger] vp_at(bytes@, v) implies false by {
                        lemma_vp_parts(bytes@, v);
                    }
                }
                return Err(err);
            },
        };
        let (permutation_comms, p4) = match read_g1s(bytes, p3) {
            Ok(x) => x,
            Err(err) => {
                proof {
                    assert forall|v: HyperPlonkVerifierParam| v.valid() && v.fits() && #[trigger] vp_at(bytes@, v) implies false by {
                        lemma_vp_parts(bytes@, v);
                    }
                }
                return Err(err);
            },
        };
        let d = HyperPlonkVerifierParam {
            num_instances: num_instances as usize,
            num_witness_polys: num_witness_polys as usize,
            num_lookups: num_lookups as usize,
            num_permutation_z_polys: num_permutation_z_polys as usize,
            num_vars: num_vars as usize,
            expression,
            named_advices,
            preprocess_comms,
            permutation_comms,
        };
        proof {
            let enc = d.encoding();
            assert(bytes@.subrange(0, p4 as int) =~= bytes@.subrange(0, 4) + bytes@.subrange(4, 8) + bytes@.subrange(8, 12)
                + bytes@.subrange(12, 16) + bytes@.subrange(16, 20) + bytes@.subrange(20, p1 as int)
                + bytes@.subrange(p1 as int, p2 as int) + bytes@.subrange(p2 as int, p3 as int)
                + bytes@.subrange(p3 as int, p4 as int));
            assert(bytes@.subrange(0, p4 as int) =~= enc);
            assert forall|v: HyperPlonkVerifierParam| v.valid() && v.fits() && #[trigger] vp_at(bytes@, v) implies d.same(&v) by {
                lemma_vp_parts(bytes@, v);
            }
        }
        Ok((d, p4))
    }
}

/// The values of the instances, one instance column after the other.
pub open spec fn instances_flat(instances: Seq<Vec<Fr>>) -> Seq<int>
    decreases instances.len(),
{
    if instances.len() == 0 {
        Seq::empty()
    } else {
        instances_flat(instances.drop_last()) + vals(instances.last()@)
    }
}

/// What a verifier reads and squeezes before the zero check: the witness
/// commitments, then `beta`; the lookup multiplicity commitments, then
/// `gamma`; the lookup and permutation product commitments, then `alpha`
/// and the point `y`.
pub struct VerifierRounds {
    pub witness_comms: Vec<G1>,
    pub lookup_m_comms: Vec<G1>,
    pub lookup_h_permutation_z_comms: Vec<G1>,
    pub challenges: Vec<Fr>,
    pub y: Vec<Fr>,
}

impl HyperPlonk {
    /// The parameters of the commitment scheme for a circuit: for tables of
    /// `2^k` entries. The scheme's setup takes no batch size into account.
    pub fn setup(circuit_info: &PlonkishCircuitInfo) -> (r: Result<UnivariateKzgParam, Error>)
        requires
            circuit_info.well_formed(),
            pow2(circuit_info.k as nat) < usize::MAX,
        ensures
            r matches Ok(param) && param.monomial_g1@.len() == pow2(circuit_info.k as nat)
                && param.powers_of_s_g2@.len() == if pow2(circuit_info.k as nat) < 2 { 2 } else {
                pow2(circuit_info.k as nat) }
                && exists|s: int|
                #![trigger g1_powers(s, crate::curve::g1_generator_bytes(), pow2(circuit_info.k as nat))]
                g1_views(param.monomial_g1@) == g1_powers(s, crate::curve::g1_generator_bytes(), pow2(circuit_info.k as nat))
                    && crate::curve::g2_views(param.powers_of_s_g2@)
                    == g2_powers(s, crate::curve::g2_generator_bytes(), param.powers_of_s_g2@.len()),
    {
        let poly_size = crate::hyperplonk::power_of_two(circuit_info.k);
        Ok(Zeromorph::setup(poly_size, 0))
    }

    /// The rounds of a verification before the zero check: absorbs every
    /// instance value, reads the witness commitments and squeezes `beta`,
    /// reads the lookup multiplicity commitments and squeezes `gamma`, reads
    /// the lookup and permutation product commitments and squeezes `alpha`
    /// and `num_vars` coordinates of `y`.
    #[verifier::rlimit(40)]
    pub fn verify_rounds(
        vp: &HyperPlonkVerifierParam,
        instances: &[Vec<Fr>],
        transcript: &mut Keccak256Transcript,
    ) -> (r: Result<VerifierRounds, Error>)
        requires
            old(transcript).wf(),
            instances@.len() == vp.num_instances,
            old(transcript).pos() + 32 * (vp.num_witness_polys + 2 * vp.num_lookups + vp.num_permutation_z_polys)
                <= usize::MAX,
        ensures
            final(transcript).wf(),
            ({
                let t = *old(transcript);
                let s = t.stream();
                let nw = vp.num_witness_polys as nat;
                let nl = vp.num_lookups as nat;
                let nz = vp.num_permutation_z_polys as nat;
                let st1 = t.state() + fr_bytes(instances_flat(instances@));
                let p1 = t.pos();
                let w = chunks(s, p1, nw);
                let st2 = st1 + g1_bytes(w);
                let p2 = p1 + 32 * nw;
                let lm = chunks(s, p2, nl);
                let st3 = keccak256_of(st2) + g1_bytes(lm);
                let p3 = p2 + 32 * nl;
                let lh = chunks(s, p3, nl + nz);
                let st4 = keccak256_of(st3) + g1_bytes(lh);
                let ys = challenges_of(keccak256_of(st4), vp.num_vars as nat);
                let ok = reads_ok(s, p1, nw) && reads_ok(s, p2, nl) && reads_ok(s, p3, nl + nz);
                &&& ok ==> (r matches Ok(rounds)
                    && g1_views(rounds.witness_comms@) == w
                    && g1_views(rounds.lookup_m_comms@) == lm
                    && g1_views(rounds.lookup_h_permutation_z_comms@) == lh
                    && vals(rounds.challenges@) == seq![challenge_of(st2), challenge_of(st3), challenge_of(st4)]
                    && vals(rounds.y@) == ys.0
                    && final(transcript).state() == ys.1
                    && final(transcript).stream() == s
                    && final(transcript).pos() == p3 + 32 * (nl + nz))
                &&& !ok ==> (r matches Err(Error::Transcript(_, m)) && m@ == read_comm_msg())
            }),
    {
        let ghost st0 = transcript.state();
        let ghost absorbed: Seq<int> = Seq::empty();
        let mut i: usize = 0;
        while i < instances.len()
            invariant
                i <= instances@.len(),
                transcript.wf(),
                transcript.stream() == old(transcript).stream(),
                transcript.pos() == old(transcript).pos(),
                st0 == old(transcript).state(),
                absorbed == instances_flat(instances@.take(i as int)),
                transcript.state() == st0 + fr_bytes(absorbed),
            decreases instances@.len() - i,
        {
            let column = &instances[i];
            let mut j: usize = 0;
            while j < column.len()
                invariant
                    j <= column@.len(),
                    i < instances@.len(),
                    *column == instances@[i as int],
                    transcript.wf(),
                    transcript.stream() == old(transcript).stream(),
                    transcript.pos() == old(transcript).pos(),
                    absorbed == instances_flat(instances@.take(i as int)) + vals(column@.take(j as int)),
                    transcript.state() == st0 + fr_bytes(absorbed),
                decreases column@.len() - j,
            {
                let _ = transcript.common_field_element(&column[j]);
                proof {
                    let next = absorbed.push(column@[j as int]@);
                    assert(next.drop_last() =~= absorbed);
                    assert(vals(column@.take(j + 1)) =~= vals(column@.take(j as int)).push(column@[j as int]@));
                    absorbed = next;
                }
                j += 1;
            }
            proof {
                assert(column@.take(j as int) =~= column@);
                assert(instances@.take(i + 1).drop_last() =~= instances@.take(i as int));
            }
            i += 1;
        }
        proof {
            assert(instances@.take(i as int) =~= instances@);
        }
        let witness_comms = transcript.read_commitments(vp.num_witness_polys)?;
        let beta = transcript.squeeze_challenge();
        let lookup_m_comms = transcript.read_commitments(vp.num_lookups)?;
        let gamma = transcript.squeeze_challenge();
        let lookup_h_permutation_z_comms = transcript.read_commitments(vp.num_lookups + vp.num_permutation_z_polys)?;
        let alpha = transcript.squeeze_challenge();
        let y = transcript.squeeze_challenges(vp.num_vars);
        let mut challenges: Vec<Fr> = Vec::new();
        challenges.push(beta);
        challenges.push(gamma);
        challenges.push(alpha);
        proof {
            assert(vals(challenges@) =~= seq![beta@, gamma@, alpha@]);
        }
        Ok(VerifierRounds { witness_comms, lookup_m_comms, lookup_h_permutation_z_comms, challenges, y })
    }
}

/// The commitments that the verifier's openings are checked against:
/// `num_instances` copies of `dummy` for the instance polynomials, then the
/// preprocessed, witness, permutation, lookup multiplicity and lookup and
/// permutation product commitments.
pub open spec fn opening_comms(vp: HyperPlonkVerifierParam, rounds: VerifierRounds, dummy: G1) -> Seq<G1> {
    Seq::new(vp.num_instances as nat, |i: int| dummy) + vp.preprocess_comms@ + rounds.witness_comms@
        + vp.permutation_comms@ + rounds.lookup_m_comms@ + rounds.lookup_h_permutation_z_comms@
}

/// The openings are checked against the commitments in the circuit's
/// numbering of polynomials: the instance polynomials first (standing for
/// themselves by `dummy`), then the preprocessed, the witness and the
/// permutation polynomials, then the lookup multiplicities, then the lookup
/// and permutation products; polynomial `i` of each group has the `i`-th
/// commitment of its group.
pub proof fn lemma_opening_comms_layout(vp: HyperPlonkVerifierParam, rounds: VerifierRounds, dummy: G1)
    ensures
        ({
            let c = opening_comms(vp, rounds, dummy);
            let ni = vp.num_instances as int;
            let np = vp.preprocess_comms@.len() as int;
            let nw = rounds.witness_comms@.len() as int;
            let ns = vp.permutation_comms@.len() as int;
            let nm = rounds.lookup_m_comms@.len() as int;
            let nh = rounds.lookup_h_permutation_z_comms@.len() as int;
            &&& c.len() == ni + np + nw + ns + nm + nh
            &&& forall|i: int| 0 <= i < ni ==> #[trigger] c[i] == dummy
            &&& forall|i: int| 0 <= i < np ==> #[trigger] c[ni + i] == vp.preprocess_comms@[i]
            &&& forall|i: int| 0 <= i < nw ==> #[trigger] c[ni + np + i] == rounds.witness_comms@[i]
            &&& forall|i: int| 0 <= i < ns ==> #[trigger] c[ni + np + nw + i] == vp.permutation_comms@[i]
            &&& forall|i: int| 0 <= i < nm ==> #[trigger] c[ni + np + nw + ns + i] == rounds.lookup_m_comms@[i]
            &&& forall|i: int| 0 <= i < nh ==> #[trigger] c[ni + np + nw + ns + nm + i]
                == rounds.lookup_h_permutation_z_comms@[i]
        }),
{
}

/// Appends copies of the points of `src`.
fn append_points(dst: &mut Vec<G1>, src: &Vec<G1>)
    ensures
        final(dst)@ == old(dst)@ + src@,
{
    let mut i: usize = 0;
    while i < src.len()
        invariant
            i <= src@.len(),
            dst@ == old(dst)@ + src@.take(i as int),
        decreases src@.len() - i,
    {
        dst.push(src[i]);
        proof {
            assert(src@.take(i + 1) =~= src@.take(i as int).push(src@[i as int]));
        }
        i += 1;
    }
    proof {
        assert(src@.take(i as int) =~= src@);
    }
}

impl HyperPlonk {
    /// The openings of a verification after the zero check: the claims
    /// `evals` at `points` are checked by a batched opening against the
    /// commitments of every polynomial in order, the instance polynomials
    /// standing for themselves by the identity point (the one point whose
    /// encoding is `g1_identity_bytes`).
    #[verifier::rlimit(40)]
    pub fn verify_openings(
        vs: &HyperPlonkVerifierSetupParam,
        vp: &HyperPlonkVerifierParam,
        rounds: &VerifierRounds,
        points: &[Vec<Fr>],
        evals: &[EvaluationForShift],
        transcript: &mut Keccak256Transcript,
    ) -> (r: Result<(), Error>)
        requires
            old(transcript).wf(),
            points@.len() > 0,
            pow2(ceil_log2(evals@.len())) <= usize::MAX,
            old(transcript).pos() + 32 * (points@[0]@.len() + 3) <= usize::MAX,
            vp.num_instances + vp.preprocess_comms@.len() + rounds.witness_comms@.len() + vp.permutation_comms@.len()
                + rounds.lookup_m_comms@.len() + rounds.lookup_h_permutation_z_comms@.len() <= usize::MAX,
            forall|k: int| 0 <= k < evals@.len() ==> (#[trigger] evals@[k]).poly < vp.num_instances
                + vp.preprocess_comms@.len() + rounds.witness_comms@.len() + vp.permutation_comms@.len()
                + rounds.lookup_m_comms@.len() + rounds.lookup_h_permutation_z_comms@.len(),
        ensures
            final(transcript).wf(),
            exists|dummy: G1| #![trigger opening_comms(*vp, *rounds, dummy)] ({
                let t = *old(transcript);
                let u = vals(points@[0]@);
                let comms = opening_comms(*vp, *rounds, dummy);
                let ok_reads = reads_ok(t.stream(), t.pos(), (u.len() + 3) as nat);
                let check = batch_verify_check(vs.pcs, comms, evals@, u, t.state(), t.stream(), t.pos());
                &&& dummy@ == crate::curve::g1_identity_bytes()
                &&& match validate_msg("batch verify"@, points@[0]@.len() as nat, Seq::empty(), lens_of(points@)) {
                    Some(m) => r matches Err(Error::InvalidPcsParam(m2)) && m2@ == m,
                    None => {
                        &&& ok_reads && check ==> r is Ok
                        &&& ok_reads && !check ==> (r matches Err(Error::InvalidPcsOpen(m)) && m@ == invalid_open_msg())
                        &&& !ok_reads ==> (r matches Err(Error::Transcript(_, m)) && m@ == read_comm_msg())
                    },
                }
            }),
    {
        let dummy = G1::identity();
        let mut all: Vec<G1> = Vec::new();
        let mut i: usize = 0;
        while i < vp.num_instances
            invariant
                i <= vp.num_instances,
                all@ == Seq::new(i as nat, |j: int| dummy),
            decreases vp.num_instances - i,
        {
            all.push(dummy);
            proof {
                assert(all@ =~= Seq::new((i + 1) as nat, |j: int| dummy));
            }
            i += 1;
        }
        append_points(&mut all, &vp.preprocess_comms);
        append_points(&mut all, &rounds.witness_comms);
        append_points(&mut all, &vp.permutation_comms);
        append_points(&mut all, &rounds.lookup_m_comms);
        append_points(&mut all, &rounds.lookup_h_permutation_z_comms);
        let ghost comms = opening_comms(*vp, *rounds, dummy);
        proof {
            assert(all@ =~= comms);
        }
        let mut refs: Vec<&G1> = Vec::new();
        let mut k: usize = 0;
        while k < all.len()
            invariant
                k <= all@.len(),
                refs@.len() == k,
                forall|j: int| 0 <= j < k ==> *(#[trigger] refs@[j]) == all@[j],
            decreases all@.len() - k,
        {
            refs.push(&all[k]);
            k += 1;
        }
        proof {
            assert(deref_all(refs@) =~= comms);
        }
        let num_vars = points[0].len();
        Zeromorph::batch_verify_for_shift(&vs.pcs, num_vars, refs.as_slice(), points, evals, transcript)
    }
}

} // verus!
