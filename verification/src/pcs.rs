//! Input checks and batched openings of multilinear polynomials.

use crate::arithmetic::inner_product;
use crate::curve::{dot, g1_msm, g1_msm_of, g1_mul, g1_muls, g1_views, g2_mul, G1};
use crate::error::Error;
use crate::expression::Rotation;
use crate::field::{fadd, finner, fmul, lemma_pow2_gt, lemma_pow2_mono, lemma_pow2_pos, pow2, vals, Fr};
use crate::kzg::{commit_of, too_large_degree_msg};
use crate::message::{decimal, decimal_string};
use crate::poly::{eq_table, MultilinearPolynomial};
use crate::vanishing::pe;
use crate::transcript::{challenges_of, chunk, chunks, read_comm_msg, reads_ok, Keccak256Transcript};
use crate::zeromorph::{
    invalid_open_msg, kzg_equation, open_logs, open_transcript, powers_basis, vals2, verify_check, Zeromorph, ZeromorphKzgProverParam,
    ZeromorphKzgVerifierParam,
};
use vstd::prelude::*;

verus! {

/// The claim that polynomial `poly`, rotated by `rotation`, evaluates to
/// `value` at the opening point.
#[derive(Clone, Copy, Debug)]
pub struct EvaluationForShift {
    pub poly: usize,
    pub rotation: Rotation,
    pub value: Fr,
}

impl EvaluationForShift {
    pub fn new(poly: usize, rotation: Rotation, value: Fr) -> (r: Self)
        ensures
            r.poly == poly,
            r.rotation == rotation,
            r.value == value,
    {
        EvaluationForShift { poly, rotation, value }
    }

    pub fn poly(&self) -> (r: usize)
        ensures
            r == self.poly,
    {
        self.poly
    }

    pub fn rotation(&self) -> (r: Rotation)
        ensures
            r == self.rotation,
    {
        self.rotation
    }

    pub fn value(&self) -> (r: &Fr)
        ensures
            *r == self.value,
    {
        &self.value
    }
}

/// The message of a polynomial with more variables than the parameters allow.
pub open spec fn too_many_variates_msg(function: Seq<char>, upto: nat, got: nat) -> Seq<char> {
    if function == "trim"@ {
        "Too many variates to "@ + function + " (param supports variates up to "@ + decimal(upto)
            + " but got "@ + decimal(got) + ")"@
    } else {
        "Too many variates of poly to "@ + function + " (param supports variates up to "@
            + decimal(upto) + " but got "@ + decimal(got) + ")"@
    }
}

/// The message of a point with the wrong number of variables.
pub open spec fn invalid_point_msg(expect: nat, got: nat) -> Seq<char> {
    "Invalid point (expect point to have "@ + decimal(expect) + " variates but got "@ + decimal(got)
        + ")"@
}

/// The error of a polynomial with more variables than the parameters allow.
pub fn err_too_many_variates(function: &str, upto: usize, got: usize) -> (r: Error)
    ensures
        r matches Error::InvalidPcsParam(m) && m@ == too_many_variates_msg(function@, upto as nat, got as nat),
{
    let mut m = if String::from_str(function) == String::from_str("trim") {
        String::from_str("Too many variates to ")
    } else {
        String::from_str("Too many variates of poly to ")
    };
    m.append(function);
    m.append(" (param supports variates up to ");
    m.append(decimal_string(upto).as_str());
    m.append(" but got ");
    m.append(decimal_string(got).as_str());
    m.append(")");
    Error::InvalidPcsParam(m)
}

/// The first polynomial with too many variables, as the message of its error.
pub open spec fn poly_check(function: Seq<char>, param: nat, vars: Seq<nat>) -> Option<Seq<char>>
    decreases vars.len(),
{
    if vars.len() == 0 {
        None
    } else if param < vars[0] {
        Some(too_many_variates_msg(function, param, vars[0]))
    } else {
        poly_check(function, param, vars.drop_first())
    }
}

/// The first point of the wrong number of variables, as the message of its error.
pub open spec fn point_check(expect: nat, lens: Seq<nat>) -> Option<Seq<char>>
    decreases lens.len(),
{
    if lens.len() == 0 {
        None
    } else if lens[0] != expect {
        Some(invalid_point_msg(expect, lens[0]))
    } else {
        point_check(expect, lens.drop_first())
    }
}

/// The outcome of checking polynomials of `vars` variables and points of
/// `lens` coordinates against parameters for `param` variables: the
/// message of the first failure, if any.
pub open spec fn validate_msg(function: Seq<char>, param: nat, vars: Seq<nat>, lens: Seq<nat>) -> Option<Seq<char>> {
    match poly_check(function, param, vars) {
        Some(m) => Some(m),
        None => point_check(if vars.len() > 0 { vars[0] } else { lens[0] }, lens),
    }
}

/// The numbers of variables of some polynomials.
pub open spec fn vars_of(polys: Seq<&MultilinearPolynomial>) -> Seq<nat> {
    polys.map_values(|p: &MultilinearPolynomial| p.vars())
}

/// The numbers of coordinates of some points.
pub open spec fn lens_of(points: Seq<Vec<Fr>>) -> Seq<nat> {
    points.map_values(|v: Vec<Fr>| v@.len())
}

proof fn lemma_poly_check_skip(function: Seq<char>, param: nat, vars: Seq<nat>, i: int)
    requires
        0 <= i < vars.len(),
    ensures
        poly_check(function, param, vars.skip(i)) == if param < vars[i] {
            Some(too_many_variates_msg(function, param, vars[i]))
        } else {
            poly_check(function, param, vars.skip(i + 1))
        },
{
    assert(vars.skip(i).drop_first() =~= vars.skip(i + 1));
}

proof fn lemma_point_check_skip(expect: nat, lens: Seq<nat>, i: int)
    requires
        0 <= i < lens.len(),
    ensures
        point_check(expect, lens.skip(i)) == if lens[i] != expect {
            Some(invalid_point_msg(expect, lens[i]))
        } else {
            point_check(expect, lens.skip(i + 1))
        },
{
    assert(lens.skip(i).drop_first() =~= lens.skip(i + 1));
}

/// Checks that no polynomial has more than `param_num_vars` variables and
/// that every point has as many coordinates as the first polynomial has
/// variables (or, with no polynomial, as the first point).
pub fn validate_input(
    function: &str,
    param_num_vars: usize,
    polys: &[&MultilinearPolynomial],
    points: &[Vec<Fr>],
) -> (r: Result<(), Error>)
    requires
        polys@.len() > 0 || points@.len() > 0,
    ensures
        match validate_msg(function@, param_num_vars as nat, vars_of(polys@), lens_of(points@)) {
            None => r is Ok,
            Some(m) => r matches Err(Error::InvalidPcsParam(m2)) && m2@ == m,
        },
{
    let ghost vars = vars_of(polys@);
    let ghost lens = lens_of(points@);
    let mut i: usize = 0;
    proof {
        assert(vars.skip(0) =~= vars);
    }
    while i < polys.len()
        invariant
            i <= polys.len(),
            vars == vars_of(polys@),
            poly_check(function@, param_num_vars as nat, vars) == poly_check(function@, param_num_vars as nat, vars.skip(i as int)),
        decreases polys.len() - i,
    {
        proof {
            lemma_poly_check_skip(function@, param_num_vars as nat, vars, i as int);
        }
        let nv = polys[i].num_vars();
        if param_num_vars < nv {
            return Err(err_too_many_variates(function, param_num_vars, nv));
        }
        i += 1;
    }
    proof {
        assert(vars.skip(i as int) =~= Seq::<nat>::empty());
    }
    let input_num_vars = if polys.len() > 0 {
        polys[0].num_vars()
    } else {
        points[0].len()
    };
    let mut j: usize = 0;
    proof {
        assert(lens.skip(0) =~= lens);
    }
    while j < points.len()
        invariant
            j <= points.len(),
            lens == lens_of(points@),
            vars == vars_of(polys@),
            poly_check(function@, param_num_vars as nat, vars) is None,
            input_num_vars as nat == (if vars.len() > 0 { vars[0] } else { lens[0] }),
            point_check(input_num_vars as nat, lens) == point_check(input_num_vars as nat, lens.skip(j as int)),
        decreases points.len() - j,
    {
        proof {
            lemma_point_check_skip(input_num_vars as nat, lens, j as int);
        }
        if points[j].len() != input_num_vars {
            let mut m = String::from_str("Invalid point (expect point to have ");
            m.append(decimal_string(input_num_vars).as_str());
            m.append(" variates but got ");
            m.append(decimal_string(points[j].len()).as_str());
            m.append(")");
            return Err(Error::InvalidPcsParam(m));
        }
        j += 1;
    }
    proof {
        assert(lens.skip(j as int) =~= Seq::<nat>::empty());
    }
    Ok(())
}

/// The least `e` with `2^e >= n`.
pub open spec fn ceil_log2(n: nat) -> nat
    decreases n,
{
    if n <= 1 {
        0
    } else {
        1 + ceil_log2(((n + 1) / 2) as nat)
    }
}

/// `2^ceil_log2(n)` is at least `n`.
pub proof fn lemma_ceil_log2(n: nat)
    ensures
        n <= pow2(ceil_log2(n)),
        n >= 1 ==> pow2(ceil_log2(n)) < 2 * n,
    decreases n,
{
    if n > 1 {
        lemma_ceil_log2(((n + 1) / 2) as nat);
    }
}

/// The exponent of the least power of two not below `n`
/// (`n.next_power_of_two().ilog2()`).
pub fn next_pow2_log(n: usize) -> (r: usize)
    requires
        pow2(ceil_log2(n as nat)) <= usize::MAX,
    ensures
        r == ceil_log2(n as nat),
{
    let mut e: usize = 0;
    let mut size: usize = 1;
    proof {
        lemma_ceil_log2(n as nat);
    }
    while size < n
        invariant
            size == pow2(e as nat),
            pow2(ceil_log2(n as nat)) <= usize::MAX,
            e <= ceil_log2(n as nat),
            size < n ==> e < ceil_log2(n as nat),
            e < size,
        decreases ceil_log2(n as nat) - e,
    {
        proof {
            lemma_pow2_mono((e + 1) as nat, ceil_log2(n as nat));
            lemma_pow2_gt(e as nat);
        }
        size = size * 2;
        e = e + 1;
        proof {
            lemma_ceil_between(n as nat, e as nat);
        }
    }
    proof {
        lemma_ceil_exact(n as nat, e as nat);
    }
    e
}

/// Below `ceil_log2(n)` a power of two is below `n`.
proof fn lemma_ceil_below(n: nat, e: nat)
    requires
        e < ceil_log2(n),
    ensures
        pow2(e) < n,
    decreases n,
{
    if e > 0 {
        lemma_ceil_below(((n + 1) / 2) as nat, (e - 1) as nat);
    }
}

proof fn lemma_ceil_between(n: nat, e: nat)
    requires
        e <= ceil_log2(n),
    ensures
        pow2(e) < n ==> e < ceil_log2(n),
{
    lemma_ceil_log2(n);
}

proof fn lemma_ceil_exact(n: nat, e: nat)
    requires
        e <= ceil_log2(n),
        pow2(e) >= n,
    ensures
        e == ceil_log2(n),
{
    if e < ceil_log2(n) {
        lemma_ceil_below(n, e);
    }
}

/// Whether a claim is about the unrotated polynomial.
pub open spec fn is_cur(e: EvaluationForShift) -> bool {
    e.rotation.0 == 0
}

/// The claims of `evals` that are (or are not) unrotated, in order.
pub open spec fn split_evals(evals: Seq<EvaluationForShift>, cur: bool) -> Seq<EvaluationForShift>
    decreases evals.len(),
{
    if evals.len() == 0 {
        Seq::empty()
    } else {
        let rest = split_evals(evals.drop_last(), cur);
        if is_cur(evals.last()) == cur {
            rest.push(evals.last())
        } else {
            rest
        }
    }
}

/// The table `e` rotated by `r`: to the left by `r` rows when positive, to
/// the right by `-r` rows otherwise.
pub open spec fn rotate_table(e: Seq<int>, r: Rotation) -> Seq<int> {
    let d = r.dist() as int;
    if r.0 > 0 {
        e.skip(d) + e.take(d)
    } else {
        e.skip(e.len() - d) + e.take(e.len() - d)
    }
}

/// Entry `j` of the sum of the first `m` tables weighted by `ws`.
pub open spec fn wsum(ws: Seq<int>, ts: Seq<Seq<int>>, j: int, m: nat) -> int
    decreases m,
{
    if m == 0 {
        0
    } else {
        fadd(wsum(ws, ts, j, (m - 1) as nat), fmul(ws[m - 1], ts[m - 1][j]))
    }
}

/// The sum of the tables `ts` weighted by `ws`, of `len` entries.
pub open spec fn merged(ws: Seq<int>, ts: Seq<Seq<int>>, len: nat) -> Seq<int> {
    Seq::new(len, |j: int| wsum(ws, ts, j, ts.len()))
}

/// The tables that the claims are about, rotated for rotated claims.
pub open spec fn eval_tables(polys: Seq<&MultilinearPolynomial>, evals: Seq<EvaluationForShift>) -> Seq<Seq<int>> {
    evals.map_values(
        |e: EvaluationForShift|
            if is_cur(e) {
                polys[e.poly as int].table()
            } else {
                rotate_table(polys[e.poly as int].table(), e.rotation)
            },
    )
}

/// The claimed values.
pub open spec fn eval_values(evals: Seq<EvaluationForShift>) -> Seq<int> {
    evals.map_values(|e: EvaluationForShift| e.value@)
}

/// The bytes that a batched opening writes after the hashing state `state`
/// and the state it leaves: `ell` challenges `t`; the commitment to the
/// rotated tables weighted by `eq(t, .)` after the unrotated ones (empty
/// when there is none); then the Zeromorph opening at the point of the sum
/// of all weighted tables to the weighted sum of the claimed values.
pub open spec fn batch_open_transcript(
    commit_basis: Seq<G1>,
    open_basis: Seq<G1>,
    polys: Seq<&MultilinearPolynomial>,
    evals: Seq<EvaluationForShift>,
    point: Seq<int>,
    len: nat,
    state: Seq<u8>,
) -> (Seq<u8>, Seq<u8>) {
    let (t, st1) = challenges_of(state, ceil_log2(evals.len()));
    let eq = eq_table(t);
    let cur = split_evals(evals, true);
    let rot = split_evals(evals, false);
    let nc = cur.len();
    let nr = rot.len();
    let w_cur = eq.take(nc as int);
    let w_rot = eq.subrange(nc as int, (nc + nr) as int);
    let t_cur = eval_tables(polys, cur);
    let t_rot = eval_tables(polys, rot);
    let rot_table = if nr == 0 {
        Seq::empty()
    } else {
        merged(w_rot, t_rot, len)
    };
    let crot = commit_of(rot_table, commit_basis);
    let st2 = st1 + crot;
    let all = Seq::new(len, |j: int| fadd(wsum(w_cur, t_cur, j, nc), wsum(w_rot, t_rot, j, nr)));
    let tilde = fadd(finner(eval_values(cur), w_cur), finner(eval_values(rot), w_rot));
    let (bytes, st3) = open_transcript(commit_basis, open_basis, all, point, tilde, st2);
    (crot + bytes, st3)
}

/// A copy of a table.
fn copy_table(e: &[Fr]) -> (r: Vec<Fr>)
    ensures
        r@ == e@,
{
    let mut r: Vec<Fr> = Vec::new();
    let mut i: usize = 0;
    while i < e.len()
        invariant
            i <= e.len(),
            r@ == e@.take(i as int),
        decreases e.len() - i,
    {
        r.push(e[i]);
        proof {
            assert(e@.take(i + 1) =~= e@.take(i as int).push(e@[i as int]));
        }
        i += 1;
    }
    proof {
        assert(e@.take(i as int) =~= e@);
    }
    r
}

/// The table rotated by `r` (`rotate_left` for a positive rotation,
/// `rotate_right` otherwise).
pub(crate) fn rotated(e: &[Fr], r: Rotation) -> (out: Vec<Fr>)
    requires
        r.dist() <= e@.len(),
    ensures
        vals(out@) == rotate_table(vals(e@), r),
{
    let d = r.distance();
    let start = if r.0 > 0 {
        d
    } else {
        e.len() - d
    };
    let mut out: Vec<Fr> = Vec::new();
    let mut i: usize = start;
    while i < e.len()
        invariant
            start <= i <= e.len(),
            out@ == e@.subrange(start as int, i as int),
        decreases e.len() - i,
    {
        out.push(e[i]);
        proof {
            assert(e@.subrange(start as int, i + 1) =~= e@.subrange(start as int, i as int).push(e@[i as int]));
        }
        i += 1;
    }
    let mut j: usize = 0;
    while j < start
        invariant
            j <= start <= e.len(),
            out@ == e@.subrange(start as int, e.len() as int) + e@.take(j as int),
        decreases start - j,
    {
        out.push(e[j]);
        proof {
            assert(e@.take(j + 1) =~= e@.take(j as int).push(e@[j as int]));
        }
        j += 1;
    }
    proof {
        assert(vals(out@) =~= rotate_table(vals(e@), r));
    }
    out
}

/// The sum of the tables weighted by `ws`.
fn merge(ws: &[Fr], ts: &Vec<Vec<Fr>>, len: usize) -> (r: Vec<Fr>)
    requires
        ws@.len() == ts.len(),
        forall|i: int| 0 <= i < ts.len() ==> #[trigger] ts[i]@.len() == len,
    ensures
        vals(r@) == merged(vals(ws@), vals2(ts@), len as nat),
{
    let ghost wv = vals(ws@);
    let ghost tv = vals2(ts@);
    let mut r: Vec<Fr> = Vec::new();
    let mut j: usize = 0;
    while j < len
        invariant
            j <= len,
            r.len() == j,
            forall|l: int| 0 <= l < j ==> #[trigger] r[l]@ == 0,
        decreases len - j,
    {
        r.push(Fr::zero());
        j += 1;
    }
    let mut i: usize = 0;
    while i < ts.len()
        invariant
            i <= ts.len(),
            ws@.len() == ts.len(),
            r.len() == len,
            wv == vals(ws@),
            tv == vals2(ts@),
            forall|k: int| 0 <= k < ts.len() ==> #[trigger] ts[k]@.len() == len,
            forall|l: int| 0 <= l < len ==> #[trigger] r[l]@ == wsum(wv, tv, l, i as nat),
        decreases ts.len() - i,
    {
        let t = &ts[i];
        let mut l: usize = 0;
        while l < len
            invariant
                l <= len,
                i < ts.len(),
                *t == ts@[i as int],
                t.len() == len,
                r.len() == len,
                ws@.len() == ts.len(),
                wv == vals(ws@),
                tv == vals2(ts@),
                forall|k: int| 0 <= k < l ==> #[trigger] r[k]@ == wsum(wv, tv, k, (i + 1) as nat),
                forall|k: int| l <= k < len ==> #[trigger] r[k]@ == wsum(wv, tv, k, i as nat),
            decreases len - l,
        {
            let v = r[l].add(&ws[i].mul(&t[l]));
            proof {
                assert(tv[i as int][l as int] == t[l as int]@);
            }
            r.set(l, v);
            l += 1;
        }
        i += 1;
    }
    proof {
        assert(vals(r@) =~= merged(wv, tv, len as nat));
    }
    r
}

/// The claims of `evals` that are (or are not) unrotated, in order.
fn split(evals: &[EvaluationForShift], cur: bool) -> (r: Vec<EvaluationForShift>)
    ensures
        r@ == split_evals(evals@, cur),
{
    let mut r: Vec<EvaluationForShift> = Vec::new();
    let mut i: usize = 0;
    while i < evals.len()
        invariant
            i <= evals.len(),
            r@ == split_evals(evals@.take(i as int), cur),
        decreases evals.len() - i,
    {
        proof {
            let t = evals@.take(i + 1);
            assert(t.drop_last() =~= evals@.take(i as int));
            assert(t.last() == evals@[i as int]);
        }
        if (evals[i].rotation.0 == 0) == cur {
            r.push(evals[i]);
        }
        i += 1;
    }
    proof {
        assert(evals@.take(i as int) =~= evals@);
    }
    r
}

/// `split_evals` keeps a subsequence.
pub(crate) proof fn lemma_split_subset(evals: Seq<EvaluationForShift>, cur: bool)
    ensures
        split_evals(evals, cur).len() <= evals.len(),
        forall|k: int| 0 <= k < split_evals(evals, cur).len() ==> evals.contains(#[trigger] split_evals(evals, cur)[k]),
        forall|k: int| 0 <= k < split_evals(evals, cur).len() ==> is_cur(#[trigger] split_evals(evals, cur)[k]) == cur,
    decreases evals.len(),
{
    if evals.len() > 0 {
        lemma_split_subset(evals.drop_last(), cur);
        let rest = split_evals(evals.drop_last(), cur);
        assert forall|k: int| 0 <= k < split_evals(evals, cur).len() implies evals.contains(#[trigger] split_evals(evals, cur)[k]) by {
            if k < rest.len() {
                let x = rest[k];
                assert(evals.drop_last().contains(x));
                let j = choose|j: int| 0 <= j < evals.drop_last().len() && evals.drop_last()[j] == x;
                assert(evals[j] == x);
            } else {
                assert(evals[evals.len() - 1] == evals.last());
            }
        }
    }
}

pub(crate) proof fn lemma_split_lens(evals: Seq<EvaluationForShift>)
    ensures
        split_evals(evals, true).len() + split_evals(evals, false).len() == evals.len(),
    decreases evals.len(),
{
    if evals.len() > 0 {
        lemma_split_lens(evals.drop_last());
    }
}

/// The tables that the claims are about.
fn group_tables(polys: &[&MultilinearPolynomial], group: &[EvaluationForShift], len: usize) -> (r: Vec<Vec<Fr>>)
    requires
        forall|k: int| 0 <= k < group@.len() ==> (#[trigger] group@[k]).poly < polys@.len()
            && group@[k].rotation.dist() <= len && polys@[group@[k].poly as int].table().len() == len,
    ensures
        vals2(r@) == eval_tables(polys@, group@),
        forall|k: int| 0 <= k < r.len() ==> #[trigger] r[k]@.len() == len,
{
    let mut r: Vec<Vec<Fr>> = Vec::new();
    let mut i: usize = 0;
    while i < group.len()
        invariant
            i <= group.len(),
            r.len() == i,
            forall|k: int| 0 <= k < group@.len() ==> (#[trigger] group@[k]).poly < polys@.len()
                && group@[k].rotation.dist() <= len && polys@[group@[k].poly as int].table().len() == len,
            forall|k: int| 0 <= k < i ==> vals(#[trigger] r[k]@) == eval_tables(polys@, group@)[k],
            forall|k: int| 0 <= k < i ==> #[trigger] r[k]@.len() == len,
        decreases group.len() - i,
    {
        let e = group[i];
        let poly = polys[e.poly];
        let evals = poly.evals();
        proof {
            assert(vals(evals@).len() == evals@.len());
        }
        if e.rotation.0 == 0 {
            r.push(copy_table(evals.as_slice()));
        } else {
            r.push(rotated(evals.as_slice(), e.rotation));
            proof {
                assert(vals(r[i as int]@).len() == r[i as int]@.len());
            }
        }
        i += 1;
    }
    proof {
        assert(vals2(r@) =~= eval_tables(polys@, group@));
    }
    r
}

/// The claimed values of a group.
fn group_values(group: &[EvaluationForShift]) -> (r: Vec<Fr>)
    ensures
        vals(r@) == eval_values(group@),
{
    let mut r: Vec<Fr> = Vec::new();
    let mut i: usize = 0;
    while i < group.len()
        invariant
            i <= group.len(),
            r.len() == i,
            forall|k: int| 0 <= k < i ==> #[trigger] r[k]@ == group@[k].value@,
        decreases group.len() - i,
    {
        r.push(group[i].value);
        i += 1;
    }
    proof {
        assert(vals(r@) =~= eval_values(group@));
    }
    r
}

/// Entrywise sum of two tables of the same length.
fn add_tables(a: &[Fr], b: &[Fr]) -> (r: Vec<Fr>)
    requires
        a@.len() == b@.len(),
    ensures
        r@.len() == a@.len(),
        forall|j: int| 0 <= j < a@.len() ==> #[trigger] r@[j]@ == fadd(a@[j]@, b@[j]@),
{
    let mut r: Vec<Fr> = Vec::new();
    let mut j: usize = 0;
    while j < a.len()
        invariant
            j <= a.len(),
            a@.len() == b@.len(),
            r.len() == j,
            forall|l: int| 0 <= l < j ==> #[trigger] r@[l]@ == fadd(a@[l]@, b@[l]@),
        decreases a.len() - j,
    {
        r.push(a[j].add(&b[j]));
        j += 1;
    }
    r
}

/// The part of a slice from `lo` to `hi`.
fn slice_copy(v: &[Fr], lo: usize, hi: usize) -> (r: Vec<Fr>)
    requires
        lo <= hi <= v@.len(),
    ensures
        r@ == v@.subrange(lo as int, hi as int),
{
    let mut r: Vec<Fr> = Vec::new();
    let mut i: usize = lo;
    while i < hi
        invariant
            lo <= i <= hi,
            hi <= v@.len(),
            r@ == v@.subrange(lo as int, i as int),
        decreases hi - i,
    {
        r.push(v[i]);
        proof {
            assert(v@.subrange(lo as int, i + 1) =~= v@.subrange(lo as int, i as int).push(v@[i as int]));
        }
        i += 1;
    }
    r
}

/// The parts of a batched opening whose bases are the powers of `s`: the
/// value at `s` of the weighted rotated tables, whose multiple of `G1` is
/// committed first; the hashing state after it; the sum of all weighted
/// tables; and the weighted sum of the claimed values, to which that sum is
/// then opened.
pub open spec fn batch_open_parts(
    s: int,
    polys: Seq<&MultilinearPolynomial>,
    evals: Seq<EvaluationForShift>,
    len: nat,
    state: Seq<u8>,
) -> (int, Seq<u8>, Seq<int>, int) {
    let (t, st1) = challenges_of(state, ceil_log2(evals.len()));
    let eq = eq_table(t);
    let cur = split_evals(evals, true);
    let rot = split_evals(evals, false);
    let nc = cur.len();
    let nr = rot.len();
    let w_cur = eq.take(nc as int);
    let w_rot = eq.subrange(nc as int, (nc + nr) as int);
    let t_cur = eval_tables(polys, cur);
    let t_rot = eval_tables(polys, rot);
    let rot_table = if nr == 0 {
        Seq::empty()
    } else {
        merged(w_rot, t_rot, len)
    };
    let rlog = pe(rot_table, s);
    let all = Seq::new(len, |j: int| fadd(wsum(w_cur, t_cur, j, nc), wsum(w_rot, t_rot, j, nr)));
    let tilde = fadd(finner(eval_values(cur), w_cur), finner(eval_values(rot), w_rot));
    (rlog, st1 + g1_mul(rlog), all, tilde)
}

/// Requirements of a batched opening at the first point, once the inputs
/// are validated: there is a point and a claim, the claims name
/// polynomials that exist and have as many variables as the point has
/// coordinates, and no rotation exceeds the table size.
pub open spec fn batch_inputs_fit(
    polys: Seq<&MultilinearPolynomial>,
    points: Seq<Vec<Fr>>,
    evals: Seq<EvaluationForShift>,
) -> bool {
    let n = points[0]@.len();
    &&& points.len() > 0
    &&& evals.len() > 0
    &&& pow2(ceil_log2(evals.len())) <= usize::MAX
    &&& pow2(n) <= usize::MAX
    &&& forall|k: int| 0 <= k < evals.len() ==> (#[trigger] evals[k]).poly < polys.len()
        && polys[evals[k].poly as int].vars() == n
        && polys[evals[k].poly as int].table().len() == pow2(n)
        && evals[k].rotation.dist() <= pow2(n)
}

impl Zeromorph {
    /// Opens the claims `evals` about `polys` at `points[0]` at once.
    ///
    /// The claims are weighted by `eq(t, .)` for challenges `t`, the
    /// unrotated ones first; the weighted rotated tables are committed; the
    /// sum of all weighted tables is then opened at the point to the
    /// weighted sum of the claimed values.
    #[verifier::rlimit(80)]
    pub fn batch_open_for_shift(
        pp: &ZeromorphKzgProverParam,
        num_vars: usize,
        polys: &[&MultilinearPolynomial],
        comms: &[&G1],
        points: &[Vec<Fr>],
        evals: &[EvaluationForShift],
        transcript: &mut Keccak256Transcript,
    ) -> (r: Result<(), Error>)
        requires
            old(transcript).wf(),
            polys@.len() > 0 || points@.len() > 0,
            validate_msg("batch open"@, num_vars as nat, vars_of(polys@), lens_of(points@)) is None ==> {
                &&& batch_inputs_fit(polys@, points@, evals@)
                &&& pp.commit_basis().len() > 0
                &&& pp.open_basis().len() > 0
            },
        ensures
            final(transcript).wf(),
            ({
                let n = points@[0]@.len();
                let len = pow2(n);
                let nr = split_evals(evals@, false).len();
                match validate_msg("batch open"@, num_vars as nat, vars_of(polys@), lens_of(points@)) {
                    Some(m) => r matches Err(Error::InvalidPcsParam(m2)) && m2@ == m
                        && *final(transcript) == *old(transcript),
                    None => {
                        &&& (len > pp.commit_basis().len() && nr > 0) ==> (r matches Err(Error::InvalidPcsParam(m))
                            && m@ == too_large_degree_msg("commit"@, (pp.commit_basis().len() - 1) as nat, (len - 1) as nat))
                        &&& (len > pp.commit_basis().len() && nr == 0) ==> (r matches Err(Error::InvalidPcsParam(m))
                            && m@ == too_large_degree_msg("open"@, (pp.commit_basis().len() - 1) as nat, (len - 1) as nat))
                        &&& (len <= pp.commit_basis().len() && len > pp.open_basis().len()) ==> (r matches Err(Error::InvalidPcsParam(m))
                            && m@ == too_large_degree_msg("open"@, (pp.open_basis().len() - 1) as nat, (len - 1) as nat))
                        &&& (len <= pp.commit_basis().len() && len <= pp.open_basis().len()) ==> (r is Ok && ({
                            let (bytes, state) = batch_open_transcript(pp.commit_basis(), pp.open_basis(), polys@, evals@, vals(points@[0]@), len, old(transcript).state());
                            &&& final(transcript).stream() == old(transcript).stream() + bytes
                            &&& final(transcript).state() == state
                            &&& final(transcript).pos() == old(transcript).pos()
                        }))
                        &&& (len <= pp.commit_basis().len() && len <= pp.open_basis().len()) ==> forall|s: int|
                            #[trigger] powers_basis(pp.commit_basis(), s) && powers_basis(pp.open_basis(), s) ==> ({
                            let (rlog, st2, all, tilde) = batch_open_parts(s, polys@, evals@, len, old(transcript).state());
                            let logs = open_logs(s, all, vals(points@[0]@), tilde, st2);
                            let p0 = old(transcript).stream().len() as int;
                            &&& chunk(final(transcript).stream(), p0) == g1_mul(rlog)
                            &&& logs.len() == n + 2
                            &&& chunks(final(transcript).stream(), p0 + 32, (n + 2) as nat) == g1_muls(logs)
                            &&& reads_ok(final(transcript).stream(), p0, (n + 3) as nat)
                        })
                    },
                }
            }),
    {
        validate_input("batch open", num_vars, polys, points)?;
        let ghost st0 = transcript.state();
        let ghost s0 = transcript.stream();
        let point = &points[0];
        let n = point.len();
        let len = polys[evals[0].poly].evals().len();
        proof {
            assert(polys@[evals@[0].poly as int].table().len() == pow2(n as nat));
            lemma_pow2_pos(n as nat);
        }
        let ell = next_pow2_log(evals.len());
        let t = transcript.squeeze_challenges(ell);
        proof {
            crate::transcript::lemma_challenges_len(st0, ell as nat);
            assert(vals(t@).len() == t@.len());
        }
        let eq_xt = MultilinearPolynomial::eq_xy(t.as_slice());
        let eq = eq_xt.evals();
        let cur = split(evals, true);
        let rot = split(evals, false);
        let nc = cur.len();
        let nr = rot.len();
        proof {
            lemma_split_subset(evals@, true);
            lemma_split_subset(evals@, false);
            lemma_split_lens(evals@);
            crate::pcs::lemma_ceil_log2(evals.len() as nat);
            assert(vals(eq@).len() == eq@.len());
            crate::poly::lemma_eq_table_len(vals(t@));
            assert forall|k: int| 0 <= k < cur@.len() implies (#[trigger] cur@[k]).poly < polys@.len()
                && cur@[k].rotation.dist() <= len by {
                let j = choose|j: int| 0 <= j < evals@.len() && evals@[j] == cur@[k];
                assert(evals@[j].poly < polys@.len());
            }
            assert forall|k: int| 0 <= k < rot@.len() implies (#[trigger] rot@[k]).poly < polys@.len()
                && rot@[k].rotation.dist() <= len by {
                let j = choose|j: int| 0 <= j < evals@.len() && evals@[j] == rot@[k];
                assert(evals@[j].poly < polys@.len());
            }
        }
        let t_cur = group_tables(polys, cur.as_slice(), len);
        let t_rot = group_tables(polys, rot.as_slice(), len);
        proof {
            assert(vals2(t_cur@).len() == t_cur@.len());
            assert(vals2(t_rot@).len() == t_rot@.len());
        }
        let w_cur = slice_copy(eq.as_slice(), 0, nc);
        let w_rot = slice_copy(eq.as_slice(), nc, nc + nr);
        let rot_full = merge(w_rot.as_slice(), &t_rot, len);
        let rot_table = if nr == 0 {
            Vec::new()
        } else {
            copy_table(rot_full.as_slice())
        };
        proof {
            assert(vals(rot_full@).len() == rot_full@.len());
        }
        let rot_poly = MultilinearPolynomial::new(rot_table);
        let crot = Self::commit(pp, &rot_poly)?;
        crot.lemma_decodes();
        let _ = transcript.write_commitment(&crot);
        let ghost s_mid = transcript.stream();
        let ghost st_mid = transcript.state();
        let cur_full = merge(w_cur.as_slice(), &t_cur, len);
        proof {
            assert(vals(cur_full@).len() == cur_full@.len());
        }
        let all = add_tables(cur_full.as_slice(), rot_full.as_slice());
        let v_cur = group_values(cur.as_slice());
        let v_rot = group_values(rot.as_slice());
        let tilde = inner_product(v_cur.as_slice(), w_cur.as_slice()).add(&inner_product(v_rot.as_slice(), w_rot.as_slice()));
        let all_poly = MultilinearPolynomial::new(all);
        let ghost all_v = all_poly.table();
        proof {
            assert(all_poly.table().len() == len);
            crate::field::lemma_pow2_injective(all_poly.vars(), n as nat);
        }
        let r = Self::open(pp, &all_poly, &crot, point.as_slice(), &tilde, transcript);
        proof {
            let u = vals(points@[0]@);
            let (tt, st1) = challenges_of(st0, ceil_log2(evals@.len()));
            assert(vals(t@) == tt);
            let eqs = eq_table(tt);
            assert(vals(eq@) == eqs);
            let wc = eqs.take(nc as int);
            let wr = eqs.subrange(nc as int, (nc + nr) as int);
            assert(vals(w_cur@) =~= wc);
            assert(vals(w_rot@) =~= wr);
            let tc = eval_tables(polys@, cur@);
            let tr = eval_tables(polys@, rot@);
            let rt = if nr == 0 { Seq::<int>::empty() } else { merged(wr, tr, len as nat) };
            assert(rot_poly.table() =~= rt);
            let st2 = st1 + crot@;
            let allspec = Seq::new(len as nat, |j: int| fadd(wsum(wc, tc, j, nc as nat), wsum(wr, tr, j, nr as nat)));
            assert(vals(cur_full@) == merged(wc, tc, len as nat));
            assert(vals(rot_full@) == merged(wr, tr, len as nat));
            assert(tc.len() == nc);
            assert(tr.len() == nr);
            assert forall|j: int| 0 <= j < len implies #[trigger] all_v[j] == allspec[j] by {
                assert(all_v[j] == all@[j]@);
                assert(vals(cur_full@)[j] == cur_full@[j]@);
                assert(vals(rot_full@)[j] == rot_full@[j]@);
            }
            assert(all_v =~= allspec);
            let tl = fadd(finner(eval_values(cur@), wc), finner(eval_values(rot@), wr));
            assert(tilde@ == tl);
            let (bytes, state) = batch_open_transcript(pp.commit_basis(), pp.open_basis(), polys@, evals@, u, len as nat, st0);
            if len <= pp.commit_basis().len() && len <= pp.open_basis().len() {
                let (ob, ost) = open_transcript(pp.commit_basis(), pp.open_basis(), allspec, u, tl, st2);
                assert(bytes == crot@ + ob);
                assert(transcript.stream() =~= s0 + bytes);
                assert forall|s: int| #[trigger] powers_basis(pp.commit_basis(), s) && powers_basis(pp.open_basis(), s) implies ({
                    let (rlog, st2b, allb, tildeb) = batch_open_parts(s, polys@, evals@, len as nat, st0);
                    let logs = open_logs(s, allb, u, tildeb, st2b);
                    let p0 = s0.len() as int;
                    &&& chunk(transcript.stream(), p0) == g1_mul(rlog)
                    &&& logs.len() == n + 2
                    &&& chunks(transcript.stream(), p0 + 32, (n + 2) as nat) == g1_muls(logs)
                    &&& reads_ok(transcript.stream(), p0, (n + 3) as nat)
                }) by {
                    let (rlog, st2b, allb, tildeb) = batch_open_parts(s, polys@, evals@, len as nat, st0);
                    assert(crot@ == g1_mul(pe(rt, s)));
                    assert(rlog == pe(rt, s));
                    assert(allb == allspec);
                    assert(tildeb == tl);
                    assert(st2b == st2);
                    let st = transcript.stream();
                    let p0 = s0.len() as int;
                    assert(s_mid == s0 + crot@);
                    assert(chunk(st, p0) =~= crot@);
                    let logs = open_logs(s, allb, u, tildeb, st2b);
                    assert(chunks(st, p0 + 32, (n + 2) as nat) == g1_muls(logs));
                    assert(reads_ok(st, p0 + 32, (n + 2) as nat));
                    assert forall|k: int| 0 <= k < n + 3 implies crate::curve::g1_decodes(#[trigger] chunk(st, p0 + 32 * k)) by {
                        if k > 0 {
                            assert(chunk(st, p0 + 32 + 32 * (k - 1)) == chunk(st, p0 + 32 * k));
                        }
                    }
                }
            }
        }
        r
    }
}

/// The commitments behind a sequence of references.
pub open spec fn deref_all(s: Seq<&G1>) -> Seq<G1> {
    s.map_values(|c: &G1| *c)
}

/// The commitments that the claims are about.
pub open spec fn eval_comms(comms: Seq<G1>, evals: Seq<EvaluationForShift>) -> Seq<Seq<u8>> {
    evals.map_values(|e: EvaluationForShift| comms[e.poly as int]@)
}

/// The check of a batched opening proof read at `pos` of `stream` with
/// hashing state `state` before it: the commitment to the weighted rotated
/// tables is read, and the Zeromorph proof must open the weighted sum of the
/// commitments of the unrotated claims plus that commitment to the weighted
/// sum of the claimed values.
pub open spec fn batch_verify_check(
    vp: ZeromorphKzgVerifierParam,
    comms: Seq<G1>,
    evals: Seq<EvaluationForShift>,
    u: Seq<int>,
    state: Seq<u8>,
    stream: Seq<u8>,
    pos: int,
) -> bool {
    let (t, st1) = challenges_of(state, ceil_log2(evals.len()));
    let rc = chunk(stream, pos);
    let st2 = st1 + rc;
    let eq = eq_table(t);
    let cur = split_evals(evals, true);
    let rot = split_evals(evals, false);
    let nc = cur.len();
    let nr = rot.len();
    let wc = eq.take(nc as int);
    let wr = eq.subrange(nc as int, (nc + nr) as int);
    let tilde = fadd(finner(eval_values(cur), wc), finner(eval_values(rot), wr));
    let c = g1_msm_of(wc + seq![1], eval_comms(comms, cur) + seq![rc]);
    verify_check(vp.g1_spec()@, vp.g2_spec()@, vp.s_g2_spec()@, c, u, tilde, st2, stream, pos + 32)
}

/// The values `cvals[e.poly]` of the claims `evals`.
pub open spec fn claim_values(cvals: Seq<int>, evals: Seq<EvaluationForShift>) -> Seq<int> {
    evals.map_values(|e: EvaluationForShift| cvals[e.poly as int])
}

/// The verifier's equation of a batched opening read at `pos`, where the
/// commitments are `cvals[i] * G1`, the commitment to the weighted rotated
/// tables is `rlog * G1` and the points of the Zeromorph proof that follows
/// it are `logs[i] * G1`: the Zeromorph equation for the commitment
/// `sum w_cur[j] * cvals[cur[j].poly] + rlog` and the weighted sum of the
/// claimed values.
pub open spec fn batch_equation(
    s: int,
    cvals: Seq<int>,
    rlog: int,
    logs: Seq<int>,
    evals: Seq<EvaluationForShift>,
    u: Seq<int>,
    state: Seq<u8>,
    stream: Seq<u8>,
    pos: int,
) -> bool {
    let (t, st1) = challenges_of(state, ceil_log2(evals.len()));
    let rc = chunk(stream, pos);
    let st2 = st1 + rc;
    let eq = eq_table(t);
    let cur = split_evals(evals, true);
    let rot = split_evals(evals, false);
    let nc = cur.len();
    let nr = rot.len();
    let wc = eq.take(nc as int);
    let wr = eq.subrange(nc as int, (nc + nr) as int);
    let tilde = fadd(finner(eval_values(cur), wc), finner(eval_values(rot), wr));
    let c = dot(wc, claim_values(cvals, cur)) + rlog;
    kzg_equation(s, c, logs, u, tilde, st2, stream, pos + 32)
}

impl Zeromorph {
    /// Verifies a batched opening of the claims `evals` about the committed
    /// polynomials at `points[0]`.
    #[verifier::rlimit(80)]
    pub fn batch_verify_for_shift(
        vp: &ZeromorphKzgVerifierParam,
        num_vars: usize,
        comms: &[&G1],
        points: &[Vec<Fr>],
        evals: &[EvaluationForShift],
        transcript: &mut Keccak256Transcript,
    ) -> (r: Result<(), Error>)
        requires
            old(transcript).wf(),
            points@.len() > 0,
            pow2(ceil_log2(evals@.len())) <= usize::MAX,
            old(transcript).pos() + 32 * (points@[0]@.len() + 3) <= usize::MAX,
            forall|k: int| 0 <= k < evals@.len() ==> (#[trigger] evals@[k]).poly < comms@.len(),
        ensures
            final(transcript).wf(),
            ({
                let t = *old(transcript);
                let u = vals(points@[0]@);
                let ok_reads = reads_ok(t.stream(), t.pos(), (u.len() + 3) as nat);
                let check = batch_verify_check(*vp, deref_all(comms@), evals@, u, t.state(), t.stream(), t.pos());
                match validate_msg("batch verify"@, num_vars as nat, Seq::empty(), lens_of(points@)) {
                    Some(m) => r matches Err(Error::InvalidPcsParam(m2)) && m2@ == m,
                    None => {
                        &&& ok_reads && check ==> r is Ok
                        &&& ok_reads && !check ==> (r matches Err(Error::InvalidPcsOpen(m)) && m@ == invalid_open_msg())
                        &&& !ok_reads ==> (r matches Err(Error::Transcript(_, m)) && m@ == read_comm_msg())
                    },
                }
            }),
            forall|s: int, cvals: Seq<int>, rlog: int, logs: Seq<int>|
                #![trigger batch_equation(s, cvals, rlog, logs, evals@, vals(points@[0]@), old(transcript).state(), old(transcript).stream(), old(transcript).pos())]
                validate_msg("batch verify"@, num_vars as nat, Seq::empty(), lens_of(points@)) is None
                && vp.g1_spec()@ == g1_mul(1) && vp.g2_spec()@ == g2_mul(1) && vp.s_g2_spec()@ == g2_mul(s)
                && cvals.len() == comms@.len() && (forall|i: int| 0 <= i < comms@.len() ==> (#[trigger] comms@[i])@ == g1_mul(cvals[i]))
                && chunk(old(transcript).stream(), old(transcript).pos()) == g1_mul(rlog)
                && logs.len() == points@[0]@.len() + 2
                && chunks(old(transcript).stream(), old(transcript).pos() + 32, (points@[0]@.len() + 2) as nat) == g1_muls(logs)
                && reads_ok(old(transcript).stream(), old(transcript).pos(), (points@[0]@.len() + 3) as nat)
                && batch_equation(s, cvals, rlog, logs, evals@, vals(points@[0]@), old(transcript).state(), old(transcript).stream(), old(transcript).pos())
                ==> r is Ok,
    {
        let no_polys: Vec<&MultilinearPolynomial> = Vec::new();
        proof {
            assert(vars_of(no_polys@) =~= Seq::<nat>::empty());
        }
        validate_input("batch verify", num_vars, no_polys.as_slice(), points)?;
        let ghost st0 = transcript.state();
        let ghost s0 = transcript.stream();
        let ghost p0 = transcript.pos();
        let n = points[0].len();
        let ell = next_pow2_log(evals.len());
        let t = transcript.squeeze_challenges(ell);
        proof {
            crate::transcript::lemma_challenges_len(st0, ell as nat);
            assert(vals(t@).len() == t@.len());
            if reads_ok(s0, p0, (n + 3) as nat) {
                assert(crate::curve::g1_decodes(chunk(s0, p0 + 32 * 0)));
            }
        }
        let rotate_comm = transcript.read_commitment()?;
        let eq_xt = MultilinearPolynomial::eq_xy(t.as_slice());
        let eq = eq_xt.evals();
        let cur = split(evals, true);
        let rot = split(evals, false);
        let nc = cur.len();
        let nr = rot.len();
        proof {
            lemma_split_subset(evals@, true);
            lemma_split_lens(evals@);
            lemma_ceil_log2(evals.len() as nat);
            assert(vals(eq@).len() == eq@.len());
            crate::poly::lemma_eq_table_len(vals(t@));
        }
        let w_cur = slice_copy(eq.as_slice(), 0, nc);
        let w_rot = slice_copy(eq.as_slice(), nc, nc + nr);
        let v_cur = group_values(cur.as_slice());
        let v_rot = group_values(rot.as_slice());
        let tilde = inner_product(v_cur.as_slice(), w_cur.as_slice()).add(&inner_product(v_rot.as_slice(), w_rot.as_slice()));
        let mut scalars = copy_table(w_cur.as_slice());
        scalars.push(Fr::one());
        let mut bases: Vec<G1> = Vec::new();
        let mut i: usize = 0;
        while i < nc
            invariant
                i <= nc,
                nc == cur.len(),
                forall|k: int| 0 <= k < evals@.len() ==> (#[trigger] evals@[k]).poly < comms@.len(),
                forall|k: int| 0 <= k < cur@.len() ==> evals@.contains(#[trigger] cur@[k]),
                bases@.len() == i,
                forall|k: int| 0 <= k < i ==> #[trigger] bases@[k]@ == eval_comms(deref_all(comms@), cur@)[k],
            decreases nc - i,
        {
            proof {
                let j = choose|j: int| 0 <= j < evals@.len() && evals@[j] == cur@[i as int];
                assert(evals@[j].poly < comms@.len());
            }
            bases.push(*comms[cur[i].poly]);
            i += 1;
        }
        bases.push(rotate_comm);
        let c = g1_msm(scalars.as_slice(), bases.as_slice());
        proof {
            crate::field::lemma_pow2_gt(0);
        }
        let ghost vs0 = transcript.stream();
        let ghost vp0 = transcript.pos();
        let ghost vst0 = transcript.state();
        let r = Self::verify(vp, &c, points[0].as_slice(), &tilde, transcript);
        proof {
            let u = vals(points@[0]@);
            let (tt, st1) = challenges_of(st0, ceil_log2(evals@.len()));
            let eqs = eq_table(tt);
            assert(vals(eq@) == eqs);
            let wc = eqs.take(nc as int);
            let wr = eqs.subrange(nc as int, (nc + nr) as int);
            assert(vals(w_cur@) =~= wc);
            assert(vals(w_rot@) =~= wr);
            assert(vals(scalars@) =~= wc + seq![1]);
            assert(g1_views(bases@) =~= eval_comms(deref_all(comms@), cur@) + seq![chunk(s0, p0)]);
            assert(reads_ok(s0, p0, (n + 3) as nat) == reads_ok(s0, p0 + 32, (n + 2) as nat)) by {
                if reads_ok(s0, p0 + 32, (n + 2) as nat) && crate::curve::g1_decodes(chunk(s0, p0)) {
                    assert forall|k: int| 0 <= k < n + 3 implies crate::curve::g1_decodes(#[trigger] chunk(s0, p0 + 32 * k)) by {
                        if k > 0 {
                            assert(chunk(s0, p0 + 32 + 32 * (k - 1)) == chunk(s0, p0 + 32 * k));
                        }
                    }
                }
                if reads_ok(s0, p0, (n + 3) as nat) {
                    assert forall|k: int| 0 <= k < n + 2 implies crate::curve::g1_decodes(#[trigger] chunk(s0, p0 + 32 + 32 * k)) by {
                        assert(chunk(s0, p0 + 32 * (k + 1)) == chunk(s0, p0 + 32 + 32 * k));
                    }
                }
            }
            assert forall|s: int, cvals: Seq<int>, rlog: int, logs: Seq<int>|
                #![trigger batch_equation(s, cvals, rlog, logs, evals@, u, st0, s0, p0)]
                validate_msg("batch verify"@, num_vars as nat, Seq::empty(), lens_of(points@)) is None
                && vp.g1_spec()@ == g1_mul(1) && vp.g2_spec()@ == g2_mul(1) && vp.s_g2_spec()@ == g2_mul(s)
                && cvals.len() == comms@.len() && (forall|i: int| 0 <= i < comms@.len() ==> (#[trigger] comms@[i])@ == g1_mul(cvals[i]))
                && chunk(s0, p0) == g1_mul(rlog)
                && logs.len() == n + 2
                && chunks(s0, p0 + 32, (n + 2) as nat) == g1_muls(logs)
                && reads_ok(s0, p0, (n + 3) as nat)
                && batch_equation(s, cvals, rlog, logs, evals@, u, st0, s0, p0) implies r is Ok by {
                let a = claim_values(cvals, cur@);
                assert(g1_views(bases@) =~= g1_muls(a + seq![rlog])) by {
                    assert forall|j: int| 0 <= j < nc implies #[trigger] eval_comms(deref_all(comms@), cur@)[j] == g1_muls(a)[j] by {
                        let jj = choose|jj: int| 0 <= jj < evals@.len() && evals@[jj] == cur@[j];
                        assert(evals@[jj].poly < comms@.len());
                        assert(deref_all(comms@)[cur@[j].poly as int] == *comms@[cur@[j].poly as int]);
                    }
                }
                crate::completeness::lemma_dot_concat(wc, seq![1], a, seq![rlog]);
                crate::completeness::lemma_dot_small(1, 0, 0, 0, rlog, 0, 0, 0);
                assert(c@ == g1_mul(dot(wc, a) + rlog));
            }
        }
        r
    }
}

} // verus!
