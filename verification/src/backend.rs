//! The description of a Plonkish circuit that a backend proves.

use crate::error::Error;
use crate::expression::{
    challenges_of, degree_of, insert_usize, polys_of, queries_of, usizes_sorted, Expression, Query,
};
use crate::field::Fr;
use vstd::prelude::*;

verus! {

/// A description is well formed exactly when it has a witness polynomial,
/// its permutation cycles and the queries of its constraints and lookups
/// name only existing polynomials (below the number of instance,
/// preprocessed and witness polynomials), no expression uses a challenge,
/// and no constraint exceeds the maximum degree.
pub proof fn lemma_well_formed_ranges(info: PlonkishCircuitInfo)
    ensures
        info.well_formed() <==> {
            &&& info.num_witness_polys > 0
            &&& info.cycles_in_range()
            &&& info.queries_in_range()
            &&& forall|i: int| 0 <= i < info.all_expressions().len()
                ==> #[trigger] challenges_of(info.all_expressions()[i]).is_empty()
            &&& (info.max_degree matches Some(d) ==> forall|i: int|
                0 <= i < info.constraints.len() ==> #[trigger] degree_of(info.constraints@[i]) <= d)
        },
{
    let ex = info.all_expressions();
    if info.well_formed() {
        assert forall|i: int, j: int|
            0 <= i < info.permutations@.len() && 0 <= j < info.permutations@[i]@.len()
                implies (#[trigger] info.permutations@[i]@[j]).0 < info.num_poly_spec() by {
            let x = info.permutations@[i]@[j].0;
            assert(perm_polys(info.permutations@).contains(x));
            assert(info.used_polys().contains(x));
        }
        assert forall|i: int, q: Query|
            0 <= i < ex.len() && #[trigger] queries_of(ex[i]).contains(q) implies q.poly < info.num_poly_spec() by {
            assert(polys_of(ex[i]).contains(q.poly));
            assert(info.used_polys().contains(q.poly));
        }
    }
    if info.num_witness_polys > 0 && info.cycles_in_range() && info.queries_in_range() {
        assert forall|x: usize| #[trigger] info.used_polys().contains(x) implies x < info.num_poly_spec() by {
            if perm_polys(info.permutations@).contains(x) {
                let (i, j) = choose|i: int, j: int|
                    0 <= i < info.permutations@.len() && 0 <= j < info.permutations@[i]@.len()
                        && #[trigger] info.permutations@[i]@[j].0 == x;
                assert(info.permutations@[i]@[j].0 < info.num_poly_spec());
            } else {
                let i = choose|i: int| 0 <= i < ex.len() && #[trigger] polys_of(ex[i]).contains(x);
                let q = choose|q: Query| queries_of(ex[i]).contains(q) && q.poly == x;
                assert(queries_of(ex[i]).contains(q));
            }
        }
    }
}

/// A Plonkish circuit: its polynomials, constraints, lookups and permutations.
pub struct PlonkishCircuitInfo {
    /// `2^k` is the size of the circuit.
    pub k: usize,
    /// Number of instance polynomials.
    pub num_instances: usize,
    /// Preprocessed polynomials, indexed from `num_instances`.
    pub preprocess_polys: Vec<Vec<Fr>>,
    /// Number of witness polynomials, indexed after the preprocessed ones.
    pub num_witness_polys: usize,
    /// Named advice columns.
    pub named_witnesses: Vec<(String, u32)>,
    /// Constraints.
    pub constraints: Vec<Expression>,
    /// Each lookup is a list of pairs of an input and a table expression.
    pub lookups: Vec<Vec<(Expression, Expression)>>,
    /// Each permutation is a closed cycle of (polynomial index, row) pairs.
    pub permutations: Vec<Vec<(usize, usize)>>,
    /// Maximum degree of the constraints.
    pub max_degree: Option<usize>,
}

/// The input and table expressions of a lookup, in order.
pub open spec fn pairs_flat(ps: Seq<(Expression, Expression)>) -> Seq<Expression>
    decreases ps.len(),
{
    if ps.len() == 0 {
        Seq::empty()
    } else {
        pairs_flat(ps.drop_last()) + seq![ps.last().0, ps.last().1]
    }
}

/// The expressions of all lookups, in order.
pub open spec fn lookups_flat(ls: Seq<Vec<(Expression, Expression)>>) -> Seq<Expression>
    decreases ls.len(),
{
    if ls.len() == 0 {
        Seq::empty()
    } else {
        lookups_flat(ls.drop_last()) + pairs_flat(ls.last()@)
    }
}

/// The polynomials that the permutation cycles mention.
pub open spec fn perm_polys(perms: Seq<Vec<(usize, usize)>>) -> Set<usize> {
    Set::new(
        |x: usize|
            exists|i: int, j: int|
                0 <= i < perms.len() && 0 <= j < perms[i]@.len() && #[trigger] perms[i]@[j].0 == x,
    )
}

impl PlonkishCircuitInfo {
    /// The constraints followed by the inputs and tables of the lookups.
    pub open spec fn all_expressions(&self) -> Seq<Expression> {
        self.constraints@ + lookups_flat(self.lookups@)
    }

    /// The number of polynomials, as an integer.
    pub open spec fn num_poly_spec(&self) -> int {
        self.num_instances + self.preprocess_polys.len() + self.num_witness_polys
    }

    /// The polynomials queried by any expression or mentioned by a permutation.
    pub open spec fn used_polys(&self) -> Set<usize> {
        Set::new(
            |x: usize|
                (exists|i: int|
                    0 <= i < self.all_expressions().len() && #[trigger] polys_of(
                        self.all_expressions()[i],
                    ).contains(x)) || perm_polys(self.permutations@).contains(x),
        )
    }

    /// Every polynomial index is in range, no challenge is used, at least one
    /// witness polynomial exists, and no constraint exceeds the maximum degree.
    pub open spec fn well_formed(&self) -> bool {
        &&& self.num_witness_polys > 0
        &&& forall|x: usize| #[trigger] self.used_polys().contains(x) ==> x < self.num_poly_spec()
        &&& forall|i: int|
            0 <= i < self.all_expressions().len() ==> #[trigger] challenges_of(
                self.all_expressions()[i],
            ).is_empty()
        &&& (self.max_degree matches Some(d) ==> forall|i: int|
            0 <= i < self.constraints.len() ==> #[trigger] degree_of(self.constraints@[i]) <= d)
    }

    /// Every polynomial that a permutation cycle names exists.
    pub open spec fn cycles_in_range(&self) -> bool {
        forall|i: int, j: int|
            0 <= i < self.permutations@.len() && 0 <= j < self.permutations@[i]@.len()
                ==> (#[trigger] self.permutations@[i]@[j]).0 < self.num_poly_spec()
    }

    /// Every polynomial that a constraint or a lookup queries exists.
    pub open spec fn queries_in_range(&self) -> bool {
        forall|i: int, q: Query|
            0 <= i < self.all_expressions().len() && #[trigger] queries_of(self.all_expressions()[i]).contains(q)
                ==> q.poly < self.num_poly_spec()
    }

    /// The number of polynomials: instance, preprocessed and witness.
    pub fn num_poly(&self) -> (r: usize)
        requires
            self.num_poly_spec() <= usize::MAX,
        ensures
            r == self.num_poly_spec(),
    {
        self.num_instances + self.preprocess_polys.len() + self.num_witness_polys
    }

    /// The polynomials that the permutation cycles mention, in increasing
    /// order, each once.
    pub fn permutation_polys(&self) -> (r: Vec<usize>)
        ensures
            usizes_sorted(r@),
            forall|x: usize| #[trigger] r@.contains(x) <==> perm_polys(self.permutations@).contains(x),
    {
        let mut r: Vec<usize> = Vec::new();
        let mut i: usize = 0;
        while i < self.permutations.len()
            invariant
                i <= self.permutations.len(),
                usizes_sorted(r@),
                forall|x: usize| #[trigger] r@.contains(x) <==> exists|a: int, b: int|
                    0 <= a < i && 0 <= b < self.permutations@[a]@.len()
                        && #[trigger] self.permutations@[a]@[b].0 == x,
            decreases self.permutations.len() - i,
        {
            let cycle = &self.permutations[i];
            let mut j: usize = 0;
            while j < cycle.len()
                invariant
                    i < self.permutations.len(),
                    *cycle == self.permutations@[i as int],
                    j <= cycle.len(),
                    usizes_sorted(r@),
                    forall|x: usize| #[trigger] r@.contains(x) <==> (exists|a: int, b: int|
                        0 <= a < i && 0 <= b < self.permutations@[a]@.len()
                            && #[trigger] self.permutations@[a]@[b].0 == x) || (exists|b: int|
                        0 <= b < j && #[trigger] cycle@[b].0 == x),
                decreases cycle.len() - j,
            {
                let ghost before = r@;
                insert_usize(&mut r, cycle[j].0);
                proof {
                    assert forall|x: usize| #[trigger] r@.contains(x) <==> (exists|a: int, b: int|
                        0 <= a < i && 0 <= b < self.permutations@[a]@.len()
                            && #[trigger] self.permutations@[a]@[b].0 == x) || (exists|b: int|
                        0 <= b < j + 1 && #[trigger] cycle@[b].0 == x) by {
                        if x == cycle@[j as int].0 {
                            assert(cycle@[j as int].0 == x);
                        }
                    }
                }
                j += 1;
            }
            proof {
                assert forall|x: usize| #[trigger] r@.contains(x) <==> exists|a: int, b: int|
                    0 <= a < i + 1 && 0 <= b < self.permutations@[a]@.len()
                        && #[trigger] self.permutations@[a]@[b].0 == x by {
                    if exists|b: int| 0 <= b < cycle@.len() && #[trigger] cycle@[b].0 == x {
                        let b = choose|b: int| 0 <= b < cycle@.len() && #[trigger] cycle@[b].0 == x;
                        assert(self.permutations@[i as int]@[b].0 == x);
                    }
                    if exists|a: int, b: int|
                        0 <= a < i + 1 && 0 <= b < self.permutations@[a]@.len()
                            && #[trigger] self.permutations@[a]@[b].0 == x {
                        let (a, b) = choose|a: int, b: int|
                            0 <= a < i + 1 && 0 <= b < self.permutations@[a]@.len()
                                && #[trigger] self.permutations@[a]@[b].0 == x;
                        if a == i {
                            assert(cycle@[b].0 == x);
                        }
                    }
                }
            }
            i += 1;
        }
        r
    }

    /// The constraints followed by the input and table of each lookup pair.
    pub fn expressions(&self) -> (r: Vec<&Expression>)
        ensures
            derefs(r@) == self.all_expressions(),
    {
        let mut r: Vec<&Expression> = Vec::new();
        let mut i: usize = 0;
        while i < self.constraints.len()
            invariant
                i <= self.constraints.len(),
                derefs(r@) == self.constraints@.take(i as int),
            decreases self.constraints.len() - i,
        {
            let ghost before = r@;
            r.push(&self.constraints[i]);
            proof {
                lemma_derefs_push(before, &self.constraints[i as int]);
                assert(derefs(r@) =~= self.constraints@.take(i + 1));
            }
            i += 1;
        }
        proof {
            assert(self.constraints@.take(i as int) =~= self.constraints@);
            assert(self.lookups@.take(0) =~= Seq::<Vec<(Expression, Expression)>>::empty());
            assert(derefs(r@) =~= self.constraints@ + lookups_flat(self.lookups@.take(0)));
        }
        let mut i: usize = 0;
        while i < self.lookups.len()
            invariant
                i <= self.lookups.len(),
                derefs(r@) == self.constraints@ + lookups_flat(self.lookups@.take(i as int)),
            decreases self.lookups.len() - i,
        {
            let lookup = &self.lookups[i];
            let ghost base = derefs(r@);
            let mut j: usize = 0;
            proof {
                assert(lookup@.take(0) =~= Seq::<(Expression, Expression)>::empty());
                assert(base + pairs_flat(lookup@.take(0)) =~= base);
            }
            while j < lookup.len()
                invariant
                    j <= lookup.len(),
                    derefs(r@) == base + pairs_flat(lookup@.take(j as int)),
                decreases lookup.len() - j,
            {
                let ghost before = r@;
                r.push(&lookup[j].0);
                r.push(&lookup[j].1);
                proof {
                    let t = lookup@.take(j + 1);
                    assert(t.drop_last() =~= lookup@.take(j as int));
                    lemma_derefs_push(before, &lookup@[j as int].0);
                    lemma_derefs_push(before.push(&lookup@[j as int].0), &lookup@[j as int].1);
                    assert(derefs(r@) =~= derefs(before) + seq![lookup@[j as int].0, lookup@[j as int].1]);
                    assert(derefs(r@) =~= base + pairs_flat(t));
                }
                j += 1;
            }
            proof {
                let t = self.lookups@.take(i + 1);
                assert(t.drop_last() =~= self.lookups@.take(i as int));
                assert(lookup@.take(j as int) =~= lookup@);
                assert(derefs(r@) =~= self.constraints@ + lookups_flat(t));
            }
            i += 1;
        }
        proof {
            assert(self.lookups@.take(i as int) =~= self.lookups@);
        }
        r
    }

    /// Whether the circuit is well formed.
    pub fn is_well_formed(&self) -> (r: bool)
        requires
            self.num_poly_spec() <= usize::MAX,
            self.max_degree is Some ==> forall|i: int|
                0 <= i < self.constraints.len() ==> #[trigger] degree_of(self.constraints@[i]) <= usize::MAX,
        ensures
            r == self.well_formed(),
            r <==> {
                &&& self.num_witness_polys > 0
                &&& self.cycles_in_range()
                &&& self.queries_in_range()
                &&& forall|i: int| 0 <= i < self.all_expressions().len()
                    ==> #[trigger] challenges_of(self.all_expressions()[i]).is_empty()
                &&& (self.max_degree matches Some(d) ==> forall|i: int|
                    0 <= i < self.constraints.len() ==> #[trigger] degree_of(self.constraints@[i]) <= d)
            },
    {
        proof {
            lemma_well_formed_ranges(*self);
        }
        let num_poly = self.num_poly();
        let exprs = self.expressions();
        let mut polys: Vec<usize> = Vec::new();
        let mut no_challenge = true;
        let mut i: usize = 0;
        while i < exprs.len()
            invariant
                i <= exprs.len(),
                derefs(exprs@) == self.all_expressions(),
                usizes_sorted(polys@),
                forall|x: usize| #[trigger] polys@.contains(x) <==> exists|a: int|
                    0 <= a < i && #[trigger] polys_of(self.all_expressions()[a]).contains(x),
                no_challenge == forall|a: int| 0 <= a < i ==> #[trigger] challenges_of(self.all_expressions()[a]).is_empty(),
            decreases exprs.len() - i,
        {
            let e: &Expression = exprs[i];
            proof {
                assert(*e == derefs(exprs@)[i as int]);
            }
            let used = e.used_poly();
            let ghost start = polys@;
            let mut j: usize = 0;
            while j < used.len()
                invariant
                    j <= used.len(),
                    usizes_sorted(polys@),
                    forall|x: usize| #[trigger] polys@.contains(x) <==> (start.contains(x) || exists|b: int|
                        0 <= b < j && #[trigger] used@[b] == x),
                decreases used.len() - j,
            {
                insert_usize(&mut polys, used[j]);
                proof {
                    assert forall|x: usize| #[trigger] polys@.contains(x) <==> (start.contains(x) || exists|b: int|
                        0 <= b < j + 1 && #[trigger] used@[b] == x) by {
                        if x == used@[j as int] {
                            assert(used@[j as int] == x);
                        }
                    }
                }
                j += 1;
            }
            let ch = e.used_challenge();
            proof {
                let ex = self.all_expressions()[i as int];
                if !challenges_of(ex).is_empty() {
                    let c = challenges_of(ex).choose();
                    assert(challenges_of(ex).contains(c));
                    assert(ch@.contains(c));
                }
            }
            if ch.len() > 0 {
                proof {
                    assert(ch@.contains(ch@[0]));
                }
                no_challenge = false;
            }
            proof {
                assert forall|x: usize| #[trigger] polys@.contains(x) <==> exists|a: int|
                    0 <= a < i + 1 && #[trigger] polys_of(self.all_expressions()[a]).contains(x) by {
                    if used@.contains(x) {
                        assert(polys_of(self.all_expressions()[i as int]).contains(x));
                    }
                    if polys_of(self.all_expressions()[i as int]).contains(x) {
                        assert(used@.contains(x));
                        let b = choose|b: int| 0 <= b < used@.len() && used@[b] == x;
                        assert(used@[b] == x);
                    }
                }
            }
            i += 1;
        }
        let perm = self.permutation_polys();
        let ghost start = polys@;
        let mut j: usize = 0;
        while j < perm.len()
            invariant
                j <= perm.len(),
                usizes_sorted(polys@),
                forall|x: usize| #[trigger] polys@.contains(x) <==> (start.contains(x) || exists|b: int|
                    0 <= b < j && #[trigger] perm@[b] == x),
            decreases perm.len() - j,
        {
            insert_usize(&mut polys, perm[j]);
            proof {
                assert forall|x: usize| #[trigger] polys@.contains(x) <==> (start.contains(x) || exists|b: int|
                    0 <= b < j + 1 && #[trigger] perm@[b] == x) by {
                    if x == perm@[j as int] {
                        assert(perm@[j as int] == x);
                    }
                }
            }
            j += 1;
        }
        proof {
            assert forall|x: usize| #[trigger] polys@.contains(x) <==> self.used_polys().contains(x) by {
                if perm@.contains(x) {
                    let b = choose|b: int| 0 <= b < perm@.len() && perm@[b] == x;
                    assert(perm@[b] == x);
                }
                if exists|b: int| 0 <= b < perm@.len() && #[trigger] perm@[b] == x {
                    let b = choose|b: int| 0 <= b < perm@.len() && #[trigger] perm@[b] == x;
                    assert(perm@.contains(perm@[b]));
                }
            }
        }
        let in_range = polys.len() == 0 || polys[polys.len() - 1] < num_poly;
        proof {
            if polys.len() > 0 {
                let last = polys@[polys.len() - 1];
                assert forall|x: usize| #[trigger] polys@.contains(x) implies x <= last by {
                    let k = choose|k: int| 0 <= k < polys@.len() && polys@[k] == x;
                    if k < polys.len() - 1 {
                        assert(polys@[k] < polys@[polys.len() - 1]);
                    }
                }
                assert(polys@.contains(last));
                if last < num_poly {
                    assert forall|x: usize| #[trigger] self.used_polys().contains(x) implies x < self.num_poly_spec() by {
                        assert(polys@.contains(x));
                    }
                } else {
                    assert(self.used_polys().contains(last));
                }
            } else {
                assert forall|x: usize| #[trigger] self.used_polys().contains(x) implies x < self.num_poly_spec() by {
                    assert(polys@.contains(x));
                }
            }
        }
        let degree_ok = match self.max_degree {
            Some(d) => {
                let mut ok = true;
                let mut c: usize = 0;
                while c < self.constraints.len()
                    invariant
                        c <= self.constraints.len(),
                        self.max_degree == Some(d),
                        forall|i: int|
                            0 <= i < self.constraints.len() ==> #[trigger] degree_of(self.constraints@[i]) <= usize::MAX,
                        ok == forall|i: int| 0 <= i < c ==> #[trigger] degree_of(self.constraints@[i]) <= d,
                    decreases self.constraints.len() - c,
                {
                    if self.constraints[c].degree() > d {
                        ok = false;
                    }
                    c += 1;
                }
                ok
            },
            None => true,
        };
        proof {
            assert(in_range == forall|x: usize| #[trigger] self.used_polys().contains(x) ==> x < self.num_poly_spec());
            assert(no_challenge == forall|a: int| 0 <= a < self.all_expressions().len() ==> #[trigger] challenges_of(self.all_expressions()[a]).is_empty());
            assert(degree_ok == (self.max_degree matches Some(d) ==> forall|i: int|
                0 <= i < self.constraints.len() ==> #[trigger] degree_of(self.constraints@[i]) <= d));
        }
        self.num_witness_polys > 0 && in_range && no_challenge && degree_ok
    }
}

/// Dereferences a sequence of references.
pub open spec fn derefs(r: Seq<&Expression>) -> Seq<Expression> {
    r.map_values(|e: &Expression| *e)
}

proof fn lemma_derefs_push(s: Seq<&Expression>, x: &Expression)
    ensures
        derefs(s.push(x)) == derefs(s).push(*x),
{
    assert(derefs(s.push(x)) =~= derefs(s).push(*x));
}

/// A circuit that a backend can prove.
pub trait PlonkishCircuit {
    /// The circuit description.
    fn circuit_info(&self) -> Result<PlonkishCircuitInfo, Error>;

    /// The instance values, one vector per instance polynomial.
    fn instances(&self) -> &[Vec<Fr>];

    /// The witness values, one vector per witness polynomial.
    fn synthesize(&self) -> Result<Vec<Vec<Fr>>, Error>;
}

/// How the rows of a circuit are laid out.
pub trait WitnessEncoding {
    /// The rows that hold usable values, for a circuit of size `2^k`.
    fn row_mapping(k: usize) -> Vec<usize>;
}

} // verus!
