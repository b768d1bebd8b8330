//! Constraint expressions over polynomial queries.

use crate::field::Fr;
use vstd::prelude::*;

verus! {

/// A rotation of the hypercube: `0` is the current row.
#[derive(Clone, Copy, Debug, PartialEq, Eq)]
pub struct Rotation(pub i32);

impl Rotation {
    /// The current row.
    pub fn cur() -> (r: Rotation)
        ensures
            r.0 == 0,
    {
        Rotation(0)
    }

    /// The magnitude of the rotation.
    pub open spec fn dist(self) -> nat {
        if self.0 < 0 {
            (-self.0) as nat
        } else {
            self.0 as nat
        }
    }

    /// The magnitude of the rotation.
    pub fn distance(&self) -> (r: usize)
        ensures
            r == self.dist(),
    {
        if self.0 < 0 {
            if self.0 == i32::MIN {
                2147483648usize
            } else {
                (-self.0) as usize
            }
        } else {
            self.0 as usize
        }
    }
}

/// A query of polynomial `poly` at rotation `rotation`.
#[derive(Clone, Copy, Debug, PartialEq, Eq)]
pub struct Query {
    pub poly: usize,
    pub rotation: Rotation,
}

/// The order of queries: by polynomial, then by rotation.
pub open spec fn query_lt(a: Query, b: Query) -> bool {
    a.poly < b.poly || (a.poly == b.poly && a.rotation.0 < b.rotation.0)
}

/// `s` is strictly increasing in the order of queries.
pub open spec fn queries_sorted(s: Seq<Query>) -> bool {
    forall|i: int, j: int| 0 <= i < j < s.len() ==> query_lt(#[trigger] s[i], #[trigger] s[j])
}

/// `s` is strictly increasing.
pub open spec fn usizes_sorted(s: Seq<usize>) -> bool {
    forall|i: int, j: int| 0 <= i < j < s.len() ==> #[trigger] s[i] < #[trigger] s[j]
}

impl Query {
    pub fn new(poly: usize, rotation: Rotation) -> (r: Query)
        ensures
            r.poly == poly,
            r.rotation == rotation,
    {
        Query { poly, rotation }
    }

    pub fn poly(&self) -> (r: usize)
        ensures
            r == self.poly,
    {
        self.poly
    }

    pub fn rotation(&self) -> (r: Rotation)
        ensures
            r == self.rotation,
    {
        self.rotation
    }

    /// Whether `self` comes before `other`.
    pub fn lt(&self, other: &Query) -> (r: bool)
        ensures
            r == query_lt(*self, *other),
    {
        self.poly < other.poly || (self.poly == other.poly && self.rotation.0 < other.rotation.0)
    }

    /// Whether the two queries are equal.
    pub fn same(&self, other: &Query) -> (r: bool)
        ensures
            r == (*self == *other),
    {
        self.poly == other.poly && self.rotation.0 == other.rotation.0
    }
}

/// Polynomials that every circuit has.
#[derive(Clone, Copy, Debug, PartialEq, Eq)]
pub enum CommonPolynomial {
    Identity,
    Lagrange(i32),
    EqXY(usize),
}

/// A constraint expression.
#[derive(Debug, PartialEq, Eq)]
pub enum Expression {
    Constant(Fr),
    CommonPolynomial(CommonPolynomial),
    Polynomial(Query),
    Challenge(usize),
    Negated(Box<Expression>),
    Sum(Box<Expression>, Box<Expression>),
    Product(Box<Expression>, Box<Expression>),
    Scaled(Box<Expression>, Fr),
}

/// The degree of an expression in the polynomials it queries.
pub open spec fn degree_of(e: Expression) -> nat
    decreases e,
{
    match e {
        Expression::Constant(_) => 0,
        Expression::CommonPolynomial(_) => 1,
        Expression::Polynomial(_) => 1,
        Expression::Challenge(_) => 0,
        Expression::Negated(a) => degree_of(*a),
        Expression::Sum(a, b) => {
            let da = degree_of(*a);
            let db = degree_of(*b);
            if da >= db {
                da
            } else {
                db
            }
        },
        Expression::Product(a, b) => degree_of(*a) + degree_of(*b),
        Expression::Scaled(a, _) => degree_of(*a),
    }
}

/// The queries that an expression makes.
pub open spec fn queries_of(e: Expression) -> Set<Query>
    decreases e,
{
    match e {
        Expression::Polynomial(q) => set![q],
        Expression::Negated(a) => queries_of(*a),
        Expression::Sum(a, b) => queries_of(*a).union(queries_of(*b)),
        Expression::Product(a, b) => queries_of(*a).union(queries_of(*b)),
        Expression::Scaled(a, _) => queries_of(*a),
        _ => Set::empty(),
    }
}

/// The challenges that an expression uses.
pub open spec fn challenges_of(e: Expression) -> Set<usize>
    decreases e,
{
    match e {
        Expression::Challenge(c) => set![c],
        Expression::Negated(a) => challenges_of(*a),
        Expression::Sum(a, b) => challenges_of(*a).union(challenges_of(*b)),
        Expression::Product(a, b) => challenges_of(*a).union(challenges_of(*b)),
        Expression::Scaled(a, _) => challenges_of(*a),
        _ => Set::empty(),
    }
}

/// The polynomials that an expression queries.
pub open spec fn polys_of(e: Expression) -> Set<usize> {
    queries_of(e).map(|q: Query| q.poly)
}

/// Inserts `q` into the strictly increasing `v`.
pub fn insert_query(v: &mut Vec<Query>, q: Query)
    requires
        queries_sorted(old(v)@),
    ensures
        queries_sorted(final(v)@),
        forall|x: Query| #[trigger] final(v)@.contains(x) <==> (old(v)@.contains(x) || x == q),
{
    let mut i: usize = 0;
    while i < v.len() && v[i].lt(&q)
        invariant
            i <= v.len(),
            forall|j: int| 0 <= j < i ==> query_lt(#[trigger] v[j], q),
        decreases v.len() - i,
    {
        i += 1;
    }
    if i < v.len() && v[i].same(&q) {
        proof {
            assert(old(v)@.contains(q)) by {
                assert(old(v)@[i as int] == q);
            }
        }
        return ;
    }
    let ghost before = v@;
    v.insert(i, q);
    proof {
        assert(v@ =~= before.take(i as int).push(q) + before.skip(i as int));
        assert forall|a: int, b: int| 0 <= a < b < v@.len() implies query_lt(
            #[trigger] v@[a],
            #[trigger] v@[b],
        ) by {
            if a < i && b > i {
                assert(query_lt(before[a], before[b - 1]) || a == b - 1);
            }
            if a == i && b > i + 1 {
                assert(query_lt(before[i as int], before[b - 1]) || b - 1 == i);
            }
        }
        assert forall|x: Query| #[trigger] v@.contains(x) <==> (before.contains(x) || x == q) by {
            if v@.contains(x) {
                let k = choose|k: int| 0 <= k < v@.len() && v@[k] == x;
                if k < i {
                    assert(before[k] == x);
                } else if k > i {
                    assert(before[k - 1] == x);
                }
            }
            if before.contains(x) {
                let k = choose|k: int| 0 <= k < before.len() && before[k] == x;
                if k < i {
                    assert(v@[k] == x);
                } else {
                    assert(v@[k + 1] == x);
                }
            }
            if x == q {
                assert(v@[i as int] == q);
            }
        }
    }
}

/// Inserts `x` into the strictly increasing `v`.
pub fn insert_usize(v: &mut Vec<usize>, x: usize)
    requires
        usizes_sorted(old(v)@),
    ensures
        usizes_sorted(final(v)@),
        forall|y: usize| #[trigger] final(v)@.contains(y) <==> (old(v)@.contains(y) || y == x),
{
    let mut i: usize = 0;
    while i < v.len() && v[i] < x
        invariant
            i <= v.len(),
            forall|j: int| 0 <= j < i ==> #[trigger] v[j] < x,
        decreases v.len() - i,
    {
        i += 1;
    }
    if i < v.len() && v[i] == x {
        proof {
            assert(old(v)@[i as int] == x);
        }
        return ;
    }
    let ghost before = v@;
    v.insert(i, x);
    proof {
        assert(v@ =~= before.take(i as int).push(x) + before.skip(i as int));
        assert forall|a: int, b: int| 0 <= a < b < v@.len() implies #[trigger] v@[a]
            < #[trigger] v@[b] by {
            if a < i && b > i {
                assert(before[a] < before[b - 1] || a == b - 1);
            }
            if a == i && b > i + 1 {
                assert(before[i as int] < before[b - 1] || b - 1 == i);
            }
        }
        assert forall|y: usize| #[trigger] v@.contains(y) <==> (before.contains(y) || y == x) by {
            if v@.contains(y) {
                let k = choose|k: int| 0 <= k < v@.len() && v@[k] == y;
                if k < i {
                    assert(before[k] == y);
                } else if k > i {
                    assert(before[k - 1] == y);
                }
            }
            if before.contains(y) {
                let k = choose|k: int| 0 <= k < before.len() && before[k] == y;
                if k < i {
                    assert(v@[k] == y);
                } else {
                    assert(v@[k + 1] == y);
                }
            }
            if y == x {
                assert(v@[i as int] == x);
            }
        }
    }
}

impl Expression {
    /// The degree of the expression.
    pub fn degree(&self) -> (r: usize)
        requires
            degree_of(*self) <= usize::MAX,
        ensures
            r == degree_of(*self),
        decreases self,
    {
        match self {
            Expression::Constant(_) => 0,
            Expression::CommonPolynomial(_) => 1,
            Expression::Polynomial(_) => 1,
            Expression::Challenge(_) => 0,
            Expression::Negated(a) => a.degree(),
            Expression::Sum(a, b) => {
                let da = a.degree();
                let db = b.degree();
                if da >= db {
                    da
                } else {
                    db
                }
            },
            Expression::Product(a, b) => a.degree() + b.degree(),
            Expression::Scaled(a, _) => a.degree(),
        }
    }

    fn collect_queries(&self, acc: &mut Vec<Query>)
        requires
            queries_sorted(old(acc)@),
        ensures
            queries_sorted(final(acc)@),
            forall|x: Query| #[trigger] final(acc)@.contains(x) <==> (old(acc)@.contains(x)
                || queries_of(*self).contains(x)),
        decreases self,
    {
        match self {
            Expression::Polynomial(q) => {
                insert_query(acc, *q);
            },
            Expression::Negated(a) => a.collect_queries(acc),
            Expression::Sum(a, b) => {
                a.collect_queries(acc);
                b.collect_queries(acc);
            },
            Expression::Product(a, b) => {
                a.collect_queries(acc);
                b.collect_queries(acc);
            },
            Expression::Scaled(a, _) => a.collect_queries(acc),
            _ => {},
        }
    }

    fn collect_challenges(&self, acc: &mut Vec<usize>)
        requires
            usizes_sorted(old(acc)@),
        ensures
            usizes_sorted(final(acc)@),
            forall|x: usize| #[trigger] final(acc)@.contains(x) <==> (old(acc)@.contains(x)
                || challenges_of(*self).contains(x)),
        decreases self,
    {
        match self {
            Expression::Challenge(c) => {
                insert_usize(acc, *c);
            },
            Expression::Negated(a) => a.collect_challenges(acc),
            Expression::Sum(a, b) => {
                a.collect_challenges(acc);
                b.collect_challenges(acc);
            },
            Expression::Product(a, b) => {
                a.collect_challenges(acc);
                b.collect_challenges(acc);
            },
            Expression::Scaled(a, _) => a.collect_challenges(acc),
            _ => {},
        }
    }

    /// The queries the expression makes, in increasing order, each once.
    pub fn used_query(&self) -> (r: Vec<Query>)
        ensures
            queries_sorted(r@),
            forall|x: Query| #[trigger] r@.contains(x) <==> queries_of(*self).contains(x),
    {
        let mut acc: Vec<Query> = Vec::new();
        self.collect_queries(&mut acc);
        acc
    }

    /// The polynomials the expression queries, in increasing order, each once.
    pub fn used_poly(&self) -> (r: Vec<usize>)
        ensures
            usizes_sorted(r@),
            forall|x: usize| #[trigger] r@.contains(x) <==> polys_of(*self).contains(x),
    {
        let qs = self.used_query();
        let mut r: Vec<usize> = Vec::new();
        let mut i: usize = 0;
        while i < qs.len()
            invariant
                i <= qs.len(),
                usizes_sorted(r@),
                forall|x: usize| #[trigger] r@.contains(x) <==> exists|j: int| 0 <= j < i && #[trigger] qs@[j].poly == x,
            decreases qs.len() - i,
        {
            insert_usize(&mut r, qs[i].poly);
            proof {
                assert forall|x: usize| #[trigger] r@.contains(x) <==> exists|j: int| 0 <= j < i + 1 && #[trigger] qs@[j].poly == x by {
                    if x == qs@[i as int].poly {
                        assert(qs@[i as int].poly == x);
                    }
                }
            }
            i += 1;
        }
        proof {
            assert forall|x: usize| #[trigger] r@.contains(x) <==> polys_of(*self).contains(x) by {
                if r@.contains(x) {
                    let j = choose|j: int| 0 <= j < qs.len() && #[trigger] qs@[j].poly == x;
                    assert(qs@.contains(qs@[j]));
                    assert(queries_of(*self).contains(qs@[j]));
                }
                if polys_of(*self).contains(x) {
                    let q = choose|q: Query| queries_of(*self).contains(q) && q.poly == x;
                    assert(qs@.contains(q));
                    let j = choose|j: int| 0 <= j < qs.len() && qs@[j] == q;
                    assert(qs@[j].poly == x);
                }
            }
        }
        r
    }

    /// The challenges the expression uses, in increasing order, each once.
    pub fn used_challenge(&self) -> (r: Vec<usize>)
        ensures
            usizes_sorted(r@),
            forall|x: usize| #[trigger] r@.contains(x) <==> challenges_of(*self).contains(x),
    {
        let mut acc: Vec<usize> = Vec::new();
        self.collect_challenges(&mut acc);
        acc
    }
}

} // verus!
