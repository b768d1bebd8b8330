//! From a halo2 constraint system to a Plonkish circuit description.
//!
//! The constraint system is held as what the conversion reads of it: its
//! column counts, its gates and lookups as expressions over columns, its
//! named advice columns and its degree.

use crate::backend::{lookups_flat, pairs_flat, perm_polys, PlonkishCircuitInfo};
use crate::expression::{challenges_of, degree_of, polys_of, queries_of, Expression, Query, Rotation};
use crate::field::{pow2, Fr};
use crate::hyperplonk::power_of_two;
use vstd::prelude::*;

verus! {

/// A halo2 expression over the columns of a constraint system.
#[derive(Debug)]
pub enum Halo2Expression {
    Constant(Fr),
    Selector(usize),
    Fixed { column_index: usize, rotation: i32 },
    Advice { column_index: usize, rotation: i32 },
    Instance { column_index: usize, rotation: i32 },
    Negated(Box<Halo2Expression>),
    Sum(Box<Halo2Expression>, Box<Halo2Expression>),
    Product(Box<Halo2Expression>, Box<Halo2Expression>),
    Scaled(Box<Halo2Expression>, Fr),
}

/// The kinds of columns of a constraint system.
#[derive(Clone, Copy, Debug, PartialEq, Eq)]
pub enum ColumnKind {
    Instance,
    Fixed,
    Advice,
}

/// What the conversion reads of a halo2 constraint system.
pub struct ConstraintSystem {
    pub num_instance_columns: usize,
    pub num_fixed_columns: usize,
    pub num_selectors: usize,
    pub num_advice_columns: usize,
    /// The polynomials of each gate.
    pub gates: Vec<Vec<Halo2Expression>>,
    /// The input and table expressions of each lookup.
    pub lookups: Vec<(Vec<Halo2Expression>, Vec<Halo2Expression>)>,
    pub named_advices: Vec<(String, u32)>,
    /// The degree of the constraint system.
    pub degree: usize,
}

impl ConstraintSystem {
    /// The column counts fit together in a `usize`.
    pub open spec fn counts_fit(&self) -> bool {
        self.num_instance_columns + self.num_fixed_columns + self.num_selectors + self.num_advice_columns <= usize::MAX
    }

    /// The index of the first advice polynomial.
    pub open spec fn advice_offset(&self) -> int {
        self.num_instance_columns + self.num_fixed_columns + self.num_selectors
    }
}

/// The index of the first advice polynomial: after the instance, fixed and
/// selector polynomials.
pub fn get_advice_offset(cs: &ConstraintSystem) -> (r: usize)
    requires
        cs.counts_fit(),
    ensures
        r == cs.advice_offset(),
{
    cs.num_instance_columns + cs.num_fixed_columns + cs.num_selectors
}

/// The polynomial index of each advice column.
pub fn advice_idx(cs: &ConstraintSystem) -> (r: Vec<usize>)
    requires
        cs.counts_fit(),
    ensures
        r@.len() == cs.num_advice_columns,
        forall|i: int| 0 <= i < r@.len() ==> #[trigger] r@[i] == cs.advice_offset() + i,
{
    let offset = get_advice_offset(cs);
    let mut r: Vec<usize> = Vec::new();
    let mut i: usize = 0;
    while i < cs.num_advice_columns
        invariant
            i <= cs.num_advice_columns,
            cs.counts_fit(),
            offset == cs.advice_offset(),
            r@.len() == i,
            forall|j: int| 0 <= j < i ==> #[trigger] r@[j] == cs.advice_offset() + j,
        decreases cs.num_advice_columns - i,
    {
        r.push(i + offset);
        i += 1;
    }
    r
}

/// The polynomial index of each column, as the entries of a map from
/// (kind, column index) in the order: instance columns, then fixed columns
/// and selectors, then advice columns.
pub fn column_idx(cs: &ConstraintSystem) -> (r: Vec<((ColumnKind, usize), usize)>)
    requires
        cs.counts_fit(),
    ensures
        r@.len() == cs.num_instance_columns + cs.num_fixed_columns + cs.num_selectors + cs.num_advice_columns,
        forall|i: int| 0 <= i < cs.num_instance_columns ==> #[trigger] r@[i] == ((ColumnKind::Instance, i as usize), i as usize),
        forall|i: int| 0 <= i < cs.num_fixed_columns + cs.num_selectors ==> #[trigger] r@[cs.num_instance_columns + i]
            == ((ColumnKind::Fixed, i as usize), (cs.num_instance_columns + i) as usize),
        forall|i: int| 0 <= i < cs.num_advice_columns ==> #[trigger] r@[cs.advice_offset() + i]
            == ((ColumnKind::Advice, i as usize), (cs.advice_offset() + i) as usize),
{
    let advice = advice_idx(cs);
    let mut r: Vec<((ColumnKind, usize), usize)> = Vec::new();
    let mut i: usize = 0;
    while i < cs.num_instance_columns
        invariant
            i <= cs.num_instance_columns,
            r@.len() == i,
            forall|j: int| 0 <= j < i ==> #[trigger] r@[j] == ((ColumnKind::Instance, j as usize), j as usize),
        decreases cs.num_instance_columns - i,
    {
        r.push(((ColumnKind::Instance, i), i));
        i += 1;
    }
    let nf = cs.num_fixed_columns + cs.num_selectors;
    let mut j: usize = 0;
    while j < nf
        invariant
            cs.counts_fit(),
            nf == cs.num_fixed_columns + cs.num_selectors,
            j <= nf,
            r@.len() == cs.num_instance_columns + j,
            forall|l: int| 0 <= l < cs.num_instance_columns ==> #[trigger] r@[l] == ((ColumnKind::Instance, l as usize), l as usize),
            forall|l: int| 0 <= l < j ==> #[trigger] r@[cs.num_instance_columns + l]
                == ((ColumnKind::Fixed, l as usize), (cs.num_instance_columns + l) as usize),
        decreases nf - j,
    {
        r.push(((ColumnKind::Fixed, j), cs.num_instance_columns + j));
        j += 1;
    }
    let mut k: usize = 0;
    while k < advice.len()
        invariant
            cs.counts_fit(),
            nf == cs.num_fixed_columns + cs.num_selectors,
            k <= advice.len(),
            advice@.len() == cs.num_advice_columns,
            forall|l: int| 0 <= l < advice@.len() ==> #[trigger] advice@[l] == cs.advice_offset() + l,
            r@.len() == cs.advice_offset() + k,
            forall|l: int| 0 <= l < cs.num_instance_columns ==> #[trigger] r@[l] == ((ColumnKind::Instance, l as usize), l as usize),
            forall|l: int| 0 <= l < nf ==> #[trigger] r@[cs.num_instance_columns + l]
                == ((ColumnKind::Fixed, l as usize), (cs.num_instance_columns + l) as usize),
            forall|l: int| 0 <= l < k ==> #[trigger] r@[cs.advice_offset() + l]
                == ((ColumnKind::Advice, l as usize), (cs.advice_offset() + l) as usize),
        decreases advice.len() - k,
    {
        r.push(((ColumnKind::Advice, k), advice[k]));
        k += 1;
    }
    r
}

/// The Plonkish expression of a halo2 expression: a selector becomes a query
/// of its polynomial after the instance and fixed ones, a fixed column one
/// after the instance ones, an advice column one at its advice index, an
/// instance column one at its own index.
pub open spec fn convert_of(cs: &ConstraintSystem, e: Halo2Expression) -> Expression
    decreases e,
{
    match e {
        Halo2Expression::Constant(c) => Expression::Constant(c),
        Halo2Expression::Selector(s) => Expression::Polynomial(
            Query { poly: (cs.num_instance_columns + cs.num_fixed_columns + s) as usize, rotation: Rotation(0) },
        ),
        Halo2Expression::Fixed { column_index, rotation } => Expression::Polynomial(
            Query { poly: (cs.num_instance_columns + column_index) as usize, rotation: Rotation(rotation) },
        ),
        Halo2Expression::Advice { column_index, rotation } => Expression::Polynomial(
            Query { poly: (cs.advice_offset() + column_index) as usize, rotation: Rotation(rotation) },
        ),
        Halo2Expression::Instance { column_index, rotation } => Expression::Polynomial(
            Query { poly: column_index, rotation: Rotation(rotation) },
        ),
        Halo2Expression::Negated(a) => Expression::Negated(Box::new(convert_of(cs, *a))),
        Halo2Expression::Sum(a, b) => Expression::Sum(Box::new(convert_of(cs, *a)), Box::new(convert_of(cs, *b))),
        Halo2Expression::Product(a, b) => Expression::Product(Box::new(convert_of(cs, *a)), Box::new(convert_of(cs, *b))),
        Halo2Expression::Scaled(a, s) => Expression::Scaled(Box::new(convert_of(cs, *a)), s),
    }
}

/// The column indices of an expression fit in a `usize` once placed.
pub open spec fn indices_fit(cs: &ConstraintSystem, e: Halo2Expression) -> bool
    decreases e,
{
    match e {
        Halo2Expression::Selector(s) => cs.num_instance_columns + cs.num_fixed_columns + s <= usize::MAX,
        Halo2Expression::Fixed { column_index, rotation } => cs.num_instance_columns + column_index <= usize::MAX,
        Halo2Expression::Advice { column_index, rotation } => column_index < cs.num_advice_columns,
        Halo2Expression::Negated(a) => indices_fit(cs, *a),
        Halo2Expression::Sum(a, b) => indices_fit(cs, *a) && indices_fit(cs, *b),
        Halo2Expression::Product(a, b) => indices_fit(cs, *a) && indices_fit(cs, *b),
        Halo2Expression::Scaled(a, _) => indices_fit(cs, *a),
        _ => true,
    }
}

/// The columns and selectors that a halo2 expression reads, as the leaves
/// of the expression.
pub open spec fn halo2_leaves(e: Halo2Expression) -> Set<Halo2Expression>
    decreases e,
{
    match e {
        Halo2Expression::Constant(_) => Set::empty(),
        Halo2Expression::Negated(a) => halo2_leaves(*a),
        Halo2Expression::Sum(a, b) => halo2_leaves(*a).union(halo2_leaves(*b)),
        Halo2Expression::Product(a, b) => halo2_leaves(*a).union(halo2_leaves(*b)),
        Halo2Expression::Scaled(a, _) => halo2_leaves(*a),
        _ => set![e],
    }
}

/// The query that the read `l` of a column or a selector becomes: a fixed
/// column `c` at rotation `r`, polynomial `num_instance_columns + c` at
/// `r`; an advice column `c`, polynomial
/// `num_instance_columns + num_fixed_columns + num_selectors + c` at `r`;
/// an instance column `c`, polynomial `c` at `r`; a selector `s`,
/// polynomial `num_instance_columns + num_fixed_columns + s` at the current
/// row.
pub open spec fn read_as(cs: &ConstraintSystem, l: Halo2Expression, q: Query) -> bool {
    match l {
        Halo2Expression::Fixed { column_index, rotation } => q == Query {
            poly: (cs.num_instance_columns + column_index) as usize,
            rotation: Rotation(rotation),
        },
        Halo2Expression::Advice { column_index, rotation } => q == Query {
            poly: (cs.num_instance_columns + cs.num_fixed_columns + cs.num_selectors + column_index) as usize,
            rotation: Rotation(rotation),
        },
        Halo2Expression::Instance { column_index, rotation } => q == Query {
            poly: column_index,
            rotation: Rotation(rotation),
        },
        Halo2Expression::Selector(sel) => q == Query {
            poly: (cs.num_instance_columns + cs.num_fixed_columns + sel) as usize,
            rotation: Rotation(0),
        },
        _ => false,
    }
}

/// The conversion keeps every read of a column at its rotation: a fixed
/// column `c` read at rotation `r` becomes a query of polynomial
/// `num_instance_columns + c` at `r`; an advice column `c`, of polynomial
/// `num_instance_columns + num_fixed_columns + num_selectors + c` at `r`; an
/// instance column `c`, of polynomial `c` at `r`; a selector `s`, of
/// polynomial `num_instance_columns + num_fixed_columns + s` at the current
/// row. And the converted expression queries nothing else.
pub proof fn lemma_convert_queries(cs: &ConstraintSystem, e: Halo2Expression)
    ensures
        forall|c: usize, r: i32| #[trigger] halo2_leaves(e).contains(Halo2Expression::Fixed { column_index: c, rotation: r })
            ==> queries_of(convert_of(cs, e)).contains(
                Query { poly: (cs.num_instance_columns + c) as usize, rotation: Rotation(r) },
            ),
        forall|c: usize, r: i32| #[trigger] halo2_leaves(e).contains(Halo2Expression::Advice { column_index: c, rotation: r })
            ==> queries_of(convert_of(cs, e)).contains(
                Query {
                    poly: (cs.num_instance_columns + cs.num_fixed_columns + cs.num_selectors + c) as usize,
                    rotation: Rotation(r),
                },
            ),
        forall|c: usize, r: i32| #[trigger] halo2_leaves(e).contains(Halo2Expression::Instance { column_index: c, rotation: r })
            ==> queries_of(convert_of(cs, e)).contains(Query { poly: c, rotation: Rotation(r) }),
        forall|sel: usize| #[trigger] halo2_leaves(e).contains(Halo2Expression::Selector(sel))
            ==> queries_of(convert_of(cs, e)).contains(
                Query { poly: (cs.num_instance_columns + cs.num_fixed_columns + sel) as usize, rotation: Rotation(0) },
            ),
        forall|q: Query| #[trigger] queries_of(convert_of(cs, e)).contains(q) ==> exists|l: Halo2Expression|
            #[trigger] halo2_leaves(e).contains(l) && read_as(cs, l, q),
    decreases e,
{
    match e {
        Halo2Expression::Negated(a) => {
            lemma_convert_queries(cs, *a);
            assert(queries_of(convert_of(cs, e)) == queries_of(convert_of(cs, *a)));
            assert(halo2_leaves(e) == halo2_leaves(*a));
        },
        Halo2Expression::Sum(a, b) => {
            lemma_convert_queries(cs, *a);
            lemma_convert_queries(cs, *b);
            assert(queries_of(convert_of(cs, e)) == queries_of(convert_of(cs, *a)).union(queries_of(convert_of(cs, *b))));
            assert(halo2_leaves(e) == halo2_leaves(*a).union(halo2_leaves(*b)));
            assert forall|q: Query| #[trigger] queries_of(convert_of(cs, e)).contains(q) implies exists|l: Halo2Expression|
                #[trigger] halo2_leaves(e).contains(l) && read_as(cs, l, q) by {
                if queries_of(convert_of(cs, *a)).contains(q) {
                    let l = choose|l: Halo2Expression| #[trigger] halo2_leaves(*a).contains(l) && read_as(cs, l, q);
                    assert(halo2_leaves(e).contains(l));
                } else {
                    let l = choose|l: Halo2Expression| #[trigger] halo2_leaves(*b).contains(l) && read_as(cs, l, q);
                    assert(halo2_leaves(e).contains(l));
                }
            }
        },
        Halo2Expression::Product(a, b) => {
            lemma_convert_queries(cs, *a);
            lemma_convert_queries(cs, *b);
            assert(queries_of(convert_of(cs, e)) == queries_of(convert_of(cs, *a)).union(queries_of(convert_of(cs, *b))));
            assert(halo2_leaves(e) == halo2_leaves(*a).union(halo2_leaves(*b)));
            assert forall|q: Query| #[trigger] queries_of(convert_of(cs, e)).contains(q) implies exists|l: Halo2Expression|
                #[trigger] halo2_leaves(e).contains(l) && read_as(cs, l, q) by {
                if queries_of(convert_of(cs, *a)).contains(q) {
                    let l = choose|l: Halo2Expression| #[trigger] halo2_leaves(*a).contains(l) && read_as(cs, l, q);
                    assert(halo2_leaves(e).contains(l));
                } else {
                    let l = choose|l: Halo2Expression| #[trigger] halo2_leaves(*b).contains(l) && read_as(cs, l, q);
                    assert(halo2_leaves(e).contains(l));
                }
            }
        },
        Halo2Expression::Scaled(a, _) => {
            lemma_convert_queries(cs, *a);
            assert(queries_of(convert_of(cs, e)) == queries_of(convert_of(cs, *a)));
            assert(halo2_leaves(e) == halo2_leaves(*a));
        },
        Halo2Expression::Constant(_) => {
            assert(queries_of(convert_of(cs, e)) =~= Set::empty());
        },
        _ => {
            let q0 = match convert_of(cs, e) {
                Expression::Polynomial(q) => q,
                _ => arbitrary(),
            };
            assert(queries_of(convert_of(cs, e)) == set![q0]);
            assert(halo2_leaves(e) == set![e]);
            assert forall|c: usize, r: i32| #[trigger] halo2_leaves(e).contains(Halo2Expression::Fixed { column_index: c, rotation: r })
                implies queries_of(convert_of(cs, e)).contains(
                    Query { poly: (cs.num_instance_columns + c) as usize, rotation: Rotation(r) }) by {
                assert(e == Halo2Expression::Fixed { column_index: c, rotation: r });
                assert(q0 == Query { poly: (cs.num_instance_columns + c) as usize, rotation: Rotation(r) });
            }
            assert forall|c: usize, r: i32| #[trigger] halo2_leaves(e).contains(Halo2Expression::Advice { column_index: c, rotation: r })
                implies queries_of(convert_of(cs, e)).contains(
                    Query {
                        poly: (cs.num_instance_columns + cs.num_fixed_columns + cs.num_selectors + c) as usize,
                        rotation: Rotation(r),
                    }) by {
                assert(e == Halo2Expression::Advice { column_index: c, rotation: r });
                assert(q0 == Query {
                        poly: (cs.num_instance_columns + cs.num_fixed_columns + cs.num_selectors + c) as usize,
                        rotation: Rotation(r),
                    });
            }
            assert forall|q: Query| #[trigger] queries_of(convert_of(cs, e)).contains(q) implies exists|l: Halo2Expression|
                #[trigger] halo2_leaves(e).contains(l) && read_as(cs, l, q) by {
                assert(halo2_leaves(e).contains(e));
                assert(read_as(cs, e, q));
            }
        },
    }
}

/// The value of a Plonkish expression over the integers, where the query
/// of polynomial `i` at rotation `r` has value `pv(i, r)` (common
/// polynomials and challenges, which a conversion never makes, count as
/// zero).
pub open spec fn plonkish_value(e: Expression, pv: spec_fn(usize, i32) -> int) -> int
    decreases e,
{
    match e {
        Expression::Constant(c) => c@,
        Expression::Polynomial(q) => pv(q.poly, q.rotation.0),
        Expression::Negated(a) => -plonkish_value(*a, pv),
        Expression::Sum(a, b) => plonkish_value(*a, pv) + plonkish_value(*b, pv),
        Expression::Product(a, b) => plonkish_value(*a, pv) * plonkish_value(*b, pv),
        Expression::Scaled(a, c) => plonkish_value(*a, pv) * c@,
        _ => 0,
    }
}

/// The value of a halo2 expression over the integers, where fixed column
/// `c` at rotation `r` has value `fixed(c, r)`, advice column `c` at `r`
/// `advice(c, r)`, instance column `c` at `r` `instance(c, r)`, and
/// selector `s` `selector(s)`.
pub open spec fn halo2_value(
    e: Halo2Expression,
    fixed: spec_fn(usize, i32) -> int,
    advice: spec_fn(usize, i32) -> int,
    instance: spec_fn(usize, i32) -> int,
    selector: spec_fn(usize) -> int,
) -> int
    decreases e,
{
    match e {
        Halo2Expression::Constant(c) => c@,
        Halo2Expression::Selector(sel) => selector(sel),
        Halo2Expression::Fixed { column_index, rotation } => fixed(column_index, rotation),
        Halo2Expression::Advice { column_index, rotation } => advice(column_index, rotation),
        Halo2Expression::Instance { column_index, rotation } => instance(column_index, rotation),
        Halo2Expression::Negated(a) => -halo2_value(*a, fixed, advice, instance, selector),
        Halo2Expression::Sum(a, b) => halo2_value(*a, fixed, advice, instance, selector)
            + halo2_value(*b, fixed, advice, instance, selector),
        Halo2Expression::Product(a, b) => halo2_value(*a, fixed, advice, instance, selector)
            * halo2_value(*b, fixed, advice, instance, selector),
        Halo2Expression::Scaled(a, c) => halo2_value(*a, fixed, advice, instance, selector) * c@,
    }
}

/// A converted expression computes what the halo2 expression computes: for
/// every assignment `pv` of values to the polynomials at each rotation,
/// its value is the halo2 expression's value where fixed column `c` reads
/// polynomial `num_instance_columns + c`, advice column `c` polynomial
/// `num_instance_columns + num_fixed_columns + num_selectors + c`, instance
/// column `c` polynomial `c`, each at the rotation of the read, and
/// selector `s` polynomial `num_instance_columns + num_fixed_columns + s` at
/// the current row.
pub proof fn lemma_convert_value(cs: &ConstraintSystem, e: Halo2Expression, pv: spec_fn(usize, i32) -> int)
    ensures
        plonkish_value(convert_of(cs, e), pv) == halo2_value(
            e,
            |c: usize, r: i32| pv((cs.num_instance_columns + c) as usize, r),
            |c: usize, r: i32| pv((cs.num_instance_columns + cs.num_fixed_columns + cs.num_selectors + c) as usize, r),
            |c: usize, r: i32| pv(c, r),
            |sel: usize| pv((cs.num_instance_columns + cs.num_fixed_columns + sel) as usize, 0),
        ),
    decreases e,
{
    match e {
        Halo2Expression::Negated(a) => {
            lemma_convert_value(cs, *a, pv);
        },
        Halo2Expression::Sum(a, b) => {
            lemma_convert_value(cs, *a, pv);
            lemma_convert_value(cs, *b, pv);
        },
        Halo2Expression::Product(a, b) => {
            lemma_convert_value(cs, *a, pv);
            lemma_convert_value(cs, *b, pv);
        },
        Halo2Expression::Scaled(a, _) => {
            lemma_convert_value(cs, *a, pv);
        },
        _ => {},
    }
}

/// Converts a halo2 expression into a Plonkish one.
pub fn convert_expression(cs: &ConstraintSystem, advice_idx: &[usize], expression: &Halo2Expression) -> (r: Expression)
    requires
        cs.counts_fit(),
        indices_fit(cs, *expression),
        advice_idx@.len() == cs.num_advice_columns,
        forall|i: int| 0 <= i < advice_idx@.len() ==> #[trigger] advice_idx@[i] == cs.advice_offset() + i,
    ensures
        r == convert_of(cs, *expression),
        *expression matches Halo2Expression::Fixed { column_index, rotation } ==> r == Expression::Polynomial(
            Query { poly: (cs.num_instance_columns + column_index) as usize, rotation: Rotation(rotation) },
        ),
        *expression matches Halo2Expression::Advice { column_index, rotation } ==> r == Expression::Polynomial(
            Query {
                poly: (cs.num_instance_columns + cs.num_fixed_columns + cs.num_selectors + column_index) as usize,
                rotation: Rotation(rotation),
            },
        ),
        *expression matches Halo2Expression::Instance { column_index, rotation } ==> r == Expression::Polynomial(
            Query { poly: column_index, rotation: Rotation(rotation) },
        ),
        *expression matches Halo2Expression::Selector(sel) ==> r == Expression::Polynomial(
            Query { poly: (cs.num_instance_columns + cs.num_fixed_columns + sel) as usize, rotation: Rotation(0) },
        ),
        forall|q: Query| #[trigger] queries_of(r).contains(q) <==> exists|l: Halo2Expression|
            #[trigger] halo2_leaves(*expression).contains(l) && read_as(cs, l, q),
        forall|pv: spec_fn(usize, i32) -> int| #[trigger] plonkish_value(r, pv) == halo2_value(
            *expression,
            |c: usize, rot: i32| pv((cs.num_instance_columns + c) as usize, rot),
            |c: usize, rot: i32| pv((cs.num_instance_columns + cs.num_fixed_columns + cs.num_selectors + c) as usize, rot),
            |c: usize, rot: i32| pv(c, rot),
            |sel: usize| pv((cs.num_instance_columns + cs.num_fixed_columns + sel) as usize, 0),
        ),
    decreases expression,
{
    proof {
        assert forall|pv: spec_fn(usize, i32) -> int| #[trigger] plonkish_value(convert_of(cs, *expression), pv) == halo2_value(
            *expression,
            |c: usize, rot: i32| pv((cs.num_instance_columns + c) as usize, rot),
            |c: usize, rot: i32| pv((cs.num_instance_columns + cs.num_fixed_columns + cs.num_selectors + c) as usize, rot),
            |c: usize, rot: i32| pv(c, rot),
            |sel: usize| pv((cs.num_instance_columns + cs.num_fixed_columns + sel) as usize, 0),
        ) by {
            lemma_convert_value(cs, *expression, pv);
        }
        lemma_convert_queries(cs, *expression);
        assert forall|q: Query| #[trigger] queries_of(convert_of(cs, *expression)).contains(q) <==> exists|l: Halo2Expression|
            #[trigger] halo2_leaves(*expression).contains(l) && read_as(cs, l, q) by {
            if exists|l: Halo2Expression| #[trigger] halo2_leaves(*expression).contains(l) && read_as(cs, l, q) {
                let l = choose|l: Halo2Expression| #[trigger] halo2_leaves(*expression).contains(l) && read_as(cs, l, q);
                match l {
                    Halo2Expression::Fixed { column_index, rotation } => {
                        assert(halo2_leaves(*expression).contains(Halo2Expression::Fixed { column_index, rotation }));
                    },
                    Halo2Expression::Advice { column_index, rotation } => {
                        assert(halo2_leaves(*expression).contains(Halo2Expression::Advice { column_index, rotation }));
                    },
                    Halo2Expression::Instance { column_index, rotation } => {
                        assert(halo2_leaves(*expression).contains(Halo2Expression::Instance { column_index, rotation }));
                    },
                    Halo2Expression::Selector(sel) => {
                        assert(halo2_leaves(*expression).contains(Halo2Expression::Selector(sel)));
                    },
                    _ => {},
                }
            }
        }
    }
    match expression {
        Halo2Expression::Constant(c) => Expression::Constant(*c),
        Halo2Expression::Selector(s) => {
            let poly = cs.num_instance_columns + cs.num_fixed_columns + *s;
            Expression::Polynomial(Query::new(poly, Rotation::cur()))
        },
        Halo2Expression::Fixed { column_index, rotation } => {
            let poly = cs.num_instance_columns + *column_index;
            Expression::Polynomial(Query::new(poly, Rotation(*rotation)))
        },
        Halo2Expression::Advice { column_index, rotation } => {
            let poly = advice_idx[*column_index];
            Expression::Polynomial(Query::new(poly, Rotation(*rotation)))
        },
        Halo2Expression::Instance { column_index, rotation } => Expression::Polynomial(
            Query::new(*column_index, Rotation(*rotation)),
        ),
        Halo2Expression::Negated(a) => Expression::Negated(Box::new(convert_expression(cs, advice_idx, a))),
        Halo2Expression::Sum(a, b) => {
            let l = convert_expression(cs, advice_idx, a);
            let r = convert_expression(cs, advice_idx, b);
            Expression::Sum(Box::new(l), Box::new(r))
        },
        Halo2Expression::Product(a, b) => {
            let l = convert_expression(cs, advice_idx, a);
            let r = convert_expression(cs, advice_idx, b);
            Expression::Product(Box::new(l), Box::new(r))
        },
        Halo2Expression::Scaled(a, s) => Expression::Scaled(Box::new(convert_expression(cs, advice_idx, a)), *s),
    }
}

/// Every expression of every gate and every lookup fits once placed.
pub open spec fn all_fit(cs: &ConstraintSystem) -> bool {
    &&& forall|g: int, j: int|
        0 <= g < cs.gates@.len() && 0 <= j < cs.gates@[g]@.len() ==> indices_fit(cs, #[trigger] cs.gates@[g]@[j])
    &&& forall|l: int, j: int|
        0 <= l < cs.lookups@.len() && 0 <= j < cs.lookups@[l].0@.len() ==> indices_fit(cs, #[trigger] cs.lookups@[l].0@[j])
    &&& forall|l: int, j: int|
        0 <= l < cs.lookups@.len() && 0 <= j < cs.lookups@[l].1@.len() ==> indices_fit(cs, #[trigger] cs.lookups@[l].1@[j])
}

/// The converted polynomials of the gates, gate after gate.
pub open spec fn constraints_of(cs: &ConstraintSystem, gates: Seq<Vec<Halo2Expression>>) -> Seq<Expression>
    decreases gates.len(),
{
    if gates.len() == 0 {
        Seq::empty()
    } else {
        constraints_of(cs, gates.drop_last()) + gates.last()@.map_values(|e: Halo2Expression| convert_of(cs, e))
    }
}

/// A lookup: its inputs and tables converted and paired in order, as far as
/// the shorter of the two lists goes.
pub open spec fn lookup_of(cs: &ConstraintSystem, inputs: Seq<Halo2Expression>, tables: Seq<Halo2Expression>) -> Seq<(Expression, Expression)> {
    Seq::new(
        if inputs.len() <= tables.len() { inputs.len() } else { tables.len() },
        |j: int| (convert_of(cs, inputs[j]), convert_of(cs, tables[j])),
    )
}

fn convert_lookup(cs: &ConstraintSystem, advice_idx: &[usize], inputs: &Vec<Halo2Expression>, tables: &Vec<Halo2Expression>) -> (r: Vec<(Expression, Expression)>)
    requires
        cs.counts_fit(),
        forall|j: int| 0 <= j < inputs@.len() ==> indices_fit(cs, #[trigger] inputs@[j]),
        forall|j: int| 0 <= j < tables@.len() ==> indices_fit(cs, #[trigger] tables@[j]),
        advice_idx@.len() == cs.num_advice_columns,
        forall|i: int| 0 <= i < advice_idx@.len() ==> #[trigger] advice_idx@[i] == cs.advice_offset() + i,
    ensures
        r@ == lookup_of(cs, inputs@, tables@),
{
    let n = if inputs.len() <= tables.len() { inputs.len() } else { tables.len() };
    let mut r: Vec<(Expression, Expression)> = Vec::new();
    let mut j: usize = 0;
    while j < n
        invariant
            cs.counts_fit(),
            n <= inputs@.len(),
            n <= tables@.len(),
            n == lookup_of(cs, inputs@, tables@).len(),
            forall|j: int| 0 <= j < inputs@.len() ==> indices_fit(cs, #[trigger] inputs@[j]),
            forall|j: int| 0 <= j < tables@.len() ==> indices_fit(cs, #[trigger] tables@[j]),
            advice_idx@.len() == cs.num_advice_columns,
            forall|i: int| 0 <= i < advice_idx@.len() ==> #[trigger] advice_idx@[i] == cs.advice_offset() + i,
            j <= n,
            r@ == lookup_of(cs, inputs@, tables@).subrange(0, j as int),
        decreases n - j,
    {
        let input = convert_expression(cs, advice_idx, &inputs[j]);
        let table = convert_expression(cs, advice_idx, &tables[j]);
        r.push((input, table));
        j += 1;
        assert(r@ =~= lookup_of(cs, inputs@, tables@).subrange(0, j as int));
    }
    assert(r@ =~= lookup_of(cs, inputs@, tables@));
    r
}

/// Every column that an expression reads exists in the constraint system.
pub open spec fn columns_in_range(cs: &ConstraintSystem, e: Halo2Expression) -> bool
    decreases e,
{
    match e {
        Halo2Expression::Constant(_) => true,
        Halo2Expression::Selector(s) => s < cs.num_selectors,
        Halo2Expression::Fixed { column_index, rotation } => column_index < cs.num_fixed_columns,
        Halo2Expression::Advice { column_index, rotation } => column_index < cs.num_advice_columns,
        Halo2Expression::Instance { column_index, rotation } => column_index < cs.num_instance_columns,
        Halo2Expression::Negated(a) => columns_in_range(cs, *a),
        Halo2Expression::Sum(a, b) => columns_in_range(cs, *a) && columns_in_range(cs, *b),
        Halo2Expression::Product(a, b) => columns_in_range(cs, *a) && columns_in_range(cs, *b),
        Halo2Expression::Scaled(a, _) => columns_in_range(cs, *a),
    }
}

/// The degree of a halo2 expression: one for a selector or a column, the
/// sum over a product and the larger over a sum.
pub open spec fn halo2_degree(e: Halo2Expression) -> nat
    decreases e,
{
    match e {
        Halo2Expression::Constant(_) => 0,
        Halo2Expression::Negated(a) => halo2_degree(*a),
        Halo2Expression::Sum(a, b) => {
            let da = halo2_degree(*a);
            let db = halo2_degree(*b);
            if da >= db {
                da
            } else {
                db
            }
        },
        Halo2Expression::Product(a, b) => halo2_degree(*a) + halo2_degree(*b),
        Halo2Expression::Scaled(a, _) => halo2_degree(*a),
        _ => 1,
    }
}

/// Every gate and lookup reads only columns of the constraint system, and
/// no gate polynomial exceeds its degree.
pub open spec fn consistent(cs: &ConstraintSystem) -> bool {
    &&& forall|g: int, j: int|
        0 <= g < cs.gates@.len() && 0 <= j < cs.gates@[g]@.len() ==> columns_in_range(cs, #[trigger] cs.gates@[g]@[j])
    &&& forall|g: int, j: int|
        0 <= g < cs.gates@.len() && 0 <= j < cs.gates@[g]@.len() ==> halo2_degree(#[trigger] cs.gates@[g]@[j]) <= cs.degree
    &&& forall|l: int, j: int|
        0 <= l < cs.lookups@.len() && 0 <= j < cs.lookups@[l].0@.len() ==> columns_in_range(cs, #[trigger] cs.lookups@[l].0@[j])
    &&& forall|l: int, j: int|
        0 <= l < cs.lookups@.len() && 0 <= j < cs.lookups@[l].1@.len() ==> columns_in_range(cs, #[trigger] cs.lookups@[l].1@[j])
}

/// A converted expression uses no challenge, keeps the degree, and queries
/// only polynomials below the number of columns.
proof fn lemma_convert_of(cs: &ConstraintSystem, e: Halo2Expression)
    requires
        cs.counts_fit(),
        columns_in_range(cs, e),
    ensures
        challenges_of(convert_of(cs, e)).is_empty(),
        degree_of(convert_of(cs, e)) == halo2_degree(e),
        forall|q: Query| #[trigger] queries_of(convert_of(cs, e)).contains(q) ==> q.poly < cs.advice_offset() + cs.num_advice_columns,
    decreases e,
{
    let bound = cs.advice_offset() + cs.num_advice_columns;
    match e {
        Halo2Expression::Negated(a) => {
            lemma_convert_of(cs, *a);
            assert(queries_of(convert_of(cs, e)) == queries_of(convert_of(cs, *a)));
        },
        Halo2Expression::Sum(a, b) => {
            lemma_convert_of(cs, *a);
            lemma_convert_of(cs, *b);
            assert(queries_of(convert_of(cs, e)) == queries_of(convert_of(cs, *a)).union(queries_of(convert_of(cs, *b))));
        },
        Halo2Expression::Product(a, b) => {
            lemma_convert_of(cs, *a);
            lemma_convert_of(cs, *b);
            assert(queries_of(convert_of(cs, e)) == queries_of(convert_of(cs, *a)).union(queries_of(convert_of(cs, *b))));
        },
        Halo2Expression::Scaled(a, _) => {
            lemma_convert_of(cs, *a);
            assert(queries_of(convert_of(cs, e)) == queries_of(convert_of(cs, *a)));
        },
        Halo2Expression::Constant(_) => {
            assert(queries_of(convert_of(cs, e)) =~= Set::empty());
        },
        _ => {
            let q0 = match convert_of(cs, e) {
                Expression::Polynomial(q) => q,
                _ => arbitrary(),
            };
            assert(queries_of(convert_of(cs, e)) == set![q0]);
            assert(q0.poly < bound);
        },
    }
}

/// Each converted gate polynomial is that of some gate.
proof fn lemma_constraints_of_entry(cs: &ConstraintSystem, gates: Seq<Vec<Halo2Expression>>, i: int)
    requires
        0 <= i < constraints_of(cs, gates).len(),
    ensures
        exists|g: int, j: int| 0 <= g < gates.len() && 0 <= j < gates[g]@.len()
            && constraints_of(cs, gates)[i] == convert_of(cs, #[trigger] gates[g]@[j]),
    decreases gates.len(),
{
    let prev = constraints_of(cs, gates.drop_last());
    if i < prev.len() {
        lemma_constraints_of_entry(cs, gates.drop_last(), i);
        let (g, j) = choose|g: int, j: int| 0 <= g < gates.drop_last().len() && 0 <= j < gates.drop_last()[g]@.len()
            && prev[i] == convert_of(cs, #[trigger] gates.drop_last()[g]@[j]);
        assert(gates[g] == gates.drop_last()[g]);
    } else {
        let g = gates.len() - 1;
        assert(gates[g]@[i - prev.len()] == gates.last()@[i - prev.len()]);
    }
}

/// Each expression of the flattened pairs is one side of some pair.
proof fn lemma_pairs_flat_entry(ps: Seq<(Expression, Expression)>, i: int)
    requires
        0 <= i < pairs_flat(ps).len(),
    ensures
        pairs_flat(ps).len() == 2 * ps.len(),
        exists|j: int| 0 <= j < ps.len() && (pairs_flat(ps)[i] == (#[trigger] ps[j]).0 || pairs_flat(ps)[i] == ps[j].1),
    decreases ps.len(),
{
    lemma_pairs_flat_len(ps.drop_last());
    let prev = pairs_flat(ps.drop_last());
    if i < prev.len() {
        lemma_pairs_flat_entry(ps.drop_last(), i);
        let j = choose|j: int| 0 <= j < ps.drop_last().len()
            && (prev[i] == (#[trigger] ps.drop_last()[j]).0 || prev[i] == ps.drop_last()[j].1);
        assert(ps[j] == ps.drop_last()[j]);
    } else {
        assert(ps[ps.len() - 1] == ps.last());
    }
}

proof fn lemma_pairs_flat_len(ps: Seq<(Expression, Expression)>)
    ensures
        pairs_flat(ps).len() == 2 * ps.len(),
    decreases ps.len(),
{
    if ps.len() > 0 {
        lemma_pairs_flat_len(ps.drop_last());
    }
}

/// Each expression of the flattened lookups is one side of some pair of
/// some lookup.
proof fn lemma_lookups_flat_entry(ls: Seq<Vec<(Expression, Expression)>>, i: int)
    requires
        0 <= i < lookups_flat(ls).len(),
    ensures
        exists|l: int, j: int| 0 <= l < ls.len() && 0 <= j < ls[l]@.len()
            && (lookups_flat(ls)[i] == (#[trigger] ls[l]@[j]).0 || lookups_flat(ls)[i] == ls[l]@[j].1),
    decreases ls.len(),
{
    let prev = lookups_flat(ls.drop_last());
    if i < prev.len() {
        lemma_lookups_flat_entry(ls.drop_last(), i);
        let (l, j) = choose|l: int, j: int| 0 <= l < ls.drop_last().len() && 0 <= j < ls.drop_last()[l]@.len()
            && (prev[i] == (#[trigger] ls.drop_last()[l]@[j]).0 || prev[i] == ls.drop_last()[l]@[j].1);
        assert(ls[l] == ls.drop_last()[l]);
    } else {
        lemma_pairs_flat_entry(ls.last()@, i - prev.len());
        let j = choose|j: int| 0 <= j < ls.last()@.len()
            && (pairs_flat(ls.last()@)[i - prev.len()] == (#[trigger] ls.last()@[j]).0
            || pairs_flat(ls.last()@)[i - prev.len()] == ls.last()@[j].1);
        assert(ls[ls.len() - 1] == ls.last());
    }
}

/// What a circuit description holds of a constraint system once converted.
pub open spec fn converted_from(r: PlonkishCircuitInfo, cs: &ConstraintSystem) -> bool {
    &&& r.num_instances == cs.num_instance_columns
    &&& r.preprocess_polys@.len() == cs.num_selectors + cs.num_fixed_columns
    &&& r.num_witness_polys == cs.num_advice_columns
    &&& r.constraints@ == constraints_of(cs, cs.gates@)
    &&& r.lookups@.len() == cs.lookups@.len()
    &&& forall|l: int| 0 <= l < r.lookups@.len() ==> #[trigger] r.lookups@[l]@
        == lookup_of(cs, cs.lookups@[l].0@, cs.lookups@[l].1@)
    &&& r.permutations@.len() == 0
    &&& r.max_degree == Some(cs.degree)
}

/// Each expression of a converted description is the conversion of an
/// expression of a gate or a lookup.
proof fn lemma_expression_source(cs: &ConstraintSystem, r: PlonkishCircuitInfo, i: int) -> (h: Halo2Expression)
    requires
        consistent(cs),
        converted_from(r, cs),
        0 <= i < r.all_expressions().len(),
    ensures
        columns_in_range(cs, h),
        r.all_expressions()[i] == convert_of(cs, h),
        i < r.constraints@.len() ==> halo2_degree(h) <= cs.degree,
{
    let nc = r.constraints@.len() as int;
    if i < nc {
        lemma_constraints_of_entry(cs, cs.gates@, i);
        let (g, j) = choose|g: int, j: int| 0 <= g < cs.gates@.len() && 0 <= j < cs.gates@[g]@.len()
            && constraints_of(cs, cs.gates@)[i] == convert_of(cs, #[trigger] cs.gates@[g]@[j]);
        cs.gates@[g]@[j]
    } else {
        lemma_lookups_flat_entry(r.lookups@, i - nc);
        let (l, j) = choose|l: int, j: int| 0 <= l < r.lookups@.len() && 0 <= j < r.lookups@[l]@.len()
            && (lookups_flat(r.lookups@)[i - nc] == (#[trigger] r.lookups@[l]@[j]).0
            || lookups_flat(r.lookups@)[i - nc] == r.lookups@[l]@[j].1);
        let pair = r.lookups@[l]@[j];
        assert(pair == (convert_of(cs, cs.lookups@[l].0@[j]), convert_of(cs, cs.lookups@[l].1@[j])));
        if lookups_flat(r.lookups@)[i - nc] == pair.0 {
            cs.lookups@[l].0@[j]
        } else {
            cs.lookups@[l].1@[j]
        }
    }
}

/// A constraint system whose gates and lookups read only its own columns,
/// whose gates stay within its degree and which has an advice column is
/// converted into a well-formed circuit description.
proof fn lemma_converted_well_formed(cs: &ConstraintSystem, r: PlonkishCircuitInfo)
    requires
        cs.counts_fit(),
        consistent(cs),
        cs.num_advice_columns > 0,
        converted_from(r, cs),
    ensures
        r.well_formed(),
{
    let total = cs.advice_offset() + cs.num_advice_columns;
    let ex = r.all_expressions();
    assert(r.num_poly_spec() == total);
    assert forall|i: int| 0 <= i < ex.len() implies #[trigger] challenges_of(ex[i]).is_empty()
        && (forall|q: Query| #[trigger] queries_of(ex[i]).contains(q) ==> q.poly < total) by {
        let h = lemma_expression_source(cs, r, i);
        lemma_convert_of(cs, h);
    }
    assert forall|x: usize| #[trigger] r.used_polys().contains(x) implies x < r.num_poly_spec() by {
        if perm_polys(r.permutations@).contains(x) {
            let (i, j) = choose|i: int, j: int| 0 <= i < r.permutations@.len() && 0 <= j < r.permutations@[i]@.len()
                && #[trigger] r.permutations@[i]@[j].0 == x;
        } else {
            let i = choose|i: int| 0 <= i < ex.len() && #[trigger] polys_of(ex[i]).contains(x);
            let q = choose|q: Query| queries_of(ex[i]).contains(q) && q.poly == x;
            assert(challenges_of(ex[i]).is_empty());
        }
    }
    assert forall|i: int| 0 <= i < r.constraints.len() implies #[trigger] degree_of(r.constraints@[i]) <= cs.degree by {
        let h = lemma_expression_source(cs, r, i);
        lemma_convert_of(cs, h);
        assert(ex[i] == r.constraints@[i]);
    }
}

/// The circuit description of a constraint system on `2^k` rows, before its
/// fixed columns and permutations are filled in: the gates' polynomials as
/// constraints, each lookup's inputs paired with its tables, one zero
/// polynomial of `2^k` rows for each selector and fixed column, one witness
/// polynomial for each advice column, and the degree of the constraint
/// system as the maximum degree.
pub fn circuit_info_without_preprocess(k: usize, cs: &ConstraintSystem) -> (r: PlonkishCircuitInfo)
    requires
        pow2(k as nat) <= usize::MAX,
        cs.counts_fit(),
        all_fit(cs),
    ensures
        r.k == k,
        r.num_instances == cs.num_instance_columns,
        r.preprocess_polys@.len() == cs.num_selectors + cs.num_fixed_columns,
        forall|i: int| 0 <= i < r.preprocess_polys@.len() ==> (#[trigger] r.preprocess_polys@[i]@).len() == pow2(k as nat),
        forall|i: int, j: int| 0 <= i < r.preprocess_polys@.len() && 0 <= j < pow2(k as nat)
            ==> (#[trigger] r.preprocess_polys@[i]@[j])@ == 0,
        r.num_witness_polys == cs.num_advice_columns,
        r.named_witnesses@ == cs.named_advices@,
        r.constraints@ == constraints_of(cs, cs.gates@),
        r.lookups@.len() == cs.lookups@.len(),
        forall|l: int| 0 <= l < r.lookups@.len() ==> #[trigger] r.lookups@[l]@
            == lookup_of(cs, cs.lookups@[l].0@, cs.lookups@[l].1@),
        r.permutations@.len() == 0,
        r.max_degree == Some(cs.degree),
        cs.num_advice_columns > 0 && consistent(cs) ==> r.well_formed(),
{
    let advice = advice_idx(cs);
    let mut constraints: Vec<Expression> = Vec::new();
    let mut g: usize = 0;
    while g < cs.gates.len()
        invariant
            cs.counts_fit(),
            all_fit(cs),
            advice@.len() == cs.num_advice_columns,
            forall|i: int| 0 <= i < advice@.len() ==> #[trigger] advice@[i] == cs.advice_offset() + i,
            g <= cs.gates@.len(),
            constraints@ == constraints_of(cs, cs.gates@.subrange(0, g as int)),
        decreases cs.gates@.len() - g,
    {
        let gate = &cs.gates[g];
        let ghost before = constraints@;
        let mut j: usize = 0;
        while j < gate.len()
            invariant
                cs.counts_fit(),
                all_fit(cs),
                g < cs.gates@.len(),
                *gate == cs.gates@[g as int],
                advice@.len() == cs.num_advice_columns,
                forall|i: int| 0 <= i < advice@.len() ==> #[trigger] advice@[i] == cs.advice_offset() + i,
                j <= gate@.len(),
                constraints@ == before + gate@.subrange(0, j as int).map_values(|e: Halo2Expression| convert_of(cs, e)),
            decreases gate@.len() - j,
        {
            let c = convert_expression(cs, &advice, &gate[j]);
            constraints.push(c);
            j += 1;
            assert(constraints@ =~= before + gate@.subrange(0, j as int).map_values(|e: Halo2Expression| convert_of(cs, e)));
        }
        assert(cs.gates@.subrange(0, g + 1).drop_last() =~= cs.gates@.subrange(0, g as int));
        assert(gate@.subrange(0, j as int) =~= gate@);
        g += 1;
    }
    assert(cs.gates@.subrange(0, g as int) =~= cs.gates@);
    let mut lookups: Vec<Vec<(Expression, Expression)>> = Vec::new();
    let mut l: usize = 0;
    while l < cs.lookups.len()
        invariant
            cs.counts_fit(),
            all_fit(cs),
            advice@.len() == cs.num_advice_columns,
            forall|i: int| 0 <= i < advice@.len() ==> #[trigger] advice@[i] == cs.advice_offset() + i,
            l <= cs.lookups@.len(),
            lookups@.len() == l,
            forall|m: int| 0 <= m < l ==> #[trigger] lookups@[m]@ == lookup_of(cs, cs.lookups@[m].0@, cs.lookups@[m].1@),
        decreases cs.lookups@.len() - l,
    {
        let lookup = convert_lookup(cs, &advice, &cs.lookups[l].0, &cs.lookups[l].1);
        lookups.push(lookup);
        l += 1;
    }
    let n = power_of_two(k);
    let count = cs.num_selectors + cs.num_fixed_columns;
    let mut preprocess_polys: Vec<Vec<Fr>> = Vec::new();
    let mut i: usize = 0;
    while i < count
        invariant
            n == pow2(k as nat),
            i <= count,
            preprocess_polys@.len() == i,
            forall|m: int| 0 <= m < i ==> (#[trigger] preprocess_polys@[m]@).len() == pow2(k as nat),
            forall|m: int, j: int| 0 <= m < i && 0 <= j < pow2(k as nat) ==> (#[trigger] preprocess_polys@[m]@[j])@ == 0,
        decreases count - i,
    {
        let mut poly: Vec<Fr> = Vec::new();
        let mut j: usize = 0;
        while j < n
            invariant
                j <= n,
                poly@.len() == j,
                forall|m: int| 0 <= m < j ==> (#[trigger] poly@[m])@ == 0,
            decreases n - j,
        {
            poly.push(Fr::zero());
            j += 1;
        }
        preprocess_polys.push(poly);
        i += 1;
    }
    let mut named_witnesses: Vec<(String, u32)> = Vec::new();
    let mut w: usize = 0;
    while w < cs.named_advices.len()
        invariant
            w <= cs.named_advices@.len(),
            named_witnesses@ == cs.named_advices@.subrange(0, w as int),
        decreases cs.named_advices@.len() - w,
    {
        let name = cs.named_advices[w].0.clone();
        named_witnesses.push((name, cs.named_advices[w].1));
        w += 1;
        assert(named_witnesses@ =~= cs.named_advices@.subrange(0, w as int));
    }
    assert(named_witnesses@ =~= cs.named_advices@);
    let r = PlonkishCircuitInfo {
        k,
        num_instances: cs.num_instance_columns,
        preprocess_polys,
        num_witness_polys: cs.num_advice_columns,
        named_witnesses,
        constraints,
        lookups,
        permutations: Vec::new(),
        max_degree: Some(cs.degree),
    };
    proof {
        if cs.num_advice_columns > 0 && consistent(cs) {
            lemma_converted_well_formed(cs, r);
        }
    }
    r
}

} // verus!
