use plonkish_backend::expression::{Expression, Query, Rotation};
use plonkish_backend::field::Fr;
use plonkish_backend::frontend::{
    advice_idx, circuit_info_without_preprocess, column_idx, convert_expression, get_advice_offset,
    ColumnKind, ConstraintSystem, Halo2Expression,
};

fn advice(column_index: usize, rotation: i32) -> Halo2Expression {
    Halo2Expression::Advice { column_index, rotation }
}

fn query(poly: usize, rotation: i32) -> Expression {
    Expression::Polynomial(Query::new(poly, Rotation(rotation)))
}

// 1 instance, 2 fixed columns, 1 selector, 2 advice columns
fn sample_cs() -> ConstraintSystem {
    let gate = Halo2Expression::Product(
        Box::new(Halo2Expression::Selector(0)),
        Box::new(Halo2Expression::Sum(
            Box::new(advice(0, 0)),
            Box::new(Halo2Expression::Negated(Box::new(advice(1, 1)))),
        )),
    );
    let gate2 = Halo2Expression::Scaled(
        Box::new(Halo2Expression::Instance { column_index: 0, rotation: -1 }),
        Fr::from_u64(3),
    );
    let gate3 = Halo2Expression::Fixed { column_index: 1, rotation: 0 };
    ConstraintSystem {
        num_instance_columns: 1,
        num_fixed_columns: 2,
        num_selectors: 1,
        num_advice_columns: 2,
        gates: vec![vec![gate, gate2], vec![gate3]],
        lookups: vec![(
            vec![advice(0, 0), advice(1, 0), Halo2Expression::Constant(Fr::from_u64(1))],
            vec![Halo2Expression::Fixed { column_index: 0, rotation: 0 }, Halo2Expression::Selector(0)],
        )],
        named_advices: vec![("x".to_string(), 0), ("y".to_string(), 1)],
        degree: 3,
    }
}

#[test]
fn advice_polynomials_follow_instance_fixed_and_selectors() {
    let cs = sample_cs();
    assert_eq!(get_advice_offset(&cs), 4);
    assert_eq!(advice_idx(&cs), vec![4, 5]);
}

#[test]
fn column_indices() {
    let cs = sample_cs();
    assert_eq!(
        column_idx(&cs),
        vec![
            ((ColumnKind::Instance, 0), 0),
            ((ColumnKind::Fixed, 0), 1),
            ((ColumnKind::Fixed, 1), 2),
            ((ColumnKind::Fixed, 2), 3),
            ((ColumnKind::Advice, 0), 4),
            ((ColumnKind::Advice, 1), 5),
        ]
    );
}

#[test]
fn expressions_are_converted_column_by_column() {
    let cs = sample_cs();
    let idx = advice_idx(&cs);
    let e = convert_expression(&cs, &idx, &cs.gates[0][0]);
    let expected = Expression::Product(
        Box::new(query(3, 0)),
        Box::new(Expression::Sum(
            Box::new(query(4, 0)),
            Box::new(Expression::Negated(Box::new(query(5, 1)))),
        )),
    );
    assert_eq!(e, expected);
    let e = convert_expression(&cs, &idx, &cs.gates[0][1]);
    assert_eq!(e, Expression::Scaled(Box::new(query(0, -1)), Fr::from_u64(3)));
}

#[test]
fn circuit_info_of_a_constraint_system() {
    let cs = sample_cs();
    let info = circuit_info_without_preprocess(3, &cs);
    assert_eq!(info.k, 3);
    assert_eq!(info.num_instances, 1);
    assert_eq!(info.num_witness_polys, 2);
    assert_eq!(info.preprocess_polys.len(), 3);
    for poly in info.preprocess_polys.iter() {
        assert_eq!(poly.len(), 8);
        assert!(poly.iter().all(|x| x.is_zero()));
    }
    assert_eq!(info.named_witnesses, vec![("x".to_string(), 0), ("y".to_string(), 1)]);
    assert_eq!(info.constraints.len(), 3);
    assert_eq!(info.constraints[2], query(2, 0));
    assert_eq!(info.lookups.len(), 1);
    // the inputs are paired with the tables as far as the shorter list goes
    assert_eq!(info.lookups[0], vec![(query(4, 0), query(1, 0)), (query(5, 0), query(3, 0))]);
    assert!(info.permutations.is_empty());
    assert_eq!(info.max_degree, Some(3));
}

#[test]
fn converted_circuit_is_well_formed() {
    // every column read exists and every gate stays within degree 3
    let cs = sample_cs();
    let info = circuit_info_without_preprocess(3, &cs);
    assert!(info.is_well_formed());
}
