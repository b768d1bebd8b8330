use plonkish_backend::codec::{read_expression, write_expression};
use plonkish_backend::curve::G1;
use plonkish_backend::error::Error;
use plonkish_backend::expression::{CommonPolynomial, Expression, Query, Rotation};
use plonkish_backend::field::Fr;
use plonkish_backend::hyperplonk::HyperPlonkVerifierParam;

fn sample_expression() -> Expression {
    let a = Expression::Polynomial(Query::new(3, Rotation(-1)));
    let b = Expression::Scaled(Box::new(Expression::Challenge(2)), Fr::from_u64(7));
    let c = Expression::Product(
        Box::new(Expression::CommonPolynomial(CommonPolynomial::Lagrange(-4))),
        Box::new(Expression::Negated(Box::new(Expression::Constant(Fr::from_u64(5))))),
    );
    let d = Expression::Sum(
        Box::new(Expression::CommonPolynomial(CommonPolynomial::Identity)),
        Box::new(Expression::CommonPolynomial(CommonPolynomial::EqXY(9))),
    );
    Expression::Sum(
        Box::new(Expression::Sum(Box::new(a), Box::new(b))),
        Box::new(Expression::Product(Box::new(c), Box::new(d))),
    )
}

fn sample_param() -> HyperPlonkVerifierParam {
    let g = G1::generator();
    HyperPlonkVerifierParam {
        num_instances: 1,
        num_witness_polys: 3,
        num_lookups: 2,
        num_permutation_z_polys: 4,
        num_vars: 10,
        expression: sample_expression(),
        named_advices: vec![("a".to_string(), 0), ("wire ☃".to_string(), 7), (String::new(), 1)],
        preprocess_comms: vec![g, g],
        permutation_comms: vec![g],
    }
}

#[test]
fn expression_bytes_of_a_query() {
    let e = Expression::Polynomial(Query::new(3, Rotation(-1)));
    let mut out = Vec::new();
    write_expression(&mut out, &e);
    assert_eq!(out, vec![2, 3, 0, 0, 0, 0, 0, 0, 0, 255, 255, 255, 255]);
}

#[test]
fn expression_round_trip() {
    let e = sample_expression();
    let mut out = vec![9, 9];
    write_expression(&mut out, &e);
    let len = out.len();
    out.extend_from_slice(&[1, 2, 3]);
    let (read, end) = read_expression(&out, 2).unwrap();
    assert_eq!(end, len);
    assert_eq!(read, e);
}

#[test]
fn expression_unknown_tag_is_rejected() {
    let bytes = vec![8u8, 0, 0];
    assert_eq!(
        read_expression(&bytes, 0),
        Err(Error::Serialization("Invalid expression encoding".to_string()))
    );
}

#[test]
fn expression_non_canonical_constant_is_rejected() {
    let mut bytes = vec![0u8];
    bytes.extend_from_slice(&[0xff; 32]);
    assert!(read_expression(&bytes, 0).is_err());
}

#[test]
fn verifier_param_counts_come_first() {
    let bytes = sample_param().store();
    assert_eq!(&bytes[0..20], &[1, 0, 0, 0, 3, 0, 0, 0, 2, 0, 0, 0, 4, 0, 0, 0, 10, 0, 0, 0]);
}

#[test]
fn verifier_param_store_fetch_round_trip() {
    let vp = sample_param();
    let mut bytes = vp.store();
    let len = bytes.len();
    bytes.push(42);
    let (read, end) = HyperPlonkVerifierParam::fetch(&bytes).unwrap();
    assert_eq!(end, len);
    assert_eq!(read, vp);
}

#[test]
fn verifier_param_truncated_is_rejected() {
    let bytes = sample_param().store();
    for cut in [0usize, 10, 19, 25, bytes.len() - 1] {
        let result = HyperPlonkVerifierParam::fetch(&bytes[..cut]);
        assert!(matches!(result, Err(Error::Serialization(_))), "cut at {}", cut);
    }
}

#[test]
fn verifier_param_invalid_utf8_name_is_rejected() {
    let vp = HyperPlonkVerifierParam {
        num_instances: 0,
        num_witness_polys: 0,
        num_lookups: 0,
        num_permutation_z_polys: 0,
        num_vars: 0,
        expression: Expression::Challenge(0),
        named_advices: vec![("ab".to_string(), 0)],
        preprocess_comms: vec![],
        permutation_comms: vec![],
    };
    let mut bytes = vp.store();
    // the name follows the counts, the expression (9 bytes), the number of
    // names and the length of the name
    let at = 20 + 9 + 4 + 4;
    assert_eq!(&bytes[at..at + 2], b"ab");
    bytes[at] = 0xff;
    assert_eq!(
        HyperPlonkVerifierParam::fetch(&bytes),
        Err(Error::Serialization("Invalid named column encoding".to_string()))
    );
}

#[test]
fn verifier_param_invalid_point_is_rejected() {
    let vp = HyperPlonkVerifierParam {
        num_instances: 0,
        num_witness_polys: 0,
        num_lookups: 0,
        num_permutation_z_polys: 0,
        num_vars: 0,
        expression: Expression::Challenge(0),
        named_advices: vec![],
        preprocess_comms: vec![G1::generator()],
        permutation_comms: vec![],
    };
    let mut bytes = vp.store();
    let at = 20 + 9 + 4 + 4;
    for b in bytes[at..at + 32].iter_mut() {
        *b = 0xff;
    }
    assert_eq!(
        HyperPlonkVerifierParam::fetch(&bytes),
        Err(Error::Serialization("Invalid point encoding".to_string()))
    );
}
