use plonkish_backend::arithmetic::{batch_invert, inner_product, invert_or_zero, powers, squares};
use plonkish_backend::backend::PlonkishCircuitInfo;
use plonkish_backend::bigint::{bn_to_field, encode_point, field_to_bn, BigNat};
use plonkish_backend::curve::G1;
use plonkish_backend::error::Error;
use plonkish_backend::expression::{CommonPolynomial, Expression, Query, Rotation};
use plonkish_backend::field::Fr;
use plonkish_backend::hyperplonk::{pcs_query, point_offset};
use plonkish_backend::kzg::{divide_by_linear, err_too_large_deree, log2, trim};
use plonkish_backend::message::decimal_string;
use plonkish_backend::pcs::{err_too_many_variates, next_pow2_log, validate_input, EvaluationForShift};
use plonkish_backend::poly::{quotients, MultilinearPolynomial};
use plonkish_backend::transcript::Keccak256Transcript;
use plonkish_backend::zeromorph::{eval_and_quotient_scalars, Zeromorph};

fn f(n: u64) -> Fr {
    Fr::from_u64(n)
}

fn fs(v: &[u64]) -> Vec<Fr> {
    v.iter().map(|&n| f(n)).collect()
}

fn query(poly: usize, rotation: i32) -> Expression {
    Expression::Polynomial(Query::new(poly, Rotation(rotation)))
}

#[test]
fn field_arithmetic() {
    assert_eq!(f(2).add(&f(3)), f(5));
    assert_eq!(f(2).sub(&f(3)).add(&f(1)), Fr::zero());
    assert_eq!(f(6).mul(&f(7)), f(42));
    assert_eq!(f(5).neg().add(&f(5)), Fr::zero());
    assert_eq!(f(4).square(), f(16));
    assert_eq!(f(3).invert().unwrap().mul(&f(3)), Fr::one());
    assert!(Fr::zero().invert().is_none());
    assert!(Fr::zero().is_zero());
    assert!(f(9).equals(&f(9)));
    let mut bytes = [0u8; 32];
    bytes[0] = 1;
    bytes[1] = 2;
    assert_eq!(Fr::from_bytes(&bytes), Some(f(513)));
    assert_eq!(f(513).to_bytes(), bytes);
    assert_eq!(Fr::from_bytes(&[0xff; 32]), None);
}

#[test]
fn powers_squares_and_inner_products() {
    assert_eq!(powers(&f(2), 5), fs(&[1, 2, 4, 8, 16]));
    assert_eq!(squares(&f(3), 4), fs(&[3, 9, 81, 6561]));
    assert_eq!(inner_product(&fs(&[1, 2, 3]), &fs(&[4, 5, 6])), f(32));
    // the shorter of the two lists decides
    assert_eq!(inner_product(&fs(&[1, 2, 3]), &fs(&[4, 5])), f(14));
}

#[test]
fn inversion() {
    assert_eq!(invert_or_zero(&Fr::zero()), Fr::zero());
    assert_eq!(invert_or_zero(&f(7)).mul(&f(7)), Fr::one());
    let mut v = fs(&[2, 0, 5]);
    batch_invert(&mut v);
    assert_eq!(v[0].mul(&f(2)), Fr::one());
    assert_eq!(v[1], Fr::zero());
    assert_eq!(v[2].mul(&f(5)), Fr::one());
}

#[test]
fn multilinear_evaluation_and_quotients() {
    // f(x0, x1) with table [f(0,0), f(1,0), f(0,1), f(1,1)]
    let poly = MultilinearPolynomial::new(fs(&[1, 2, 3, 4]));
    assert_eq!(poly.num_vars(), 2);
    // f = 1 + x0 + 2 x1
    assert_eq!(poly.evaluate(&fs(&[5, 7])), f(20));
    let (qs, remainder) = quotients(&poly, &fs(&[5, 7]));
    assert_eq!(remainder, f(20));
    assert_eq!(qs.len(), 2);
    assert_eq!(qs[0].len(), 1);
    assert_eq!(qs[1].len(), 2);
}

#[test]
fn quotient_identity_at_a_point() {
    // f(x) = f(u) + sum_k (x_k - u_k) * q_k(x_0, ..., x_{k-1})
    let poly = MultilinearPolynomial::new(fs(&[3, 1, 4, 1, 5, 9, 2, 6]));
    let u = fs(&[2, 7, 1]);
    let x = fs(&[8, 2, 8]);
    let (qs, fu) = quotients(&poly, &u);
    let mut sum = fu;
    for k in 0..3 {
        let qk = MultilinearPolynomial::new(qs[k].clone());
        let qx = if k == 0 { qs[0][0] } else { qk.evaluate(&x[..k]) };
        sum = sum.add(&x[k].sub(&u[k]).mul(&qx));
    }
    assert_eq!(sum, poly.evaluate(&x));
}

#[test]
fn equality_table() {
    let eq = MultilinearPolynomial::eq_xy(&fs(&[3, 5]));
    // entries (1-t0)(1-t1), t0(1-t1), (1-t0)t1, t0 t1
    let m = |a: Fr, b: Fr| a.mul(&b);
    let one_minus = |t: u64| Fr::one().sub(&f(t));
    assert_eq!(
        eq.evals().clone(),
        vec![m(one_minus(3), one_minus(5)), m(f(3), one_minus(5)), m(one_minus(3), f(5)), m(f(3), f(5))]
    );
}

#[test]
fn division_by_a_linear_factor() {
    // (X - 2)(X + 3) = X^2 + X - 6
    let q = divide_by_linear(&[f(6).neg(), f(1), f(1)], &f(2));
    assert_eq!(q, fs(&[3, 1]));
}

#[test]
fn logarithms() {
    assert_eq!(log2(1), 0);
    assert_eq!(log2(5), 2);
    assert_eq!(log2(8), 3);
    assert_eq!(next_pow2_log(1), 0);
    assert_eq!(next_pow2_log(5), 3);
    assert_eq!(next_pow2_log(8), 3);
}

#[test]
fn decimal_messages() {
    assert_eq!(decimal_string(0), "0");
    assert_eq!(decimal_string(1234567), "1234567");
    assert_eq!(
        err_too_large_deree("trim", 7, 15),
        Error::InvalidPcsParam("Too large degree to trim (param supports degree up to 7 but got 15)".to_string())
    );
    assert_eq!(
        err_too_large_deree("commit", 7, 15),
        Error::InvalidPcsParam("Too large degree of poly to commit (param supports degree up to 7 but got 15)".to_string())
    );
    assert_eq!(
        err_too_many_variates("trim", 3, 4),
        Error::InvalidPcsParam("Too many variates to trim (param supports variates up to 3 but got 4)".to_string())
    );
    assert_eq!(
        err_too_many_variates("open", 3, 4),
        Error::InvalidPcsParam("Too many variates of poly to open (param supports variates up to 3 but got 4)".to_string())
    );
}

#[test]
fn input_validation() {
    let poly = MultilinearPolynomial::new(fs(&[1, 2, 3, 4]));
    let refs = vec![&poly];
    assert_eq!(validate_input("open", 2, &refs, &[fs(&[1, 2])]), Ok(()));
    assert_eq!(
        validate_input("open", 1, &refs, &[fs(&[1, 2])]),
        Err(Error::InvalidPcsParam(
            "Too many variates of poly to open (param supports variates up to 1 but got 2)".to_string()
        ))
    );
    assert_eq!(
        validate_input("open", 2, &refs, &[fs(&[1, 2]), fs(&[1])]),
        Err(Error::InvalidPcsParam("Invalid point (expect point to have 2 variates but got 1)".to_string()))
    );
    assert_eq!(
        validate_input("batch verify", 3, &[], &[fs(&[1, 2]), fs(&[1, 2, 3])]),
        Err(Error::InvalidPcsParam("Invalid point (expect point to have 2 variates but got 3)".to_string()))
    );
}

#[test]
fn trimming() {
    let param = Zeromorph::setup(4, 1);
    assert_eq!(param.monomial_g1.len(), 4);
    assert!(matches!(
        trim(&param, 8),
        Err(Error::InvalidPcsParam(m)) if m == "Too large degree to trim (param supports degree up to 3 but got 7)"
    ));
    let (pp, vp) = trim(&param, 2).ok().unwrap();
    assert_eq!(pp.monomial_g1, param.monomial_g1[..2].to_vec());
    assert_eq!(pp.degree(), 1);
    assert_eq!(vp.g1, param.monomial_g1[0]);
    assert_eq!(vp.g2, param.powers_of_s_g2[0]);
    assert_eq!(vp.s_g2, param.powers_of_s_g2[1]);
    assert!(matches!(
        Zeromorph::trim(&param, 8, 1),
        Err(Error::InvalidPcsParam(m)) if m == "Too large degree to trim (param supports degree up to 3 but got 7)"
    ));
}

#[test]
fn commitment_degree_limit() {
    let param = Zeromorph::setup(4, 1);
    let (pp, _) = Zeromorph::trim(&param, 4, 1).unwrap();
    let poly = MultilinearPolynomial::new(fs(&[1, 2, 3, 4, 5, 6, 7, 8]));
    assert_eq!(
        Zeromorph::commit(&pp, &poly),
        Err(Error::InvalidPcsParam(
            "Too large degree of poly to commit (param supports degree up to 3 but got 7)".to_string()
        ))
    );
    let small = MultilinearPolynomial::new(fs(&[1, 2]));
    let polys = vec![small, MultilinearPolynomial::new(fs(&[1, 2, 3, 4, 5, 6, 7, 8]))];
    assert!(matches!(Zeromorph::batch_commit(&pp, &polys), Err(Error::InvalidPcsParam(_))));
}

#[test]
fn evaluation_and_quotient_scalars_sizes() {
    let (_, qs) = eval_and_quotient_scalars(&f(2), &f(3), &f(5), &fs(&[7, 11, 13]));
    assert_eq!(qs.len(), 3);
}

#[test]
fn transcript_read_back() {
    let g = G1::generator();
    let mut prover = Keccak256Transcript::new();
    prover.write_field_element(&f(77)).unwrap();
    prover.write_commitment(&g).unwrap();
    let c1 = prover.squeeze_challenge();
    let proof = prover.into_proof();
    assert_eq!(proof.len(), 64);
    let mut verifier = Keccak256Transcript::from_proof(&proof);
    assert_eq!(verifier.read_field_element().unwrap(), f(77));
    assert_eq!(verifier.read_commitment().unwrap(), g);
    assert_eq!(verifier.squeeze_challenge(), c1);
    assert!(matches!(
        verifier.read_field_element(),
        Err(Error::Transcript(_, m)) if m == "Failed to read field element"
    ));
}

#[test]
fn transcript_common_elements_change_challenges() {
    let mut a = Keccak256Transcript::new();
    let mut b = Keccak256Transcript::new();
    b.common_field_element(&f(1)).unwrap();
    assert_ne!(a.squeeze_challenge(), b.squeeze_challenge());
    assert!(b.into_proof().is_empty());
}

#[test]
fn expression_degree_and_queries() {
    let e = Expression::Product(
        Box::new(query(1, 0)),
        Box::new(Expression::Sum(
            Box::new(query(2, 1)),
            Box::new(Expression::Scaled(Box::new(query(0, -1)), f(3))),
        )),
    );
    assert_eq!(e.degree(), 2);
    assert_eq!(e.used_poly(), vec![0, 1, 2]);
    assert_eq!(
        e.used_query(),
        vec![Query::new(0, Rotation(-1)), Query::new(1, Rotation(0)), Query::new(2, Rotation(1))]
    );
    assert_eq!(pcs_query(&e, 1), vec![Query::new(1, Rotation(0)), Query::new(2, Rotation(1))]);
    let c = Expression::Sum(Box::new(Expression::Challenge(3)), Box::new(Expression::Challenge(1)));
    assert_eq!(c.used_challenge(), vec![1, 3]);
    assert_eq!(Expression::CommonPolynomial(CommonPolynomial::Identity).degree(), 1);
    assert_eq!(Rotation(-5).distance(), 5);
    assert_eq!(Rotation::cur(), Rotation(0));
}

#[test]
fn point_offsets() {
    let queries = vec![
        Query::new(3, Rotation(1)),
        Query::new(4, Rotation(0)),
        Query::new(4, Rotation(-2)),
        Query::new(5, Rotation(1)),
    ];
    // rotations -2, 0, 1: offsets 0, 0 + 2^2, 4 + 2^0
    assert_eq!(point_offset(&queries), vec![(Rotation(-2), 0), (Rotation(0), 4), (Rotation(1), 5)]);
}

#[test]
fn circuit_description_checks() {
    let mut info = PlonkishCircuitInfo {
        k: 2,
        num_instances: 1,
        preprocess_polys: vec![fs(&[0, 0, 0, 0])],
        num_witness_polys: 2,
        named_witnesses: vec![],
        constraints: vec![Expression::Product(Box::new(query(1, 0)), Box::new(query(2, 1)))],
        lookups: vec![vec![(query(3, 0), query(1, 0))]],
        permutations: vec![vec![(3, 0), (0, 1)], vec![(2, 2)]],
        max_degree: Some(2),
    };
    assert_eq!(info.num_poly(), 4);
    assert_eq!(info.permutation_polys(), vec![0, 2, 3]);
    assert_eq!(info.expressions().len(), 3);
    assert!(info.is_well_formed());
    info.max_degree = Some(1);
    assert!(!info.is_well_formed());
    info.max_degree = None;
    info.constraints.push(query(4, 0));
    assert!(!info.is_well_formed());
    info.constraints.pop();
    info.constraints.push(Expression::Challenge(0));
    assert!(!info.is_well_formed());
}

#[test]
fn evaluation_claims() {
    let e = EvaluationForShift::new(3, Rotation(-1), f(9));
    assert_eq!(e.poly(), 3);
    assert_eq!(e.rotation(), Rotation(-1));
    assert_eq!(*e.value(), f(9));
}

#[test]
fn big_integers() {
    let x = f(123456789);
    let bn = field_to_bn(&x);
    assert_eq!(bn_to_field(&bn), x);
    let big = BigNat::from_u64(u64::MAX).mul(&BigNat::from_u64(u64::MAX));
    let minus_one = Fr::one().neg();
    let p = field_to_bn(&minus_one).add(&BigNat::from_u64(1));
    // p reduces to zero, p - 1 to -1
    assert_eq!(bn_to_field(&p), Fr::zero());
    assert_eq!(bn_to_field(&field_to_bn(&minus_one)), minus_one);
    let expected = f(u64::MAX).mul(&f(u64::MAX));
    assert_eq!(bn_to_field(&big), expected);
    assert_eq!(BigNat::from_u64(17).div(&BigNat::from_u64(5)).to_bytes_le(), vec![3]);
    assert_eq!(BigNat::from_u64(17).rem(&BigNat::from_u64(5)).to_bytes_le(), vec![2]);
    assert_eq!(BigNat::from_u64(1).shl(9).to_bytes_le(), vec![0, 2]);
    assert_eq!(BigNat::from_bytes_le(&[1, 1]).to_bytes_le(), vec![1, 1]);
}

#[test]
fn points_encode_as_three_limbs() {
    let limbs = encode_point(&G1::generator());
    // the generator of BN254 G1 is (1, 2)
    assert_eq!(limbs, vec![f(1), two_pow_108_times(2), Fr::zero()]);
    let identity = encode_point(&G1::identity());
    assert_eq!(identity, vec![Fr::zero(), Fr::zero(), Fr::zero()]);
}

fn two_pow_108_times(n: u64) -> Fr {
    let mut x = f(n);
    for _ in 0..108 {
        x = x.add(&x);
    }
    x
}

#[test]
fn halo2_messages() {
    assert_eq!(Error::InvalidSnark("bad".to_string()).halo2_message(), "InvalidSnark: bad");
    assert_eq!(Error::InvalidInput(String::new()).halo2_message(), "InvalidInput: ");
    assert_eq!(
        Error::Transcript(std::io::ErrorKind::UnexpectedEof, "x".to_string()).halo2_message(),
        "InvalidSumcheckTranscript: "
    );
}

#[test]
fn identity_encoding_is_flagged_zero() {
    let mut expected = [0u8; 32];
    expected[31] = 0x40;
    assert_eq!(G1::identity().to_bytes(), expected);
}

#[test]
fn generator_encodings() {
    let mut g1 = [0u8; 32];
    g1[0] = 1;
    assert_eq!(G1::generator().to_bytes(), g1);
    let g2: [u8; 64] = [
        237, 246, 146, 217, 92, 189, 222, 70, 221, 218, 94, 247, 212, 34, 67, 103, 121, 68, 92, 94, 102, 0, 106, 66,
        118, 30, 31, 18, 239, 222, 0, 24, 194, 18, 243, 174, 183, 133, 228, 151, 18, 231, 169, 53, 51, 73, 170, 241,
        37, 93, 251, 49, 183, 191, 96, 114, 58, 72, 13, 146, 147, 147, 142, 25,
    ];
    assert_eq!(plonkish_backend::curve::G2::generator().to_bytes(), g2);
}
