use plonkish_backend::error::Error;
use plonkish_backend::expression::Rotation;
use plonkish_backend::field::Fr;
use plonkish_backend::message::signed_decimal_string;
use plonkish_backend::poly::MultilinearPolynomial;
use plonkish_backend::transcript::Keccak256Transcript;
use plonkish_backend::zeromorph::Zeromorph;

fn table(n: usize) -> Vec<Fr> {
    (0..n as u64).map(|i| Fr::from_u64(i * i + 1)).collect()
}

fn point(n: usize) -> Vec<Fr> {
    (0..n as u64).map(|i| Fr::from_u64(3 * i + 2)).collect()
}

#[test]
fn signed_decimals() {
    assert_eq!(signed_decimal_string(-5), "-5");
    assert_eq!(signed_decimal_string(0), "0");
    assert_eq!(signed_decimal_string(120), "120");
    assert_eq!(signed_decimal_string(i32::MIN), "-2147483648");
}

#[test]
fn shifted_evaluation_rejects_zero_rotation() {
    let param = Zeromorph::setup(8, 1);
    let (pp, _) = Zeromorph::trim(&param, 8, 1).unwrap();
    let poly = MultilinearPolynomial::new(table(8));
    let comm = Zeromorph::commit(&pp, &poly).unwrap();
    let mut transcript = Keccak256Transcript::new();
    let r = Zeromorph::prove_shifted_evaluation(&pp, &poly, &comm, &point(3), &Fr::zero(), &Rotation(0), &mut transcript);
    assert_eq!(
        r,
        Err(Error::InternalError("Rotation distance is zero in prove_shifted_evaluation".to_string()))
    );
    assert!(transcript.into_proof().is_empty());
}

#[test]
fn shifted_evaluation_rejects_too_large_polynomial() {
    let param = Zeromorph::setup(4, 1);
    let (pp, _) = Zeromorph::trim(&param, 4, 1).unwrap();
    let poly = MultilinearPolynomial::new(table(8));
    let comm = plonkish_backend::curve::G1::generator();
    let mut transcript = Keccak256Transcript::new();
    let r = Zeromorph::prove_shifted_evaluation(&pp, &poly, &comm, &point(3), &Fr::zero(), &Rotation(1), &mut transcript);
    assert_eq!(
        r,
        Err(Error::InvalidPcsParam(
            "Too large degree of poly to prove_shifted_evaluation (poly degree) (param supports degree up to 3 but got 7)"
                .to_string()
        ))
    );
}

#[test]
fn shifted_evaluation_rejects_too_large_rotation() {
    let param = Zeromorph::setup(8, 1);
    let (pp, _) = Zeromorph::trim(&param, 8, 1).unwrap();
    let poly = MultilinearPolynomial::new(table(8));
    let comm = Zeromorph::commit(&pp, &poly).unwrap();
    let mut transcript = Keccak256Transcript::new();
    let r = Zeromorph::prove_shifted_evaluation(&pp, &poly, &comm, &point(3), &Fr::zero(), &Rotation(-8), &mut transcript);
    assert_eq!(
        r,
        Err(Error::InvalidInput(
            "Rotation distance -8 magnitude must be smaller than polynomial size 8".to_string()
        ))
    );
}

#[test]
fn shifted_evaluation_needs_room_for_the_shift() {
    // parameters for exactly 8 coefficients: the check polynomial of a
    // rotation by 1 has 9
    let param = Zeromorph::setup(8, 1);
    let (pp, _) = Zeromorph::trim(&param, 8, 1).unwrap();
    let poly = MultilinearPolynomial::new(table(8));
    let comm = Zeromorph::commit(&pp, &poly).unwrap();
    let mut transcript = Keccak256Transcript::new();
    let r = Zeromorph::prove_shifted_evaluation(&pp, &poly, &comm, &point(3), &Fr::zero(), &Rotation(1), &mut transcript);
    assert_eq!(
        r,
        Err(Error::InvalidPcsParam(
            "Too large degree of poly to commit (param supports degree up to 7 but got 8)".to_string()
        ))
    );
}

#[test]
fn shifted_evaluation_writes_its_commitments() {
    let param = Zeromorph::setup(16, 1);
    let (pp, _) = Zeromorph::trim(&param, 16, 1).unwrap();
    let poly = MultilinearPolynomial::new(table(8));
    let comm = Zeromorph::commit(&pp, &poly).unwrap();
    for rotation in [1, 3, -1, -7] {
        let mut transcript = Keccak256Transcript::new();
        let r = Zeromorph::prove_shifted_evaluation(&pp, &poly, &comm, &point(3), &Fr::zero(), &Rotation(rotation), &mut transcript);
        assert_eq!(r, Ok(()));
        // three quotients, q_hat, the check polynomial and its opening
        assert_eq!(transcript.into_proof().len(), 32 * 6);
    }
}

#[test]
fn shifted_evaluation_depends_on_the_direction() {
    let param = Zeromorph::setup(16, 1);
    let (pp, _) = Zeromorph::trim(&param, 16, 1).unwrap();
    let poly = MultilinearPolynomial::new(table(8));
    let comm = Zeromorph::commit(&pp, &poly).unwrap();
    let prove = |rotation: i32| {
        let mut transcript = Keccak256Transcript::new();
        Zeromorph::prove_shifted_evaluation(&pp, &poly, &comm, &point(3), &Fr::zero(), &Rotation(rotation), &mut transcript)
            .unwrap();
        transcript.into_proof()
    };
    assert_eq!(prove(2), prove(2));
    assert_ne!(prove(2), prove(-2));
    // the same rotated table gives the same quotient commitments
    assert_eq!(prove(2)[..96], prove(-6)[..96]);
}

#[test]
fn shifted_evaluation_to_the_left_verifies() {
    let param = Zeromorph::setup(16, 1);
    let (pp, vp) = Zeromorph::trim(&param, 16, 1).unwrap();
    let poly = MultilinearPolynomial::new(table(8));
    let comm = Zeromorph::commit(&pp, &poly).unwrap();
    for rotation in [1, 2, 5, 7] {
        let proof = {
            let mut transcript = Keccak256Transcript::new();
            Zeromorph::prove_shifted_evaluation(&pp, &poly, &comm, &point(3), &Fr::zero(), &Rotation(rotation), &mut transcript)
                .unwrap();
            transcript.into_proof()
        };
        let mut transcript = Keccak256Transcript::from_proof(&proof);
        let result = Zeromorph::verify_shifted_evaluation(&vp, &comm, &point(3), &Fr::zero(), &Rotation(rotation), &mut transcript);
        assert_eq!(result, Ok(()), "rotation {}", rotation);
        // a tampered proof is rejected
        let mut tampered = proof.clone();
        tampered[0..32].copy_from_slice(&proof[32..64]);
        let mut transcript = Keccak256Transcript::from_proof(&tampered);
        let result = Zeromorph::verify_shifted_evaluation(&vp, &comm, &point(3), &Fr::zero(), &Rotation(rotation), &mut transcript);
        assert!(result.is_err());
    }
}

#[test]
fn shifted_evaluation_rejection_names_the_rotation() {
    let param = Zeromorph::setup(16, 1);
    let (pp, vp) = Zeromorph::trim(&param, 16, 1).unwrap();
    let poly = MultilinearPolynomial::new(table(8));
    let comm = Zeromorph::commit(&pp, &poly).unwrap();
    let mut transcript = Keccak256Transcript::new();
    Zeromorph::prove_shifted_evaluation(&pp, &poly, &comm, &point(3), &Fr::zero(), &Rotation(2), &mut transcript).unwrap();
    let mut proof = transcript.into_proof();
    // swap the check polynomial's commitment and its opening
    let (a, b) = (proof[128..160].to_vec(), proof[160..192].to_vec());
    proof[128..160].copy_from_slice(&b);
    proof[160..192].copy_from_slice(&a);
    let mut transcript = Keccak256Transcript::from_proof(&proof);
    let result = Zeromorph::verify_shifted_evaluation(&vp, &comm, &point(3), &Fr::zero(), &Rotation(-3), &mut transcript);
    assert_eq!(
        result,
        Err(Error::InvalidPcsOpen("Invalid Zeromorph KZG shifted open for rotation -3".to_string()))
    );
}

#[test]
fn shifted_verification_needs_the_whole_proof() {
    let param = Zeromorph::setup(16, 1);
    let (_, vp) = Zeromorph::trim(&param, 16, 1).unwrap();
    let comm = plonkish_backend::curve::G1::generator();
    let mut transcript = Keccak256Transcript::from_proof(&[0u8; 100]);
    let result = Zeromorph::verify_shifted_evaluation(&vp, &comm, &point(3), &Fr::zero(), &Rotation(1), &mut transcript);
    assert!(matches!(result, Err(Error::Transcript(_, m)) if m == "Failed to read commitment"));
}

fn opening_of_r(pp: &plonkish_backend::zeromorph::ZeromorphKzgProverParam, values: Vec<Fr>, u: &[Fr]) -> Vec<u8> {
    let poly = MultilinearPolynomial::new(values);
    let r = Zeromorph::commit(pp, &poly).unwrap();
    let eval = poly.evaluate(u);
    let mut transcript = Keccak256Transcript::new();
    transcript.write_commitment(&r).unwrap();
    Zeromorph::open(pp, &poly, &r, u, &eval, &mut transcript).unwrap();
    transcript.into_proof()
}

#[test]
fn batch_verification_without_claims_checks_the_rotated_commitment_alone() {
    // with no claims the weighted sum is zero: the proof must open R to zero
    let param = Zeromorph::setup(8, 1);
    let (pp, vp) = Zeromorph::trim(&param, 8, 1).unwrap();
    let u = point(3);
    let points = vec![u.clone()];
    let comms: Vec<&plonkish_backend::curve::G1> = Vec::new();

    let proof = opening_of_r(&pp, vec![Fr::zero(); 8], &u);
    let mut reader = Keccak256Transcript::from_proof(&proof);
    assert_eq!(Zeromorph::batch_verify_for_shift(&vp, 3, &comms, &points, &[], &mut reader), Ok(()));

    let proof = opening_of_r(&pp, table(8), &u);
    let mut reader = Keccak256Transcript::from_proof(&proof);
    assert_eq!(
        Zeromorph::batch_verify_for_shift(&vp, 3, &comms, &points, &[], &mut reader),
        Err(Error::InvalidPcsOpen("Invalid Zeromorph KZG open".to_string()))
    );
}
