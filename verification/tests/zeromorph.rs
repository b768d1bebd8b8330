use plonkish_backend::expression::Rotation;
use plonkish_backend::field::Fr;
use plonkish_backend::pcs::EvaluationForShift;
use plonkish_backend::poly::MultilinearPolynomial;
use plonkish_backend::transcript::Keccak256Transcript;
use plonkish_backend::zeromorph::Zeromorph;

fn rand_vec(n: usize) -> Vec<Fr> {
    (0..n).map(|_| Fr::random()).collect()
}

#[test]
fn commit_open_verify() {
    for num_vars in 1..8 {
        let size = 1usize << num_vars;
        let param = Zeromorph::setup(size, 1);
        let (pp, vp) = Zeromorph::trim(&param, size, 1).unwrap();
        let poly = MultilinearPolynomial::new(rand_vec(size));
        let comm = Zeromorph::commit(&pp, &poly).unwrap();
        let point = rand_vec(num_vars);
        let eval = poly.evaluate(&point);
        let proof = {
            let mut transcript = Keccak256Transcript::new();
            transcript.write_commitment(&comm).unwrap();
            Zeromorph::open(&pp, &poly, &comm, &point, &eval, &mut transcript).unwrap();
            transcript.into_proof()
        };
        let result = {
            let mut transcript = Keccak256Transcript::from_proof(&proof);
            let comm = transcript.read_commitment().unwrap();
            Zeromorph::verify(&vp, &comm, &point, &eval, &mut transcript)
        };
        assert_eq!(result, Ok(()));
        // a wrong evaluation is rejected
        let wrong = eval.add(&Fr::one());
        let result = {
            let mut transcript = Keccak256Transcript::from_proof(&proof);
            let comm = transcript.read_commitment().unwrap();
            Zeromorph::verify(&vp, &comm, &point, &wrong, &mut transcript)
        };
        assert!(result.is_err());
    }
}

/// Batch-commits three polynomials and opens claims on them, rotated and
/// unrotated, at one point through the batched opening for rotations,
/// which the library's batched verification then accepts.
#[test]
fn batch_commit_open_verify() {
    for num_vars in 2..6 {
        let size = 1usize << num_vars;
        let param = Zeromorph::setup(size, 4);
        let (pp, vp) = Zeromorph::trim(&param, size, 4).unwrap();
        let tables: Vec<Vec<Fr>> = (0..3).map(|_| rand_vec(size)).collect();
        let polys: Vec<MultilinearPolynomial> =
            tables.iter().cloned().map(MultilinearPolynomial::new).collect();
        let comms = Zeromorph::batch_commit(&pp, &polys).unwrap();
        let point = rand_vec(num_vars);
        let claims = [(0usize, 0i32), (1, 0), (2, 1), (0, -1), (1, 0)];
        let evals: Vec<EvaluationForShift> = claims
            .iter()
            .map(|&(poly, rot)| {
                let mut t = tables[poly].clone();
                if rot > 0 {
                    t.rotate_left(rot as usize);
                } else {
                    t.rotate_right((-rot) as usize);
                }
                let value = MultilinearPolynomial::new(t).evaluate(&point);
                EvaluationForShift::new(poly, Rotation(rot), value)
            })
            .collect();
        let poly_refs: Vec<&MultilinearPolynomial> = polys.iter().collect();
        let comm_refs: Vec<&plonkish_backend::curve::G1> = comms.iter().collect();
        let points = vec![point.clone()];
        let proof = {
            let mut transcript = Keccak256Transcript::new();
            Zeromorph::batch_open_for_shift(&pp, num_vars, &poly_refs, &comm_refs, &points, &evals, &mut transcript).unwrap();
            transcript.into_proof()
        };
        let result = {
            let mut transcript = Keccak256Transcript::from_proof(&proof);
            Zeromorph::batch_verify_for_shift(&vp, num_vars, &comm_refs, &points, &evals, &mut transcript)
        };
        assert_eq!(result, Ok(()));
        // a wrong claimed value is rejected
        let mut bad = evals.clone();
        bad[2] = EvaluationForShift::new(2, Rotation(1), bad[2].value.add(&Fr::one()));
        let result = {
            let mut transcript = Keccak256Transcript::from_proof(&proof);
            Zeromorph::batch_verify_for_shift(&vp, num_vars, &comm_refs, &points, &bad, &mut transcript)
        };
        assert!(result.is_err());
    }
}
