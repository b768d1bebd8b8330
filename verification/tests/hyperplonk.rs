use plonkish_backend::backend::PlonkishCircuitInfo;
use plonkish_backend::curve::G1;
use plonkish_backend::error::Error;
use plonkish_backend::expression::{Expression, Rotation};
use plonkish_backend::field::Fr;
use plonkish_backend::hyperplonk::{
    HyperPlonk, HyperPlonkVerifierParam, HyperPlonkVerifierSetupParam, VerifierRounds,
};
use plonkish_backend::pcs::EvaluationForShift;
use plonkish_backend::poly::MultilinearPolynomial;
use plonkish_backend::transcript::Keccak256Transcript;
use plonkish_backend::zeromorph::Zeromorph;

fn table(n: usize, seed: u64) -> Vec<Fr> {
    (0..n as u64).map(|i| Fr::from_u64(seed * 1000 + i * i + 3)).collect()
}

fn param(num_instances: usize, nw: usize, nl: usize, nz: usize, nv: usize) -> HyperPlonkVerifierParam {
    HyperPlonkVerifierParam {
        num_instances,
        num_witness_polys: nw,
        num_lookups: nl,
        num_permutation_z_polys: nz,
        num_vars: nv,
        expression: Expression::Challenge(0),
        named_advices: vec![],
        preprocess_comms: vec![],
        permutation_comms: vec![],
    }
}

fn points(n: usize) -> Vec<G1> {
    let param = Zeromorph::setup(4, 1);
    let (pp, _) = Zeromorph::trim(&param, 4, 1).unwrap();
    (0..n as u64)
        .map(|i| Zeromorph::commit(&pp, &MultilinearPolynomial::new(table(4, i + 1))).unwrap())
        .collect()
}

#[test]
fn setup_for_a_circuit() {
    let info = PlonkishCircuitInfo {
        k: 3,
        num_instances: 0,
        preprocess_polys: vec![],
        num_witness_polys: 1,
        named_witnesses: vec![],
        constraints: vec![],
        lookups: vec![],
        permutations: vec![],
        max_degree: None,
    };
    assert!(info.is_well_formed());
    let param = HyperPlonk::setup(&info).unwrap();
    assert_eq!(param.monomial_g1.len(), 8);
}

#[test]
fn verifier_rounds_read_what_the_prover_wrote() {
    let vp = param(2, 2, 1, 1, 3);
    let instances = vec![vec![Fr::from_u64(5), Fr::from_u64(6)], vec![Fr::from_u64(7)]];
    let comms = points(5);
    let mut prover = Keccak256Transcript::new();
    for column in instances.iter() {
        for v in column.iter() {
            prover.common_field_element(v).unwrap();
        }
    }
    prover.write_commitments(&comms[0..2]);
    let beta = prover.squeeze_challenge();
    prover.write_commitments(&comms[2..3]);
    let gamma = prover.squeeze_challenge();
    prover.write_commitments(&comms[3..5]);
    let alpha = prover.squeeze_challenge();
    let y = prover.squeeze_challenges(3);
    let proof = prover.into_proof();

    let mut verifier = Keccak256Transcript::from_proof(&proof);
    let rounds = HyperPlonk::verify_rounds(&vp, &instances, &mut verifier).ok().unwrap();
    assert_eq!(rounds.witness_comms, comms[0..2].to_vec());
    assert_eq!(rounds.lookup_m_comms, comms[2..3].to_vec());
    assert_eq!(rounds.lookup_h_permutation_z_comms, comms[3..5].to_vec());
    assert_eq!(rounds.challenges, vec![beta, gamma, alpha]);
    assert_eq!(rounds.y, y);

    // other instances give other challenges
    let other = vec![vec![Fr::from_u64(5), Fr::from_u64(6)], vec![Fr::from_u64(8)]];
    let mut verifier = Keccak256Transcript::from_proof(&proof);
    let rounds = HyperPlonk::verify_rounds(&vp, &other, &mut verifier).ok().unwrap();
    assert_ne!(rounds.challenges[0], beta);
}

#[test]
fn verifier_rounds_need_every_commitment() {
    let vp = param(0, 2, 1, 1, 3);
    let comms = points(4);
    let mut prover = Keccak256Transcript::new();
    prover.write_commitments(&comms);
    let proof = prover.into_proof();
    let mut verifier = Keccak256Transcript::from_proof(&proof);
    let result = HyperPlonk::verify_rounds(&vp, &[], &mut verifier);
    assert!(matches!(result, Err(Error::Transcript(_, m)) if m == "Failed to read commitment"));
}

#[test]
fn verifier_openings_check_the_claims() {
    let num_vars = 3;
    let size = 8;
    let param = Zeromorph::setup(size, 4);
    let (pp, zvp) = Zeromorph::trim(&param, size, 4).unwrap();
    // one instance polynomial, one preprocessed, two witness polynomials
    let polys: Vec<MultilinearPolynomial> = (0..4).map(|i| MultilinearPolynomial::new(table(size, i + 1))).collect();
    let comms: Vec<G1> = polys[1..].iter().map(|p| Zeromorph::commit(&pp, p).unwrap()).collect();
    let point: Vec<Fr> = (0..num_vars as u64).map(|i| Fr::from_u64(11 * i + 4)).collect();
    let claims = [(1usize, 0i32), (2, 0), (3, 1), (2, -1)];
    let evals: Vec<EvaluationForShift> = claims
        .iter()
        .map(|&(poly, rot)| {
            let mut t = table(size, poly as u64 + 1);
            if rot > 0 {
                t.rotate_left(rot as usize);
            } else {
                t.rotate_right((-rot) as usize);
            }
            EvaluationForShift::new(poly, Rotation(rot), MultilinearPolynomial::new(t).evaluate(&point))
        })
        .collect();
    let poly_refs: Vec<&MultilinearPolynomial> = polys.iter().collect();
    let identity = G1::identity();
    let comm_refs: Vec<&G1> = std::iter::once(&identity).chain(comms.iter()).collect();
    let points = vec![point.clone()];
    let proof = {
        let mut transcript = Keccak256Transcript::new();
        Zeromorph::batch_open_for_shift(&pp, num_vars, &poly_refs, &comm_refs, &points, &evals, &mut transcript).unwrap();
        transcript.into_proof()
    };
    let mut vp = param_with(1, comms[0]);
    vp.num_witness_polys = 2;
    let rounds = VerifierRounds {
        witness_comms: comms[1..3].to_vec(),
        lookup_m_comms: vec![],
        lookup_h_permutation_z_comms: vec![],
        challenges: vec![],
        y: vec![],
    };
    let vs = HyperPlonkVerifierSetupParam { pcs: zvp };
    let mut transcript = Keccak256Transcript::from_proof(&proof);
    let result = HyperPlonk::verify_openings(&vs, &vp, &rounds, &points, &evals, &mut transcript);
    assert_eq!(result, Ok(()));
    // a wrong witness commitment is rejected
    let rounds = VerifierRounds {
        witness_comms: vec![comms[2], comms[1]],
        lookup_m_comms: vec![],
        lookup_h_permutation_z_comms: vec![],
        challenges: vec![],
        y: vec![],
    };
    let mut transcript = Keccak256Transcript::from_proof(&proof);
    let result = HyperPlonk::verify_openings(&vs, &vp, &rounds, &points, &evals, &mut transcript);
    assert!(result.is_err());
}

fn param_with(num_instances: usize, preprocess: G1) -> HyperPlonkVerifierParam {
    let mut vp = param(num_instances, 0, 0, 0, 3);
    vp.preprocess_comms = vec![preprocess];
    vp
}
