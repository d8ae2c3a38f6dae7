use ark_bn254::Fr;
use ark_ff::{PrimeField, UniformRand};
use ark_std::rand::rngs::StdRng;
use ark_std::rand::SeedableRng;
use permcore::field::Fe;
use permcore::mle::DenseMle;
use permcore::sumcheck::{self, SumcheckError, Term};
use permcore::transcript::Transcript;
use permcore::zerocheck::{prove, verify};

fn rand_fe(rng: &mut StdRng) -> Fe {
    Fe::from_limbs(Fr::rand(rng).into_bigint().0).unwrap()
}

fn random_mle(num_vars: usize, rng: &mut StdRng) -> DenseMle {
    let evals: Vec<Fe> = (0..(1usize << num_vars)).map(|_| rand_fe(rng)).collect();
    DenseMle::from_evaluations_vec(num_vars, evals)
}

#[test]
fn product_relation_round_trip() {
    let mut rng = StdRng::seed_from_u64(20);
    let num_vars = 4;
    let a = random_mle(num_vars, &mut rng);
    let b = random_mle(num_vars, &mut rng);
    let c_evals: Vec<Fe> = (0..(1usize << num_vars))
        .map(|x| a.evaluations[x].mul(b.evaluations[x]))
        .collect();
    let c = DenseMle::from_evaluations_vec(num_vars, c_evals);
    let factors = vec![a, b, c];
    let terms = vec![
        Term { coeff: Fe::from_u64(1), factors: vec![0, 1] },
        Term { coeff: Fe::from_u64(1).neg(), factors: vec![2] },
    ];
    let mut p_t = Transcript::new("zerocheck");
    let proof = prove(&factors, &terms, &mut p_t).proof;
    let mut v_t = Transcript::new("zerocheck");
    let out = verify(num_vars, 2, &proof, &mut v_t).unwrap();
    let a_r = factors[0].evaluate(&out.challenges);
    let b_r = factors[1].evaluate(&out.challenges);
    let c_r = factors[2].evaluate(&out.challenges);
    assert_eq!(out.eq_eval.mul(a_r.mul(b_r).sub(c_r)), out.final_claim);
}

#[test]
fn rejects_nonvanishing_constraint() {
    let mut rng = StdRng::seed_from_u64(21);
    let num_vars = 3;
    let factors = vec![random_mle(num_vars, &mut rng)];
    let terms = vec![Term { coeff: Fe::from_u64(1), factors: vec![0] }];
    let mut p_t = Transcript::new("zerocheck");
    let proof = prove(&factors, &terms, &mut p_t).proof;
    let mut v_t = Transcript::new("zerocheck");
    let err = verify(num_vars, 1, &proof, &mut v_t).unwrap_err();
    assert!(matches!(err, SumcheckError::RoundCheckFailed { round: 0 }));
}

#[test]
fn rejects_zero_sum_but_nonvanishing() {
    let num_vars = 3;
    let mut evals = vec![Fe::from_u64(0); 1 << num_vars];
    evals[0] = Fe::from_u64(1);
    evals[1] = Fe::from_u64(1).neg();
    let g = DenseMle::from_evaluations_vec(num_vars, evals);
    let factors = vec![g];
    let terms = vec![Term { coeff: Fe::from_u64(1), factors: vec![0] }];
    let mut p_t = Transcript::new("sumcheck");
    let plain = sumcheck::prove(&factors, &mut p_t).proof;
    let mut v_t = Transcript::new("sumcheck");
    assert!(sumcheck::verify(Fe::from_u64(0), num_vars, 1, &plain, &mut v_t).is_ok());
    let mut p_t = Transcript::new("zerocheck");
    let proof = prove(&factors, &terms, &mut p_t).proof;
    let mut v_t = Transcript::new("zerocheck");
    let err = verify(num_vars, 1, &proof, &mut v_t).unwrap_err();
    assert!(matches!(err, SumcheckError::RoundCheckFailed { round: 0 }));
}
