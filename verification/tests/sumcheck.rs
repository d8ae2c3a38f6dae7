use ark_bn254::Fr;
use ark_ff::{PrimeField, UniformRand};
use ark_std::rand::rngs::StdRng;
use ark_std::rand::SeedableRng;
use permcore::field::Fe;
use permcore::mle::DenseMle;
use permcore::sumcheck::{prove, prove_terms, verify, SumcheckError, Term};
use permcore::transcript::Transcript;

fn rand_fe(rng: &mut StdRng) -> Fe {
    Fe::from_limbs(Fr::rand(rng).into_bigint().0).unwrap()
}

fn random_mle(num_vars: usize, rng: &mut StdRng) -> DenseMle {
    let evals: Vec<Fe> = (0..(1usize << num_vars)).map(|_| rand_fe(rng)).collect();
    DenseMle::from_evaluations_vec(num_vars, evals)
}

fn initial_claim(factors: &[DenseMle]) -> Fe {
    let n = 1usize << factors[0].num_vars;
    (0..n)
        .map(|x| factors.iter().fold(Fe::one(), |acc, f| acc.mul(f.evaluations[x])))
        .fold(Fe::zero(), |acc, v| acc.add(v))
}

fn terms_claim(factors: &[DenseMle], terms: &[Term]) -> Fe {
    let n = 1usize << factors[0].num_vars;
    (0..n)
        .map(|x| {
            terms
                .iter()
                .map(|t| {
                    t.factors
                        .iter()
                        .fold(Fe::one(), |acc, &i| acc.mul(factors[i].evaluations[x]))
                        .mul(t.coeff)
                })
                .fold(Fe::zero(), |acc, v| acc.add(v))
        })
        .fold(Fe::zero(), |acc, v| acc.add(v))
}

#[test]
fn single_factor_round_trip() {
    let mut rng = StdRng::seed_from_u64(10);
    let num_vars = 4;
    let factor = random_mle(num_vars, &mut rng);
    let claim = initial_claim(core::slice::from_ref(&factor));
    let mut p_t = Transcript::new("sumcheck");
    let proof = prove(core::slice::from_ref(&factor), &mut p_t).proof;
    let mut v_t = Transcript::new("sumcheck");
    let out = verify(claim, num_vars, 1, &proof, &mut v_t).unwrap();
    assert_eq!(factor.evaluate(&out.challenges), out.final_claim);
}

#[test]
fn product_of_three_factors_round_trip() {
    let mut rng = StdRng::seed_from_u64(11);
    let num_vars = 3;
    let factors: Vec<DenseMle> = (0..3).map(|_| random_mle(num_vars, &mut rng)).collect();
    let claim = initial_claim(&factors);
    let mut p_t = Transcript::new("sumcheck");
    let proof = prove(&factors, &mut p_t).proof;
    let mut v_t = Transcript::new("sumcheck");
    let out = verify(claim, num_vars, 3, &proof, &mut v_t).unwrap();
    let final_product = factors
        .iter()
        .fold(Fe::one(), |acc, f| acc.mul(f.evaluate(&out.challenges)));
    assert_eq!(final_product, out.final_claim);
}

#[test]
fn multi_term_round_trip() {
    let mut rng = StdRng::seed_from_u64(12);
    let num_vars = 4;
    let factors: Vec<DenseMle> = (0..3).map(|_| random_mle(num_vars, &mut rng)).collect();
    let terms = vec![
        Term { coeff: rand_fe(&mut rng), factors: vec![0, 1, 2] },
        Term { coeff: rand_fe(&mut rng), factors: vec![1] },
    ];
    let claim = terms_claim(&factors, &terms);
    let mut p_t = Transcript::new("sumcheck");
    let proof = prove_terms(&factors, &terms, &mut p_t).proof;
    let mut v_t = Transcript::new("sumcheck");
    let out = verify(claim, num_vars, 3, &proof, &mut v_t).unwrap();
    let expected = terms
        .iter()
        .map(|t| {
            t.factors
                .iter()
                .fold(Fe::one(), |acc, &i| acc.mul(factors[i].evaluate(&out.challenges)))
                .mul(t.coeff)
        })
        .fold(Fe::zero(), |acc, v| acc.add(v));
    assert_eq!(expected, out.final_claim);
}

#[test]
fn repeated_factor_round_trip() {
    let mut rng = StdRng::seed_from_u64(13);
    let num_vars = 3;
    let factor = random_mle(num_vars, &mut rng);
    let terms = vec![Term { coeff: Fe::from_u64(1), factors: vec![0, 0] }];
    let factors = vec![factor];
    let claim = terms_claim(&factors, &terms);
    let mut p_t = Transcript::new("sumcheck");
    let proof = prove_terms(&factors, &terms, &mut p_t).proof;
    let mut v_t = Transcript::new("sumcheck");
    let out = verify(claim, num_vars, 2, &proof, &mut v_t).unwrap();
    let eval = factors[0].evaluate(&out.challenges);
    assert_eq!(eval.mul(eval), out.final_claim);
}

#[test]
fn rejects_wrong_initial_claim() {
    let mut rng = StdRng::seed_from_u64(14);
    let num_vars = 3;
    let factor = random_mle(num_vars, &mut rng);
    let claim = initial_claim(core::slice::from_ref(&factor));
    let mut p_t = Transcript::new("sumcheck");
    let proof = prove(&[factor], &mut p_t).proof;
    let mut v_t = Transcript::new("sumcheck");
    let err = verify(claim.add(Fe::one()), num_vars, 1, &proof, &mut v_t).unwrap_err();
    assert!(matches!(err, SumcheckError::RoundCheckFailed { round: 0 }));
}

#[test]
fn rejects_tampered_round_poly() {
    let mut rng = StdRng::seed_from_u64(15);
    let num_vars = 3;
    let factor = random_mle(num_vars, &mut rng);
    let claim = initial_claim(core::slice::from_ref(&factor));
    let mut p_t = Transcript::new("sumcheck");
    let mut proof = prove(&[factor], &mut p_t).proof;
    proof.round_polys[1][0] = proof.round_polys[1][0].add(Fe::one());
    let mut v_t = Transcript::new("sumcheck");
    let err = verify(claim, num_vars, 1, &proof, &mut v_t).unwrap_err();
    assert!(matches!(err, SumcheckError::RoundCheckFailed { round: 1 }));
}

#[test]
fn rejects_wrong_num_rounds() {
    let mut rng = StdRng::seed_from_u64(16);
    let num_vars = 3;
    let factor = random_mle(num_vars, &mut rng);
    let claim = initial_claim(core::slice::from_ref(&factor));
    let mut p_t = Transcript::new("sumcheck");
    let proof = prove(&[factor], &mut p_t).proof;
    let mut v_t = Transcript::new("sumcheck");
    let err = verify(claim, num_vars + 1, 1, &proof, &mut v_t).unwrap_err();
    assert!(matches!(err, SumcheckError::WrongNumRounds { .. }));
}

#[test]
fn rejects_malformed_round_poly() {
    let mut rng = StdRng::seed_from_u64(17);
    let num_vars = 3;
    let factor = random_mle(num_vars, &mut rng);
    let claim = initial_claim(core::slice::from_ref(&factor));
    let mut p_t = Transcript::new("sumcheck");
    let mut proof = prove(&[factor], &mut p_t).proof;
    proof.round_polys[0].pop();
    let mut v_t = Transcript::new("sumcheck");
    let err = verify(claim, num_vars, 1, &proof, &mut v_t).unwrap_err();
    assert!(matches!(
        err,
        SumcheckError::MalformedRoundPoly { round: 0, expected: 2, got: 1 }
    ));
}

#[test]
fn round_polynomials_have_degree_plus_one_evaluations() {
    let mut rng = StdRng::seed_from_u64(18);
    let factors: Vec<DenseMle> = (0..3).map(|_| random_mle(2, &mut rng)).collect();
    let mut p_t = Transcript::new("sumcheck");
    let out = prove(&factors, &mut p_t);
    assert_eq!(out.proof.round_polys.len(), 2);
    assert_eq!(out.challenges.len(), 2);
    for p in &out.proof.round_polys {
        assert_eq!(p.len(), 4);
    }
}
