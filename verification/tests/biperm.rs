use ark_bn254::Fr;
use ark_ff::{PrimeField, UniformRand};
use ark_std::rand::rngs::StdRng;
use ark_std::rand::SeedableRng;
use permcore::biperm::{index, prove, verify, BiPermError};
use permcore::error::CoreError;
use permcore::field::Fe;
use permcore::mle::DenseMle;
use permcore::pcs::{MockPcs, PolynomialCommitment};
use permcore::permutation::Permutation;
use permcore::sumcheck::SumcheckError;
use permcore::transcript::Transcript;

fn rand_fe(rng: &mut StdRng) -> Fe {
    Fe::from_limbs(Fr::rand(rng).into_bigint().0).unwrap()
}

fn consistent_pair(perm: &Permutation, rng: &mut StdRng) -> (DenseMle, DenseMle) {
    let num_vars = perm.num_vars();
    let f_evals: Vec<Fe> = (0..(1usize << num_vars)).map(|_| rand_fe(rng)).collect();
    let mut g_evals = vec![Fe::from_u64(0); perm.size()];
    for x in 0..perm.size() {
        g_evals[perm.apply(x)] = f_evals[x];
    }
    (
        DenseMle::from_evaluations_vec(num_vars, f_evals),
        DenseMle::from_evaluations_vec(num_vars, g_evals),
    )
}

fn sample_perm() -> Permutation {
    Permutation::new(vec![5, 3, 7, 1, 0, 6, 2, 4, 9, 11, 8, 10, 13, 15, 12, 14]).unwrap()
}

fn setup_keys(perm: &Permutation, rng: &mut StdRng) -> ((), ()) {
    MockPcs::setup(perm.num_vars() * 3 / 2, rng).unwrap()
}

#[test]
fn honest_round_trip() {
    let mut rng = StdRng::seed_from_u64(40);
    let perm = sample_perm();
    let (f, g) = consistent_pair(&perm, &mut rng);
    let (pk, vk) = setup_keys(&perm, &mut rng);
    let (p_idx, v_idx) = index::<MockPcs>(&pk, &perm).unwrap();
    let mut p_t = Transcript::new("biperm");
    let proof = prove(&pk, &p_idx, &f, &g, &mut p_t).unwrap();
    let mut v_t = Transcript::new("biperm");
    verify(&vk, &v_idx, &proof, &mut v_t).unwrap();
}

#[test]
fn rejects_inconsistent_pair() {
    let mut rng = StdRng::seed_from_u64(41);
    let perm = sample_perm();
    let (f, _g_good) = consistent_pair(&perm, &mut rng);
    let bad_evals: Vec<Fe> = (0..(1usize << perm.num_vars())).map(|_| rand_fe(&mut rng)).collect();
    let g_bad = DenseMle::from_evaluations_vec(perm.num_vars(), bad_evals);
    let (pk, vk) = setup_keys(&perm, &mut rng);
    let (p_idx, v_idx) = index::<MockPcs>(&pk, &perm).unwrap();
    let mut p_t = Transcript::new("biperm");
    let proof = prove(&pk, &p_idx, &f, &g_bad, &mut p_t).unwrap();
    let mut v_t = Transcript::new("biperm");
    let err = verify(&vk, &v_idx, &proof, &mut v_t).unwrap_err();
    assert!(matches!(
        err,
        BiPermError::Sumcheck(SumcheckError::RoundCheckFailed { round: 0 }),
    ));
}

#[test]
fn rejects_tampered_sumcheck() {
    let mut rng = StdRng::seed_from_u64(42);
    let perm = sample_perm();
    let (f, g) = consistent_pair(&perm, &mut rng);
    let (pk, vk) = setup_keys(&perm, &mut rng);
    let (p_idx, v_idx) = index::<MockPcs>(&pk, &perm).unwrap();
    let mut p_t = Transcript::new("biperm");
    let mut proof = prove(&pk, &p_idx, &f, &g, &mut p_t).unwrap();
    proof.sumcheck.round_polys[1][0] = proof.sumcheck.round_polys[1][0].add(Fe::from_u64(1));
    let mut v_t = Transcript::new("biperm");
    let err = verify(&vk, &v_idx, &proof, &mut v_t).unwrap_err();
    assert!(matches!(
        err,
        BiPermError::Sumcheck(SumcheckError::RoundCheckFailed { round: 1 }),
    ));
}

#[test]
fn rejects_mismatched_index() {
    let mut rng = StdRng::seed_from_u64(43);
    let perm = sample_perm();
    let (f, g) = consistent_pair(&perm, &mut rng);
    let other_perm = Permutation::identity(perm.num_vars());
    let (pk, vk) = setup_keys(&perm, &mut rng);
    let (p_idx, _) = index::<MockPcs>(&pk, &perm).unwrap();
    let (_, v_idx_other) = index::<MockPcs>(&pk, &other_perm).unwrap();
    let mut p_t = Transcript::new("biperm");
    let proof = prove(&pk, &p_idx, &f, &g, &mut p_t).unwrap();
    let mut v_t = Transcript::new("biperm");
    let err = verify(&vk, &v_idx_other, &proof, &mut v_t).unwrap_err();
    assert!(matches!(err, BiPermError::PcsVerifyFailed));
}

#[test]
fn rejects_tampered_indicator_opening() {
    let mut rng = StdRng::seed_from_u64(44);
    let perm = sample_perm();
    let (f, g) = consistent_pair(&perm, &mut rng);
    let (pk, vk) = setup_keys(&perm, &mut rng);
    let (p_idx, v_idx) = index::<MockPcs>(&pk, &perm).unwrap();
    let mut p_t = Transcript::new("biperm");
    let mut proof = prove(&pk, &p_idx, &f, &g, &mut p_t).unwrap();
    proof.ind_l_at_r = proof.ind_l_at_r.add(Fe::from_u64(1));
    let mut v_t = Transcript::new("biperm");
    let err = verify(&vk, &v_idx, &proof, &mut v_t).unwrap_err();
    assert!(matches!(err, BiPermError::PcsVerifyFailed));
}

#[test]
fn index_rejects_odd_num_vars() {
    let perm = Permutation::new(vec![5, 3, 7, 1, 0, 6, 2, 4]).unwrap();
    let err = index::<MockPcs>(&(), &perm).err().unwrap();
    assert!(matches!(err, BiPermError::Core(CoreError::OddNumVars { num_vars: 3 })));
}

#[test]
fn index_commits_to_both_halves() {
    let perm = sample_perm();
    let (p_idx, v_idx) = index::<MockPcs>(&(), &perm).unwrap();
    assert_eq!(v_idx.num_vars, 4);
    assert_eq!(p_idx.ind_l.num_vars, 6);
    assert_eq!(p_idx.ind_l_commit.evaluations.len(), 64);
    assert_eq!(v_idx.ind_r_commit, p_idx.ind_r_commit);
}
