use ark_bn254::Fr;
use ark_ff::{PrimeField, UniformRand};
use ark_std::rand::rngs::StdRng;
use ark_std::rand::SeedableRng;
use permcore::biperm::{index, prove, verify};
use permcore::field::Fe;
use permcore::hyrax::Hyrax;
use permcore::mle::DenseMle;
use permcore::pcs::{MleRef, MockPcs, PolynomialCommitment};
use permcore::permutation::Permutation;
use permcore::transcript::Transcript;

fn rand_fe(rng: &mut StdRng) -> Fe {
    Fe::from_limbs(Fr::rand(rng).into_bigint().0).unwrap()
}

fn instance(rng: &mut StdRng) -> (Permutation, DenseMle, DenseMle) {
    let perm = Permutation::new(vec![5, 3, 7, 1, 0, 6, 2, 4, 9, 11, 8, 10, 13, 15, 12, 14]).unwrap();
    let num_vars = perm.num_vars();
    let f_evals: Vec<Fe> = (0..(1usize << num_vars)).map(|_| rand_fe(rng)).collect();
    let mut g_evals = vec![Fe::from_u64(0); perm.size()];
    for x in 0..perm.size() {
        g_evals[perm.apply(x)] = f_evals[x];
    }
    let f = DenseMle::from_evaluations_vec(num_vars, f_evals);
    let g = DenseMle::from_evaluations_vec(num_vars, g_evals);
    (perm, f, g)
}

#[test]
fn biperm_round_trip_mock() {
    let mut rng = StdRng::seed_from_u64(80);
    let (perm, f, g) = instance(&mut rng);
    let (pk, vk) = MockPcs::setup(perm.num_vars() * 3 / 2, &mut rng).unwrap();
    let (p_idx, v_idx) = index::<MockPcs>(&pk, &perm).unwrap();
    let mut prover_t = Transcript::new("integration");
    let proof = prove(&pk, &p_idx, &f, &g, &mut prover_t).unwrap();
    let mut verifier_t = Transcript::new("integration");
    verify(&vk, &v_idx, &proof, &mut verifier_t).unwrap();
}

#[test]
fn biperm_round_trip_hyrax() {
    let mut rng = StdRng::seed_from_u64(81);
    let (perm, f, g) = instance(&mut rng);
    let (pk, vk) = Hyrax::setup(perm.num_vars() * 3 / 2, &mut rng).unwrap();
    let (p_idx, v_idx) = index::<Hyrax>(&pk, &perm).unwrap();
    let mut prover_t = Transcript::new("integration");
    let proof = prove(&pk, &p_idx, &f, &g, &mut prover_t).unwrap();
    let mut verifier_t = Transcript::new("integration");
    verify(&vk, &v_idx, &proof, &mut verifier_t).unwrap();
}

#[test]
fn public_api_round_trips() {
    let mut rng = StdRng::seed_from_u64(82);
    let num_vars = 4;
    let perm = Permutation::identity(num_vars);
    let evals: Vec<Fe> = perm.bit_evaluations(0);
    let poly = DenseMle::from_evaluations_vec(num_vars, evals);
    let (pk, vk) = MockPcs::setup(num_vars, &mut rng).unwrap();
    let commitment = MockPcs::commit(&pk, MleRef::Dense(&poly)).unwrap();
    let point: Vec<Fe> = (0..num_vars).map(|_| rand_fe(&mut rng)).collect();
    let mut prover_t = Transcript::new("integration");
    let (value, proof) = MockPcs::open(&pk, MleRef::Dense(&poly), &point, &mut prover_t).unwrap();
    let mut verifier_t = Transcript::new("integration");
    assert!(MockPcs::verify(&vk, &commitment, &point, value, &proof, &mut verifier_t).unwrap());
}

#[test]
fn prodperm_round_trip_hyrax() {
    let mut rng = StdRng::seed_from_u64(83);
    let (perm, f, g) = instance(&mut rng);
    let (pk, vk) = Hyrax::setup(perm.num_vars() + 1, &mut rng).unwrap();
    let (p_idx, v_idx) = permcore::prodperm::index::<Hyrax>(&pk, &perm).unwrap();
    let mut prover_t = Transcript::new("integration");
    let proof = permcore::prodperm::prove(&pk, &p_idx, &f, &g, &mut prover_t).unwrap();
    let mut verifier_t = Transcript::new("integration");
    permcore::prodperm::verify(&vk, &v_idx, &proof, &mut verifier_t).unwrap();
}
