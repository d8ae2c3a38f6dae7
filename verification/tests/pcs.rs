use ark_bn254::Fr;
use ark_ff::{PrimeField, UniformRand};
use ark_std::rand::rngs::StdRng;
use ark_std::rand::SeedableRng;
use permcore::field::Fe;
use permcore::mle::{DenseMle, SparseMle};
use permcore::pcs::{MleRef, MockPcs, PolynomialCommitment};
use permcore::transcript::Transcript;

fn rand_fe(rng: &mut StdRng) -> Fe {
    Fe::from_limbs(Fr::rand(rng).into_bigint().0).unwrap()
}

#[test]
fn mock_pcs_round_trip() {
    let mut rng = StdRng::seed_from_u64(3);
    let num_vars = 3;
    let evals: Vec<Fe> = (0..(1 << num_vars)).map(|_| rand_fe(&mut rng)).collect();
    let poly = DenseMle::from_evaluations_vec(num_vars, evals);
    let (pk, vk) = MockPcs::setup(num_vars, &mut rng).unwrap();
    let comm = MockPcs::commit(&pk, MleRef::Dense(&poly)).unwrap();
    let point: Vec<Fe> = (0..num_vars).map(|_| rand_fe(&mut rng)).collect();
    let mut prover_t = Transcript::new("mock");
    let (value, proof) = MockPcs::open(&pk, MleRef::Dense(&poly), &point, &mut prover_t).unwrap();
    let mut verifier_t = Transcript::new("mock");
    assert!(MockPcs::verify(&vk, &comm, &point, value, &proof, &mut verifier_t).unwrap());
    let mut verifier_t = Transcript::new("mock");
    assert!(!MockPcs::verify(&vk, &comm, &point, value.add(Fe::one()), &proof, &mut verifier_t)
        .unwrap());
}

#[test]
fn sparse_and_dense_commit_identically() {
    let mut rng = StdRng::seed_from_u64(4);
    let num_vars = 4;
    let entries = [(3usize, rand_fe(&mut rng)), (9, rand_fe(&mut rng))];
    let sparse = SparseMle::from_evaluations(num_vars, &entries);
    let dense = DenseMle::from_evaluations_vec(num_vars, sparse.to_evaluations());
    let (pk, _vk) = MockPcs::setup(num_vars, &mut rng).unwrap();
    let c_sparse = MockPcs::commit(&pk, MleRef::Sparse(&sparse)).unwrap();
    let c_dense = MockPcs::commit(&pk, MleRef::Dense(&dense)).unwrap();
    assert_eq!(c_sparse, c_dense);
    let point: Vec<Fe> = (0..num_vars).map(|_| rand_fe(&mut rng)).collect();
    assert_eq!(
        MleRef::Sparse(&sparse).evaluate(&point),
        MleRef::Dense(&dense).evaluate(&point),
    );
}

#[test]
fn mle_ref_reports_num_vars_and_densifies() {
    let sparse = SparseMle::from_evaluations(2, &[(1usize, Fe::from_u64(5))]);
    let r = MleRef::Sparse(&sparse);
    assert_eq!(r.num_vars(), 2);
    let d = r.to_dense();
    assert_eq!(
        d.evaluations,
        vec![Fe::zero(), Fe::from_u64(5), Fe::zero(), Fe::zero()]
    );
}

#[test]
fn mle_evaluates_at_a_boolean_point() {
    let poly = DenseMle::from_evaluations_vec(
        2,
        vec![Fe::from_u64(1), Fe::from_u64(2), Fe::from_u64(3), Fe::from_u64(4)],
    );
    // Variable 0 is the low bit: the point (1, 1) is index 3.
    assert_eq!(poly.evaluate(&[Fe::one(), Fe::one()]), Fe::from_u64(4));
    assert_eq!(poly.evaluate(&[Fe::one(), Fe::zero()]), Fe::from_u64(2));
    // Halfway in the first variable between entries 0 and 1: 1 + (2 - 1) * 2 = 3.
    assert_eq!(poly.evaluate(&[Fe::from_u64(2), Fe::zero()]), Fe::from_u64(3));
}
