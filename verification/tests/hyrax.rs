use ark_bn254::Fr;
use ark_ff::{PrimeField, UniformRand};
use ark_std::rand::rngs::StdRng;
use ark_std::rand::SeedableRng;
use permcore::field::Fe;
use permcore::hyrax::matrix::{col_tensor, dot, lt_times_m_dense, lt_times_m_sparse, row_tensor, split_vars};
use permcore::hyrax::{Hyrax, HyraxError};
use permcore::mle::DenseMle;
use permcore::pcs::{MleRef, PolynomialCommitment};
use permcore::transcript::Transcript;

type H = Hyrax;

fn rand_fe(rng: &mut StdRng) -> Fe {
    Fe::from_limbs(Fr::rand(rng).into_bigint().0).unwrap()
}

fn random_poly(num_vars: usize, rng: &mut StdRng) -> DenseMle {
    let evals: Vec<Fe> = (0..(1usize << num_vars)).map(|_| rand_fe(rng)).collect();
    DenseMle::from_evaluations_vec(num_vars, evals)
}

fn round_trip_at(num_vars: usize) {
    let mut rng = StdRng::seed_from_u64(60 + num_vars as u64);
    let (pk, vk) = H::setup(num_vars, &mut rng).unwrap();
    let poly = random_poly(num_vars, &mut rng);
    let comm = H::commit(&pk, MleRef::Dense(&poly)).unwrap();
    let point: Vec<Fe> = (0..num_vars).map(|_| rand_fe(&mut rng)).collect();
    let mut p_t = Transcript::new("hyrax");
    let (value, proof) = H::open(&pk, MleRef::Dense(&poly), &point, &mut p_t).unwrap();
    assert_eq!(value, poly.evaluate(&point), "num_vars = {num_vars}");
    let mut v_t = Transcript::new("hyrax");
    assert!(
        H::verify(&vk, &comm, &point, value, &proof, &mut v_t).unwrap(),
        "num_vars = {num_vars}"
    );
}

#[test]
fn round_trip_various_num_vars() {
    for num_vars in 0..=6 {
        round_trip_at(num_vars);
    }
}

#[test]
fn rejects_wrong_value() {
    let mut rng = StdRng::seed_from_u64(70);
    let num_vars = 4;
    let (pk, vk) = H::setup(num_vars, &mut rng).unwrap();
    let poly = random_poly(num_vars, &mut rng);
    let comm = H::commit(&pk, MleRef::Dense(&poly)).unwrap();
    let point: Vec<Fe> = (0..num_vars).map(|_| rand_fe(&mut rng)).collect();
    let mut p_t = Transcript::new("hyrax");
    let (value, proof) = H::open(&pk, MleRef::Dense(&poly), &point, &mut p_t).unwrap();
    let mut v_t = Transcript::new("hyrax");
    assert!(!H::verify(&vk, &comm, &point, value.add(Fe::from_u64(1)), &proof, &mut v_t).unwrap());
}

#[test]
fn rejects_tampered_proof() {
    let mut rng = StdRng::seed_from_u64(71);
    let num_vars = 4;
    let (pk, vk) = H::setup(num_vars, &mut rng).unwrap();
    let poly = random_poly(num_vars, &mut rng);
    let comm = H::commit(&pk, MleRef::Dense(&poly)).unwrap();
    let point: Vec<Fe> = (0..num_vars).map(|_| rand_fe(&mut rng)).collect();
    let mut p_t = Transcript::new("hyrax");
    let (value, mut proof) = H::open(&pk, MleRef::Dense(&poly), &point, &mut p_t).unwrap();
    proof[0] = proof[0].add(Fe::from_u64(1));
    let mut v_t = Transcript::new("hyrax");
    assert!(!H::verify(&vk, &comm, &point, value, &proof, &mut v_t).unwrap());
}

#[test]
fn rejects_wrong_point() {
    let mut rng = StdRng::seed_from_u64(72);
    let num_vars = 4;
    let (pk, vk) = H::setup(num_vars, &mut rng).unwrap();
    let poly = random_poly(num_vars, &mut rng);
    let comm = H::commit(&pk, MleRef::Dense(&poly)).unwrap();
    let point: Vec<Fe> = (0..num_vars).map(|_| rand_fe(&mut rng)).collect();
    let mut p_t = Transcript::new("hyrax");
    let (value, proof) = H::open(&pk, MleRef::Dense(&poly), &point, &mut p_t).unwrap();
    let mut other: Vec<Fe> = point.clone();
    other[0] = other[0].add(Fe::from_u64(1));
    let mut v_t = Transcript::new("hyrax");
    assert!(!H::verify(&vk, &comm, &other, value, &proof, &mut v_t).unwrap());
}

#[test]
fn distinct_polys_distinct_commitments() {
    let mut rng = StdRng::seed_from_u64(73);
    let num_vars = 4;
    let (pk, _) = H::setup(num_vars, &mut rng).unwrap();
    let a = random_poly(num_vars, &mut rng);
    let b = random_poly(num_vars, &mut rng);
    let c_a = H::commit(&pk, MleRef::Dense(&a)).unwrap();
    let c_b = H::commit(&pk, MleRef::Dense(&b)).unwrap();
    assert_ne!(c_a, c_b);
}

#[test]
fn rejects_too_many_vars() {
    let mut rng = StdRng::seed_from_u64(74);
    let (pk, _) = H::setup(2, &mut rng).unwrap();
    let poly = random_poly(4, &mut rng);
    assert_eq!(
        H::commit(&pk, MleRef::Dense(&poly)),
        Err(HyraxError::TooManyVars { num_vars: 4, max_num_vars: 2 })
    );
}

#[test]
fn split_vars_gives_the_extra_variable_to_columns() {
    assert_eq!(split_vars(0), (0, 0));
    assert_eq!(split_vars(5), (2, 3));
    assert_eq!(split_vars(6), (3, 3));
}

#[test]
fn tensors_and_dot_evaluate_a_small_matrix() {
    // M = [[1, 2], [3, 4]] at the boolean point (col 1, row 0): entry 2.
    let evals = vec![Fe::from_u64(1), Fe::from_u64(2), Fe::from_u64(3), Fe::from_u64(4)];
    let point = vec![Fe::one(), Fe::zero()];
    let l = row_tensor(&point, 1);
    let r = col_tensor(&point, 1);
    assert_eq!(l, vec![Fe::one(), Fe::zero()]);
    assert_eq!(r, vec![Fe::zero(), Fe::one()]);
    let w = lt_times_m_dense(&evals, &l, 1);
    assert_eq!(w, vec![Fe::from_u64(1), Fe::from_u64(2)]);
    assert_eq!(dot(&w, &r), Fe::from_u64(2));
}

#[test]
fn sparse_combined_row_matches_dense() {
    let mut rng = StdRng::seed_from_u64(75);
    let entries = vec![(1usize, rand_fe(&mut rng)), (6usize, rand_fe(&mut rng)), (11usize, rand_fe(&mut rng))];
    let mut dense = vec![Fe::zero(); 16];
    for (k, v) in &entries {
        dense[*k] = *v;
    }
    let l: Vec<Fe> = (0..4).map(|_| rand_fe(&mut rng)).collect();
    assert_eq!(lt_times_m_sparse(&entries, &l, 2), lt_times_m_dense(&dense, &l, 2));
}

#[test]
fn sparse_and_dense_commit_alike_under_hyrax() {
    let mut rng = StdRng::seed_from_u64(76);
    let (pk, _) = H::setup(4, &mut rng).unwrap();
    let entries = [(3usize, rand_fe(&mut rng)), (9usize, rand_fe(&mut rng))];
    let sparse = permcore::mle::SparseMle::from_evaluations(4, &entries);
    let dense = DenseMle::from_evaluations_vec(4, sparse.to_evaluations());
    let c_sparse = H::commit(&pk, MleRef::Sparse(&sparse)).unwrap();
    let c_dense = H::commit(&pk, MleRef::Dense(&dense)).unwrap();
    assert_eq!(c_sparse, c_dense);
}
