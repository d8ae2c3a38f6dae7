use ark_bn254::Fr;
use ark_ff::{PrimeField, UniformRand};
use ark_std::rand::rngs::StdRng;
use ark_std::rand::SeedableRng;
use permcore::field::Fe;
use permcore::mle::DenseMle;
use permcore::pcs::{MockPcs, PolynomialCommitment};
use permcore::permutation::Permutation;
use permcore::prodperm::{identity_at, index, prove, verify, ProdPermError, ProdPermProof};
use permcore::sumcheck::SumcheckError;
use permcore::transcript::Transcript;

fn rand_fe(rng: &mut StdRng) -> Fe {
    Fe::from_limbs(Fr::rand(rng).into_bigint().0).unwrap()
}

fn instance(num_vars: usize, rng: &mut StdRng) -> (Permutation, DenseMle, DenseMle) {
    let n = 1usize << num_vars;
    let perm = Permutation::new((0..n).map(|x| (x + 1) % n).collect()).unwrap();
    let f_evals: Vec<Fe> = (0..n).map(|_| rand_fe(rng)).collect();
    let mut g_evals = vec![Fe::from_u64(0); n];
    for x in 0..n {
        g_evals[perm.apply(x)] = f_evals[x];
    }
    (
        perm,
        DenseMle::from_evaluations_vec(num_vars, f_evals),
        DenseMle::from_evaluations_vec(num_vars, g_evals),
    )
}

#[test]
fn identity_at_matches_the_extension() {
    let mut rng = StdRng::seed_from_u64(50);
    let num_vars = 4;
    let table = Permutation::identity(num_vars).image_evaluations();
    let mle = DenseMle::from_evaluations_vec(num_vars, table);
    let rho: Vec<Fe> = (0..num_vars).map(|_| rand_fe(&mut rng)).collect();
    assert_eq!(identity_at(&rho), mle.evaluate(&rho));
}

#[test]
fn round_trip_accepts_consistent_instance() {
    let mut rng = StdRng::seed_from_u64(51);
    let num_vars = 5;
    let (perm, f, g) = instance(num_vars, &mut rng);
    let (pk, vk) = MockPcs::setup(num_vars + 1, &mut rng).unwrap();
    let (p_idx, v_idx) = index::<MockPcs>(&pk, &perm).unwrap();
    let mut p_t = Transcript::new("prodperm");
    let proof = prove(&pk, &p_idx, &f, &g, &mut p_t).unwrap();
    let mut v_t = Transcript::new("prodperm");
    verify(&vk, &v_idx, &proof, &mut v_t).unwrap();
}

#[test]
fn rejects_mismatched_g() {
    let mut rng = StdRng::seed_from_u64(52);
    let num_vars = 4;
    let (perm, f, mut g) = instance(num_vars, &mut rng);
    g.evaluations[2] = g.evaluations[2].add(Fe::from_u64(1));
    let (pk, vk) = MockPcs::setup(num_vars + 1, &mut rng).unwrap();
    let (p_idx, v_idx) = index::<MockPcs>(&pk, &perm).unwrap();
    let mut p_t = Transcript::new("prodperm");
    let proof = prove(&pk, &p_idx, &f, &g, &mut p_t).unwrap();
    let mut v_t = Transcript::new("prodperm");
    assert_eq!(verify(&vk, &v_idx, &proof, &mut v_t), Err(ProdPermError::RootNotOne));
}

#[test]
fn lib_rejects_mismatched_index() {
    let mut rng = StdRng::seed_from_u64(53);
    let num_vars = 4;
    let (perm, f, g) = instance(num_vars, &mut rng);
    let n = perm.size();
    let other = Permutation::new((0..n).map(|x| (x + 2) % n).collect()).unwrap();
    let (pk, vk) = MockPcs::setup(num_vars + 1, &mut rng).unwrap();
    let (p_idx, _) = index::<MockPcs>(&pk, &perm).unwrap();
    let (_, v_idx) = index::<MockPcs>(&pk, &other).unwrap();
    let mut p_t = Transcript::new("prodperm");
    let proof = prove(&pk, &p_idx, &f, &g, &mut p_t).unwrap();
    let mut v_t = Transcript::new("prodperm");
    let err = verify(&vk, &v_idx, &proof, &mut v_t).unwrap_err();
    assert!(matches!(err, ProdPermError::Sumcheck(SumcheckError::RoundCheckFailed { .. })));
}

type Tamper = (&'static str, fn(&mut ProdPermProof<MockPcs>));

#[test]
fn rejects_tampered_openings() {
    let mut rng = StdRng::seed_from_u64(54);
    let num_vars = 4;
    let (perm, f, g) = instance(num_vars, &mut rng);
    let (pk, vk) = MockPcs::setup(num_vars + 1, &mut rng).unwrap();
    let (p_idx, v_idx) = index::<MockPcs>(&pk, &perm).unwrap();
    let one = Fe::from_u64(1);
    let tampers: [Tamper; 8] = [
        ("f", |p| p.f.value = p.f.value.add(Fe::from_u64(1))),
        ("g", |p| p.g.value = p.g.value.add(Fe::from_u64(1))),
        ("sigma", |p| p.sigma.value = p.sigma.value.add(Fe::from_u64(1))),
        ("v_bot", |p| p.v_bot.value = p.v_bot.value.add(Fe::from_u64(1))),
        ("v_top", |p| p.v_top.value = p.v_top.value.add(Fe::from_u64(1))),
        ("v_left", |p| p.v_left.value = p.v_left.value.add(Fe::from_u64(1))),
        ("v_right", |p| p.v_right.value = p.v_right.value.add(Fe::from_u64(1))),
        ("v_root", |p| p.v_root.value = p.v_root.value.add(Fe::from_u64(1))),
    ];
    assert_eq!(one, Fe::one());
    for (name, tamper) in tampers {
        let mut p_t = Transcript::new("prodperm");
        let mut proof = prove(&pk, &p_idx, &f, &g, &mut p_t).unwrap();
        tamper(&mut proof);
        let mut v_t = Transcript::new("prodperm");
        assert_eq!(
            verify(&vk, &v_idx, &proof, &mut v_t),
            Err(ProdPermError::PcsVerifyFailed),
            "tampering {name} was not caught by the PCS",
        );
    }
}

#[test]
fn identity_at_weights_coordinates_by_powers_of_two() {
    // 3 + 2 * 5 + 4 * 7 = 41
    let rho = vec![Fe::from_u64(3), Fe::from_u64(5), Fe::from_u64(7)];
    assert_eq!(identity_at(&rho), Fe::from_u64(41));
}

#[test]
fn compress_combines_index_and_value() {
    let values = DenseMle::from_evaluations_vec(1, vec![Fe::from_u64(10), Fe::from_u64(20)]);
    let ids = vec![Fe::from_u64(0), Fe::from_u64(1)];
    let c = permcore::prodperm::compress(&values, &ids, Fe::from_u64(3), Fe::from_u64(4));
    // 10 + 3 * 0 + 4 = 14, 20 + 3 * 1 + 4 = 27
    assert_eq!(c.evaluations, vec![Fe::from_u64(14), Fe::from_u64(27)]);
}
