use ark_bn254::Fr;
use ark_ff::{PrimeField, UniformRand};
use ark_std::rand::rngs::StdRng;
use ark_std::rand::SeedableRng;
use permcore::field::Fe;
use permcore::mle::DenseMle;
use permcore::prodcheck::{
    build, fix_first, fix_last, points, prove, verify, ProdcheckError, ProdcheckEvals,
    ProdcheckPoints,
};
use permcore::sumcheck::SumcheckError;
use permcore::transcript::Transcript;

fn rand_fe(rng: &mut StdRng) -> Fe {
    Fe::from_limbs(Fr::rand(rng).into_bigint().0).unwrap()
}

fn unit_instance(num_vars: usize, rng: &mut StdRng) -> (DenseMle, DenseMle) {
    let n = 1usize << num_vars;
    let p_evals: Vec<Fe> = (0..n).map(|_| rand_fe(rng)).collect();
    let q_evals: Vec<Fe> = (0..n).map(|x| p_evals[(x + 1) % n]).collect();
    (
        DenseMle::from_evaluations_vec(num_vars, p_evals),
        DenseMle::from_evaluations_vec(num_vars, q_evals),
    )
}

fn random_instance(num_vars: usize, rng: &mut StdRng) -> (DenseMle, DenseMle) {
    let n = 1usize << num_vars;
    let p_evals: Vec<Fe> = (0..n).map(|_| rand_fe(rng)).collect();
    let q_evals: Vec<Fe> = (0..n).map(|_| rand_fe(rng)).collect();
    (
        DenseMle::from_evaluations_vec(num_vars, p_evals),
        DenseMle::from_evaluations_vec(num_vars, q_evals),
    )
}

fn evals_at(v: &DenseMle, points: &ProdcheckPoints) -> ProdcheckEvals {
    ProdcheckEvals {
        bot: v.evaluate(&points.bot),
        top: v.evaluate(&points.top),
        left: v.evaluate(&points.left),
        right: v.evaluate(&points.right),
    }
}

#[test]
fn root_holds_the_grand_product() {
    let mut rng = StdRng::seed_from_u64(30);
    let num_vars = 4;
    let n = 1usize << num_vars;
    let (p, q) = unit_instance(num_vars, &mut rng);
    let v = build(&p, &q).unwrap();
    let expected = (0..n).fold(Fe::one(), |acc, x| {
        acc.mul(p.evaluations[x].mul(q.evaluations[x].inverse().unwrap()))
    });
    assert_eq!(v.evaluations[2 * n - 2], expected);
    assert_eq!(v.evaluations[2 * n - 1], Fe::from_u64(0));
    assert_eq!(expected, Fe::from_u64(1));
}

#[test]
fn points_match_the_partial_evaluations() {
    let mut rng = StdRng::seed_from_u64(31);
    let num_vars = 4;
    let (p, q) = unit_instance(num_vars, &mut rng);
    let v = build(&p, &q).unwrap();
    let rho: Vec<Fe> = (0..num_vars).map(|_| rand_fe(&mut rng)).collect();
    let points = points(&rho);
    assert_eq!(v.evaluate(&points.bot), fix_last(&v, false).evaluate(&rho));
    assert_eq!(v.evaluate(&points.top), fix_last(&v, true).evaluate(&rho));
    assert_eq!(v.evaluate(&points.left), fix_first(&v, false).evaluate(&rho));
    assert_eq!(v.evaluate(&points.right), fix_first(&v, true).evaluate(&rho));
    assert_eq!(v.evaluate(&points.root), v.evaluations[(1 << (num_vars + 1)) - 2]);
}

#[test]
fn round_trip_accepts_unit_product() {
    let mut rng = StdRng::seed_from_u64(32);
    let num_vars = 5;
    let (p, q) = unit_instance(num_vars, &mut rng);
    let v = build(&p, &q).unwrap();
    let mut p_t = Transcript::new("prodcheck");
    let proof = prove(&v, &p, &q, &mut p_t).proof;
    let mut v_t = Transcript::new("prodcheck");
    let out = verify(num_vars, &proof, &mut v_t).unwrap();
    let opened = evals_at(&v, &out.points);
    assert!(out.final_check(&opened, p.evaluate(&out.challenges), q.evaluate(&out.challenges)));
    assert_eq!(v.evaluate(&out.points.root), Fe::from_u64(1));
}

#[test]
fn non_unit_product_fails_only_at_the_root() {
    let mut rng = StdRng::seed_from_u64(33);
    let num_vars = 4;
    let (p, q) = random_instance(num_vars, &mut rng);
    let v = build(&p, &q).unwrap();
    let mut p_t = Transcript::new("prodcheck");
    let proof = prove(&v, &p, &q, &mut p_t).proof;
    let mut v_t = Transcript::new("prodcheck");
    let out = verify(num_vars, &proof, &mut v_t).unwrap();
    let opened = evals_at(&v, &out.points);
    assert!(out.final_check(&opened, p.evaluate(&out.challenges), q.evaluate(&out.challenges)));
    assert_ne!(v.evaluate(&out.points.root), Fe::from_u64(1));
}

#[test]
fn rejects_forged_root() {
    let mut rng = StdRng::seed_from_u64(34);
    let num_vars = 4;
    let n = 1usize << num_vars;
    let (p, q) = random_instance(num_vars, &mut rng);
    let mut v = build(&p, &q).unwrap();
    v.evaluations[2 * n - 2] = Fe::from_u64(1);
    let mut p_t = Transcript::new("prodcheck");
    let proof = prove(&v, &p, &q, &mut p_t).proof;
    let mut v_t = Transcript::new("prodcheck");
    let err = verify(num_vars, &proof, &mut v_t).unwrap_err();
    assert!(matches!(err, SumcheckError::RoundCheckFailed { round: 0 }));
}

#[test]
fn rejects_tampered_leaf() {
    let mut rng = StdRng::seed_from_u64(35);
    let num_vars = 4;
    let (p, q) = unit_instance(num_vars, &mut rng);
    let mut v = build(&p, &q).unwrap();
    v.evaluations[3] = v.evaluations[3].add(Fe::from_u64(1));
    let mut p_t = Transcript::new("prodcheck");
    let proof = prove(&v, &p, &q, &mut p_t).proof;
    let mut v_t = Transcript::new("prodcheck");
    let err = verify(num_vars, &proof, &mut v_t).unwrap_err();
    assert!(matches!(err, SumcheckError::RoundCheckFailed { round: 0 }));
}

#[test]
fn final_check_rejects_wrong_opening() {
    let mut rng = StdRng::seed_from_u64(36);
    let num_vars = 4;
    let (p, q) = unit_instance(num_vars, &mut rng);
    let v = build(&p, &q).unwrap();
    let mut p_t = Transcript::new("prodcheck");
    let proof = prove(&v, &p, &q, &mut p_t).proof;
    let mut v_t = Transcript::new("prodcheck");
    let out = verify(num_vars, &proof, &mut v_t).unwrap();
    let honest = evals_at(&v, &out.points);
    let p_at = p.evaluate(&out.challenges);
    let q_at = q.evaluate(&out.challenges);
    assert!(out.final_check(&honest, p_at, q_at));
    let one = Fe::from_u64(1);
    for tamper in [
        ProdcheckEvals { top: honest.top.add(one), ..honest },
        ProdcheckEvals { left: honest.left.add(one), ..honest },
        ProdcheckEvals { right: honest.right.add(one), ..honest },
        ProdcheckEvals { bot: honest.bot.add(one), ..honest },
    ] {
        assert!(!out.final_check(&tamper, p_at, q_at));
    }
}

#[test]
fn build_rejects_zero_denominator() {
    let mut rng = StdRng::seed_from_u64(37);
    let num_vars = 3;
    let (p, mut q) = unit_instance(num_vars, &mut rng);
    q.evaluations[5] = Fe::from_u64(0);
    assert_eq!(build(&p, &q), Err(ProdcheckError::ZeroDenominator { index: 5 }));
}

#[test]
fn build_rejects_num_vars_mismatch() {
    let mut rng = StdRng::seed_from_u64(38);
    let (p, _) = unit_instance(3, &mut rng);
    let (_, q) = unit_instance(4, &mut rng);
    assert_eq!(
        build(&p, &q),
        Err(ProdcheckError::NumVarsMismatch { expected: 3, got: 4 })
    );
}

#[test]
fn points_have_the_documented_coordinates() {
    let rho = vec![Fe::from_u64(5), Fe::from_u64(6)];
    let pts = points(&rho);
    assert_eq!(pts.bot, vec![Fe::from_u64(5), Fe::from_u64(6), Fe::zero()]);
    assert_eq!(pts.top, vec![Fe::from_u64(5), Fe::from_u64(6), Fe::one()]);
    assert_eq!(pts.left, vec![Fe::zero(), Fe::from_u64(5), Fe::from_u64(6)]);
    assert_eq!(pts.right, vec![Fe::one(), Fe::from_u64(5), Fe::from_u64(6)]);
    assert_eq!(pts.root, vec![Fe::zero(), Fe::one(), Fe::one()]);
}

#[test]
fn build_lays_out_the_tree() {
    // p = (2, 3), q = (1, 1): leaves 2, 3; root 6; spare slot 0.
    let p = DenseMle::from_evaluations_vec(1, vec![Fe::from_u64(2), Fe::from_u64(3)]);
    let q = DenseMle::from_evaluations_vec(1, vec![Fe::one(), Fe::one()]);
    let v = build(&p, &q).unwrap();
    assert_eq!(v.num_vars, 2);
    assert_eq!(
        v.evaluations,
        vec![Fe::from_u64(2), Fe::from_u64(3), Fe::from_u64(6), Fe::zero()]
    );
}
