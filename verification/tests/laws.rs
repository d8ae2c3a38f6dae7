use ark_bn254::Fr;
use ark_ff::{PrimeField, UniformRand};
use ark_std::rand::rngs::StdRng;
use ark_std::rand::SeedableRng;
use core::convert::Infallible;
use permcore::biperm::BiPermError;
use permcore::eq::{eq, eq_eval_table};
use permcore::error::CoreError;
use permcore::field::Fe;
use permcore::mle::DenseMle;
use permcore::pcs::MleRef;
use permcore::permutation::Permutation;
use permcore::prodcheck::{build, ProdcheckError};
use permcore::prodperm::{compress, ProdPermError};
use permcore::sumcheck::{self, SumcheckError};
use permcore::transcript::Transcript;

fn rand_fe(rng: &mut StdRng) -> Fe {
    Fe::from_limbs(Fr::rand(rng).into_bigint().0).unwrap()
}

fn sample_perm() -> Permutation {
    Permutation::new(vec![5, 3, 7, 1, 0, 6, 2, 4, 9, 11, 8, 10, 13, 15, 12, 14]).unwrap()
}

#[test]
fn biperm_claim_equals_g_at_alpha() {
    let mut rng = StdRng::seed_from_u64(90);
    let perm = sample_perm();
    let mu = perm.num_vars();
    let f: Vec<Fe> = (0..perm.size()).map(|_| rand_fe(&mut rng)).collect();
    let mut g = vec![Fe::zero(); perm.size()];
    for x in 0..perm.size() {
        g[perm.apply(x)] = f[x];
    }
    let g_poly = DenseMle::from_evaluations_vec(mu, g);
    let alpha: Vec<Fe> = (0..mu).map(|_| rand_fe(&mut rng)).collect();
    let eq_l = eq_eval_table(&alpha[..mu / 2]);
    let eq_r = eq_eval_table(&alpha[mu / 2..]);
    let mut sum = Fe::zero();
    for x in 0..perm.size() {
        let (lo, hi) = perm.halves(x).unwrap();
        sum = sum.add(f[x].mul(eq_l[lo]).mul(eq_r[hi]));
    }
    assert_eq!(sum, g_poly.evaluate(&alpha));
}

#[test]
fn consistent_instance_tree_root_is_one() {
    let mut rng = StdRng::seed_from_u64(91);
    let perm = sample_perm();
    let mu = perm.num_vars();
    let f: Vec<Fe> = (0..perm.size()).map(|_| rand_fe(&mut rng)).collect();
    let mut g = vec![Fe::zero(); perm.size()];
    for x in 0..perm.size() {
        g[perm.apply(x)] = f[x];
    }
    let f = DenseMle::from_evaluations_vec(mu, f);
    let g = DenseMle::from_evaluations_vec(mu, g);
    let beta = rand_fe(&mut rng);
    let gamma = rand_fe(&mut rng);
    let p = compress(&f, &perm.image_evaluations(), beta, gamma);
    let q = compress(&g, &Permutation::identity(mu).image_evaluations(), beta, gamma);
    let v = build(&p, &q).unwrap();
    assert_eq!(v.evaluations[2 * perm.size() - 2], Fe::one());
}

#[test]
fn mle_agrees_with_table_on_the_cube() {
    let mut rng = StdRng::seed_from_u64(92);
    let evals: Vec<Fe> = (0..8).map(|_| rand_fe(&mut rng)).collect();
    let poly = DenseMle::from_evaluations_vec(3, evals.clone());
    for k in 0..8usize {
        let point: Vec<Fe> = (0..3)
            .map(|i| if (k >> i) & 1 == 1 { Fe::one() } else { Fe::zero() })
            .collect();
        assert_eq!(poly.evaluate(&point), evals[k]);
    }
}

#[test]
fn errors_convert_into_protocol_errors() {
    let e: BiPermError<Infallible> = SumcheckError::RoundCheckFailed { round: 2 }.into();
    assert_eq!(e, BiPermError::Sumcheck(SumcheckError::RoundCheckFailed { round: 2 }));
    let e: BiPermError<Infallible> = CoreError::OddNumVars { num_vars: 3 }.into();
    assert_eq!(e, BiPermError::Core(CoreError::OddNumVars { num_vars: 3 }));
    let e: ProdPermError<Infallible> = ProdcheckError::ZeroDenominator { index: 1 }.into();
    assert_eq!(e, ProdPermError::Prodcheck(ProdcheckError::ZeroDenominator { index: 1 }));
    let e: ProdPermError<Infallible> = SumcheckError::WrongNumRounds { expected: 1, got: 2 }.into();
    assert_eq!(e, ProdPermError::Sumcheck(SumcheckError::WrongNumRounds { expected: 1, got: 2 }));
}

#[test]
fn polynomials_convert_into_references() {
    let poly = DenseMle::from_evaluations_vec(1, vec![Fe::from_u64(4), Fe::from_u64(9)]);
    let r: MleRef = (&poly).into();
    assert_eq!(r.num_vars(), 1);
    assert_eq!(r.evaluate(&[Fe::one()]), Fe::from_u64(9));
}

#[test]
fn eq_table_extension_is_eq() {
    let mut rng = StdRng::seed_from_u64(93);
    let a: Vec<Fe> = (0..4).map(|_| rand_fe(&mut rng)).collect();
    let z: Vec<Fe> = (0..4).map(|_| rand_fe(&mut rng)).collect();
    let table = DenseMle::from_evaluations_vec(4, eq_eval_table(&a));
    assert_eq!(table.evaluate(&z), eq(&a, &z));
}

#[test]
fn honest_sumcheck_of_five_factors_ends_at_the_expression() {
    let mut rng = StdRng::seed_from_u64(94);
    let num_vars = 3;
    let factors: Vec<DenseMle> = (0..5)
        .map(|_| {
            let evals: Vec<Fe> = (0..(1usize << num_vars)).map(|_| rand_fe(&mut rng)).collect();
            DenseMle::from_evaluations_vec(num_vars, evals)
        })
        .collect();
    let mut claim = Fe::zero();
    for x in 0..(1usize << num_vars) {
        let mut prod = Fe::one();
        for f in &factors {
            prod = prod.mul(f.evaluations[x]);
        }
        claim = claim.add(prod);
    }
    let mut p_t = Transcript::new("five");
    let out_p = sumcheck::prove(&factors, &mut p_t);
    let mut v_t = Transcript::new("five");
    let out = sumcheck::verify(claim, num_vars, 5, &out_p.proof, &mut v_t).unwrap();
    assert_eq!(out.challenges, out_p.challenges);
    let mut expected = Fe::one();
    for f in &factors {
        expected = expected.mul(f.evaluate(&out.challenges));
    }
    assert_eq!(out.final_claim, expected);
}

#[test]
fn error_messages_name_the_numbers() {
    let e = CoreError::NotAPermutation { len: 16, index: 3 };
    assert_eq!(e.message(), "not a permutation of [0, 16), failed at index 3");
    let e = CoreError::NotPowerOfTwo { len: 0 };
    assert_eq!(e.message(), "input length 0 is not a power of two");
    let e = CoreError::NumVarsMismatch { expected: 4, got: 105 };
    assert_eq!(e.message(), "number of variables 105 does not match expected 4");
    let e = CoreError::OddNumVars { num_vars: 7 };
    assert_eq!(e.message(), "number of variables 7 must be even for splitting");
}
