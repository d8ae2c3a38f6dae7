use ark_bn254::Fr;
use ark_ff::{PrimeField, UniformRand};
use ark_std::rand::rngs::StdRng;
use ark_std::rand::SeedableRng;
use permcore::eq::eq_eval_table;
use permcore::error::CoreError;
use permcore::field::Fe;
use permcore::mle::DenseMle;
use permcore::permutation::Permutation;

fn rand_fe(rng: &mut StdRng) -> Fe {
    Fe::from_limbs(Fr::rand(rng).into_bigint().0).unwrap()
}

fn sample_perm() -> Permutation {
    Permutation::new(vec![5, 3, 7, 1, 0, 6, 2, 4, 9, 11, 8, 10, 13, 15, 12, 14]).unwrap()
}

#[test]
fn rejects_non_power_of_two() {
    assert!(matches!(
        Permutation::new(vec![0, 1, 2]),
        Err(CoreError::NotPowerOfTwo { len: 3 })
    ));
}

#[test]
fn rejects_empty_and_even_non_powers() {
    assert!(matches!(
        Permutation::new(vec![]),
        Err(CoreError::NotPowerOfTwo { len: 0 })
    ));
    assert!(matches!(
        Permutation::new(vec![0, 1, 2, 3, 4, 5]),
        Err(CoreError::NotPowerOfTwo { len: 6 })
    ));
    assert!(matches!(
        Permutation::new((0..12).collect()),
        Err(CoreError::NotPowerOfTwo { len: 12 })
    ));
}

#[test]
fn num_vars_is_the_exponent_of_the_length() {
    assert_eq!(Permutation::new(vec![0]).unwrap().num_vars(), 0);
    assert_eq!(Permutation::new(vec![1, 0]).unwrap().num_vars(), 1);
    assert_eq!(Permutation::new((0..64).rev().collect()).unwrap().num_vars(), 6);
}

#[test]
fn rejects_duplicate_image() {
    assert!(matches!(
        Permutation::new(vec![0, 0, 2, 3]),
        Err(CoreError::NotAPermutation { .. })
    ));
}

#[test]
fn identity_is_well_formed() {
    let id = Permutation::identity(3);
    assert_eq!(id.num_vars(), 3);
    assert_eq!(id.size(), 8);
    for x in 0..8 {
        assert_eq!(id.apply(x), x);
    }
}

#[test]
fn bit_decomposition_round_trips() {
    let perm = Permutation::new(vec![3, 1, 2, 0]).unwrap();
    for x in 0..4 {
        let mut reconstructed = 0usize;
        for i in 0..perm.num_vars() {
            if perm.bit(i, x) {
                reconstructed |= 1 << i;
            }
        }
        assert_eq!(reconstructed, perm.apply(x));
    }
}

#[test]
fn halves_rejects_odd_num_vars() {
    let perm = Permutation::new(vec![5, 3, 7, 1, 0, 6, 2, 4]).unwrap();
    assert_eq!(perm.num_vars(), 3);
    assert!(matches!(
        perm.halves(0),
        Err(CoreError::OddNumVars { num_vars: 3 })
    ));
}

#[test]
fn halves_recombine_to_image() {
    let perm = sample_perm();
    for x in 0..perm.size() {
        let (lo, hi) = perm.halves(x).unwrap();
        assert_eq!(lo | (hi << (perm.num_vars() / 2)), perm.apply(x));
    }
}

#[test]
fn half_indicator_rejects_odd_num_vars() {
    let perm = Permutation::new(vec![5, 3, 7, 1, 0, 6, 2, 4]).unwrap();
    assert!(matches!(
        perm.half_indicator(true),
        Err(CoreError::OddNumVars { num_vars: 3 })
    ));
}

#[test]
fn half_indicator_nonzeros_match_halves() {
    let perm = sample_perm();
    let mu = perm.num_vars();
    for use_left in [true, false] {
        let ind = perm.half_indicator(use_left).unwrap();
        assert_eq!(ind.num_vars, mu + mu / 2);
        assert_eq!(ind.evaluations.len(), perm.size());
        for x in 0..perm.size() {
            let (lo, hi) = perm.halves(x).unwrap();
            let y = if use_left { lo } else { hi };
            assert_eq!(ind.evaluations.get(&(x | (y << mu))), Some(&Fe::one()));
        }
    }
}

#[test]
fn half_indicator_partial_evaluation_matches_eq_table() {
    let mut rng = StdRng::seed_from_u64(7);
    let perm = sample_perm();
    let mu = perm.num_vars();
    let r: Vec<Fe> = (0..mu).map(|_| rand_fe(&mut rng)).collect();
    let alpha: Vec<Fe> = (0..mu / 2).map(|_| rand_fe(&mut rng)).collect();
    let point: Vec<Fe> = r.iter().chain(&alpha).copied().collect();
    for use_left in [true, false] {
        let ind = perm.half_indicator(use_left).unwrap();
        let eq_t = eq_eval_table(&alpha);
        let h_evals: Vec<Fe> = (0..perm.size())
            .map(|x| {
                let (lo, hi) = perm.halves(x).unwrap();
                eq_t[if use_left { lo } else { hi }]
            })
            .collect();
        let h = DenseMle::from_evaluations_vec(mu, h_evals);
        assert_eq!(ind.evaluate(&point), h.evaluate(&r));
    }
}

#[test]
fn group_rejects_zero_ell() {
    let perm = Permutation::identity(4);
    assert!(matches!(
        perm.group(0, 0, 0),
        Err(CoreError::NumVarsMismatch { .. })
    ));
}

#[test]
fn group_rejects_indivisible_ell() {
    let perm = Permutation::identity(4);
    assert!(matches!(
        perm.group(3, 0, 0),
        Err(CoreError::NumVarsMismatch { expected: 3, got: 4 })
    ));
}

#[test]
fn group_recombines_to_image() {
    let perm = sample_perm();
    let ell = 2;
    let width = perm.num_vars() / ell;
    for x in 0..perm.size() {
        let mut reconstructed = 0usize;
        for j in 0..ell {
            reconstructed |= perm.group(ell, j, x).unwrap() << (j * width);
        }
        assert_eq!(reconstructed, perm.apply(x));
    }
}

#[test]
fn image_evaluations_hold_the_image() {
    let perm = sample_perm();
    let t = perm.image_evaluations();
    assert_eq!(t.len(), 16);
    for x in 0..16 {
        assert_eq!(t[x], Fe::from_u64(perm.apply(x) as u64));
    }
}

#[test]
fn bit_evaluations_hold_the_bits() {
    let perm = sample_perm();
    let t = perm.bit_evaluations(1);
    for x in 0..16 {
        let expected = if (perm.apply(x) >> 1) & 1 == 1 { Fe::one() } else { Fe::zero() };
        assert_eq!(t[x], expected);
    }
}

#[test]
fn rejects_out_of_range_image() {
    assert!(matches!(
        Permutation::new(vec![0, 4, 2, 3]),
        Err(CoreError::NotAPermutation { len: 4, index: 1 })
    ));
}
