use ark_bn254::Fr;
use ark_ff::{PrimeField, UniformRand};
use ark_std::rand::rngs::StdRng;
use ark_std::rand::SeedableRng;
use permcore::eq::{eq, eq_eval_table};
use permcore::field::Fe;

fn rand_fe(rng: &mut StdRng) -> Fe {
    Fe::from_limbs(Fr::rand(rng).into_bigint().0).unwrap()
}

fn boolean_assignment(x: usize, mu: usize) -> Vec<Fe> {
    (0..mu)
        .map(|i| if (x >> i) & 1 == 1 { Fe::one() } else { Fe::zero() })
        .collect()
}

#[test]
fn eq_indicator_on_booleans() {
    let mu = 4;
    for i in 0..(1usize << mu) {
        for j in 0..(1usize << mu) {
            let x = boolean_assignment(i, mu);
            let y = boolean_assignment(j, mu);
            let expected = if i == j { Fe::one() } else { Fe::zero() };
            assert_eq!(eq(&x, &y), expected);
        }
    }
}

#[test]
fn eq_eval_table_matches_pointwise_at_random_alpha() {
    let mut rng = StdRng::seed_from_u64(1);
    let mu = 5;
    let alpha: Vec<Fe> = (0..mu).map(|_| rand_fe(&mut rng)).collect();
    let table = eq_eval_table(&alpha);
    for (x, &cell) in table.iter().enumerate() {
        let xs = boolean_assignment(x, mu);
        assert_eq!(cell, eq(&xs, &alpha), "mismatch at x = {x:b}");
    }
}

#[test]
fn eq_eval_table_zero_vars_is_one() {
    let table = eq_eval_table(&[]);
    assert_eq!(table, vec![Fe::one()]);
}

#[test]
fn eq_eval_table_sums_to_one() {
    let mut rng = StdRng::seed_from_u64(2);
    for mu in [1, 4, 7] {
        let alpha: Vec<Fe> = (0..mu).map(|_| rand_fe(&mut rng)).collect();
        let table = eq_eval_table(&alpha);
        let sum = table.iter().fold(Fe::zero(), |acc, x| acc.add(*x));
        assert_eq!(sum, Fe::one(), "mismatch at mu = {mu}");
    }
}

#[test]
fn eq_of_single_coordinates() {
    // eq(3, 5) = 3 * 5 + (1 - 3)(1 - 5) = 15 + 8 = 23
    let x = vec![Fe::from_u64(3)];
    let y = vec![Fe::from_u64(5)];
    assert_eq!(eq(&x, &y), Fe::from_u64(23));
}

#[test]
fn eq_eval_table_one_variable() {
    let alpha = vec![Fe::from_u64(7)];
    let table = eq_eval_table(&alpha);
    assert_eq!(table, vec![Fe::one().sub(Fe::from_u64(7)), Fe::from_u64(7)]);
}
