use ark_bn254::Fr;
use ark_ff::{PrimeField, UniformRand};
use ark_std::rand::rngs::StdRng;
use ark_std::rand::{RngCore, SeedableRng};
use permcore::field::Fe;
use permcore::transcript::Transcript;

fn rand_fe(rng: &mut StdRng) -> Fe {
    Fe::from_limbs(Fr::rand(rng).into_bigint().0).unwrap()
}

#[test]
fn deterministic_with_same_inputs() {
    let mut a = Transcript::new("test");
    let mut b = Transcript::new("test");
    a.append_message("x", b"hello");
    b.append_message("x", b"hello");
    let ca = a.challenge("c");
    let cb = b.challenge("c");
    assert_eq!(ca, cb);
}

#[test]
fn diverges_on_different_inputs() {
    let mut a = Transcript::new("test");
    let mut b = Transcript::new("test");
    a.append_message("x", b"hello");
    b.append_message("x", b"world");
    let ca = a.challenge("c");
    let cb = b.challenge("c");
    assert_ne!(ca, cb);
}

#[test]
fn absorbs_arbitrary_bytes() {
    let mut rng = StdRng::seed_from_u64(5);
    let mut value = [0u8; 32];
    rng.fill_bytes(&mut value);
    let mut baseline = Transcript::new("test");
    let mut absorbed = Transcript::new("test");
    absorbed.append_message("v", &value);
    let c_base = baseline.challenge("c");
    let c_abs = absorbed.challenge("c");
    assert_ne!(c_base, c_abs);
}

#[test]
fn absorbs_field_element() {
    let mut rng = StdRng::seed_from_u64(6);
    let value = rand_fe(&mut rng);
    let mut baseline = Transcript::new("test");
    let mut absorbed = Transcript::new("test");
    absorbed.append("v", &value);
    let c_base = baseline.challenge("c");
    let c_abs = absorbed.challenge("c");
    assert_ne!(c_base, c_abs);
}

#[test]
fn absorbs_field_elements() {
    let mut rng = StdRng::seed_from_u64(7);
    let values = [rand_fe(&mut rng), rand_fe(&mut rng)];
    let mut baseline = Transcript::new("test");
    let mut absorbed = Transcript::new("test");
    absorbed.append_slice("v", &values);
    let c_base = baseline.challenge("c");
    let c_abs = absorbed.challenge("c");
    assert_ne!(c_base, c_abs);
}

#[test]
fn challenge_vec_returns_distinct_elements() {
    let mut t = Transcript::new("test");
    let v = t.challenge_vec("c", 4);
    assert_eq!(v.len(), 4);
    for i in 0..v.len() {
        for j in (i + 1)..v.len() {
            assert_ne!(v[i], v[j]);
        }
    }
}

#[test]
fn challenge_vec_matches_successive_challenges() {
    let mut a = Transcript::new("test");
    let mut b = Transcript::new("test");
    let v = a.challenge_vec("c", 3);
    let w = [b.challenge("c"), b.challenge("c"), b.challenge("c")];
    assert_eq!(v, w.to_vec());
    assert_eq!(a.challenge("d"), b.challenge("d"));
}

#[test]
fn field_element_encoding_is_little_endian() {
    let b = Fe::from_u64(0x0102).to_bytes();
    assert_eq!(b.len(), 32);
    assert_eq!(b[0], 0x02);
    assert_eq!(b[1], 0x01);
    assert!(b[2..].iter().all(|&x| x == 0));
}
