//! Elements of the BN254 scalar field, held as four little-endian limbs of
//! their canonical integer value. Arithmetic is done by `ark_ff`; the
//! contracts state it as arithmetic modulo the field's prime.

use ark_bn254::Fr;
use ark_ff::{AdditiveGroup, BigInt, Field, PrimeField};
use ark_serialize::CanonicalSerialize;
use vstd::arithmetic::div_mod::*;
use vstd::arithmetic::power::pow;
use vstd::prelude::*;

verus! {

/// The prime order of the BN254 scalar field.
pub open spec fn modulus() -> int {
    21888242871839275222246405745257275088548364400416034343698204186575808495617int
}

/// The base of a 64-bit limb.
pub open spec fn limb_base() -> int {
    0x1_0000_0000_0000_0000int
}

/// Field addition on canonical values.
pub open spec fn fadd(a: int, b: int) -> int {
    (a + b) % modulus()
}

/// Field subtraction on canonical values.
pub open spec fn fsub(a: int, b: int) -> int {
    (a - b) % modulus()
}

/// Field multiplication on canonical values.
pub open spec fn fmul(a: int, b: int) -> int {
    (a * b) % modulus()
}

/// Field negation on canonical values.
pub open spec fn fneg(a: int) -> int {
    (-a) % modulus()
}

/// A field element; its value is `v()`, an integer in `[0, modulus())`.
#[derive(Clone, Copy, Debug)]
pub struct Fe {
    pub(crate) l0: u64,
    pub(crate) l1: u64,
    pub(crate) l2: u64,
    pub(crate) l3: u64,
}

impl Fe {
    /// The integer the limbs spell out.
    pub closed spec fn raw(self) -> int {
        self.l0 + self.l1 * limb_base() + self.l2 * (limb_base() * limb_base()) + self.l3 * (
        limb_base() * limb_base() * limb_base())
    }

    /// The canonical value of the element.
    pub closed spec fn v(self) -> int {
        self.raw() % modulus()
    }

    #[verifier::type_invariant]
    closed spec fn canonical(self) -> bool {
        self.raw() < modulus()
    }
}

/// Every value lies in `[0, modulus())`.
pub proof fn lemma_value_range(a: Fe)
    ensures
        0 <= a.v() < modulus(),
{
    lemma_mod_bound(a.raw(), modulus());
}

proof fn lemma_limbs_injective(a: Fe, b: Fe)
    requires
        a.raw() == b.raw(),
    ensures
        a.l0 == b.l0 && a.l1 == b.l1 && a.l2 == b.l2 && a.l3 == b.l3,
{
    let k = limb_base();
    let ta = a.l1 + a.l2 * k + a.l3 * (k * k);
    let tb = b.l1 + b.l2 * k + b.l3 * (k * k);
    assert(a.raw() == a.l0 + k * ta) by (nonlinear_arith)
        requires
            k == limb_base(),
            ta == a.l1 + a.l2 * k + a.l3 * (k * k),
            a.raw() == a.l0 + a.l1 * k + a.l2 * (k * k) + a.l3 * (k * k * k),
    ;
    assert(b.raw() == b.l0 + k * tb) by (nonlinear_arith)
        requires
            k == limb_base(),
            tb == b.l1 + b.l2 * k + b.l3 * (k * k),
            b.raw() == b.l0 + b.l1 * k + b.l2 * (k * k) + b.l3 * (k * k * k),
    ;
    assert(a.l0 == b.l0 && ta == tb) by (nonlinear_arith)
        requires
            a.l0 + k * ta == b.l0 + k * tb,
            0 <= a.l0 < k,
            0 <= b.l0 < k,
            k > 0,
    {
        if ta > tb {
            assert(k * ta >= k * (tb + 1));
        } else if ta < tb {
            assert(k * tb >= k * (ta + 1));
        }
    }
    let ua = a.l2 + a.l3 * k;
    let ub = b.l2 + b.l3 * k;
    assert(ta == a.l1 + k * ua) by (nonlinear_arith)
        requires
            ta == a.l1 + a.l2 * k + a.l3 * (k * k),
            ua == a.l2 + a.l3 * k,
    ;
    assert(tb == b.l1 + k * ub) by (nonlinear_arith)
        requires
            tb == b.l1 + b.l2 * k + b.l3 * (k * k),
            ub == b.l2 + b.l3 * k,
    ;
    assert(a.l1 == b.l1 && ua == ub) by (nonlinear_arith)
        requires
            a.l1 + k * ua == b.l1 + k * ub,
            0 <= a.l1 < k,
            0 <= b.l1 < k,
            k > 0,
    {
        if ua > ub {
            assert(k * ua >= k * (ub + 1));
        } else if ua < ub {
            assert(k * ub >= k * (ua + 1));
        }
    }
    assert(a.l2 == b.l2 && a.l3 == b.l3) by (nonlinear_arith)
        requires
            a.l2 + k * a.l3 == b.l2 + k * b.l3,
            0 <= a.l2 < k,
            0 <= b.l2 < k,
            k > 0,
    {
        if a.l3 > b.l3 {
            assert(k * a.l3 >= k * (b.l3 + 1));
        } else if a.l3 < b.l3 {
            assert(k * b.l3 >= k * (a.l3 + 1));
        }
    }
}

impl PartialEq for Fe {
    fn eq(&self, other: &Self) -> (r: bool) {
        proof {
            use_type_invariant(self);
            use_type_invariant(other);
            lemma_small_mod(self.raw() as nat, modulus() as nat);
            lemma_small_mod(other.raw() as nat, modulus() as nat);
            if self.v() == other.v() {
                lemma_limbs_injective(*self, *other);
            }
        }
        self.l0 == other.l0 && self.l1 == other.l1 && self.l2 == other.l2 && self.l3 == other.l3
    }
}

impl vstd::std_specs::cmp::PartialEqSpecImpl for Fe {
    open spec fn obeys_eq_spec() -> bool {
        true
    }

    open spec fn eq_spec(&self, other: &Self) -> bool {
        self.v() == other.v()
    }
}

impl Eq for Fe {

}

/// The little-endian bytes `bytes[i] = (n / 256^i) % 256`, `len` of them.
pub open spec fn le_bytes(n: int, len: nat) -> Seq<u8> {
    Seq::new(len, |i: int| ((n / pow(256, i as nat)) % 256) as u8)
}

/// The integer that `bytes` spell out, most significant byte first.
pub open spec fn be_value(bytes: Seq<u8>) -> int
    decreases bytes.len(),
{
    if bytes.len() == 0 {
        0
    } else {
        be_value(bytes.drop_last()) * 256 + bytes.last()
    }
}

/// The compressed encoding of an element: the 32 little-endian bytes of its
/// canonical value.
pub open spec fn fe_bytes(a: Fe) -> Seq<u8> {
    le_bytes(a.v(), 32)
}

/// `ark_ff` multiplication of two `Fr` values: the product modulo the prime.
#[verifier::external_body]
fn fr_mul(a: Fe, b: Fe) -> (c: Fe)
    ensures
        c.v() == fmul(a.v(), b.v()),
{
    let x = Fr::from_bigint(BigInt::new([a.l0, a.l1, a.l2, a.l3])).unwrap();
    let y = Fr::from_bigint(BigInt::new([b.l0, b.l1, b.l2, b.l3])).unwrap();
    let z = (x * y).into_bigint().0;
    Fe { l0: z[0], l1: z[1], l2: z[2], l3: z[3] }
}

/// `ark_ff` addition of two `Fr` values: the sum modulo the prime.
#[verifier::external_body]
fn fr_add(a: Fe, b: Fe) -> (c: Fe)
    ensures
        c.v() == fadd(a.v(), b.v()),
{
    let x = Fr::from_bigint(BigInt::new([a.l0, a.l1, a.l2, a.l3])).unwrap();
    let y = Fr::from_bigint(BigInt::new([b.l0, b.l1, b.l2, b.l3])).unwrap();
    let z = (x + y).into_bigint().0;
    Fe { l0: z[0], l1: z[1], l2: z[2], l3: z[3] }
}

/// `ark_ff` subtraction of two `Fr` values: the difference modulo the prime.
#[verifier::external_body]
fn fr_sub(a: Fe, b: Fe) -> (c: Fe)
    ensures
        c.v() == fsub(a.v(), b.v()),
{
    let x = Fr::from_bigint(BigInt::new([a.l0, a.l1, a.l2, a.l3])).unwrap();
    let y = Fr::from_bigint(BigInt::new([b.l0, b.l1, b.l2, b.l3])).unwrap();
    let z = (x - y).into_bigint().0;
    Fe { l0: z[0], l1: z[1], l2: z[2], l3: z[3] }
}

/// `ark_ff` negation of an `Fr` value: the additive inverse modulo the prime.
#[verifier::external_body]
fn fr_neg(a: Fe) -> (c: Fe)
    ensures
        c.v() == fneg(a.v()),
{
    let x = Fr::from_bigint(BigInt::new([a.l0, a.l1, a.l2, a.l3])).unwrap();
    let z = (-x).into_bigint().0;
    Fe { l0: z[0], l1: z[1], l2: z[2], l3: z[3] }
}

/// `ark_ff` doubling (`Field::double`) of an `Fr` value: twice it, modulo the prime.
#[verifier::external_body]
fn fr_double(a: Fe) -> (c: Fe)
    ensures
        c.v() == fadd(a.v(), a.v()),
{
    let x = Fr::from_bigint(BigInt::new([a.l0, a.l1, a.l2, a.l3])).unwrap();
    let z = x.double().into_bigint().0;
    Fe { l0: z[0], l1: z[1], l2: z[2], l3: z[3] }
}

/// `ark_ff` `Field::inverse` of an `Fr` value: `None` exactly for zero, else
/// the element whose product with it is one.
#[verifier::external_body]
fn fr_inverse(a: Fe) -> (c: Option<Fe>)
    ensures
        c is None <==> a.v() == 0,
        c matches Some(w) ==> fmul(a.v(), w.v()) == 1,
{
    let x = Fr::from_bigint(BigInt::new([a.l0, a.l1, a.l2, a.l3])).unwrap();
    match x.inverse() {
        Some(y) => {
            let z = y.into_bigint().0;
            Some(Fe { l0: z[0], l1: z[1], l2: z[2], l3: z[3] })
        },
        None => None,
    }
}

/// `ark_ff` `PrimeField::from_bigint` on four limbs: `Some` exactly when the
/// integer they spell out is below the prime, and then that integer.
#[verifier::external_body]
fn fr_from_limbs(limbs: [u64; 4]) -> (c: Option<Fe>)
    ensures
        c is Some <==> limbs[0] + limbs[1] * limb_base() + limbs[2] * (limb_base() * limb_base())
            + limbs[3] * (limb_base() * limb_base() * limb_base()) < modulus(),
        c matches Some(x) ==> x.v() == limbs[0] + limbs[1] * limb_base() + limbs[2] * (
        limb_base() * limb_base()) + limbs[3] * (limb_base() * limb_base() * limb_base()),
{
    match Fr::from_bigint(BigInt::new(limbs)) {
        Some(x) => {
            let z = x.into_bigint().0;
            Some(Fe { l0: z[0], l1: z[1], l2: z[2], l3: z[3] })
        },
        None => None,
    }
}

/// `ark_serialize` compressed serialization of an `Fr` value: the 32
/// little-endian bytes of its canonical value.
#[verifier::external_body]
fn fr_serialize_compressed(a: Fe) -> (bytes: Vec<u8>)
    ensures
        bytes@ == fe_bytes(a),
{
    let x = Fr::from_bigint(BigInt::new([a.l0, a.l1, a.l2, a.l3])).unwrap();
    let mut buf = Vec::new();
    x.serialize_compressed(&mut buf).unwrap();
    buf
}

/// `ark_ff` `PrimeField::from_be_bytes_mod_order`: the big-endian integer of
/// the bytes, reduced modulo the prime.
#[verifier::external_body]
fn fr_from_be_bytes_mod_order(bytes: &[u8]) -> (c: Fe)
    ensures
        c.v() == be_value(bytes@) % modulus(),
{
    let z = Fr::from_be_bytes_mod_order(bytes).into_bigint().0;
    Fe { l0: z[0], l1: z[1], l2: z[2], l3: z[3] }
}

/// `ark_ff` `PrimeField::MODULUS_BIT_SIZE` for `Fr`: the prime has 254 bits.
#[verifier::external_body]
fn fr_modulus_bit_size() -> (n: u32)
    ensures
        n == 254,
{
    <Fr as PrimeField>::MODULUS_BIT_SIZE
}

impl Fe {
    /// The additive identity.
    pub fn zero() -> (z: Fe)
        ensures
            z.v() == 0,
    {
        Fe { l0: 0, l1: 0, l2: 0, l3: 0 }
    }

    /// The multiplicative identity.
    pub fn one() -> (o: Fe)
        ensures
            o.v() == 1,
    {
        Fe { l0: 1, l1: 0, l2: 0, l3: 0 }
    }

    /// The element `n`.
    pub fn from_u64(n: u64) -> (x: Fe)
        ensures
            x.v() == n,
    {
        assert(n < modulus());
        let x = Fe { l0: n, l1: 0, l2: 0, l3: 0 };
        proof {
            lemma_small_mod(n as nat, modulus() as nat);
        }
        x
    }

    /// The element whose canonical value the little-endian limbs spell out;
    /// `None` when that integer is not below the prime.
    pub fn from_limbs(limbs: [u64; 4]) -> (x: Option<Fe>)
        ensures
            x is Some <==> limbs[0] + limbs[1] * limb_base() + limbs[2] * (limb_base()
                * limb_base()) + limbs[3] * (limb_base() * limb_base() * limb_base()) < modulus(),
            x matches Some(y) ==> y.v() == limbs[0] + limbs[1] * limb_base() + limbs[2] * (
            limb_base() * limb_base()) + limbs[3] * (limb_base() * limb_base() * limb_base()),
    {
        fr_from_limbs(limbs)
    }

    /// The little-endian limbs of the canonical value.
    pub fn limbs(&self) -> (l: [u64; 4])
        ensures
            l[0] + l[1] * limb_base() + l[2] * (limb_base() * limb_base()) + l[3] * (limb_base()
                * limb_base() * limb_base()) == self.v(),
    {
        proof {
            use_type_invariant(self);
            lemma_small_mod(self.raw() as nat, modulus() as nat);
        }
        [self.l0, self.l1, self.l2, self.l3]
    }

    /// `self + other`.
    pub fn add(self, other: Fe) -> (c: Fe)
        ensures
            c.v() == fadd(self.v(), other.v()),
    {
        fr_add(self, other)
    }

    /// `self - other`.
    pub fn sub(self, other: Fe) -> (c: Fe)
        ensures
            c.v() == fsub(self.v(), other.v()),
    {
        fr_sub(self, other)
    }

    /// `self * other`.
    pub fn mul(self, other: Fe) -> (c: Fe)
        ensures
            c.v() == fmul(self.v(), other.v()),
    {
        fr_mul(self, other)
    }

    /// `-self`.
    pub fn neg(self) -> (c: Fe)
        ensures
            c.v() == fneg(self.v()),
    {
        fr_neg(self)
    }

    /// `self + self`.
    pub fn double(self) -> (c: Fe)
        ensures
            c.v() == fadd(self.v(), self.v()),
    {
        fr_double(self)
    }

    /// The multiplicative inverse; `None` for zero.
    pub fn inverse(self) -> (c: Option<Fe>)
        ensures
            c is None <==> self.v() == 0,
            c matches Some(w) ==> fmul(self.v(), w.v()) == 1,
    {
        fr_inverse(self)
    }

    /// The 32-byte compressed encoding.
    pub fn to_bytes(self) -> (b: Vec<u8>)
        ensures
            b@ == fe_bytes(self),
    {
        fr_serialize_compressed(self)
    }

    /// The big-endian integer of `bytes`, reduced modulo the prime.
    pub fn from_be_bytes_mod_order(bytes: &[u8]) -> (c: Fe)
        ensures
            c.v() == be_value(bytes@) % modulus(),
    {
        fr_from_be_bytes_mod_order(bytes)
    }

    /// The number of bits of the prime.
    pub fn modulus_bit_size() -> (n: u32)
        ensures
            n == 254,
    {
        fr_modulus_bit_size()
    }
}

} // verus!

verus! {

/// The canonical values of a sequence of elements.
pub open spec fn vals(s: Seq<Fe>) -> Seq<int> {
    s.map_values(|x: Fe| x.v())
}

/// Every value of the sequence is canonical.
pub open spec fn all_canonical(s: Seq<int>) -> bool {
    forall|i: int| 0 <= i < s.len() ==> 0 <= #[trigger] s[i] < modulus()
}

/// The values of elements are canonical.
pub proof fn lemma_vals_canonical(s: Seq<Fe>)
    ensures
        all_canonical(vals(s)),
        vals(s).len() == s.len(),
{
    assert forall|i: int| 0 <= i < vals(s).len() implies 0 <= #[trigger] vals(s)[i] < modulus() by {
        lemma_value_range(s[i]);
    }
}

/// A canonical value is its own residue.
pub proof fn lemma_canonical_mod(a: int)
    requires
        0 <= a < modulus(),
    ensures
        a % modulus() == a,
{
    lemma_small_mod(a as nat, modulus() as nat);
}

/// Field operations ignore a reduction of their operands.
pub proof fn lemma_reduce_operands(a: int, b: int)
    ensures
        fadd(a % modulus(), b) == fadd(a, b),
        fadd(a, b % modulus()) == fadd(a, b),
        fmul(a % modulus(), b) == fmul(a, b),
        fmul(a, b % modulus()) == fmul(a, b),
        fsub(a % modulus(), b) == fsub(a, b),
        fsub(a, b % modulus()) == fsub(a, b),
{
    let m = modulus();
    lemma_add_mod_noop(a, b, m);
    lemma_mod_twice(a, m);
    lemma_mod_twice(b, m);
    lemma_add_mod_noop(a % m, b, m);
    lemma_add_mod_noop(a, b % m, m);
    lemma_mul_mod_noop_left(a, b, m);
    lemma_mul_mod_noop_right(a, b, m);
    lemma_sub_mod_noop(a, b, m);
    lemma_sub_mod_noop(a % m, b, m);
    lemma_sub_mod_noop(a, b % m, m);
}

/// Field results are canonical.
pub proof fn lemma_results_canonical(a: int, b: int)
    ensures
        0 <= fadd(a, b) < modulus(),
        0 <= fmul(a, b) < modulus(),
        0 <= fsub(a, b) < modulus(),
        0 <= fneg(a) < modulus(),
{
    let m = modulus();
    lemma_mod_bound(a + b, m);
    lemma_mod_bound(a * b, m);
    lemma_mod_bound(a - b, m);
    lemma_mod_bound(-a, m);
}

/// Commutativity of the field operations.
pub proof fn lemma_commutative(a: int, b: int)
    ensures
        fadd(a, b) == fadd(b, a),
        fmul(a, b) == fmul(b, a),
{
    vstd::arithmetic::mul::lemma_mul_is_commutative(a, b);
}

/// Associativity of the field operations.
pub proof fn lemma_associative(a: int, b: int, c: int)
    ensures
        fadd(fadd(a, b), c) == fadd(a, fadd(b, c)),
        fmul(fmul(a, b), c) == fmul(a, fmul(b, c)),
{
    let m = modulus();
    lemma_add_mod_noop(a + b, c, m);
    lemma_mod_twice(a + b, m);
    lemma_mod_twice(c, m);
    lemma_add_mod_noop(a + b, c, m);
    lemma_reduce_operands(a + b, c);
    lemma_reduce_operands(a, b + c);
    lemma_mul_mod_noop_left(a * b, c, m);
    lemma_mul_mod_noop_right(a, b * c, m);
    vstd::arithmetic::mul::lemma_mul_is_associative(a, b, c);
}

/// Multiplication distributes over addition and subtraction.
pub proof fn lemma_distributive(a: int, b: int, c: int)
    ensures
        fmul(a, fadd(b, c)) == fadd(fmul(a, b), fmul(a, c)),
        fmul(a, fsub(b, c)) == fsub(fmul(a, b), fmul(a, c)),
        fmul(fadd(b, c), a) == fadd(fmul(b, a), fmul(c, a)),
{
    let m = modulus();
    lemma_reduce_operands(a, b + c);
    lemma_reduce_operands(a, b - c);
    vstd::arithmetic::mul::lemma_mul_is_distributive_add(a, b, c);
    vstd::arithmetic::mul::lemma_mul_is_distributive_sub(a, b, c);
    lemma_add_mod_noop(a * b, a * c, m);
    lemma_sub_mod_noop(a * b, a * c, m);
    lemma_commutative(a, fadd(b, c));
    lemma_commutative(b, a);
    lemma_commutative(c, a);
}

/// The identities: `a + 0 = a`, `a * 1 = a`, `a * 0 = 0`, `a - 0 = a` on
/// canonical `a`.
pub proof fn lemma_identities(a: int)
    requires
        0 <= a < modulus(),
    ensures
        fadd(a, 0) == a,
        fadd(0, a) == a,
        fmul(a, 1) == a,
        fmul(1, a) == a,
        fmul(a, 0) == 0,
        fmul(0, a) == 0,
        fsub(a, 0) == a,
        fsub(a, a) == 0,
{
    lemma_canonical_mod(a);
    lemma_canonical_mod(0);
}

/// The inverse of `d` in the field (meaningful for nonzero `d`).
pub open spec fn finv(d: int) -> int {
    choose|w: int| 0 <= w < modulus() && fmul(d, w) == 1
}

/// The unique inverse of a nonzero element.
pub proof fn lemma_inverse_unique(d: int, w: int)
    requires
        0 <= w < modulus(),
        fmul(d, w) == 1,
    ensures
        finv(d) == w,
{
    let w2 = finv(d);
    assert(0 <= w2 < modulus() && fmul(d, w2) == 1);
    lemma_associative(w, d, w2);
    lemma_commutative(w, d);
    lemma_identities(w);
    lemma_identities(w2);
}

} // verus!
