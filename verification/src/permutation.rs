//! Permutations of the boolean hypercube `B_mu`, stored as the image
//! `image[x] = sigma(x)` of every point `x` in `[0, 2^mu)`.

use crate::error::CoreError;
use crate::field::Fe;
use crate::mle::{entries_map, SparseMle};
use vstd::arithmetic::div_mod::*;
use vstd::arithmetic::mul::*;
use vstd::arithmetic::power2::*;
use vstd::bits::*;
use vstd::prelude::*;

verus! {

/// `image` maps `[0, image.len())` one-to-one onto itself.
pub open spec fn is_bijection(image: Seq<usize>) -> bool {
    &&& forall|i: int| 0 <= i < image.len() ==> image[i] < image.len()
    &&& forall|i: int, j: int| 0 <= i < j < image.len() ==> image[i] != image[j]
}

/// Position `i` of `image` is out of range or repeats an earlier value.
pub open spec fn is_bad_position(image: Seq<usize>, i: int) -> bool {
    ||| image[i] >= image.len()
    ||| exists|j: int| 0 <= j < i && image[j] == image[i]
}

/// `n` is a power of two that a `usize` can hold.
pub open spec fn is_power_of_two(n: nat) -> bool {
    exists|k: nat| k < usize::BITS && pow2(k) == n
}

/// The `j`-th base-`2^w` digit of `y`.
pub open spec fn digit(y: nat, w: nat, j: nat) -> nat {
    (y / pow2(j * w)) % pow2(w)
}

/// `sum_{j < k} digit(y, w, j) * 2^(j * w)`: `y` rebuilt from its lowest `k`
/// base-`2^w` digits.
pub open spec fn digits_value(y: nat, w: nat, k: nat) -> nat
    decreases k,
{
    if k == 0 {
        0
    } else {
        digits_value(y, w, (k - 1) as nat) + digit(y, w, (k - 1) as nat) * pow2(
            ((k - 1) * w) as nat,
        )
    }
}

/// A power of two that a `usize` holds has an exponent below `usize::BITS`.
proof fn lemma_pow2_fits_usize(j: nat)
    requires
        pow2(j) <= usize::MAX,
    ensures
        j < usize::BITS,
{
    if j >= usize::BITS {
        lemma2_to64();
        if j > usize::BITS {
            lemma_pow2_strictly_increases(usize::BITS as nat, j);
        }
    }
}

/// `m * 2^k` with `m` odd and above one is no power of two.
proof fn lemma_odd_multiple_not_pow2(m: nat, k: nat, j: nat)
    requires
        m > 1,
        m % 2 == 1,
    ensures
        pow2(j) != m * pow2(k),
{
    lemma_pow2_pos(k);
    if j < k {
        lemma_pow2_strictly_increases(j, k);
        assert(pow2(k) <= m * pow2(k)) by (nonlinear_arith)
            requires
                m > 1,
                pow2(k) > 0,
        ;
    } else {
        let d = (j - k) as nat;
        lemma_pow2_adds(d, k);
        if pow2(j) == m * pow2(k) {
            assert(pow2(d) == m) by (nonlinear_arith)
                requires
                    pow2(d) * pow2(k) == m * pow2(k),
                    pow2(k) > 0,
            ;
            if d == 0 {
                assert(pow2(0) == 1) by {
                    lemma2_to64();
                }
            } else {
                lemma_pow2_unfold(d);
            }
        }
    }
}

/// The exponent `k` with `2^k == n`, when `n` is a power of two.
fn exact_log2(n: usize) -> (r: Option<u32>)
    ensures
        r is Some <==> is_power_of_two(n as nat),
        r matches Some(k) ==> k < usize::BITS && pow2(k as nat) == n,
{
    if n == 0 {
        proof {
            assert forall|j: nat| j < usize::BITS implies pow2(j) != n by {
                lemma_pow2_pos(j);
            }
        }
        return None;
    }
    let mut m: usize = n;
    let mut k: u32 = 0;
    proof {
        lemma2_to64();
    }
    while m % 2 == 0
        invariant
            0 < m <= n,
            m * pow2(k as nat) == n,
            k < usize::BITS,
        decreases m,
    {
        proof {
            lemma_pow2_unfold((k + 1) as nat);
            lemma_pow2_pos(k as nat);
            let h = (m / 2) as nat;
            assert(h * pow2((k + 1) as nat) == n && 1 <= h && pow2((k + 1) as nat) <= n)
                by (nonlinear_arith)
                requires
                    m == 2 * h,
                    m > 0,
                    pow2((k + 1) as nat) == 2 * pow2(k as nat),
                    m * pow2(k as nat) == n,
                    pow2(k as nat) > 0,
            ;
            lemma_pow2_fits_usize((k + 1) as nat);
        }
        m = m / 2;
        k = k + 1;
    }
    if m == 1 {
        assert(pow2(k as nat) == n);
        Some(k)
    } else {
        proof {
            assert forall|j: nat| j < usize::BITS implies pow2(j) != n by {
                lemma_odd_multiple_not_pow2(m as nat, k as nat, j);
            }
        }
        None
    }
}

/// A permutation `sigma : B_mu -> B_mu`, stored as `image[x] = sigma(x)`.
#[derive(Debug, PartialEq, Eq)]
pub struct Permutation {
    image: Vec<usize>,
    num_vars: usize,
}

impl Clone for Permutation {
    fn clone(&self) -> (c: Self)
        ensures
            c@ == self@,
            c.spec_num_vars() == self.spec_num_vars(),
    {
        proof {
            use_type_invariant(self);
        }
        Permutation { image: self.image.clone(), num_vars: self.num_vars }
    }
}

impl View for Permutation {
    type V = Seq<usize>;

    closed spec fn view(&self) -> Seq<usize> {
        self.image@
    }
}

impl Permutation {
    /// `mu`, the number of boolean variables.
    pub closed spec fn spec_num_vars(&self) -> nat {
        self.num_vars as nat
    }

    /// What every permutation satisfies.
    pub open spec fn well_formed(&self) -> bool {
        &&& self@.len() == pow2(self.spec_num_vars())
        &&& self.spec_num_vars() < usize::BITS
        &&& is_bijection(self@)
    }

    #[verifier::type_invariant]
    closed spec fn inv(&self) -> bool {
        self.well_formed()
    }

    /// Build a permutation from its image vector. Fails when the length is
    /// not a power of two, or when the image is not a bijection of
    /// `[0, image.len())`, naming the first offending position.
    pub fn new(image: Vec<usize>) -> (r: Result<Self, CoreError>)
        ensures
            r is Ok <==> is_power_of_two(image@.len()) && is_bijection(image@),
            r matches Ok(p) ==> p@ == image@ && pow2(p.spec_num_vars()) == image@.len(),
            r matches Err(e) ==> match e {
                CoreError::NotPowerOfTwo { len } => len == image@.len() && !is_power_of_two(
                    image@.len(),
                ),
                CoreError::NotAPermutation { len, index } => {
                    &&& len == image@.len()
                    &&& is_power_of_two(image@.len())
                    &&& index < len
                    &&& is_bad_position(image@, index as int)
                    &&& forall|i: int| 0 <= i < index ==> !is_bad_position(image@, i)
                },
                _ => false,
            },
    {
        let len = image.len();
        let num_vars = match exact_log2(len) {
            Some(k) => k as usize,
            None => {
                return Err(CoreError::NotPowerOfTwo { len });
            },
        };
        let mut seen: Vec<bool> = Vec::new();
        let mut k: usize = 0;
        while k < len
            invariant
                k <= len,
                seen@.len() == k,
                forall|v: int| 0 <= v < k ==> !seen@[v],
            decreases len - k,
        {
            seen.push(false);
            k = k + 1;
        }
        let mut index: usize = 0;
        while index < len
            invariant
                len == image@.len(),
                is_power_of_two(len as nat),
                seen@.len() == len,
                index <= len,
                forall|v: int|
                    0 <= v < len ==> (seen@[v] <==> exists|j: int|
                        0 <= j < index && image@[j] == v),
                forall|i: int| 0 <= i < index ==> !is_bad_position(image@, i),
            decreases len - index,
        {
            let value = image[index];
            if value >= len || seen[value] {
                proof {
                    if value < len {
                        assert(seen@[value as int]);
                        let j = choose|j: int| 0 <= j < index && image@[j] == value;
                        assert(image@[j] == image@[index as int]);
                    }
                    assert(is_bad_position(image@, index as int));

                }
                return Err(CoreError::NotAPermutation { len, index });
            }
            seen.set(value, true);
            assert forall|v: int| 0 <= v < len implies (seen@[v] <==> exists|j: int|
                0 <= j < index + 1 && image@[j] == v) by {
                if v == value {
                    assert(image@[index as int] == v);
                }
            }
            index = index + 1;
        }
        assert forall|i: int, j: int| 0 <= i < j < image@.len() implies image@[i] != image@[j] by {
            assert(!is_bad_position(image@, j));
        }
        assert forall|i: int| 0 <= i < image@.len() implies image@[i] < image@.len() by {
            assert(!is_bad_position(image@, i));
        }
        Ok(Permutation { image, num_vars })
    }

    /// The identity permutation on `2^num_vars` elements.
    pub fn identity(num_vars: usize) -> (p: Self)
        requires
            num_vars < usize::BITS,
        ensures
            p.spec_num_vars() == num_vars,
            p@.len() == pow2(num_vars as nat),
            forall|x: int| 0 <= x < p@.len() ==> p@[x] == x,
    {
        proof {
            lemma_usize_pow2_no_overflow(num_vars as nat);
            lemma_usize_shl_is_mul(1, num_vars as usize);
        }
        let len = 1usize << num_vars;
        let mut image: Vec<usize> = Vec::new();
        let mut x: usize = 0;
        while x < len
            invariant
                x <= len,
                image@.len() == x,
                forall|i: int| 0 <= i < x ==> image@[i] == i,
            decreases len - x,
        {
            image.push(x);
            x = x + 1;
        }
        Permutation { image, num_vars }
    }

    /// `mu`, the number of boolean variables; the hypercube has `2^mu` points.
    pub fn num_vars(&self) -> (n: usize)
        ensures
            n == self.spec_num_vars(),
            pow2(n as nat) == self@.len(),
            n < usize::BITS,
    {
        proof {
            use_type_invariant(self);
        }
        self.num_vars
    }

    /// `n = 2^mu`, the number of permuted elements.
    pub fn size(&self) -> (n: usize)
        ensures
            n == self@.len(),
            n == pow2(self.spec_num_vars()),
            is_bijection(self@),
    {
        proof {
            use_type_invariant(self);
        }
        self.image.len()
    }

    /// `sigma(x)`.
    pub fn apply(&self, x: usize) -> (y: usize)
        requires
            x < self@.len(),
        ensures
            y == self@[x as int],
            y < self@.len(),
    {
        proof {
            use_type_invariant(self);
        }
        self.image[x]
    }

    /// `sigma_i(x)`, the `i`-th bit of `sigma(x)`.
    pub fn bit(&self, i: usize, x: usize) -> (b: bool)
        requires
            i < self.spec_num_vars(),
            x < self@.len(),
        ensures
            b == (digit(self@[x as int] as nat, 1, i as nat) == 1),
    {
        proof {
            use_type_invariant(self);
        }
        let y = self.image[x];
        proof {
            lemma_usize_shr_is_div(y, i);
            assert(i * 1 == i);
            lemma2_to64();
            let s = y >> i;
            assert(s & 1 == s % 2) by (bit_vector);
        }
        (y >> i) & 1 == 1
    }

    /// The evaluation table of `sigma_i` over `B_mu`: the `i`-th bit of every
    /// image, as a field element.
    pub fn bit_evaluations(&self, i: usize) -> (t: Vec<Fe>)
        requires
            i < self.spec_num_vars(),
        ensures
            t@.len() == self@.len(),
            forall|x: int|
                0 <= x < t@.len() ==> t@[x].v() == (if digit(self@[x] as nat, 1, i as nat) == 1 {
                    1int
                } else {
                    0int
                }),
    {
        let n = self.size();
        let mut t: Vec<Fe> = Vec::new();
        let mut x: usize = 0;
        while x < n
            invariant
                n == self@.len(),
                i < self.spec_num_vars(),
                x <= n,
                t@.len() == x,
                forall|z: int|
                    0 <= z < x ==> t@[z].v() == (if digit(self@[z] as nat, 1, i as nat) == 1 {
                        1int
                    } else {
                        0int
                    }),
            decreases n - x,
        {
            if self.bit(i, x) {
                t.push(Fe::one());
            } else {
                t.push(Fe::zero());
            }
            x = x + 1;
        }
        t
    }

    /// `(sigma_L(x), sigma_R(x))`: the low and the high `mu/2` bits of
    /// `sigma(x)`. Fails when `mu` is odd.
    pub fn halves(&self, x: usize) -> (r: Result<(usize, usize), CoreError>)
        requires
            self.spec_num_vars() % 2 == 0 ==> x < self@.len(),
        ensures
            r is Err <==> self.spec_num_vars() % 2 != 0,
            r matches Err(e) ==> e == (CoreError::OddNumVars {
                num_vars: self.spec_num_vars() as usize,
            }),
            r matches Ok(h) ==> h.0 == digit(self@[x as int] as nat, self.spec_num_vars() / 2, 0)
                && h.1 == digit(self@[x as int] as nat, self.spec_num_vars() / 2, 1),
            r matches Ok(h) ==> h.0 < pow2(self.spec_num_vars() / 2) && h.1 < pow2(
                self.spec_num_vars() / 2,
            ),
    {
        proof {
            use_type_invariant(self);
        }
        if self.num_vars % 2 != 0 {
            return Err(CoreError::OddNumVars { num_vars: self.num_vars });
        }
        let half = self.num_vars / 2;
        proof {
            lemma_usize_pow2_no_overflow(half as nat);
            lemma_usize_shl_is_mul(1, half);
        }
        let mask = (1usize << half) - 1;
        let y = self.image[x];
        proof {
            lemma_pow2_pos(half as nat);
            assert(mask == low_bits_mask(half as nat));
            lemma_usize_low_bits_mask_is_mod(y, half as nat);
            lemma_usize_shr_is_div(y, half);
            lemma_usize_low_bits_mask_is_mod(y >> half, half as nat);
            assert(0 * half == 0);
            assert(1 * half == half);
            lemma2_to64();
            assert(y as nat / pow2(0) == y);
            lemma_mod_bound(y as int, pow2(half as nat) as int);
            lemma_mod_bound((y as nat / pow2(half as nat)) as int, pow2(half as nat) as int);
        }
        Ok((y & mask, (y >> half) & mask))
    }

    /// `sigma` projected onto group `j` of width `mu / ell`, the group's bits
    /// packed little-endian. Fails unless `ell` is a nonzero divisor of `mu`.
    pub fn group(&self, ell: usize, j: usize, x: usize) -> (r: Result<usize, CoreError>)
        requires
            ell != 0 && self.spec_num_vars() % (ell as nat) == 0 ==> x < self@.len(),
            ell != 0 && self.spec_num_vars() % (ell as nat) == 0 ==> j * (self.spec_num_vars() / (
            ell as nat)) < usize::BITS,
        ensures
            r is Err <==> (ell == 0 || self.spec_num_vars() % (ell as nat) != 0),
            r matches Err(e) ==> e == (CoreError::NumVarsMismatch {
                expected: ell,
                got: self.spec_num_vars() as usize,
            }),
            r matches Ok(g) ==> g == digit(
                self@[x as int] as nat,
                self.spec_num_vars() / (ell as nat),
                j as nat,
            ),
    {
        proof {
            use_type_invariant(self);
        }
        if ell == 0 || self.num_vars % ell != 0 {
            return Err(CoreError::NumVarsMismatch { expected: ell, got: self.num_vars });
        }
        let width = self.num_vars / ell;
        proof {
            lemma_usize_pow2_no_overflow(width as nat);
            lemma_usize_shl_is_mul(1, width);
            lemma_pow2_pos(width as nat);
        }
        let mask = (1usize << width) - 1;
        let shift = j * width;
        let y = self.image[x];
        proof {
            assert(mask == low_bits_mask(width as nat));
            lemma_usize_shr_is_div(y, shift);
            lemma_usize_low_bits_mask_is_mod(y >> shift, width as nat);
            assert(j as nat * width as nat == shift);
        }
        Ok((y >> shift) & mask)
    }
}

/// A number below `2^(k * w)` is the sum of its lowest `k` base-`2^w`
/// digits, each weighted by its place value.
pub proof fn lemma_digits_value(y: nat, w: nat, k: nat)
    ensures
        digits_value(y, w, k) == y % pow2(k * w),
    decreases k,
{
    if k == 0 {
        assert(0 * w == 0);
        lemma2_to64();
    } else {
        lemma_digits_value(y, w, (k - 1) as nat);
        let a = pow2(((k - 1) * w) as nat);
        let b = pow2(w);
        lemma_pow2_pos(((k - 1) * w) as nat);
        lemma_pow2_pos(w);
        assert((k - 1) * w + w == k * w) by (nonlinear_arith)
            requires
                k > 0,
        ;
        lemma_pow2_adds(((k - 1) * w) as nat, w);
        lemma_mod_breakdown(y as int, a as int, b as int);
        lemma_mul_is_commutative(a as int, ((y / a) % b) as int);
    }
}

/// Rebuilding `sigma(x)` from its `mu` bits gives back `sigma(x)`.
pub proof fn lemma_bits_recombine(p: Permutation, x: int)
    requires
        p.well_formed(),
        0 <= x < p@.len(),
    ensures
        digits_value(p@[x] as nat, 1, p.spec_num_vars()) == p@[x],
{
    let mu = p.spec_num_vars();
    lemma_digits_value(p@[x] as nat, 1, mu);
    assert(mu * 1 == mu);
    lemma_small_mod(p@[x] as nat, pow2(mu));
}

/// Rebuilding `sigma(x)` from its two halves gives back `sigma(x)`:
/// `sigma_L(x) + 2^(mu/2) * sigma_R(x) == sigma(x)` when `mu` is even.
pub proof fn lemma_halves_recombine(p: Permutation, x: int)
    requires
        p.well_formed(),
        0 <= x < p@.len(),
        p.spec_num_vars() % 2 == 0,
    ensures
        ({
            let half = p.spec_num_vars() / 2;
            digit(p@[x] as nat, half, 0) + digit(p@[x] as nat, half, 1) * pow2(half) == p@[x]
        }),
{
    let mu = p.spec_num_vars();
    let half = mu / 2;
    let y = p@[x] as nat;
    lemma_digits_value(y, half, 2);
    assert(2 * half == mu);
    lemma_small_mod(y, pow2(mu));
    assert(0 * half == 0);
    assert(1 * half == half);
    lemma2_to64();
    assert(digits_value(y, half, 0) == 0);
    assert(digits_value(y, half, 1) == digit(y, half, 0) * pow2(0)) by {
        assert(digits_value(y, half, 1) == digits_value(y, half, 0) + digit(y, half, 0) * pow2(
            (0 * half) as nat,
        ));
    }
    assert(digit(y, half, 0) * pow2(0) == digit(y, half, 0));
    assert(digits_value(y, half, 2) == digits_value(y, half, 1) + digit(y, half, 1) * pow2(
        (1 * half) as nat,
    ));
}

/// Rebuilding `sigma(x)` from its `ell` groups gives back `sigma(x)` when
/// `ell` divides `mu`.
pub proof fn lemma_groups_recombine(p: Permutation, ell: nat, x: int)
    requires
        p.well_formed(),
        0 <= x < p@.len(),
        ell > 0,
        p.spec_num_vars() % ell == 0,
    ensures
        digits_value(p@[x] as nat, p.spec_num_vars() / ell, ell) == p@[x],
{
    let mu = p.spec_num_vars();
    let width = mu / ell;
    lemma_digits_value(p@[x] as nat, width, ell);
    lemma_fundamental_div_mod(mu as int, ell as int);
    lemma_mul_is_commutative(ell as int, width as int);
    lemma_small_mod(p@[x] as nat, pow2(mu));
}

/// Where the half indicator holds its one for `x`: `x + 2^mu * y` with
/// `y` the chosen half of `sigma(x)`.
pub open spec fn indicator_index(p: Permutation, x: int, use_left: bool) -> int {
    let half = p.spec_num_vars() / 2;
    x + pow2(p.spec_num_vars()) * digit(p@[x] as nat, half, if use_left { 0 } else { 1 })
}

/// The table of the half indicator over `mu + mu/2` variables: one at
/// `indicator_index(p, x, use_left)` for each `x` in `B_mu`, zero elsewhere.
pub open spec fn half_indicator_table(p: Permutation, use_left: bool) -> Seq<int> {
    let nv = p.spec_num_vars();
    Seq::new(
        pow2(nv + nv / 2),
        |k: int|
            if exists|x: int| 0 <= x < p@.len() && indicator_index(p, x, use_left) == k {
                1int
            } else {
                0int
            },
    )
}

/// `entries_map` holds a key exactly when some entry has it, and then the
/// value of the last such entry.
proof fn lemma_entries_map(entries: Seq<(usize, Fe)>, k: usize)
    ensures
        entries_map(entries).contains_key(k) <==> exists|j: int|
            0 <= j < entries.len() && #[trigger] entries[j].0 == k,
        entries_map(entries).contains_key(k) ==> exists|j: int|
            0 <= j < entries.len() && #[trigger] entries[j].0 == k && entries_map(entries)[k]
                == entries[j].1,
    decreases entries.len(),
{
    if entries.len() > 0 {
        let d = entries.drop_last();
        lemma_entries_map(d, k);
        if entries.last().0 != k && entries_map(entries).contains_key(k) {
            let j = choose|j: int| 0 <= j < d.len() && #[trigger] d[j].0 == k && entries_map(d)[k]
                == d[j].1;
            assert(entries[j] == d[j]);
        }
        if exists|j: int| 0 <= j < entries.len() && #[trigger] entries[j].0 == k {
            let j = choose|j: int| 0 <= j < entries.len() && #[trigger] entries[j].0 == k;
            if j < d.len() {
                assert(d[j] == entries[j]);
            }
        }
        if entries.last().0 == k {
            assert(entries[entries.len() - 1].0 == k);
        }
    }
}

impl Permutation {
    /// The image as field elements: entry `x` is `sigma(x)`.
    pub fn image_evaluations(&self) -> (t: Vec<Fe>)
        ensures
            t@.len() == self@.len(),
            forall|x: int| 0 <= x < t@.len() ==> #[trigger] t@[x].v() == self@[x],
    {
        let n = self.size();
        let mut t: Vec<Fe> = Vec::new();
        let mut x: usize = 0;
        while x < n
            invariant
                n == self@.len(),
                x <= n,
                t@.len() == x,
                forall|z: int| 0 <= z < x ==> #[trigger] t@[z].v() == self@[z],
            decreases n - x,
        {
            let y = self.apply(x);
            t.push(Fe::from_u64(y as u64));
            x = x + 1;
        }
        t
    }

    /// The sparse multilinear half indicator over `mu + mu/2` variables: one
    /// at `x + 2^mu * sigma_half(x)` for every `x` in `B_mu`, zero
    /// elsewhere, `sigma_half` the low (`use_left_half`) or high half of
    /// `sigma`. Fails when `mu` is odd.
    pub fn half_indicator(&self, use_left_half: bool) -> (r: Result<SparseMle, CoreError>)
        requires
            self.spec_num_vars() % 2 == 0 ==> self.spec_num_vars() + self.spec_num_vars() / 2
                < usize::BITS,
        ensures
            r is Err <==> self.spec_num_vars() % 2 != 0,
            r matches Err(e) ==> e == (CoreError::OddNumVars {
                num_vars: self.spec_num_vars() as usize,
            }),
            r matches Ok(m) ==> m.well_formed() && m.num_vars == self.spec_num_vars()
                + self.spec_num_vars() / 2,
            r matches Ok(m) ==> m.table() == half_indicator_table(*self, use_left_half),
            r matches Ok(m) ==> forall|x: int|
                0 <= x < self@.len() ==> m.evaluations@.contains_key(
                    #[trigger] indicator_index(*self, x, use_left_half) as usize,
                ) && m.evaluations@[indicator_index(*self, x, use_left_half) as usize].v() == 1,
            r matches Ok(m) ==> forall|k: usize| #[trigger]
                m.evaluations@.contains_key(k) ==> exists|x: int|
                    0 <= x < self@.len() && indicator_index(*self, x, use_left_half) == k,
    {
        let n = self.size();
        let nv = self.num_vars();
        let ghost half = (nv / 2) as nat;
        let mut entries: Vec<(usize, Fe)> = Vec::new();
        let mut x: usize = 0;
        while x < n
            invariant
                n == self@.len(),
                n == pow2(nv as nat),
                nv == self.spec_num_vars(),
                nv < usize::BITS,
                self.spec_num_vars() % 2 == 0 ==> nv + nv / 2 < usize::BITS,
                x <= n,
                x > 0 ==> nv % 2 == 0,
                entries@.len() == x,
                forall|j: int|
                    0 <= j < x ==> (#[trigger] entries@[j]).0 == indicator_index(
                        *self,
                        j,
                        use_left_half,
                    ) && entries@[j].1.v() == 1 && entries@[j].0 < pow2(nv as nat + nv as nat / 2),
            decreases n - x,
        {
            let (lo, hi) = match self.halves(x) {
                Ok(h) => h,
                Err(e) => {
                    return Err(e);
                },
            };
            let y = if use_left_half { lo } else { hi };
            proof {
                let h = nv as nat / 2;
                vstd::bits::lemma_usize_pow2_no_overflow((nv + h) as nat);
                lemma_pow2_adds(nv as nat, h);
                lemma_pow2_pos(nv as nat);
                assert(y < pow2(h));
                assert(y * pow2(nv as nat) <= (pow2(h) - 1) * pow2(nv as nat)) by (nonlinear_arith)
                    requires
                        y < pow2(h),
                ;
                assert((pow2(h) - 1) * pow2(nv as nat) == pow2(nv as nat + h) - pow2(nv as nat)) by (nonlinear_arith)
                    requires
                        pow2(nv as nat + h) == pow2(nv as nat) * pow2(h),
                ;
                lemma_usize_shl_is_mul(y, nv);
                lemma_usize_shl_is_mul(1, nv);
                assert(x < (1usize << nv));
                assert(x | (y << nv) == x + (y << nv)) by (bit_vector)
                    requires
                        x < (1usize << nv),
                        nv < usize::BITS,
                ;
                vstd::arithmetic::mul::lemma_mul_is_commutative(y as int, pow2(nv as nat) as int);
            }
            entries.push((x | (y << nv), Fe::one()));
            x = x + 1;
        }
        if n == 0 {
            proof {
                lemma_pow2_pos(nv as nat);
            }
        }
        proof {
            assert(nv % 2 == 0) by {
                lemma_pow2_pos(nv as nat);
            }
        }
        let m = SparseMle::from_evaluations(nv + nv / 2, entries.as_slice());
        proof {
            assert forall|z: int| 0 <= z < n implies m.evaluations@.contains_key(
                #[trigger] indicator_index(*self, z, use_left_half) as usize,
            ) && m.evaluations@[indicator_index(*self, z, use_left_half) as usize].v() == 1 by {
                let k = entries@[z].0;
                lemma_entries_map(entries@, k);
                let j = choose|j: int|
                    0 <= j < entries@.len() && #[trigger] entries@[j].0 == k && entries_map(
                        entries@,
                    )[k] == entries@[j].1;
                assert(entries@[j].1.v() == 1);
            }
            assert forall|k: usize| #[trigger] m.evaluations@.contains_key(k) implies exists|z: int|
                0 <= z < n && indicator_index(*self, z, use_left_half) == k by {
                lemma_entries_map(entries@, k);
                let j = choose|j: int| 0 <= j < entries@.len() && #[trigger] entries@[j].0 == k;
                assert(indicator_index(*self, j, use_left_half) == k);
            }
            let tab = half_indicator_table(*self, use_left_half);
            assert forall|k: int| 0 <= k < tab.len() implies #[trigger] m.table()[k] == tab[k] by {
                vstd::bits::lemma_usize_pow2_no_overflow((nv + nv / 2) as nat);
                let ku = k as usize;
                if m.evaluations@.contains_key(ku) {
                    let z = choose|z: int| 0 <= z < n && indicator_index(*self, z, use_left_half) == ku;
                    assert(indicator_index(*self, z, use_left_half) == k);
                    assert(m.evaluations@.contains_key(indicator_index(*self, z, use_left_half) as usize));
                } else {
                    if exists|z: int| 0 <= z < self@.len() && indicator_index(*self, z, use_left_half) == k {
                        let z = choose|z: int| 0 <= z < self@.len() && indicator_index(*self, z, use_left_half) == k;
                        assert(m.evaluations@.contains_key(indicator_index(*self, z, use_left_half) as usize));
                    }
                }
            }
            assert(m.table() =~= tab);
        }
        Ok(m)
    }
}

} // verus!
