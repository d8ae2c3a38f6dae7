//! The Hyrax multilinear commitment over the BN254 group `G1`, in its
//! binding-only, naive form: no blinding and no inner-product compression.
//!
//! A `nu`-variate table is read as a `2^nu_r x 2^nu_c` matrix `M` (see
//! `matrix`); the commitment is one Pedersen commitment per row against a
//! fixed set of column generators. An evaluation at `z` is proved by the
//! combined row `w = L^T M`: the verifier checks
//! `sum_i L_i C_i = sum_j w_j g_j`, which Pedersen binding ties to
//! `w = L^T M`, and `<w, R> = value`. The transcript is not used.

pub mod matrix;

use crate::field::{all_canonical, vals, Fe};
use crate::pcs::{MleRef, PolynomialCommitment};
use crate::sums::inner;
use crate::transcript::{concat_bytes, CanonicalBytes, Transcript, TranscriptOp};
use crate::field::le_bytes;
use crate::eq::eq_table;
use ark_bn254::{Fq, Fr, G1Affine, G1Projective};
use ark_ec::{CurveGroup, VariableBaseMSM};
use ark_ff::{BigInt, PrimeField};
use ark_serialize::CanonicalSerialize;
use ark_std::rand::rngs::StdRng;
use ark_std::UniformRand;
use matrix::{col_tensor, copy_range, dot, lemma_tensor_eval, lt_times_m, lt_times_m_dense, row_tensor, split_vars};
use vstd::arithmetic::power2::pow2;
use vstd::prelude::*;

verus! {

/// The prime of the BN254 base field, over which `G1`'s coordinates lie.
pub open spec fn base_modulus() -> int {
    21888242871839275222246405745257275088696311157297823662689037894645226208583int
}

/// The integer that four little-endian 64-bit limbs spell out.
pub open spec fn limbs_value(l0: u64, l1: u64, l2: u64, l3: u64) -> int {
    l0 + l1 * 0x1_0000_0000_0000_0000int + l2 * 0x1_0000_0000_0000_0000_0000_0000_0000_0000int
        + l3 * 0x1_0000_0000_0000_0000_0000_0000_0000_0000_0000_0000_0000_0000int
}

/// The BN254 `G1` curve `y^2 = x^3 + 3` over the base field, for canonical
/// coordinates `x`, `y`; the identity is `(0, 0)` with the `infinity` flag.
pub open spec fn on_curve_coords(x: int, y: int, infinity: bool) -> bool {
    if infinity {
        x == 0 && y == 0
    } else {
        (y * y) % base_modulus() == (x * x * x + 3) % base_modulus()
    }
}

/// A point of `G1` in normalized affine form: canonical coordinates on the
/// curve, and the identity as `(0, 0)` with the `infinity` flag, so that
/// two points are equal exactly when their fields are.
#[derive(Clone, Copy, Debug, PartialEq, Eq, Structural)]
pub struct G1Point {
    x0: u64,
    x1: u64,
    x2: u64,
    x3: u64,
    y0: u64,
    y1: u64,
    y2: u64,
    y3: u64,
    infinity: bool,
}

impl G1Point {
    /// The coordinates are canonical base-field values of a curve point.
    #[verifier::type_invariant]
    spec fn inv(self) -> bool {
        &&& limbs_value(self.x0, self.x1, self.x2, self.x3) < base_modulus()
        &&& limbs_value(self.y0, self.y1, self.y2, self.y3) < base_modulus()
        &&& self.on_curve()
    }

    /// The point lies on the curve (or is the identity).
    pub closed spec fn on_curve(self) -> bool {
        on_curve_coords(
            limbs_value(self.x0, self.x1, self.x2, self.x3),
            limbs_value(self.y0, self.y1, self.y2, self.y3),
            self.infinity,
        )
    }

    /// The point with affine coordinates `x`, `y` (little-endian limbs of
    /// canonical values) and the identity flag.
    pub(crate) fn from_coordinates(x: [u64; 4], y: [u64; 4], infinity: bool) -> (p: G1Point)
        requires
            limbs_value(x[0], x[1], x[2], x[3]) < base_modulus(),
            limbs_value(y[0], y[1], y[2], y[3]) < base_modulus(),
            on_curve_coords(limbs_value(x[0], x[1], x[2], x[3]), limbs_value(y[0], y[1], y[2], y[3]), infinity),
        ensures
            p.coordinates_spec() == (x, y, infinity),
    {
        G1Point {
            x0: x[0],
            x1: x[1],
            x2: x[2],
            x3: x[3],
            y0: y[0],
            y1: y[1],
            y2: y[2],
            y3: y[3],
            infinity,
        }
    }

    /// The coordinates as limbs, and the identity flag.
    pub closed spec fn coordinates_spec(self) -> ([u64; 4], [u64; 4], bool) {
        ([self.x0, self.x1, self.x2, self.x3], [self.y0, self.y1, self.y2, self.y3], self.infinity)
    }

    /// The coordinates as limbs, and the identity flag.
    pub fn coordinates(&self) -> (c: ([u64; 4], [u64; 4], bool))
        ensures
            c == self.coordinates_spec(),
    {
        ([self.x0, self.x1, self.x2, self.x3], [self.y0, self.y1, self.y2, self.y3], self.infinity)
    }
}

/// The multi-scalar multiplication `sum_i scalars[i] * bases[i]` of `ark_ec`
/// over the first `min(len)` pairs, in normalized affine form.
pub uninterp spec fn g1_msm(bases: Seq<G1Point>, scalars: Seq<int>) -> G1Point;

/// The 32-byte compressed `ark_serialize` encoding of a point.
pub uninterp spec fn g1_compressed(p: G1Point) -> Seq<u8>;

/// Each of `bases` is the multi-scalar multiplication of the curve points
/// `gens` with one row of the row-major matrix `m` of canonical scalars.
pub open spec fn rows_committed(bases: Seq<G1Point>, gens: Seq<G1Point>, m: Seq<int>) -> bool {
    let n = gens.len();
    &&& m.len() == bases.len() * n
    &&& all_canonical(m)
    &&& forall|j: int| 0 <= j < n ==> (#[trigger] gens[j]).on_curve()
    &&& forall|i: int|
        0 <= i < bases.len() ==> #[trigger] bases[i] == g1_msm(gens, m.subrange(i * n, i * n + n))
}

/// `VariableBaseMSM::msm_unchecked` on `G1`, then `into_affine`: the inner
/// product `sum_i scalars[i] * bases[i]` in the group. The result is named
/// by `g1_msm`. Stated of it: its compressed encoding, like that of every
/// `G1` point, takes 32 bytes; and, as the inner product in a group of
/// prime order `r` (BN254 `G1` has cofactor one), it is linear: when each
/// base is `sum_j m[i][j] * gens[j]`, the result is
/// `sum_j (sum_i scalars[i] * m[i][j] mod r) * gens[j]`.
#[verifier::external_body]
fn msm(bases: &[G1Point], scalars: &[Fe]) -> (p: G1Point)
    ensures
        p == g1_msm(bases@, vals(scalars@)),
        g1_compressed(p).len() == 32,
        forall|gens: Seq<G1Point>, m: Seq<int>|
            #![trigger g1_msm(gens, lt_times_m(m, vals(scalars@), gens.len()))]
            rows_committed(bases@, gens, m) && scalars@.len() == bases@.len() ==> p == g1_msm(
                gens,
                lt_times_m(m, vals(scalars@), gens.len()),
            ),
{
    let f = |p: &G1Point| {
        let (x, y, i) = p.coordinates();
        G1Affine { x: Fq::from_bigint(BigInt::new(x)).unwrap(), y: Fq::from_bigint(BigInt::new(y)).unwrap(), infinity: i }
    };
    let b: Vec<G1Affine> = bases.iter().map(f).collect();
    let s: Vec<Fr> = scalars.iter().map(|e| Fr::from_bigint(BigInt::new(e.limbs())).unwrap()).collect();
    let r = G1Projective::msm_unchecked(&b, &s).into_affine();
    G1Point::from_coordinates(r.x.into_bigint().0, r.y.into_bigint().0, r.infinity)
}

/// `UniformRand::rand` on `G1Projective`, then `into_affine`: a random
/// curve point; nothing is stated of which.
#[verifier::external_body]
fn g1_rand(rng: &mut StdRng) -> (p: G1Point) {
    let r = G1Projective::rand(rng).into_affine();
    G1Point::from_coordinates(r.x.into_bigint().0, r.y.into_bigint().0, r.infinity)
}

/// `CanonicalSerialize::serialize_compressed` on a `G1Affine`.
#[verifier::external_body]
fn g1_serialize(p: &G1Point) -> (b: Vec<u8>)
    ensures
        b@ == g1_compressed(*p),
{
    let (x, y, i) = p.coordinates();
    let a = G1Affine { x: Fq::from_bigint(BigInt::new(x)).unwrap(), y: Fq::from_bigint(BigInt::new(y)).unwrap(), infinity: i };
    let mut buf = Vec::new();
    a.serialize_compressed(&mut buf).unwrap();
    buf
}

/// `CanonicalSerialize::serialize_compressed` on a `Vec<G1Affine>`: the
/// length as eight little-endian bytes, then each point's encoding.
#[verifier::external_body]
fn g1_vec_serialize(v: &Vec<G1Point>) -> (b: Vec<u8>)
    ensures
        b@ == le_bytes(v@.len() as int, 8) + concat_bytes(v@),
{
    let f = |p: &G1Point| {
        let (x, y, i) = p.coordinates();
        G1Affine { x: Fq::from_bigint(BigInt::new(x)).unwrap(), y: Fq::from_bigint(BigInt::new(y)).unwrap(), infinity: i }
    };
    let a: Vec<G1Affine> = v.iter().map(f).collect();
    let mut buf = Vec::new();
    a.serialize_compressed(&mut buf).unwrap();
    buf
}

impl CanonicalBytes for G1Point {
    open spec fn canonical_bytes(&self) -> Seq<u8> {
        g1_compressed(*self)
    }

    fn serialize_compressed(&self) -> (b: Vec<u8>) {
        g1_serialize(self)
    }
}

impl CanonicalBytes for Vec<G1Point> {
    open spec fn canonical_bytes(&self) -> Seq<u8> {
        le_bytes(self@.len() as int, 8) + concat_bytes(self@)
    }

    fn serialize_compressed(&self) -> (b: Vec<u8>) {
        g1_vec_serialize(self)
    }
}

/// The public parameters: the column generators and the bound on the
/// number of variables they were sized for. Prover and verifier hold the
/// same key.
#[derive(Debug)]
pub struct HyraxKey {
    pub generators: Vec<G1Point>,
    pub max_num_vars: usize,
}

/// Errors from the Hyrax scheme.
#[derive(Debug, PartialEq, Eq, Structural)]
pub enum HyraxError {
    /// A polynomial has more variables than `setup` provided for.
    TooManyVars { num_vars: usize, max_num_vars: usize },
    /// The point's length is not the polynomial's number of variables.
    PointLenMismatch { expected: usize, got: usize },
}

/// The Hyrax commitment scheme over BN254 `G1`.
pub struct Hyrax;

/// The number of column variables, `nu - nu/2`.
pub open spec fn col_vars(nv: nat) -> nat {
    (nv - nv / 2) as nat
}

/// The number of row variables, `nu/2`.
pub open spec fn row_vars(nv: nat) -> nat {
    nv / 2
}

/// The commitment to `table`: one multi-scalar multiplication per row of
/// the matrix, against the first `2^nu_c` generators.
pub open spec fn hyrax_rows(generators: Seq<G1Point>, table: Seq<int>, nv: nat) -> Seq<G1Point> {
    let cols = pow2(col_vars(nv));
    Seq::new(
        pow2(row_vars(nv)),
        |row: int| g1_msm(generators.take(cols as int), table.subrange(row * cols, row * cols + cols)),
    )
}

/// Whether the verifier accepts `value` at `point` with the combined row
/// `w` against the row commitments `c`.
pub open spec fn hyrax_accepts(
    generators: Seq<G1Point>,
    c: Seq<G1Point>,
    point: Seq<int>,
    value: int,
    w: Seq<int>,
) -> bool {
    let n_col = col_vars(point.len());
    let cols = pow2(n_col);
    &&& c.len() == pow2(row_vars(point.len()))
    &&& w.len() == cols
    &&& g1_msm(c, eq_table(point.skip(n_col as int))) == g1_msm(generators.take(cols as int), w)
    &&& inner(w, eq_table(point.take(n_col as int))) == value
}

/// The points `v[lo..hi]`, each known to lie on the curve.
fn copy_curve_points(v: &[G1Point], lo: usize, hi: usize) -> (c: Vec<G1Point>)
    requires
        lo <= hi <= v@.len(),
    ensures
        c@ == v@.subrange(lo as int, hi as int),
        forall|j: int| 0 <= j < c@.len() ==> (#[trigger] c@[j]).on_curve(),
{
    let mut c: Vec<G1Point> = Vec::new();
    let mut i: usize = lo;
    while i < hi
        invariant
            lo <= i <= hi <= v@.len(),
            c@ == v@.subrange(lo as int, i as int),
            forall|j: int| 0 <= j < c@.len() ==> (#[trigger] c@[j]).on_curve(),
        decreases hi - i,
    {
        let p = v[i];
        proof {
            use_type_invariant(&p);
        }
        c.push(p);
        i = i + 1;
    }
    c
}

/// `c` commits to `table` under `generators`, and `w` is the honest
/// combined row for `point`, with `value` the table's value there.
pub open spec fn honest_opening(
    generators: Seq<G1Point>,
    c: Seq<G1Point>,
    table: Seq<int>,
    point: Seq<int>,
    value: int,
    w: Seq<int>,
) -> bool {
    let nv = point.len();
    &&& c == hyrax_rows(generators, table, nv)
    &&& table.len() == pow2(nv)
    &&& all_canonical(table)
    &&& w == lt_times_m(table, eq_table(point.skip(col_vars(nv) as int)), pow2(col_vars(nv)))
    &&& value == crate::mle::mle_eval(table, point)
}

/// A copy of a vector of points.
fn copy_points(v: &Vec<G1Point>) -> (c: Vec<G1Point>)
    ensures
        c@ == v@,
{
    let c = copy_range(v.as_slice(), 0, v.len());
    proof {
        assert(v@.subrange(0, v@.len() as int) =~= v@);
    }
    c
}

impl PolynomialCommitment for Hyrax {
    type ProverKey = HyraxKey;
    type VerifierKey = HyraxKey;
    type Commitment = Vec<G1Point>;
    type CommitmentView = Seq<G1Point>;
    type Proof = Vec<Fe>;
    type Error = HyraxError;

    open spec fn view_of(c: Vec<G1Point>) -> Seq<G1Point> {
        c@
    }

    open spec fn setup_admits(max_num_vars: nat) -> bool {
        col_vars(max_num_vars) < usize::BITS
    }

    open spec fn prover_key_valid(pk: &HyraxKey) -> bool {
        pow2(col_vars(pk.max_num_vars as nat)) <= pk.generators@.len()
    }

    open spec fn commit_admits(pk: &HyraxKey, num_vars: nat) -> bool {
        num_vars <= pk.max_num_vars
    }

    open spec fn commit_error(pk: &HyraxKey, num_vars: nat) -> HyraxError {
        HyraxError::TooManyVars { num_vars: num_vars as usize, max_num_vars: pk.max_num_vars }
    }

    open spec fn checks_point_len() -> bool {
        true
    }

    open spec fn open_error(pk: &HyraxKey, num_vars: nat, point_len: nat) -> HyraxError {
        if num_vars > pk.max_num_vars {
            HyraxError::TooManyVars { num_vars: num_vars as usize, max_num_vars: pk.max_num_vars }
        } else {
            HyraxError::PointLenMismatch { expected: num_vars as usize, got: point_len as usize }
        }
    }

    open spec fn commitment_fits(pk: &HyraxKey, num_vars: nat) -> bool {
        8 + 32 * pow2(row_vars(num_vars)) <= u32::MAX
    }

    open spec fn commits_to(pk: &HyraxKey, table: Seq<int>, num_vars: nat, c: Seq<G1Point>) -> bool {
        c == hyrax_rows(pk.generators@, table, num_vars)
    }

    open spec fn open_admits(pk: &HyraxKey, num_vars: nat) -> bool {
        num_vars <= pk.max_num_vars
    }

    open spec fn open_log(
        pk: &HyraxKey,
        table: Seq<int>,
        num_vars: nat,
        point: Seq<int>,
        log: Seq<TranscriptOp>,
    ) -> Seq<TranscriptOp> {
        log
    }

    open spec fn is_honest_proof(
        pk: &HyraxKey,
        table: Seq<int>,
        num_vars: nat,
        point: Seq<int>,
        proof: Vec<Fe>,
    ) -> bool {
        &&& point.len() == num_vars
        &&& table.len() == pow2(num_vars)
        &&& all_canonical(table)
        &&& all_canonical(point)
        &&& pow2(col_vars(num_vars)) <= pk.generators@.len()
        &&& vals(proof@) == lt_times_m(
            table,
            eq_table(point.skip(col_vars(num_vars) as int)),
            pow2(col_vars(num_vars)),
        )
    }

    open spec fn verify_admits(vk: &HyraxKey, c: Seq<G1Point>, point_len: nat, proof: Vec<Fe>) -> bool {
        &&& col_vars(point_len) < usize::BITS
        &&& row_vars(point_len) < usize::BITS
        &&& c.len() == pow2(row_vars(point_len)) && proof@.len() == pow2(col_vars(point_len))
            ==> pow2(col_vars(point_len)) <= vk.generators@.len()
    }

    open spec fn verify_outcome(
        vk: &HyraxKey,
        c: Seq<G1Point>,
        point: Seq<int>,
        value: int,
        proof: Vec<Fe>,
        log: Seq<TranscriptOp>,
    ) -> (Result<bool, HyraxError>, Seq<TranscriptOp>) {
        (Ok(hyrax_accepts(vk.generators@, c, point, value, vals(proof@))), log)
    }

    /// Draw `2^nu_c` random column generators for `nu = max_num_vars`.
    /// Binding rests on nobody knowing their pairwise discrete logarithms.
    fn setup(max_num_vars: usize, rng: &mut StdRng) -> (r: Result<(HyraxKey, HyraxKey), HyraxError>)
        ensures
            r is Ok,
            r matches Ok(keys) ==> {
                &&& keys.0.generators@ == keys.1.generators@
                &&& keys.0.max_num_vars == max_num_vars
                &&& keys.1.max_num_vars == max_num_vars
                &&& keys.0.generators@.len() == pow2(col_vars(max_num_vars as nat))
            },
    {
        let (_, n_col) = split_vars(max_num_vars);
        proof {
            vstd::bits::lemma_usize_pow2_no_overflow(n_col as nat);
            vstd::bits::lemma_usize_shl_is_mul(1, n_col);
        }
        let count = 1usize << n_col;
        let mut generators: Vec<G1Point> = Vec::new();
        let mut i: usize = 0;
        while i < count
            invariant
                i <= count,
                generators@.len() == i,
            decreases count - i,
        {
            generators.push(g1_rand(rng));
            i = i + 1;
        }
        let pk = HyraxKey { generators: copy_points(&generators), max_num_vars };
        let vk = HyraxKey { generators, max_num_vars };
        Ok((pk, vk))
    }

    fn clone_commitment(c: &Vec<G1Point>) -> (d: Vec<G1Point>) {
        copy_points(c)
    }

    /// Commit row by row: one Pedersen multi-scalar multiplication per row of
    /// the dense table. A polynomial with more variables than the key
    /// provides for is refused.
    fn commit(pk: &HyraxKey, poly: MleRef<'_>) -> (r: Result<Vec<G1Point>, HyraxError>)
        ensures
            r matches Err(e) ==> e == (HyraxError::TooManyVars {
                num_vars: poly.spec_num_vars() as usize,
                max_num_vars: pk.max_num_vars,
            }),
    {
        let num_vars = poly.num_vars();
        if num_vars > pk.max_num_vars {
            return Err(HyraxError::TooManyVars { num_vars, max_num_vars: pk.max_num_vars });
        }
        let dense = poly.to_dense();
        let (n_row, n_col) = split_vars(num_vars);
        proof {
            if col_vars(num_vars as nat) < col_vars(pk.max_num_vars as nat) {
                vstd::arithmetic::power2::lemma_pow2_strictly_increases(
                    col_vars(num_vars as nat),
                    col_vars(pk.max_num_vars as nat),
                );
            }
            vstd::bits::lemma_usize_pow2_no_overflow(n_col as nat);
            vstd::bits::lemma_usize_shl_is_mul(1, n_col);
            vstd::bits::lemma_usize_pow2_no_overflow(n_row as nat);
            vstd::bits::lemma_usize_shl_is_mul(1, n_row);
            vstd::arithmetic::power2::lemma_pow2_adds(n_row as nat, n_col as nat);
        }
        let cols = 1usize << n_col;
        let rows = 1usize << n_row;
        let bases = copy_range(pk.generators.as_slice(), 0, cols);
        let ghost table = dense.table();
        let n_e = dense.evaluations.len();
        let mut commitment: Vec<G1Point> = Vec::new();
        let mut row: usize = 0;
        while row < rows
            invariant
                rows == pow2(n_row as nat),
                cols == pow2(n_col as nat),
                n_row == row_vars(num_vars as nat),
                n_col == col_vars(num_vars as nat),
                rows * cols == dense.evaluations@.len(),
                n_e == dense.evaluations@.len(),
                table == dense.table(),
                bases@ == pk.generators@.take(cols as int),
                row <= rows,
                commitment@ == hyrax_rows(pk.generators@, table, num_vars as nat).take(row as int),
                forall|i: int| 0 <= i < row ==> (#[trigger] commitment@[i]).canonical_bytes().len() == 32,
            decreases rows - row,
        {
            assert((row + 1) * cols <= rows * cols) by (nonlinear_arith)
                requires
                    row < rows,
            ;
            assert(row * cols + cols == (row + 1) * cols) by (nonlinear_arith);
            assert(row * cols + cols <= n_e);
            let base = row * cols;
            let scalars = copy_range(dense.evaluations.as_slice(), base, base + cols);
            let p = msm(bases.as_slice(), scalars.as_slice());
            proof {
                assert(vals(scalars@) =~= table.subrange(base as int, base + cols));
            }
            commitment.push(p);
            row = row + 1;
            proof {
                assert(commitment@ =~= hyrax_rows(pk.generators@, table, num_vars as nat).take(
                    row as int,
                ));
            }
        }
        proof {
            assert(commitment@ =~= hyrax_rows(pk.generators@, table, num_vars as nat));
            crate::transcript::lemma_concat_bytes_len(commitment@, 32);
        }
        Ok(commitment)
    }

    /// Open at `point`: the combined row `w = L^T M` is the proof, and
    /// `<w, R>` the value. The transcript is untouched.
    fn open(pk: &HyraxKey, poly: MleRef<'_>, point: &[Fe], transcript: &mut Transcript) -> (r:
        Result<(Fe, Vec<Fe>), HyraxError>)
        ensures
            r matches Ok(o) ==> vals(o.1@) == lt_times_m(
                poly.table(),
                eq_table(vals(point@).skip(col_vars(poly.spec_num_vars()) as int)),
                pow2(col_vars(poly.spec_num_vars())),
            ),
    {
        let num_vars = poly.num_vars();
        if num_vars > pk.max_num_vars {
            return Err(HyraxError::TooManyVars { num_vars, max_num_vars: pk.max_num_vars });
        }
        if point.len() != num_vars {
            return Err(HyraxError::PointLenMismatch { expected: num_vars, got: point.len() });
        }
        let dense = poly.to_dense();
        let (_, n_col) = split_vars(num_vars);
        let l = row_tensor(point, n_col);
        let r = col_tensor(point, n_col);
        proof {
            vstd::arithmetic::power2::lemma_pow2_adds((num_vars - n_col) as nat, n_col as nat);
        }
        let w = lt_times_m_dense(dense.evaluations.as_slice(), l.as_slice(), n_col);
        let value = dot(w.as_slice(), r.as_slice());
        proof {
            let z = vals(point@);
            crate::field::lemma_vals_canonical(point@);
            crate::field::lemma_vals_canonical(dense.evaluations@);
            lemma_tensor_eval(dense.table(), z, n_col as nat);
            let (a, b) = (col_vars(num_vars as nat), col_vars(pk.max_num_vars as nat));
            if a < b {
                vstd::arithmetic::power2::lemma_pow2_strictly_increases(a, b);
            }
            assert(Seq::new(
                w@.len(),
                |i: int| crate::field::fmul(w@[i].v(), r@[i].v()),
            ) =~= Seq::new(vals(w@).len(), |i: int| crate::field::fmul(vals(w@)[i], vals(r@)[i])));
        }
        Ok((value, w))
    }

    /// Check a combined row against the row commitments and the value. A
    /// proof or commitment of the wrong shape is refused, never an error.
    /// An honest opening is accepted: for the table that the commitment
    /// commits to, the combined row `L^T M` with the table's value at the
    /// point verifies.
    fn verify(
        vk: &HyraxKey,
        commitment: &Vec<G1Point>,
        point: &[Fe],
        value: Fe,
        proof: &Vec<Fe>,
        transcript: &mut Transcript,
    ) -> (r: Result<bool, HyraxError>)
        ensures
            r == Ok::<bool, HyraxError>(true) ==> g1_msm(
                commitment@,
                eq_table(vals(point@).skip(col_vars(point@.len() as nat) as int)),
            ) == g1_msm(
                vk.generators@.take(pow2(col_vars(point@.len() as nat)) as int),
                vals(proof@),
            ),
            forall|table: Seq<int>|
                #![trigger hyrax_rows(vk.generators@, table, point@.len() as nat)]
                honest_opening(vk.generators@, commitment@, table, vals(point@), value.v(), vals(proof@))
                    ==> r == Ok::<bool, HyraxError>(true),
    {
        let num_vars = point.len();
        let (n_row, n_col) = split_vars(num_vars);
        proof {
            vstd::bits::lemma_usize_pow2_no_overflow(n_col as nat);
            vstd::bits::lemma_usize_shl_is_mul(1, n_col);
            vstd::bits::lemma_usize_pow2_no_overflow(n_row as nat);
            vstd::bits::lemma_usize_shl_is_mul(1, n_row);
        }
        let cols = 1usize << n_col;
        if commitment.len() != (1usize << n_row) || proof.len() != cols {
            return Ok(false);
        }
        let l = row_tensor(point, n_col);
        let r = col_tensor(point, n_col);
        let from_commitment = msm(commitment.as_slice(), l.as_slice());
        let bases = copy_curve_points(vk.generators.as_slice(), 0, cols);
        let from_proof = msm(bases.as_slice(), proof.as_slice());
        proof {
            let nv = point@.len() as nat;
            let z = vals(point@);
            crate::field::lemma_vals_canonical(point@);
            vstd::arithmetic::power2::lemma_pow2_adds(n_row as nat, n_col as nat);
            assert(bases@ =~= vk.generators@.take(cols as int));
            assert forall|table: Seq<int>|
                #![trigger hyrax_rows(vk.generators@, table, nv)]
                honest_opening(vk.generators@, commitment@, table, z, value.v(), vals(proof@))
                implies from_commitment == from_proof && inner(vals(proof@), vals(r@)) == value.v() by {
                let rows = pow2(n_row as nat);
                assert(table.len() == rows * cols) by (nonlinear_arith)
                    requires
                        table.len() == pow2(nv),
                        pow2(nv) == pow2(n_row as nat) * pow2(n_col as nat),
                        rows == pow2(n_row as nat),
                        cols == pow2(n_col as nat),
                ;
                assert(rows_committed(commitment@, bases@, table));
                assert(from_commitment == g1_msm(bases@, lt_times_m(table, vals(l@), bases@.len())));
                lemma_tensor_eval(table, z, n_col as nat);
            }
        }
        if from_commitment != from_proof {
            return Ok(false);
        }
        let d = dot(proof.as_slice(), r.as_slice());
        proof {
            assert(Seq::new(proof@.len(), |i: int| crate::field::fmul(proof@[i].v(), r@[i].v())) =~= Seq::new(
                vals(proof@).len(),
                |i: int| crate::field::fmul(vals(proof@)[i], vals(r@)[i]),
            ));
        }
        Ok(d == value)
    }
}

/// A Hyrax commitment is determined by the key and the table alone: two
/// commitments to the same table are equal, whichever representation the
/// polynomial was handed over in.
pub proof fn lemma_commitment_determined(
    pk: &HyraxKey,
    table: Seq<int>,
    num_vars: nat,
    c1: Seq<G1Point>,
    c2: Seq<G1Point>,
)
    requires
        Hyrax::commits_to(pk, table, num_vars, c1),
        Hyrax::commits_to(pk, table, num_vars, c2),
    ensures
        c1 == c2,
{
}

/// The multi-scalar multiplication is linear over the first `k` of `gens`,
/// for every `k`: combining, with canonical weights `l`, the commitments to
/// the rows of a matrix `m` of canonical scalars gives the commitment to
/// the weighted sum `l^T m` of its rows.
pub open spec fn msm_linear(gens: Seq<G1Point>) -> bool {
    forall|k: nat, m: Seq<int>, l: Seq<int>|
        #![trigger g1_msm(gens.take(k as int), lt_times_m(m, l, k))]
        k <= gens.len() && m.len() == l.len() * k && all_canonical(m) && all_canonical(l) ==> g1_msm(
            Seq::new(l.len(), |i: int| g1_msm(gens.take(k as int), m.subrange(i * k, i * k + k))),
            l,
        ) == g1_msm(gens.take(k as int), lt_times_m(m, l, k))
}

/// Hyrax is complete for keys that share their generators, when the
/// multi-scalar multiplication is linear over them: an honest opening of a
/// committed table at a point verifies with the table's value there. (The
/// `msm` wrapper states this linearity of each call's result; as a fact
/// about all tables it is the premise here.)
pub proof fn lemma_hyrax_openings_verify(pk: &HyraxKey, vk: &HyraxKey)
    requires
        pk.generators@ == vk.generators@,
        msm_linear(vk.generators@),
    ensures
        crate::pcs::openings_verify::<Hyrax>(pk, vk),
{
    assert forall|table: Seq<int>, nv: nat, point: Seq<int>, c: Seq<G1Point>, proof: Vec<Fe>, log: Seq<TranscriptOp>|
        #![trigger Hyrax::is_honest_proof(pk, table, nv, point, proof), Hyrax::commits_to(pk, table, nv, c), Hyrax::open_log(pk, table, nv, point, log)]
        Hyrax::commits_to(pk, table, nv, c) && Hyrax::is_honest_proof(pk, table, nv, point, proof)
        implies Hyrax::verify_outcome(vk, c, point, crate::mle::mle_eval(table, point), proof, log) == (
            Ok::<bool, HyraxError>(true),
            Hyrax::open_log(pk, table, nv, point, log),
        ) by {
        let n_col = col_vars(nv);
        let n_row = row_vars(nv);
        let cols = pow2(n_col);
        let l = eq_table(point.skip(n_col as int));
        vstd::arithmetic::power2::lemma_pow2_adds(n_row, n_col);
        assert(n_row + n_col == nv);
        assert forall|i: int| 0 <= i < l.len() implies 0 <= #[trigger] l[i] < crate::field::modulus() by {
            crate::eq::lemma_eq_value_canonical(
                crate::eq::bool_point(i as nat, point.skip(n_col as int).len()),
                point.skip(n_col as int),
            );
        }
        assert(table.len() == l.len() * cols) by (nonlinear_arith)
            requires
                table.len() == pow2(nv),
                pow2(nv) == pow2(n_row) * pow2(n_col),
                l.len() == pow2(n_row),
                cols == pow2(n_col),
        ;
        assert(c =~= Seq::new(
            l.len(),
            |i: int| g1_msm(vk.generators@.take(cols as int), table.subrange(i * cols, i * cols + cols)),
        ));
        assert(g1_msm(vk.generators@.take(cols as int), lt_times_m(table, l, cols)) == g1_msm(
            c,
            l,
        ));
        lemma_tensor_eval(table, point, n_col);
    }
}

/// Hyrax verification is binding: it accepts only when the commitment has
/// one row per row variable assignment, the proof one value per column,
/// the rows combined with the row tensor `L` equal the proof's values
/// combined with the column generators (`sum_i L_i C_i == sum_j w_j g_j`),
/// and `<w, R>` is the value. Otherwise it answers `Ok(false)`; it never
/// fails with an error.
pub proof fn lemma_hyrax_verify_binding(
    vk: &HyraxKey,
    c: Seq<G1Point>,
    point: Seq<int>,
    value: int,
    proof: Vec<Fe>,
    log: Seq<TranscriptOp>,
)
    ensures
        ({
            let n_col = col_vars(point.len());
            let cols = pow2(n_col);
            let w = vals(proof@);
            let out = Hyrax::verify_outcome(vk, c, point, value, proof, log).0;
            &&& out is Ok
            &&& out == Ok::<bool, HyraxError>(true) ==> {
                &&& c.len() == pow2(row_vars(point.len()))
                &&& w.len() == cols
                &&& g1_msm(c, eq_table(point.skip(n_col as int))) == g1_msm(
                    vk.generators@.take(cols as int),
                    w,
                )
                &&& inner(w, eq_table(point.take(n_col as int))) == value
            }
            &&& g1_msm(c, eq_table(point.skip(n_col as int))) != g1_msm(
                vk.generators@.take(cols as int),
                w,
            ) ==> out == Ok::<bool, HyraxError>(false)
        }),
{
}

/// Hyrax refuses, with an honest proof, every value other than the
/// table's value at the point: the combined row's inner product with the
/// column tensor is that value.
pub proof fn lemma_hyrax_wrong_values_refused(pk: &HyraxKey, vk: &HyraxKey)
    ensures
        crate::pcs::wrong_values_refused::<Hyrax>(pk, vk),
{
    assert forall|table: Seq<int>, nv: nat, point: Seq<int>, c: Seq<G1Point>, proof: Vec<Fe>, value: int, log: Seq<TranscriptOp>|
        #![trigger Hyrax::is_honest_proof(pk, table, nv, point, proof), Hyrax::commits_to(pk, table, nv, c), Hyrax::verify_outcome(vk, c, point, value, proof, log)]
        Hyrax::commits_to(pk, table, nv, c) && Hyrax::is_honest_proof(pk, table, nv, point, proof)
            && point.len() == nv && table.len() == pow2(nv) && crate::field::all_canonical(table)
            && crate::field::all_canonical(point) && value != crate::mle::mle_eval(table, point)
        implies Hyrax::verify_outcome(vk, c, point, value, proof, log).0 == Ok::<bool, HyraxError>(false) by {
        lemma_tensor_eval(table, point, col_vars(nv));
    }
}

} // verus!
