//! Multilinear polynomials over `B_mu`, given by their evaluations on the
//! hypercube (little-endian: variable `0` is the low bit of the index), in
//! a dense and a sparse representation.

use crate::eq::{eq_table, bool_point, lemma_eq_table_concat, lemma_eq_table_one};
use crate::field::{
    all_canonical, fadd, fmul, fsub, lemma_identities, lemma_reduce_operands, lemma_results_canonical,
    modulus, vals, Fe,
};
use crate::sums::{fsum, inner, lemma_fsum_blocks, lemma_fsum_pair, lemma_fsum_single};
use ark_bn254::Fr;
use ark_ff::{BigInt, PrimeField};
use ark_poly::{
    DenseMultilinearExtension, Polynomial, SparseMultilinearExtension,
};
use std::collections::BTreeMap;
use vstd::arithmetic::power2::*;
use vstd::prelude::*;

verus! {

broadcast use vstd::laws_cmp::group_laws_cmp, vstd::std_specs::btree::group_btree_axioms;

/// Fix the first variable to `r`: entry `y` becomes
/// `(1 - r) * e[2y] + r * e[2y + 1]`.
pub open spec fn fold_first(e: Seq<int>, r: int) -> Seq<int> {
    Seq::new(e.len() / 2, |y: int| fadd(fmul(fsub(1, r), e[2 * y]), fmul(r, e[2 * y + 1])))
}

/// The multilinear extension of the table `e` evaluated at `z`, by fixing
/// the variables one at a time, first variable first.
pub open spec fn mle_eval(e: Seq<int>, z: Seq<int>) -> int
    decreases z.len(),
{
    if z.len() == 0 {
        e[0]
    } else {
        mle_eval(fold_first(e, z[0]), z.drop_first())
    }
}

/// The table of a sparse polynomial: the stored value at each stored index
/// of `[0, 2^num_vars)`, zero elsewhere.
pub open spec fn sparse_table(m: Map<usize, Fe>, num_vars: nat) -> Seq<int> {
    Seq::new(
        pow2(num_vars),
        |i: int|
            if m.contains_key(i as usize) {
                m[i as usize].v()
            } else {
                0
            },
    )
}

/// The map that inserting `entries` in order into an empty map gives.
pub open spec fn entries_map(entries: Seq<(usize, Fe)>) -> Map<usize, Fe>
    decreases entries.len(),
{
    if entries.len() == 0 {
        Map::empty()
    } else {
        entries_map(entries.drop_last()).insert(entries.last().0, entries.last().1)
    }
}

/// A copy of a vector of elements.
pub(crate) fn copy_values(v: &Vec<Fe>) -> (c: Vec<Fe>)
    ensures
        c@ == v@,
{
    let mut c: Vec<Fe> = Vec::new();
    let mut i: usize = 0;
    while i < v.len()
        invariant
            i <= v@.len(),
            c@ == v@.take(i as int),
        decreases v@.len() - i,
    {
        c.push(v[i]);
        i = i + 1;
        proof {
            assert(c@ =~= v@.take(i as int));
        }
    }
    proof {
        assert(v@.take(v@.len() as int) =~= v@);
    }
    c
}

/// A multilinear polynomial in dense evaluation form.
#[derive(Debug, PartialEq, Eq)]
pub struct DenseMle {
    /// The evaluations over `B_num_vars`.
    pub evaluations: Vec<Fe>,
    /// The number of variables.
    pub num_vars: usize,
}

/// A multilinear polynomial given by its nonzero evaluations.
#[derive(Clone, Debug, PartialEq, Eq)]
pub struct SparseMle {
    /// Index to value, for the stored points of `B_num_vars`.
    pub evaluations: BTreeMap<usize, Fe>,
    /// The number of variables.
    pub num_vars: usize,
}

impl Clone for DenseMle {
    fn clone(&self) -> (c: Self)
        ensures
            c.evaluations@ == self.evaluations@,
            c.num_vars == self.num_vars,
    {
        DenseMle { evaluations: copy_values(&self.evaluations), num_vars: self.num_vars }
    }
}

impl DenseMle {
    /// The table has `2^num_vars` entries.
    pub open spec fn well_formed(&self) -> bool {
        &&& self.evaluations@.len() == pow2(self.num_vars as nat)
        &&& self.num_vars < usize::BITS
    }

    /// The table's values.
    pub open spec fn table(&self) -> Seq<int> {
        vals(self.evaluations@)
    }

    /// A polynomial from its `2^num_vars` evaluations.
    pub fn from_evaluations_vec(num_vars: usize, evaluations: Vec<Fe>) -> (p: DenseMle)
        requires
            evaluations@.len() == pow2(num_vars as nat),
        ensures
            p.num_vars == num_vars,
            p.evaluations@ == evaluations@,
            p.well_formed(),
    {
        let len = evaluations.len();
        proof {
            lemma_fits(num_vars as nat, len as nat);
        }
        DenseMle { evaluations, num_vars }
    }

    /// A polynomial from a copy of its `2^num_vars` evaluations.
    pub fn from_evaluations_slice(num_vars: usize, evaluations: &[Fe]) -> (p: DenseMle)
        requires
            evaluations@.len() == pow2(num_vars as nat),
        ensures
            p.num_vars == num_vars,
            p.evaluations@ == evaluations@,
            p.well_formed(),
    {
        let mut v: Vec<Fe> = Vec::new();
        let mut i: usize = 0;
        while i < evaluations.len()
            invariant
                i <= evaluations@.len(),
                v@ == evaluations@.take(i as int),
            decreases evaluations@.len() - i,
        {
            v.push(evaluations[i]);
            i = i + 1;
            proof {
                assert(v@ =~= evaluations@.take(i as int));
            }
        }
        proof {
            assert(v@ =~= evaluations@);
        }
        DenseMle::from_evaluations_vec(num_vars, v)
    }

    /// The polynomial's value at `point`.
    pub fn evaluate(&self, point: &[Fe]) -> (r: Fe)
        requires
            self.well_formed(),
            point@.len() == self.num_vars,
        ensures
            r.v() == mle_eval(self.table(), vals(point@)),
    {
        ark_dense_evaluate(self.num_vars, &self.evaluations, point)
    }
}

proof fn lemma_fits(n: nat, len: nat)
    requires
        len == pow2(n),
        len <= usize::MAX,
    ensures
        n < usize::BITS,
{
    if n >= usize::BITS {
        lemma2_to64();
        if n > usize::BITS {
            lemma_pow2_strictly_increases(usize::BITS as nat, n);
        }
        assert(pow2(usize::BITS as nat) == usize::MAX + 1) by {
            lemma2_to64();
            lemma2_to64_rest();
        }
    }
}

/// `ark_poly` `DenseMultilinearExtension::evaluate`: the multilinear
/// extension of the table at `point`, found by fixing variables first to
/// last.
#[verifier::external_body]
fn ark_dense_evaluate(num_vars: usize, evals: &Vec<Fe>, point: &[Fe]) -> (r: Fe)
    requires
        evals@.len() == pow2(num_vars as nat),
        point@.len() == num_vars,
    ensures
        r.v() == mle_eval(vals(evals@), vals(point@)),
{
    let f = |e: &Fe| Fr::from_bigint(BigInt::new([e.l0, e.l1, e.l2, e.l3])).unwrap();
    let poly = DenseMultilinearExtension::from_evaluations_vec(num_vars, evals.iter().map(f).collect());
    let z = poly.evaluate(&point.iter().map(f).collect()).into_bigint().0;
    Fe { l0: z[0], l1: z[1], l2: z[2], l3: z[3] }
}

/// `ark_poly` `SparseMultilinearExtension::evaluate`: the multilinear
/// extension of the sparse table at `point`.
#[verifier::external_body]
fn ark_sparse_evaluate(num_vars: usize, evals: &BTreeMap<usize, Fe>, point: &[Fe]) -> (r: Fe)
    requires
        num_vars < usize::BITS,
        forall|i: usize| evals@.contains_key(i) ==> i < pow2(num_vars as nat),
        point@.len() == num_vars,
    ensures
        r.v() == mle_eval(sparse_table(evals@, num_vars as nat), vals(point@)),
{
    let f = |e: &Fe| Fr::from_bigint(BigInt::new([e.l0, e.l1, e.l2, e.l3])).unwrap();
    let entries: Vec<(usize, Fr)> = evals.iter().map(|(i, e)| (*i, f(e))).collect();
    let poly = SparseMultilinearExtension::from_evaluations(num_vars, &entries);
    let z = poly.evaluate(&point.iter().map(f).collect()).into_bigint().0;
    Fe { l0: z[0], l1: z[1], l2: z[2], l3: z[3] }
}

impl SparseMle {
    /// Every stored index lies in `[0, 2^num_vars)`.
    pub open spec fn well_formed(&self) -> bool {
        &&& self.num_vars < usize::BITS
        &&& forall|i: usize| #[trigger]
            self.evaluations@.contains_key(i) ==> i < pow2(self.num_vars as nat)
    }

    /// The dense table the polynomial stands for.
    pub open spec fn table(&self) -> Seq<int> {
        sparse_table(self.evaluations@, self.num_vars as nat)
    }

    /// A polynomial from `(index, value)` pairs; a later pair for the same
    /// index replaces an earlier one.
    pub fn from_evaluations(num_vars: usize, entries: &[(usize, Fe)]) -> (p: SparseMle)
        requires
            num_vars < usize::BITS,
            forall|k: int| 0 <= k < entries@.len() ==> #[trigger] entries@[k].0 < pow2(
                num_vars as nat,
            ),
        ensures
            p.num_vars == num_vars,
            p.evaluations@ == entries_map(entries@),
            p.well_formed(),
    {
        let mut m: BTreeMap<usize, Fe> = BTreeMap::new();
        let mut k: usize = 0;
        while k < entries.len()
            invariant
                k <= entries@.len(),
                m@ == entries_map(entries@.take(k as int)),
                forall|i: usize| #[trigger] m@.contains_key(i) ==> i < pow2(num_vars as nat),
                forall|j: int| 0 <= j < entries@.len() ==> #[trigger] entries@[j].0 < pow2(
                    num_vars as nat,
                ),
            decreases entries@.len() - k,
        {
            let (i, v) = entries[k];
            m.insert(i, v);
            proof {
                assert(entries@.take(k + 1).drop_last() =~= entries@.take(k as int));
            }
            k = k + 1;
        }
        proof {
            assert(entries@.take(entries@.len() as int) =~= entries@);
        }
        SparseMle { evaluations: m, num_vars }
    }

    /// The dense evaluation table, `2^num_vars` entries.
    pub fn to_evaluations(&self) -> (t: Vec<Fe>)
        requires
            self.well_formed(),
        ensures
            vals(t@) =~= self.table(),
            t@.len() == pow2(self.num_vars as nat),
    {
        proof {
            vstd::bits::lemma_usize_pow2_no_overflow(self.num_vars as nat);
            vstd::bits::lemma_usize_shl_is_mul(1, self.num_vars);
        }
        let n = 1usize << self.num_vars;
        let mut t: Vec<Fe> = Vec::new();
        let mut i: usize = 0;
        while i < n
            invariant
                n == pow2(self.num_vars as nat),
                i <= n,
                t@.len() == i,
                forall|j: int| 0 <= j < i ==> #[trigger] t@[j].v() == self.table()[j],
            decreases n - i,
        {
            match self.evaluations.get(&i) {
                Some(v) => t.push(*v),
                None => t.push(Fe::zero()),
            }
            assert(t@[i as int].v() == self.table()[i as int]);
            i = i + 1;
        }
        proof {
            assert forall|j: int| 0 <= j < n implies vals(t@)[j] == self.table()[j] by {
                assert(t@[j].v() == self.table()[j]);
            }
        }
        t
    }

    /// The polynomial's value at `point`.
    pub fn evaluate(&self, point: &[Fe]) -> (r: Fe)
        requires
            self.well_formed(),
            point@.len() == self.num_vars,
        ensures
            r.v() == mle_eval(self.table(), vals(point@)),
    {
        ark_sparse_evaluate(self.num_vars, &self.evaluations, point)
    }
}

/// The multilinear extension of a table at `z` is the table's
/// `eq(., z)`-weighted sum: `sum_k e[k] eq(k, z)`.
pub proof fn lemma_mle_eval_sum(e: Seq<int>, z: Seq<int>)
    requires
        e.len() == pow2(z.len()),
        all_canonical(e),
        all_canonical(z),
    ensures
        mle_eval(e, z) == inner(e, eq_table(z)),
    decreases z.len(),
{
    let t = eq_table(z);
    if z.len() == 0 {
        lemma2_to64();
        let s = Seq::new(e.len(), |i: int| fmul(e[i], t[i]));
        assert(bool_point(0, 0) =~= Seq::<int>::empty());
        assert(t[0] == 1);
        lemma_identities(e[0]);
        lemma_fsum_single(s);
    } else {
        let z0 = z[0];
        let zr = z.drop_first();
        let h = pow2(zr.len());
        let f = fold_first(e, z0);
        let tr = eq_table(zr);
        lemma_pow2_unfold(z.len());
        assert(e.len() == 2 * h);
        assert forall|y: int| 0 <= y < f.len() implies 0 <= #[trigger] f[y] < modulus() by {
            lemma_results_canonical(fmul(fsub(1, z0), e[2 * y]), fmul(z0, e[2 * y + 1]));
        }
        lemma_mle_eval_sum(f, zr);
        assert(seq![z0] + zr =~= z);
        lemma_eq_table_one(z0);
        let g = |k: int| fmul(e[k], t[k]);
        lemma_fsum_blocks(g, h, 2);
        assert(Seq::new(h * 2, g) =~= Seq::new(e.len(), |i: int| fmul(e[i], t[i])));
        let rows = Seq::new(h, |r: int| fsum(Seq::new(2, |c: int| g(r * 2 + c))));
        let target = Seq::new(f.len(), |i: int| fmul(f[i], tr[i]));
        assert forall|y: int| 0 <= y < h implies #[trigger] rows[y] == target[y] by {
            let pair = Seq::new(2, |c: int| g(y * 2 + c));
            lemma_results_canonical(e[2 * y], t[2 * y]);
            lemma_fsum_pair(pair);
            lemma_eq_table_concat(seq![z0], zr, 0, y as nat);
            lemma_eq_table_concat(seq![z0], zr, 1, y as nat);
            let a = fsub(1, z0);
            let ty = tr[y];
            let e0 = e[2 * y];
            let e1 = e[2 * y + 1];
            assert(t[2 * y] == fmul(a, ty));
            assert(t[2 * y + 1] == fmul(z0, ty));
            // e0 (a ty) == (a e0) ty, and likewise for e1
            crate::field::lemma_associative(e0, a, ty);
            crate::field::lemma_commutative(e0, a);
            crate::field::lemma_associative(e1, z0, ty);
            crate::field::lemma_commutative(e1, z0);
            lemma_reduce_operands(e0 * a, ty);
            lemma_reduce_operands(e1 * z0, ty);
            crate::field::lemma_distributive(ty, fmul(a, e0), fmul(z0, e1));
        }
        assert(rows =~= target);
    }
}

/// On the hypercube the multilinear extension is the table: at the
/// boolean point of `k` it takes the value `e[k]`.
pub proof fn lemma_mle_eval_bool_point(e: Seq<int>, k: nat, m: nat)
    requires
        e.len() == pow2(m),
        k < pow2(m),
        all_canonical(e),
    ensures
        mle_eval(e, bool_point(k, m)) == e[k as int],
{
    let z = bool_point(k, m);
    assert(all_canonical(z)) by {
        assert forall|i: int| 0 <= i < z.len() implies 0 <= #[trigger] z[i] < modulus() by {
            vstd::arithmetic::div_mod::lemma_mod_bound((k / pow2(i as nat)) as int, 2);
        }
    }
    lemma_mle_eval_sum(e, z);
    let t = eq_table(z);
    let s = Seq::new(e.len(), |x: int| fmul(e[x], t[x]));
    lemma_pow2_pos(m);
    assert forall|x: int| 0 <= x < s.len() implies #[trigger] t[x] == (if x == k {
        1int
    } else {
        0int
    }) by {
        crate::eq::lemma_eq_bool_points(x as nat, k, m);
        vstd::arithmetic::div_mod::lemma_small_mod(x as nat, pow2(m));
        vstd::arithmetic::div_mod::lemma_small_mod(k, pow2(m));
    }
    assert forall|x: int| 0 <= x < s.len() && x != k implies s[x] == 0 by {
        lemma_identities(e[x]);
    }
    lemma_identities(e[k as int]);
    crate::sums::lemma_fsum_one_nonzero(s, k as int);
}

} // verus!
