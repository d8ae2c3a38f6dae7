//! Product check: prove `prod_{x in B_mu} p(x) / q(x) = 1`.
//!
//! With `N = 2^mu`, a `(mu + 1)`-variate polynomial `v` holds the whole
//! product tree in its `2N` slots, leaves first: `V[y] = p(y) / q(y)` for
//! `y < N`, `V[i] = V[2(i - N)] * V[2(i - N) + 1]` for `N <= i < 2N - 1`,
//! and a spare `V[2N - 1] = 0`. The root `V[2N - 2]` is the grand product.
//! The tree and the leaves become two constraints over `B_mu`,
//! `C_1(y) = v(y, 1) - v(0, y) * v(1, y)` and
//! `C_2(y) = v(y, 0) * q(y) - p(y)`, batched by a challenge `alpha` into one
//! zerocheck. The caller checks separately that `v` opens to one at the
//! root.

use crate::field::{all_canonical, fadd, finv, fmul, fneg, fsub, vals, Fe};
use crate::mle::{mle_eval, DenseMle};
use crate::sumcheck::{
    factor_tables, polys_values, prove_rounds, term_views, verify_spec,
    SumcheckError, SumcheckProof, SumcheckProverOutput, Term,
};
use crate::transcript::{
    after_challenge, after_challenges, challenge_value, challenge_values, Transcript, TranscriptOp,
};
use crate::zerocheck::{self, with_factor};
use ark_bn254::Fr;
use ark_ff::{batch_inversion, BigInt, PrimeField};
use vstd::arithmetic::power2::*;
use vstd::prelude::*;

verus! {

/// Errors from building the product tree.
#[derive(Debug, Clone, Copy, PartialEq, Eq, Structural)]
pub enum ProdcheckError {
    /// `q` vanishes at `index`, so `p / q` does not exist there.
    ZeroDenominator { index: usize },
    /// `p` and `q` disagree on the number of variables.
    NumVarsMismatch { expected: usize, got: usize },
}

/// The five points at which `v` must be opened.
#[derive(Debug, Clone, PartialEq, Eq)]
pub struct ProdcheckPoints {
    /// `(rho, 0)`: the leaf layer.
    pub bot: Vec<Fe>,
    /// `(rho, 1)`: the internal nodes.
    pub top: Vec<Fe>,
    /// `(0, rho)`: the left child of each node.
    pub left: Vec<Fe>,
    /// `(1, rho)`: the right child of each node.
    pub right: Vec<Fe>,
    /// `(0, 1, ..., 1)`: slot `2N - 2`, the root; it must open to one.
    pub root: Vec<Fe>,
}

/// The four partial evaluations of `v` at `rho`, as opened.
#[derive(Debug, Clone, Copy, PartialEq, Eq)]
pub struct ProdcheckEvals {
    pub bot: Fe,
    pub top: Fe,
    pub left: Fe,
    pub right: Fe,
}

/// What a successful verification hands back.
#[derive(Debug, Clone, PartialEq, Eq)]
pub struct ProdcheckOutput {
    /// The zerocheck point `rho`.
    pub challenges: Vec<Fe>,
    /// `eq(r, rho)` from the zerocheck.
    pub eq_eval: Fe,
    /// The sumcheck's final claim.
    pub final_claim: Fe,
    /// The batching challenge `alpha`.
    pub alpha: Fe,
    /// Where `v` must be opened.
    pub points: ProdcheckPoints,
}

/// The leaves `p(y) / q(y)`, computed as `q(y)^(-1) * p(y)`.
pub open spec fn tree_leaves(p: Seq<int>, q: Seq<int>) -> Seq<int> {
    Seq::new(p.len(), |y: int| fmul(finv(q[y]), p[y]))
}

/// Slot `i` of the product tree over `leaves`.
pub open spec fn tree_node(leaves: Seq<int>, i: nat) -> int
    decreases i,
{
    let n = leaves.len();
    if i < n {
        leaves[i as int]
    } else if i + 1 < 2 * n {
        let c = (2 * (i - n)) as nat;
        fmul(tree_node(leaves, c), tree_node(leaves, c + 1))
    } else {
        0
    }
}

/// All `2 * leaves.len()` slots of the product tree.
pub open spec fn tree_table(leaves: Seq<int>) -> Seq<int> {
    Seq::new(2 * leaves.len(), |i: int| tree_node(leaves, i as nat))
}

/// The first zero of `q`, when there is one.
pub open spec fn is_first_zero(q: Seq<int>, index: int) -> bool {
    &&& 0 <= index < q.len()
    &&& q[index] == 0
    &&& forall|j: int| 0 <= j < index ==> q[j] != 0
}

/// The point `rho` with `b` appended as its last coordinate.
pub open spec fn with_last(rho: Seq<int>, b: int) -> Seq<int> {
    rho.push(b)
}

/// The point `rho` with `b` prepended as its first coordinate.
pub open spec fn with_first(rho: Seq<int>, b: int) -> Seq<int> {
    seq![b] + rho
}

/// The root's point `(0, 1, ..., 1)` with `n + 1` coordinates.
pub open spec fn root_point(n: nat) -> Seq<int> {
    Seq::new(n + 1, |i: int| if i == 0 { 0int } else { 1int })
}

/// The table of `v` with its last variable fixed to `b`: a contiguous half.
pub open spec fn last_fixed(t: Seq<int>, b: bool) -> Seq<int> {
    let half = t.len() / 2;
    if b {
        t.subrange(half as int, 2 * half as int)
    } else {
        t.subrange(0, half as int)
    }
}

/// The table of `v` with its first variable fixed to `b`: every other slot.
pub open spec fn first_fixed(t: Seq<int>, b: bool) -> Seq<int> {
    Seq::new(t.len() / 2, |y: int| t[2 * y + if b { 1int } else { 0int }])
}

/// The factors the product check's zerocheck runs over, in order: `top`,
/// `left`, `right`, `bot`, `q`, `p`.
pub open spec fn check_tables(v: Seq<int>, p: Seq<int>, q: Seq<int>) -> Seq<Seq<int>> {
    seq![
        last_fixed(v, true),
        first_fixed(v, false),
        first_fixed(v, true),
        last_fixed(v, false),
        q,
        p,
    ]
}

/// `C_1 + alpha C_2` over those factors.
pub open spec fn check_terms(alpha: int) -> Seq<(int, Seq<usize>)> {
    seq![
        (1int, seq![0usize]),
        (fneg(1), seq![1usize, 2usize]),
        (alpha, seq![3usize, 4usize]),
        (fneg(alpha), seq![5usize]),
    ]
}

/// `ark_ff::batch_inversion`: every nonzero element is replaced by its
/// inverse; zeros are left as they are.
#[verifier::external_body]
fn ark_batch_inversion(v: &mut Vec<Fe>)
    ensures
        final(v)@.len() == old(v)@.len(),
        forall|i: int|
            0 <= i < old(v)@.len() ==> if old(v)@[i].v() == 0 {
                #[trigger] final(v)@[i].v() == 0
            } else {
                fmul(old(v)@[i].v(), final(v)@[i].v()) == 1
            },
{
    let f = |e: &Fe| Fr::from_bigint(BigInt::new([e.l0, e.l1, e.l2, e.l3])).unwrap();
    let mut x: Vec<Fr> = v.iter().map(f).collect();
    batch_inversion(&mut x);
    let g = |y: &Fr| { let z = y.into_bigint().0; Fe { l0: z[0], l1: z[1], l2: z[2], l3: z[3] } };
    *v = x.iter().map(g).collect();
}

impl ProdcheckOutput {
    /// Check the zerocheck's final claim against the openings of `v` and the
    /// caller's `p(rho)`, `q(rho)`:
    /// `eq(r, rho) * (C_1(rho) + alpha C_2(rho)) == final_claim`. The root
    /// opening is the caller's to check.
    pub fn final_check(&self, evals: &ProdcheckEvals, p_at_rho: Fe, q_at_rho: Fe) -> (ok: bool)
        ensures
            ok == (fmul(
                self.eq_eval.v(),
                fadd(
                    fsub(evals.top.v(), fmul(evals.left.v(), evals.right.v())),
                    fmul(self.alpha.v(), fsub(fmul(evals.bot.v(), q_at_rho.v()), p_at_rho.v())),
                ),
            ) == self.final_claim.v()),
    {
        let tree = evals.top.sub(evals.left.mul(evals.right));
        let leaves = evals.bot.mul(q_at_rho).sub(p_at_rho);
        self.eq_eval.mul(tree.add(self.alpha.mul(leaves))) == self.final_claim
    }
}

/// The five opening points from the zerocheck point `rho`; each has one
/// more coordinate than `rho`.
pub fn points(rho: &[Fe]) -> (pts: ProdcheckPoints)
    requires
        rho@.len() < usize::MAX,
    ensures
        vals(pts.bot@) == with_last(vals(rho@), 0),
        vals(pts.top@) == with_last(vals(rho@), 1),
        vals(pts.left@) == with_first(vals(rho@), 0),
        vals(pts.right@) == with_first(vals(rho@), 1),
        vals(pts.root@) == root_point(rho@.len()),
        pts.bot@.len() == rho@.len() + 1 && pts.top@.len() == rho@.len() + 1,
        pts.left@.len() == rho@.len() + 1 && pts.right@.len() == rho@.len() + 1,
        pts.root@.len() == rho@.len() + 1,
{
    let n = rho.len();
    let mut bot: Vec<Fe> = Vec::new();
    let mut top: Vec<Fe> = Vec::new();
    let mut left: Vec<Fe> = Vec::new();
    let mut right: Vec<Fe> = Vec::new();
    let mut root: Vec<Fe> = Vec::new();
    left.push(Fe::zero());
    right.push(Fe::one());
    root.push(Fe::zero());
    let mut i: usize = 0;
    while i < n
        invariant
            n == rho@.len(),
            i <= n,
            bot@ == rho@.take(i as int),
            top@ == rho@.take(i as int),
            left@.len() == i + 1 && vals(left@)[0] == 0,
            right@.len() == i + 1 && vals(right@)[0] == 1,
            root@.len() == i + 1 && vals(root@)[0] == 0,
            forall|j: int| 0 <= j < i ==> #[trigger] left@[j + 1] == rho@[j] && right@[j + 1] == rho@[j],
            forall|j: int| 1 <= j <= i ==> #[trigger] root@[j].v() == 1,
        decreases n - i,
    {
        bot.push(rho[i]);
        top.push(rho[i]);
        left.push(rho[i]);
        right.push(rho[i]);
        root.push(Fe::one());
        i = i + 1;
        proof {
            assert(bot@ =~= rho@.take(i as int));
            assert(top@ =~= rho@.take(i as int));
        }
    }
    bot.push(Fe::zero());
    top.push(Fe::one());
    proof {
        assert(rho@.take(n as int) =~= rho@);
        assert(vals(bot@) =~= with_last(vals(rho@), 0));
        assert(vals(top@) =~= with_last(vals(rho@), 1));
        assert forall|j: int| 0 <= j < n + 1 implies vals(left@)[j] == with_first(vals(rho@), 0)[j]
            && vals(right@)[j] == with_first(vals(rho@), 1)[j] by {
            if j > 0 {
                assert(left@[(j - 1) + 1] == rho@[j - 1]);
            }
        }
        assert(vals(left@) =~= with_first(vals(rho@), 0));
        assert(vals(right@) =~= with_first(vals(rho@), 1));
        assert(vals(root@) =~= root_point(rho@.len()));
    }
    ProdcheckPoints { bot, top, left, right, root }
}

} // verus!

verus! {

/// Build the product-tree polynomial `v` for `p / q`: one batch inversion
/// and one forward pass over the tree. Fails when `p` and `q` disagree on
/// the number of variables, or, naming the first such point, when `q`
/// vanishes somewhere on the cube.
pub fn build(p: &DenseMle, q: &DenseMle) -> (res: Result<DenseMle, ProdcheckError>)
    requires
        p.well_formed(),
        q.well_formed(),
        p.num_vars == q.num_vars ==> 0 < p.num_vars < usize::BITS - 1,
    ensures
        p.num_vars != q.num_vars <==> res == Err::<DenseMle, ProdcheckError>(
            ProdcheckError::NumVarsMismatch { expected: p.num_vars, got: q.num_vars },
        ),
        p.num_vars == q.num_vars ==> (res matches Err(e) ==> e is ZeroDenominator),
        res matches Err(ProdcheckError::ZeroDenominator { index }) ==> p.num_vars == q.num_vars
            && is_first_zero(q.table(), index as int),
        res is Ok <==> p.num_vars == q.num_vars && forall|y: int|
            0 <= y < q.table().len() ==> q.table()[y] != 0,
        res matches Ok(v) ==> v.num_vars == p.num_vars + 1 && v.well_formed() && v.table()
            == tree_table(tree_leaves(p.table(), q.table())),
        res is Ok ==> forall|y: int|
            0 <= y < q.table().len() ==> #[trigger] fmul(q.table()[y], finv(q.table()[y])) == 1,
{
    let num_vars = p.num_vars;
    if q.num_vars != num_vars {
        return Err(ProdcheckError::NumVarsMismatch { expected: num_vars, got: q.num_vars });
    }
    proof {
        vstd::bits::lemma_usize_pow2_no_overflow((num_vars + 1) as nat);
        lemma_pow2_unfold((num_vars + 1) as nat);
        vstd::bits::lemma_usize_shl_is_mul(1, num_vars);
    }
    let n = 1usize << num_vars;
    let mut k: usize = 0;
    while k < n
        invariant
            n == q.evaluations@.len(),
            p.num_vars == q.num_vars,
            k <= n,
            forall|j: int| 0 <= j < k ==> q.table()[j] != 0,
        decreases n - k,
    {
        proof {
            assert(q.table()[k as int] == q.evaluations@[k as int].v());
        }
        if q.evaluations[k] == Fe::zero() {
            return Err(ProdcheckError::ZeroDenominator { index: k });
        }
        k = k + 1;
    }
    let ghost pt = p.table();
    let ghost qt = q.table();
    let ghost lv = tree_leaves(pt, qt);
    let mut evals = crate::mle::copy_values(&q.evaluations);
    ark_batch_inversion(&mut evals);
    let mut y: usize = 0;
    while y < n
        invariant
            n == evals@.len(),
            n == p.evaluations@.len(),
            pt == p.table(),
            qt == q.table(),
            lv == tree_leaves(pt, qt),
            forall|j: int| 0 <= j < n ==> qt[j] != 0,
            y <= n,
            forall|j: int| 0 <= j < y ==> #[trigger] evals@[j].v() == lv[j],
            forall|j: int|
                y <= j < n ==> fmul(qt[j], #[trigger] evals@[j].v()) == 1,
            forall|j: int| 0 <= j < y ==> #[trigger] fmul(qt[j], finv(qt[j])) == 1,
        decreases n - y,
    {
        let leaf = evals[y].mul(p.evaluations[y]);
        proof {
            crate::field::lemma_value_range(evals@[y as int]);
            crate::field::lemma_inverse_unique(qt[y as int], evals@[y as int].v());
        }
        evals.set(y, leaf);
        y = y + 1;
    }
    assert(forall|j: int| 0 <= j < qt.len() ==> #[trigger] fmul(qt[j], finv(qt[j])) == 1);
    while evals.len() < 2 * n
        invariant
            2 * n <= usize::MAX,
            n <= evals@.len() <= 2 * n,
            forall|j: int| 0 <= j < n ==> #[trigger] evals@[j].v() == lv[j],
            forall|j: int| n <= j < evals@.len() ==> #[trigger] evals@[j].v() == 0,
            lv.len() == n,
        decreases 2 * n - evals@.len(),
    {
        evals.push(Fe::zero());
    }
    let mut i: usize = n;
    while i < 2 * n - 1
        invariant
            n >= 1,
            2 * n <= usize::MAX,
            evals@.len() == 2 * n,
            lv.len() == n,
            n <= i <= 2 * n - 1,
            forall|j: int| 0 <= j < i ==> #[trigger] evals@[j].v() == tree_node(lv, j as nat),
            forall|j: int| i <= j < 2 * n ==> #[trigger] evals@[j].v() == 0,
        decreases 2 * n - 1 - i,
    {
        let child = 2 * (i - n);
        let node = evals[child].mul(evals[child + 1]);
        evals.set(i, node);
        i = i + 1;
    }
    proof {
        assert(tree_node(lv, (2 * n - 1) as nat) == 0);
        assert(vals(evals@) =~= tree_table(lv));
    }
    Ok(DenseMle::from_evaluations_vec(num_vars + 1, evals))
}

/// `v` with its last variable fixed to `bit`: the low or high half of the
/// table.
pub fn fix_last(v: &DenseMle, bit: bool) -> (f: DenseMle)
    requires
        v.well_formed(),
        v.num_vars >= 1,
    ensures
        f.num_vars == v.num_vars - 1,
        f.well_formed(),
        f.table() == last_fixed(v.table(), bit),
{
    let num_vars = v.num_vars - 1;
    proof {
        vstd::bits::lemma_usize_pow2_no_overflow(num_vars as nat);
        vstd::bits::lemma_usize_shl_is_mul(1, num_vars);
        lemma_pow2_unfold(v.num_vars as nat);
    }
    let half = 1usize << num_vars;
    let len = v.evaluations.len();
    let base = if bit { half } else { 0 };
    let mut evals: Vec<Fe> = Vec::new();
    let mut y: usize = 0;
    while y < half
        invariant
            half == pow2(num_vars as nat),
            v.evaluations@.len() == 2 * half,
            len == 2 * half,
            base == (if bit { half } else { 0usize }),
            y <= half,
            evals@ == v.evaluations@.subrange(base as int, base + y),
        decreases half - y,
    {
        evals.push(v.evaluations[base + y]);
        y = y + 1;
        proof {
            assert(evals@ =~= v.evaluations@.subrange(base as int, base + y));
        }
    }
    proof {
        assert(vals(evals@) =~= last_fixed(v.table(), bit));
    }
    DenseMle::from_evaluations_vec(num_vars, evals)
}

/// `v` with its first variable fixed to `bit`: every other slot of the
/// table, since the first variable is the index's low bit.
pub fn fix_first(v: &DenseMle, bit: bool) -> (f: DenseMle)
    requires
        v.well_formed(),
        v.num_vars >= 1,
    ensures
        f.num_vars == v.num_vars - 1,
        f.well_formed(),
        f.table() == first_fixed(v.table(), bit),
{
    let num_vars = v.num_vars - 1;
    proof {
        vstd::bits::lemma_usize_pow2_no_overflow(num_vars as nat);
        vstd::bits::lemma_usize_shl_is_mul(1, num_vars);
        lemma_pow2_unfold(v.num_vars as nat);
    }
    let half = 1usize << num_vars;
    let len = v.evaluations.len();
    let offset: usize = if bit { 1 } else { 0 };
    let mut evals: Vec<Fe> = Vec::new();
    let mut y: usize = 0;
    while y < half
        invariant
            half == pow2(num_vars as nat),
            v.evaluations@.len() == 2 * half,
            len == 2 * half,
            offset == (if bit { 1usize } else { 0usize }),
            y <= half,
            evals@.len() == y,
            forall|j: int| 0 <= j < y ==> #[trigger] evals@[j] == v.evaluations@[2 * j + offset],
        decreases half - y,
    {
        evals.push(v.evaluations[2 * y + offset]);
        y = y + 1;
    }
    proof {
        assert(vals(evals@) =~= first_fixed(v.table(), bit));
    }
    DenseMle::from_evaluations_vec(num_vars, evals)
}

/// The batched constraint `C_1 + alpha C_2` over the factors built in
/// `prove`: `0` top, `1` left, `2` right, `3` bot, `4` q, `5` p.
fn terms(alpha: Fe) -> (t: Vec<Term>)
    ensures
        term_views(t@) == check_terms(alpha.v()),
{
    let one = Fe::one();
    let t = vec![
        Term { coeff: one, factors: vec![0] },
        Term { coeff: one.neg(), factors: vec![1, 2] },
        Term { coeff: alpha, factors: vec![3, 4] },
        Term { coeff: alpha.neg(), factors: vec![5] },
    ];
    proof {
        assert(t@[0].factors@ =~= seq![0usize]);
        assert(t@[1].factors@ =~= seq![1usize, 2usize]);
        assert(t@[2].factors@ =~= seq![3usize, 4usize]);
        assert(t@[3].factors@ =~= seq![5usize]);
        assert(term_views(t@) =~= check_terms(alpha.v()));
    }
    t
}

} // verus!

verus! {

/// Prove `prod_x p(x) / q(x) = 1` given the tree `v`: squeeze the batching
/// challenge `alpha` and run the zerocheck of `C_1 + alpha C_2` over
/// `B_mu`. Its challenge point is where the caller opens `v`, `p` and `q`.
pub fn prove(v: &DenseMle, p: &DenseMle, q: &DenseMle, transcript: &mut Transcript) -> (out:
    SumcheckProverOutput)
    requires
        p.well_formed(),
        q.well_formed(),
        v.well_formed(),
        q.num_vars == p.num_vars,
        v.num_vars == p.num_vars + 1,
    ensures
        ({
            let nv = p.num_vars as nat;
            let alpha = challenge_value(old(transcript)@, "prodcheck_alpha"@);
            let log1 = after_challenge(old(transcript)@, "prodcheck_alpha"@);
            let r = challenge_values(log1, "zerocheck_r"@, nv);
            let (polys, chals, log) = prove_rounds(
                check_tables(v.table(), p.table(), q.table()).push(crate::eq::eq_table(r)),
                with_factor(check_terms(alpha), 6),
                3,
                nv,
                after_challenges(log1, "zerocheck_r"@, nv),
            );
            &&& polys_values(out.proof.round_polys@) == polys
            &&& vals(out.challenges@) == chals
            &&& final(transcript)@ == log
        }),
{
    let alpha = transcript.challenge("prodcheck_alpha");
    let factors = vec![
        fix_last(v, true),
        fix_first(v, false),
        fix_first(v, true),
        fix_last(v, false),
        q.clone(),
        p.clone(),
    ];
    let t = terms(alpha);
    proof {
        let tw = term_views(t@);
        assert(factor_tables(factors@) =~= check_tables(v.table(), p.table(), q.table()));
        assert forall|i: int| 0 <= i < factors@.len() implies (#[trigger] factors@[i]).well_formed()
            && factors@[i].num_vars == factors@[0].num_vars by {}
        assert forall|a: int, k: int| 0 <= a < tw.len() && 0 <= k < tw[a].1.len() implies #[trigger] tw[a].1[k] < 6 by {}
        reveal_with_fuel(crate::sumcheck::max_factors, 5);
        assert(crate::sumcheck::max_factors(tw) == 2);
    }
    zerocheck::prove(factors.as_slice(), t.as_slice(), transcript)
}

/// Verify a product-check proof over `num_vars` variables: squeeze the
/// same `alpha`, verify the zerocheck of degree two, and hand back the
/// points to open `v` at and the data of the final check.
pub fn verify(num_vars: usize, proof: &SumcheckProof, transcript: &mut Transcript) -> (res: Result<
    ProdcheckOutput,
    SumcheckError,
>)
    requires
        num_vars < usize::MAX,
    ensures
        ({
            let alpha = challenge_value(old(transcript)@, "prodcheck_alpha"@);
            let log1 = after_challenge(old(transcript)@, "prodcheck_alpha"@);
            let r = challenge_values(log1, "zerocheck_r"@, num_vars as nat);
            let (spec_res, spec_log) = verify_spec(
                0,
                num_vars as nat,
                3,
                polys_values(proof.round_polys@),
                after_challenges(log1, "zerocheck_r"@, num_vars as nat),
            );
            &&& final(transcript)@ == spec_log
            &&& res is Ok <==> spec_res is Ok
            &&& res matches Ok(out) ==> {
                &&& spec_res == Ok::<(Seq<int>, int), SumcheckError>(
                    (vals(out.challenges@), out.final_claim.v()),
                )
                &&& out.eq_eval.v() == crate::eq::eq_value(r, vals(out.challenges@))
                &&& out.alpha.v() == alpha
                &&& vals(out.points.bot@) == with_last(vals(out.challenges@), 0)
                &&& vals(out.points.top@) == with_last(vals(out.challenges@), 1)
                &&& vals(out.points.left@) == with_first(vals(out.challenges@), 0)
                &&& vals(out.points.right@) == with_first(vals(out.challenges@), 1)
                &&& vals(out.points.root@) == root_point(num_vars as nat)
                &&& out.challenges@.len() == num_vars
                &&& out.points.bot@.len() == num_vars + 1 && out.points.top@.len() == num_vars + 1
                &&& out.points.left@.len() == num_vars + 1 && out.points.right@.len() == num_vars + 1
                &&& out.points.root@.len() == num_vars + 1
            }
            &&& res matches Err(e) ==> spec_res == Err::<(Seq<int>, int), SumcheckError>(e)
        }),
{
    let alpha = transcript.challenge("prodcheck_alpha");
    match zerocheck::verify(num_vars, 2, proof, transcript) {
        Ok(out) => {
            proof {
                assert(out.challenges@.len() == num_vars) by {
                    crate::sumcheck::lemma_verify_challenges_len(
                        0,
                        polys_values(proof.round_polys@),
                        3,
                        0,
                        after_challenges(
                            after_challenge(old(transcript)@, "prodcheck_alpha"@),
                            "zerocheck_r"@,
                            num_vars as nat,
                        ),
                        Seq::empty(),
                    );
                }
            }
            let pts = points(out.challenges.as_slice());
            Ok(
                ProdcheckOutput {
                    points: pts,
                    challenges: out.challenges,
                    eq_eval: out.eq_eval,
                    final_claim: out.final_claim,
                    alpha,
                },
            )
        },
        Err(e) => Err(e),
    }
}

/// Node `j` of level `l` of the tree over `2^mu` leaves, stored at slot
/// `2N - 2^(mu + 1 - l) + j`, is the product of the `2^l` leaves below it.
proof fn lemma_tree_level(leaves: Seq<int>, mu: nat, l: nat, j: nat)
    requires
        leaves.len() == pow2(mu),
        all_canonical(leaves),
        l <= mu,
        j < pow2((mu - l) as nat),
    ensures
        2 * pow2(mu) >= pow2((mu + 1 - l) as nat),
        tree_node(leaves, (2 * pow2(mu) - pow2((mu + 1 - l) as nat) + j) as nat) == crate::sums::fprod(
            leaves.subrange((j * pow2(l)) as int, ((j + 1) * pow2(l)) as int),
        ),
    decreases l,
{
    let n = pow2(mu);
    let pl = pow2((mu - l) as nat);
    let ql = pow2(l);
    lemma_pow2_adds((mu - l) as nat, l);
    assert(n == pl * ql);
    lemma_pow2_unfold((mu + 1 - l) as nat);
    assert(pow2((mu + 1 - l) as nat) == 2 * pl);
    lemma_pow2_pos(l);
    lemma_pow2_pos((mu - l) as nat);
    assert(pl <= n) by (nonlinear_arith)
        requires
            n == pl * ql,
            ql >= 1,
    ;
    if l == 0 {
        lemma2_to64();
        assert(ql == 1);
        assert(pl == n);
        let one = leaves.subrange(j as int, (j + 1) as int);
        assert(one.drop_last() =~= Seq::<int>::empty());
        assert(one.last() == leaves[j as int]);
        crate::field::lemma_identities(leaves[j as int]);
        assert(crate::sums::fprod(one.drop_last()) == 1);
        assert(crate::sums::fprod(one) == leaves[j as int]);
        assert(j * ql == j && (j + 1) * ql == j + 1) by {
            vstd::arithmetic::mul::lemma_mul_basics(j as int);
            vstd::arithmetic::mul::lemma_mul_basics((j + 1) as int);
        }
        assert(pow2((mu + 1 - l) as nat) == 2 * n);
        assert((2 * n - pow2((mu + 1 - l) as nat) + j) as nat == j);
        assert(j < leaves.len());
        assert(tree_node(leaves, j) == leaves[j as int]);
    } else {
        let l1 = (l - 1) as nat;
        let q1 = pow2(l1);
        lemma_pow2_unfold(l);
        assert(ql == 2 * q1);
        assert(pow2((mu - l1) as nat) == 2 * pl) by {
            lemma_pow2_unfold((mu - l1) as nat);
            assert((mu - l1 - 1) as nat == (mu - l) as nat);
        }
        assert(ql >= 2);
        assert(2 * pl <= n) by (nonlinear_arith)
            requires
                n == pl * ql,
                ql >= 2,
        ;
        lemma_tree_level(leaves, mu, l1, 2 * j);
        lemma_tree_level(leaves, mu, l1, 2 * j + 1);
        assert(pow2((mu + 1 - l1) as nat) == 4 * pl) by {
            lemma_pow2_unfold((mu + 1 - l1) as nat);
            assert((mu + 1 - l1 - 1) as nat == (mu + 1 - l) as nat);
        }
        let s = (2 * n - 2 * pl + j) as nat;
        let c = (2 * (s - n)) as nat;
        assert(s >= n);
        assert(c == 2 * n - 4 * pl + 2 * j);
        assert(j + 1 <= pl);
        assert(s + 1 < 2 * n);
        let a = leaves.subrange(((2 * j) * q1) as int, ((2 * j + 1) * q1) as int);
        let b = leaves.subrange(((2 * j + 1) * q1) as int, ((2 * j + 2) * q1) as int);
        assert((2 * j) * q1 == j * ql) by (nonlinear_arith)
            requires
                ql == 2 * q1,
        ;
        assert((2 * j + 2) * q1 == (j + 1) * ql) by (nonlinear_arith)
            requires
                ql == 2 * q1,
        ;
        assert((2 * j + 1) * q1 == (2 * j) * q1 + q1) by (nonlinear_arith);
        assert((j + 1) * ql <= pl * ql) by (nonlinear_arith)
            requires
                j + 1 <= pl,
        ;
        let lo = (j * ql) as int;
        let mid = ((2 * j + 1) * q1) as int;
        let hi = ((j + 1) * ql) as int;
        assert(lo + q1 == mid);
        assert((2 * j + 1) * q1 + q1 == (2 * j + 2) * q1) by (nonlinear_arith);
        assert(mid + q1 == hi);
        assert(0 <= lo <= mid <= hi <= leaves.len());
        assert(a =~= leaves.subrange(lo, mid));
        assert(b =~= leaves.subrange(mid, hi));
        assert(a + b =~= leaves.subrange(lo, hi));
        crate::sums::lemma_fprod_append(a, b);
        assert(tree_node(leaves, s) == fmul(tree_node(leaves, c), tree_node(leaves, c + 1)));
        assert((2 * n - pow2((mu + 1 - l1) as nat) + 2 * j) as nat == c);
        assert((2 * n - pow2((mu + 1 - l1) as nat) + (2 * j + 1)) as nat == c + 1);
        assert(tree_node(leaves, c) == crate::sums::fprod(a));
        assert(tree_node(leaves, c + 1) == crate::sums::fprod(b));
        assert((2 * n - pow2((mu + 1 - l) as nat) + j) as nat == s);
    }
}

/// The product tree's root, slot `2N - 2`, holds the grand product of the
/// leaves, and the spare slot `2N - 1` holds zero.
pub proof fn lemma_tree_root(leaves: Seq<int>, mu: nat)
    requires
        leaves.len() == pow2(mu),
        all_canonical(leaves),
    ensures
        tree_table(leaves).len() == 2 * pow2(mu),
        tree_table(leaves)[2 * pow2(mu) - 2] == crate::sums::fprod(leaves),
        tree_table(leaves)[2 * pow2(mu) - 1] == 0,
{
    lemma2_to64();
    lemma_tree_level(leaves, mu, mu, 0);
    lemma_pow2_pos(mu);
    assert((mu + 1 - mu) as nat == 1);
    assert((mu - mu) as nat == 0);
    assert(0 * pow2(mu) == 0);
    vstd::arithmetic::mul::lemma_mul_basics(pow2(mu) as int);
    assert(leaves.subrange(0, pow2(mu) as int) =~= leaves);
    assert((2 * pow2(mu) - pow2(1) + 0) as nat == 2 * pow2(mu) - 2);
}

/// Fixing the first variable to a bit picks every other slot.
proof fn lemma_first_fixed_eval(v: Seq<int>, rho: Seq<int>, b: bool)
    requires
        v.len() == 2 * pow2(rho.len()),
        all_canonical(v),
    ensures
        mle_eval(v, with_first(rho, if b { 1int } else { 0int })) == mle_eval(
            first_fixed(v, b),
            rho,
        ),
{
    let bi: int = if b { 1 } else { 0 };
    let z = with_first(rho, bi);
    assert(z.drop_first() =~= rho);
    assert(z[0] == bi);
    let f = crate::mle::fold_first(v, bi);
    assert forall|y: int| 0 <= y < f.len() implies #[trigger] f[y] == first_fixed(v, b)[y] by {
        crate::field::lemma_identities(v[2 * y]);
        crate::field::lemma_identities(v[2 * y + 1]);
        crate::field::lemma_canonical_mod(1);
        crate::field::lemma_canonical_mod(0);
        assert(fsub(1, 0) == 1);
        assert(fsub(1, 1) == 0);
    }
    assert(f =~= first_fixed(v, b));
}

/// Fixing the last variable to a bit picks a contiguous half.
proof fn lemma_last_fixed_eval(v: Seq<int>, rho: Seq<int>, b: bool)
    requires
        v.len() == 2 * pow2(rho.len()),
        all_canonical(v),
        all_canonical(rho),
    ensures
        mle_eval(v, with_last(rho, if b { 1int } else { 0int })) == mle_eval(
            last_fixed(v, b),
            rho,
        ),
{
    let bi: int = if b { 1 } else { 0 };
    let n = pow2(rho.len());
    let z = with_last(rho, bi);
    let half = last_fixed(v, b);
    let t = crate::eq::eq_table(z);
    let rt = crate::eq::eq_table(rho);
    let bt = crate::eq::eq_table(seq![bi]);
    assert(z =~= rho + seq![bi]);
    lemma_pow2_unfold(z.len());
    crate::field::lemma_canonical_mod(0);
    crate::field::lemma_canonical_mod(1);
    assert(all_canonical(z)) by {
        assert forall|i: int| 0 <= i < z.len() implies 0 <= #[trigger] z[i] < crate::field::modulus() by {
            if i < rho.len() {
                assert(z[i] == rho[i]);
            }
        }
    }
    crate::mle::lemma_mle_eval_sum(v, z);
    crate::eq::lemma_eq_table_one(bi);
    assert(all_canonical(half)) by {
        assert forall|i: int| 0 <= i < half.len() implies 0 <= #[trigger] half[i] < crate::field::modulus() by {
            if b {
                assert(half[i] == v[n + i]);
            } else {
                assert(half[i] == v[i]);
            }
        }
    }
    crate::mle::lemma_mle_eval_sum(half, rho);
    let g = |k: int| fmul(v[k], t[k]);
    crate::sums::lemma_fsum_blocks(g, 2, n);
    assert(Seq::new(2 * n, g) =~= Seq::new(v.len(), |k: int| fmul(v[k], t[k])));
    let row = |y: int| crate::sums::fsum(Seq::new(n, |c: int| g(y * n + c)));
    let target = crate::sums::inner(half, rt);
    // The row of the fixed bit is the target, the other row vanishes.
    assert forall|y: int| 0 <= y < 2 implies #[trigger] row(y) == (if y == bi { target } else { 0 }) by {
        let r = Seq::new(n, |c: int| g(y * n + c));
        assert forall|c: int| 0 <= c < n implies #[trigger] r[c] == (if y == bi {
            fmul(half[c], rt[c])
        } else {
            0
        }) by {
            crate::eq::lemma_eq_table_concat(rho, seq![bi], c as nat, y as nat);
            vstd::arithmetic::mul::lemma_mul_is_commutative(n as int, y);
            crate::eq::lemma_eq_value_canonical(crate::eq::bool_point(c as nat, rho.len()), rho);
            crate::field::lemma_identities(rt[c]);
            crate::field::lemma_identities(v[y * n + c]);
            if y == 1 {
                assert(y * n + c == n + c);
            } else {
                assert(y * n + c == c);
            }
        }
        if y == bi {
            assert(r =~= Seq::new(half.len(), |c: int| fmul(half[c], rt[c])));
        } else {
            crate::sums::lemma_fsum_zeros(r);
        }
    }
    let rows = Seq::new(2, |y: int| row(y));
    assert(rows =~= Seq::new(2, |y: int| crate::sums::fsum(Seq::new(n, |c: int| g(y * n + c)))));
    crate::sums::lemma_fsum_canonical(Seq::new(half.len(), |c: int| fmul(half[c], rt[c])));
    assert(0 <= rows[0] < crate::field::modulus());
    crate::sums::lemma_fsum_pair(rows);
    crate::field::lemma_identities(target);
    assert(crate::sums::fsum(rows) == target);
    assert(mle_eval(v, z) == crate::sums::fsum(rows));
    assert(mle_eval(half, rho) == target);
}

/// The root point `(0, 1, ..., 1)` is the boolean point of slot `2N - 2`.
proof fn lemma_root_point_bits(n: nat)
    ensures
        root_point(n) =~= crate::eq::bool_point((2 * pow2(n) - 2) as nat, n + 1),
{
    let k = (2 * pow2(n) - 2) as nat;
    lemma_pow2_pos(n);
    assert forall|i: int| 0 <= i < n + 1 implies root_point(n)[i] == crate::eq::bool_point(
        k,
        n + 1,
    )[i] by {
        lemma2_to64();
        if i == 0 {
            assert(k == 2 * (pow2(n) - 1));
            vstd::arithmetic::div_mod::lemma_mod_multiples_basic((pow2(n) - 1) as int, 2);
        } else {
            let d = pow2(i as nat);
            let e = pow2((n + 1 - i) as nat);
            lemma_pow2_adds(i as nat, (n + 1 - i) as nat);
            lemma_pow2_pos((n + 1 - i) as nat);
            lemma_pow2_pos(i as nat);
            lemma_pow2_unfold(i as nat);
            let h = pow2((i - 1) as nat);
            assert(d == 2 * h);
            // k = d * (e - 1) + (d - 2), with 0 <= d - 2 < d
            lemma_pow2_unfold(n + 1);
            assert(i + (n + 1 - i) == n + 1);
            assert(d * e == 2 * pow2(n));
            assert(k == d * (e - 1) + (d - 2)) by (nonlinear_arith)
                requires
                    k == d * e - 2,
            ;
            vstd::arithmetic::div_mod::lemma_div_multiples_vanish_fancy((e - 1) as int, (d - 2) as int, d as int);
            lemma_pow2_unfold((n + 1 - i) as nat);
            let e1 = pow2((n - i) as nat);
            assert(e == 2 * e1);
            assert(e1 >= 1) by {
                lemma_pow2_pos((n - i) as nat);
            }
            vstd::arithmetic::div_mod::lemma_mod_multiples_vanish((e1 - 1) as int, 1, 2);
            assert(e - 1 == 2 * (e1 - 1) + 1);
        }
    }
}

/// The points the product check hands to the scheme pick out exactly the
/// partial evaluations its factors were built from: `(rho, b)` the
/// contiguous halves, `(b, rho)` the even and odd slots, and the root point
/// the root slot `2N - 2`.
pub proof fn lemma_points_partial_evals(v: Seq<int>, rho: Seq<int>)
    requires
        v.len() == 2 * pow2(rho.len()),
        all_canonical(v),
        all_canonical(rho),
    ensures
        mle_eval(v, with_last(rho, 0)) == mle_eval(last_fixed(v, false), rho),
        mle_eval(v, with_last(rho, 1)) == mle_eval(last_fixed(v, true), rho),
        mle_eval(v, with_first(rho, 0)) == mle_eval(first_fixed(v, false), rho),
        mle_eval(v, with_first(rho, 1)) == mle_eval(first_fixed(v, true), rho),
        mle_eval(v, root_point(rho.len())) == v[2 * pow2(rho.len()) - 2],
{
    lemma_last_fixed_eval(v, rho, false);
    lemma_last_fixed_eval(v, rho, true);
    lemma_first_fixed_eval(v, rho, false);
    lemma_first_fixed_eval(v, rho, true);
    lemma_root_point_bits(rho.len());
    lemma_pow2_unfold(rho.len() + 1);
    lemma_pow2_pos(rho.len());
    crate::mle::lemma_mle_eval_bool_point(v, (2 * pow2(rho.len()) - 2) as nat, rho.len() + 1);
}

/// The product check's four terms at one point, summed in order, are
/// `(top - left right) + alpha (bot q - p)`.
pub proof fn lemma_check_terms_value(
    top: int,
    left: int,
    right: int,
    bot: int,
    q: int,
    p: int,
    alpha: int,
)
    ensures
        fadd(
            fadd(
                fadd(fadd(0, fmul(1, top)), fmul(fmul(fneg(1), left), right)),
                fmul(fmul(alpha, bot), q),
            ),
            fmul(fneg(alpha), p),
        ) == fadd(fsub(top, fmul(left, right)), fmul(alpha, fsub(fmul(bot, q), p))),
{
    let m = crate::field::modulus();
    // Left side, over the integers.
    assert(fadd(0, fmul(1, top)) == top % m) by {
        crate::field::lemma_reduce_operands(0, 1 * top);
    }
    assert(fmul(fmul(fneg(1), left), right) == (-(left * right)) % m) by {
        crate::field::lemma_reduce_operands(-1, left);
        crate::field::lemma_reduce_operands(-1 * left, right);
        assert((-1 * left) * right == -(left * right)) by (nonlinear_arith);
    }
    assert(fmul(fmul(alpha, bot), q) == (alpha * (bot * q)) % m) by {
        crate::field::lemma_reduce_operands(alpha * bot, q);
        assert((alpha * bot) * q == alpha * (bot * q)) by (nonlinear_arith);
    }
    assert(fmul(fneg(alpha), p) == (-(alpha * p)) % m) by {
        crate::field::lemma_reduce_operands(-alpha, p);
        assert((-alpha) * p == -(alpha * p)) by (nonlinear_arith);
    }
    let s1 = top - left * right;
    let s2 = s1 + alpha * (bot * q);
    let s3 = s2 - alpha * p;
    assert(fadd(top % m, (-(left * right)) % m) == s1 % m) by {
        crate::field::lemma_reduce_operands(top, (-(left * right)) % m);
        crate::field::lemma_reduce_operands(top, -(left * right));
    }
    assert(fadd(s1 % m, (alpha * (bot * q)) % m) == s2 % m) by {
        crate::field::lemma_reduce_operands(s1, (alpha * (bot * q)) % m);
        crate::field::lemma_reduce_operands(s1, alpha * (bot * q));
    }
    assert(fadd(s2 % m, (-(alpha * p)) % m) == s3 % m) by {
        crate::field::lemma_reduce_operands(s2, (-(alpha * p)) % m);
        crate::field::lemma_reduce_operands(s2, -(alpha * p));
    }
    // Right side, over the integers.
    assert(fsub(top, fmul(left, right)) == s1 % m) by {
        crate::field::lemma_reduce_operands(top, left * right);
    }
    assert(fmul(alpha, fsub(fmul(bot, q), p)) == (alpha * (bot * q - p)) % m) by {
        crate::field::lemma_reduce_operands(bot * q, p);
        crate::field::lemma_reduce_operands(alpha, bot * q - p);
    }
    assert(alpha * (bot * q - p) == alpha * (bot * q) - alpha * p) by (nonlinear_arith);
    assert(fadd(s1 % m, (alpha * (bot * q - p)) % m) == s3 % m) by {
        crate::field::lemma_reduce_operands(s1, (alpha * (bot * q - p)) % m);
        crate::field::lemma_reduce_operands(s1, alpha * (bot * q - p));
    }
}

/// The product check's expression at entry `x` of six tables `top`,
/// `left`, `right`, `bot`, `q`, `p`.
pub proof fn lemma_check_point(tables: Seq<Seq<int>>, alpha: int, x: int)
    ensures
        crate::completeness::point_terms(tables, check_terms(alpha), x, 4, 0) == fadd(
            fsub(tables[0][x], fmul(tables[1][x], tables[2][x])),
            fmul(alpha, fsub(fmul(tables[3][x], tables[4][x]), tables[5][x])),
        ),
{
    let t = check_terms(alpha);
    reveal_with_fuel(crate::completeness::point_product, 3);
    reveal_with_fuel(crate::completeness::point_terms, 5);
    assert(t[0].1.len() == 1 && t[0].1[0] == 0);
    assert(t[1].1.len() == 2 && t[1].1[0] == 1 && t[1].1[1] == 2);
    assert(t[2].1.len() == 2 && t[2].1[0] == 3 && t[2].1[1] == 4);
    assert(t[3].1.len() == 1 && t[3].1[0] == 5);
    lemma_check_terms_value(
        tables[0][x],
        tables[1][x],
        tables[2][x],
        tables[3][x],
        tables[4][x],
        tables[5][x],
        alpha,
    );
}

/// On the honest product tree, the product check's expression vanishes on
/// the cube: each internal slot is the product of its children (the spare
/// slot and its sibling product are zero), and each leaf times its
/// denominator is its numerator.
pub proof fn lemma_check_vanishes(p: Seq<int>, q: Seq<int>, alpha: int, mu: nat)
    requires
        p.len() == pow2(mu),
        q.len() == pow2(mu),
        all_canonical(p),
        all_canonical(q),
        forall|y: int| 0 <= y < q.len() ==> #[trigger] fmul(q[y], finv(q[y])) == 1,
    ensures
        crate::completeness::vanishes_on(
            check_tables(tree_table(tree_leaves(p, q)), p, q),
            check_terms(alpha),
            pow2(mu),
        ),
{
    let n = pow2(mu);
    let leaves = tree_leaves(p, q);
    let v = tree_table(leaves);
    let tables = check_tables(v, p, q);
    lemma_pow2_pos(mu);
    assert forall|x: int| 0 <= x < n implies #[trigger] crate::completeness::point_terms(
        tables,
        check_terms(alpha),
        x,
        check_terms(alpha).len(),
        0,
    ) == 0 by {
        lemma_check_point(tables, alpha, x);
        assert(tables[0][x] == v[n + x]);
        assert(tables[1][x] == v[2 * x]);
        assert(tables[2][x] == v[2 * x + 1]);
        assert(tables[3][x] == v[x]);
        assert(v[x] == leaves[x]);
        let top = tree_node(leaves, (n + x) as nat);
        let l = tree_node(leaves, (2 * x) as nat);
        let r = tree_node(leaves, (2 * x + 1) as nat);
        if x + 1 < n {
            assert(top == fmul(l, r));
            crate::field::lemma_results_canonical(l, r);
            crate::field::lemma_identities(top);
        } else {
            assert(top == 0);
            assert(r == 0);
            vstd::arithmetic::mul::lemma_mul_basics(l);
            crate::field::lemma_canonical_mod(0);
            crate::field::lemma_identities(0);
        }
        // The leaf times its denominator.
        let iq = finv(q[x]);
        crate::field::lemma_associative(iq, p[x], q[x]);
        crate::field::lemma_commutative(p[x], q[x]);
        crate::field::lemma_associative(iq, q[x], p[x]);
        crate::field::lemma_commutative(iq, q[x]);
        crate::field::lemma_identities(p[x]);
        crate::field::lemma_identities(0);
        crate::field::lemma_canonical_mod(0);
        assert(fmul(fmul(iq, p[x]), q[x]) == p[x]);
        assert(fsub(p[x], p[x]) == 0);
        vstd::arithmetic::mul::lemma_mul_basics(alpha);
    }
}

/// Every slot of a product tree over canonical leaves is canonical.
pub proof fn lemma_tree_canonical(leaves: Seq<int>)
    requires
        all_canonical(leaves),
    ensures
        all_canonical(tree_table(leaves)),
{
    let t = tree_table(leaves);
    let n = leaves.len();
    assert forall|i: int| 0 <= i < t.len() implies 0 <= #[trigger] t[i] < crate::field::modulus() by {
        if i < n {
        } else if i + 1 < 2 * n {
            let c = (2 * (i - n)) as nat;
            crate::field::lemma_results_canonical(tree_node(leaves, c), tree_node(leaves, c + 1));
        } else {
            assert(t[i] == 0);
        }
    }
}

/// Completeness of the product check. With `v` the product tree of
/// `p / q` (every denominator invertible), the verifier, fed on the same
/// transcript the round polynomials that `prove` sends, accepts: it draws
/// the prover's challenges `rho`, leaves the transcript as the prover left
/// it, and its final claim is what `final_check` compares against, built
/// from `eq(r, rho)`, `alpha` and the values of `v`, `p`, `q` at the
/// points where they are opened.
pub proof fn lemma_prodcheck_complete(p: Seq<int>, q: Seq<int>, nv: nat, log: Seq<TranscriptOp>)
    requires
        p.len() == pow2(nv),
        q.len() == pow2(nv),
        all_canonical(p),
        all_canonical(q),
        forall|y: int| 0 <= y < q.len() ==> #[trigger] fmul(q[y], finv(q[y])) == 1,
    ensures
        ({
            let v = tree_table(tree_leaves(p, q));
            let alpha = challenge_value(log, "prodcheck_alpha"@);
            let log1 = after_challenge(log, "prodcheck_alpha"@);
            let r = challenge_values(log1, "zerocheck_r"@, nv);
            let log2 = after_challenges(log1, "zerocheck_r"@, nv);
            let (polys, rho, log3) = prove_rounds(
                check_tables(v, p, q).push(crate::eq::eq_table(r)),
                with_factor(check_terms(alpha), 6),
                3,
                nv,
                log2,
            );
            verify_spec(0, nv, 3, polys, log2) == (Ok::<(Seq<int>, int), SumcheckError>(
                (
                    rho,
                    fmul(
                        crate::eq::eq_value(r, rho),
                        fadd(
                            fsub(
                                mle_eval(v, with_last(rho, 1)),
                                fmul(mle_eval(v, with_first(rho, 0)), mle_eval(v, with_first(rho, 1))),
                            ),
                            fmul(alpha, fsub(fmul(mle_eval(v, with_last(rho, 0)), mle_eval(q, rho)), mle_eval(p, rho))),
                        ),
                    ),
                ),
            ), log3)
        }),
{
    let leaves = tree_leaves(p, q);
    let v = tree_table(leaves);
    let tables = check_tables(v, p, q);
    let alpha = challenge_value(log, "prodcheck_alpha"@);
    let log1 = after_challenge(log, "prodcheck_alpha"@);
    let r = challenge_values(log1, "zerocheck_r"@, nv);
    let log2 = after_challenges(log1, "zerocheck_r"@, nv);
    let terms = check_terms(alpha);
    let n = pow2(nv);
    crate::transcript::lemma_challenge_values_canonical(log, "prodcheck_alpha"@, 1);
    assert(crate::transcript::challenge_values(log, "prodcheck_alpha"@, 1)[0] == alpha);
    assert(all_canonical(leaves)) by {
        assert forall|i: int| 0 <= i < leaves.len() implies 0 <= #[trigger] leaves[i] < crate::field::modulus() by {
            crate::field::lemma_results_canonical(finv(q[i]), p[i]);
        }
    }
    lemma_tree_canonical(leaves);
    assert(v.len() == 2 * n);
    assert forall|i: int, j: int| 0 <= i < 6 && 0 <= j < tables[i].len() implies 0 <= #[trigger] tables[i][j]
        < crate::field::modulus() by {
        if i == 1 || i == 2 {
            assert(tables[i][j] == v[2 * j + if i == 2 { 1int } else { 0int }]);
        } else if i == 0 {
            assert(tables[i][j] == v[n + j]);
        } else if i == 3 {
            assert(tables[i][j] == v[j]);
        }
    }
    assert forall|i: int| 0 <= i < 6 implies #[trigger] tables[i].len() == n by {}
    assert(crate::sumcheck::terms_in_range(terms, 6)) by {
        assert forall|t: int, k: int| 0 <= t < terms.len() && 0 <= k < terms[t].1.len() implies #[trigger] terms[t].1[k]
            < 6 by {}
    }
    crate::field::lemma_results_canonical(1, alpha);
    crate::field::lemma_results_canonical(alpha, 1);
    crate::field::lemma_canonical_mod(1);
    assert(crate::completeness::coeffs_canonical(terms));
    lemma_check_vanishes(p, q, alpha, nv);
    reveal_with_fuel(crate::sumcheck::max_factors, 5);
    assert(crate::sumcheck::max_factors(terms) == 2);
    crate::completeness::lemma_nodes_have_inverses(4);
    crate::completeness::lemma_zerocheck_complete(tables, terms, 3, nv, log1);
    // The final claim through the openings.
    let (polys, rho, log3) = prove_rounds(tables.push(crate::eq::eq_table(r)), with_factor(terms, 6), 3, nv, log2);
    crate::sumcheck::lemma_prove_rounds_len(tables.push(crate::eq::eq_table(r)), with_factor(terms, 6), 3, nv, log2);
    crate::completeness::lemma_prove_rounds_canonical(tables.push(crate::eq::eq_table(r)), with_factor(terms, 6), 3, nv, log2);
    lemma_points_partial_evals(v, rho);
    let m = tables.map_values(|t: Seq<int>| seq![mle_eval(t, rho)]);
    lemma_check_point(m, alpha, 0);
    crate::field::lemma_commutative(
        crate::eq::eq_value(r, rho),
        crate::completeness::expr_at(tables, terms, rho),
    );
}

} // verus!
