//! BiPerm: the linear-time permutation argument. Proves `g(sigma(x)) = f(x)`
//! for all `x in B_mu` through the identity
//! `sum_x f(x) * 1_sigma(x, alpha) = g(alpha)`, the indicator of `sigma`
//! factored into the indicators of its two halves, which turns the check
//! into one sumcheck of degree three. `index` commits once per `sigma` to the
//! two sparse half indicators over `mu + mu/2` variables.

use crate::eq::{eq_eval_table, eq_table};
use crate::error::CoreError;
use crate::eq::{bool_point, lemma_eq_table_concat, lemma_eq_value_canonical};
use crate::field::{
    all_canonical, fmul, lemma_canonical_mod, lemma_identities, lemma_results_canonical, modulus, vals,
    Fe,
};
use crate::mle::lemma_mle_eval_sum;
use crate::permutation::indicator_index;
use crate::sums::{fsum, lemma_fsum_blocks, lemma_fsum_exchange, lemma_fsum_one_nonzero};
use vstd::arithmetic::power2::{lemma_pow2_adds, lemma_pow2_pos, pow2};
use crate::mle::{mle_eval, DenseMle, SparseMle};
use crate::pcs::{MleRef, PolynomialCommitment};
use crate::permutation::{digit, half_indicator_table, Permutation};
use crate::sumcheck::{
    self, factor_tables, lemma_prove_rounds_len, lemma_verify_challenges_len,
    polys_values, prove_rounds, verify_spec, SumcheckError, SumcheckProof,
};
use crate::transcript::{
    after_challenges, after_message, challenge_values, CanonicalBytes, Transcript, TranscriptOp,
};
use vstd::prelude::*;

verus! {

/// The proof: commitments to `f` and `g`, the sumcheck messages, and the
/// openings of `g` at `alpha`, of `f` at the sumcheck point `r`, and of the
/// two indicators at `(r, alpha_L)` and `(r, alpha_R)`.
pub struct BiPermProof<P: PolynomialCommitment> {
    pub f_commit: P::Commitment,
    pub g_commit: P::Commitment,
    pub sumcheck: SumcheckProof,
    pub g_at_alpha: Fe,
    pub g_opening: P::Proof,
    pub f_at_r: Fe,
    pub f_opening: P::Proof,
    pub ind_l_at_r: Fe,
    pub ind_l_opening: P::Proof,
    pub ind_r_at_r: Fe,
    pub ind_r_opening: P::Proof,
}

/// The prover's half of the index for a fixed `sigma`: the two sparse half
/// indicators and their commitments.
pub struct BiPermProverIndex<P: PolynomialCommitment> {
    pub perm: Permutation,
    pub ind_l: SparseMle,
    pub ind_r: SparseMle,
    pub ind_l_commit: P::Commitment,
    pub ind_r_commit: P::Commitment,
}

/// The verifier's half of the index: `mu` and the indicator commitments.
pub struct BiPermVerifierIndex<P: PolynomialCommitment> {
    pub num_vars: usize,
    pub ind_l_commit: P::Commitment,
    pub ind_r_commit: P::Commitment,
}

/// Why indexing, proving or verifying failed.
#[derive(Debug, PartialEq, Eq)]
pub enum BiPermError<E> {
    Sumcheck(SumcheckError),
    Core(CoreError),
    /// A commitment-scheme operation failed.
    Pcs(E),
    /// An opening did not verify.
    PcsVerifyFailed,
    /// `f(r) * ind_L(r) * ind_R(r)` did not equal the sumcheck's final claim.
    FinalCheckFailed,
}

impl<E> From<SumcheckError> for BiPermError<E> {
    fn from(e: SumcheckError) -> (r: Self)
        ensures
            r == BiPermError::<E>::Sumcheck(e),
    {
        BiPermError::Sumcheck(e)
    }
}

impl<E> vstd::std_specs::convert::FromSpecImpl<SumcheckError> for BiPermError<E> {
    open spec fn obeys_from_spec() -> bool {
        true
    }

    open spec fn from_spec(e: SumcheckError) -> Self {
        BiPermError::Sumcheck(e)
    }
}

impl<E> From<CoreError> for BiPermError<E> {
    fn from(e: CoreError) -> (r: Self)
        ensures
            r == BiPermError::<E>::Core(e),
    {
        BiPermError::Core(e)
    }
}

impl<E> vstd::std_specs::convert::FromSpecImpl<CoreError> for BiPermError<E> {
    open spec fn obeys_from_spec() -> bool {
        true
    }

    open spec fn from_spec(e: CoreError) -> Self {
        BiPermError::Core(e)
    }
}

/// `[eq(sigma_half(x), alpha_half) : x in B_mu]`, `sigma_half` the low
/// (`use_left`) or high half of `sigma`.
pub open spec fn indicator_values(p: Permutation, alpha_half: Seq<int>, use_left: bool) -> Seq<int> {
    Seq::new(
        p@.len(),
        |x: int|
            eq_table(alpha_half)[digit(
                p@[x] as nat,
                p.spec_num_vars() / 2,
                if use_left { 0 } else { 1 },
            ) as int],
    )
}

/// A copy of `v[lo..hi]`.
fn copy_range(v: &[Fe], lo: usize, hi: usize) -> (c: Vec<Fe>)
    requires
        lo <= hi <= v@.len(),
    ensures
        c@ == v@.subrange(lo as int, hi as int),
{
    let mut c: Vec<Fe> = Vec::new();
    let mut i: usize = lo;
    while i < hi
        invariant
            lo <= i <= hi,
            hi <= v@.len(),
            c@ == v@.subrange(lo as int, i as int),
        decreases hi - i,
    {
        c.push(v[i]);
        i = i + 1;
        proof {
            assert(c@ =~= v@.subrange(lo as int, i as int));
        }
    }
    c
}

/// `a` followed by `b[lo..hi]`.
fn concat_range(a: &[Fe], b: &[Fe], lo: usize, hi: usize) -> (c: Vec<Fe>)
    requires
        lo <= hi <= b@.len(),
    ensures
        c@ == a@ + b@.subrange(lo as int, hi as int),
{
    let mut c = copy_range(a, 0, a.len());
    let mut i: usize = lo;
    proof {
        assert(a@.subrange(0, a@.len() as int) =~= a@);
    }
    while i < hi
        invariant
            lo <= i <= hi,
            hi <= b@.len(),
            c@ == a@ + b@.subrange(lo as int, i as int),
        decreases hi - i,
    {
        c.push(b[i]);
        i = i + 1;
        proof {
            assert(c@ =~= a@ + b@.subrange(lo as int, i as int));
        }
    }
    c
}

/// `[eq(sigma_half(x), alpha_half) : x in B_mu]`, read off the table of
/// `eq(., alpha_half)`. Fails when `mu` is odd.
fn indicator_table(perm: &Permutation, alpha_half: &[Fe], use_left_half: bool) -> (r: Result<
    Vec<Fe>,
    CoreError,
>)
    requires
        alpha_half@.len() < usize::BITS,
        perm.spec_num_vars() % 2 == 0 ==> alpha_half@.len() == perm.spec_num_vars() / 2,
    ensures
        r is Err <==> perm.spec_num_vars() % 2 != 0,
        r matches Err(e) ==> e == (CoreError::OddNumVars {
            num_vars: perm.spec_num_vars() as usize,
        }),
        r matches Ok(t) ==> vals(t@) == indicator_values(*perm, vals(alpha_half@), use_left_half),
        r matches Ok(t) ==> t@.len() == perm@.len(),
{
    let eq_t = eq_eval_table(alpha_half);
    let n = perm.size();
    let mut t: Vec<Fe> = Vec::new();
    let mut x: usize = 0;
    while x < n
        invariant
            n == perm@.len(),
            n == vstd::arithmetic::power2::pow2(perm.spec_num_vars()),
            x > 0 ==> perm.spec_num_vars() % 2 == 0,
            alpha_half@.len() < usize::BITS,
            perm.spec_num_vars() % 2 == 0 ==> alpha_half@.len() == perm.spec_num_vars() / 2,
            eq_t@.len() == vstd::arithmetic::power2::pow2(alpha_half@.len()),
            vals(eq_t@) == eq_table(vals(alpha_half@)),
            x <= n,
            t@.len() == x,
            forall|z: int|
                0 <= z < x ==> #[trigger] t@[z].v() == indicator_values(
                    *perm,
                    vals(alpha_half@),
                    use_left_half,
                )[z],
        decreases n - x,
    {
        let (lo, hi) = match perm.halves(x) {
            Ok(h) => h,
            Err(e) => {
                return Err(e);
            },
        };
        let y = if use_left_half { lo } else { hi };
        proof {
            assert(vals(eq_t@)[y as int] == eq_t@[y as int].v());
        }
        t.push(eq_t[y]);
        x = x + 1;
    }
    proof {
        assert(vals(t@) =~= indicator_values(*perm, vals(alpha_half@), use_left_half));
        vstd::arithmetic::power2::lemma_pow2_pos(perm.spec_num_vars());
    }
    Ok(t)
}

/// `pi` and `vi` are the halves of the index that `index` makes for
/// `perm`.
pub open spec fn index_made<P: PolynomialCommitment>(
    pk: &P::ProverKey,
    perm: Permutation,
    pi: BiPermProverIndex<P>,
    vi: BiPermVerifierIndex<P>,
) -> bool {
    let nv = perm.spec_num_vars();
    &&& pi.perm@ == perm@
    &&& pi.perm.spec_num_vars() == nv
    &&& pi.ind_l.well_formed()
    &&& pi.ind_r.well_formed()
    &&& pi.ind_l.num_vars == nv + nv / 2
    &&& pi.ind_r.num_vars == nv + nv / 2
    &&& pi.ind_l.table() == half_indicator_table(perm, true)
    &&& pi.ind_r.table() == half_indicator_table(perm, false)
    &&& P::commits_to(
        pk,
        half_indicator_table(perm, true),
        nv + nv / 2,
        P::view_of(pi.ind_l_commit),
    )
    &&& P::commits_to(
        pk,
        half_indicator_table(perm, false),
        nv + nv / 2,
        P::view_of(pi.ind_r_commit),
    )
    &&& vi.num_vars == nv
    &&& P::view_of(vi.ind_l_commit) == P::view_of(pi.ind_l_commit)
    &&& P::view_of(vi.ind_r_commit) == P::view_of(pi.ind_r_commit)
    &&& vi.ind_l_commit.canonical_bytes() == pi.ind_l_commit.canonical_bytes()
    &&& vi.ind_r_commit.canonical_bytes() == pi.ind_r_commit.canonical_bytes()
}

/// Preprocess a fixed `sigma`: build and commit the two sparse half
/// indicators over `mu + mu/2` variables. Fails when `mu` is odd, or when
/// the scheme cannot commit to a polynomial of that many variables.
pub fn index<P: PolynomialCommitment>(pk: &P::ProverKey, perm: &Permutation) -> (r: Result<
    (BiPermProverIndex<P>, BiPermVerifierIndex<P>),
    BiPermError<P::Error>,
>)
    requires
        P::prover_key_valid(pk),
        perm.spec_num_vars() % 2 == 0 ==> perm.spec_num_vars() + perm.spec_num_vars() / 2
            < usize::BITS,
    ensures
        ({
            let nv = perm.spec_num_vars();
            &&& nv % 2 != 0 ==> (r matches Err(BiPermError::Core(e)) && e == (CoreError::OddNumVars {
                num_vars: nv as usize,
            }))
            &&& nv % 2 == 0 ==> (r is Ok <==> P::commit_admits(pk, nv + nv / 2))
            &&& nv % 2 == 0 ==> (r matches Err(e) ==> e == BiPermError::<P::Error>::Pcs(
                P::commit_error(pk, nv + nv / 2),
            ))
            &&& r matches Ok((pi, vi)) ==> index_made(pk, *perm, pi, vi)
        }),
{
    let ind_l = match perm.half_indicator(true) {
        Ok(m) => m,
        Err(e) => {
            return Err(BiPermError::Core(e));
        },
    };
    let ind_r = match perm.half_indicator(false) {
        Ok(m) => m,
        Err(e) => {
            return Err(BiPermError::Core(e));
        },
    };
    let ind_l_commit = match P::commit(pk, MleRef::Sparse(&ind_l)) {
        Ok(c) => c,
        Err(e) => {
            return Err(BiPermError::Pcs(e));
        },
    };
    let ind_r_commit = match P::commit(pk, MleRef::Sparse(&ind_r)) {
        Ok(c) => c,
        Err(e) => {
            return Err(BiPermError::Pcs(e));
        },
    };
    let vi = BiPermVerifierIndex {
        num_vars: perm.num_vars(),
        ind_l_commit: P::clone_commitment(&ind_l_commit),
        ind_r_commit: P::clone_commitment(&ind_r_commit),
    };
    let pi = BiPermProverIndex { perm: perm.clone(), ind_l, ind_r, ind_l_commit, ind_r_commit };
    Ok((pi, vi))
}

/// The transcript after the index and instance commitments are absorbed.
pub open spec fn absorb_commitments(
    log: Seq<TranscriptOp>,
    ind_l: Seq<u8>,
    ind_r: Seq<u8>,
    f: Seq<u8>,
    g: Seq<u8>,
) -> Seq<TranscriptOp> {
    after_message(
        after_message(
            after_message(after_message(log, "ind_l_commit"@, ind_l), "ind_r_commit"@, ind_r),
            "f_commit"@,
            f,
        ),
        "g_commit"@,
        g,
    )
}

/// The three factors of the sumcheck: `f`, and the two half-indicator
/// tables at `alpha`.
pub open spec fn sumcheck_tables(f: Seq<int>, perm: Permutation, alpha: Seq<int>) -> Seq<Seq<int>> {
    let half = perm.spec_num_vars() / 2;
    seq![
        f,
        indicator_values(perm, alpha.take(half as int), true),
        indicator_values(perm, alpha.skip(half as int), false),
    ]
}

/// The single term `1 * f * h_L * h_R`.
pub open spec fn product_term() -> Seq<(int, Seq<usize>)> {
    seq![(1int, Seq::new(3, |i: int| i as usize))]
}

/// `proof` is what `prove` makes from `index`, `f` and `g` on the
/// transcript `log`, leaving the transcript `final_log`.
pub open spec fn proof_made<P: PolynomialCommitment>(
    pk: &P::ProverKey,
    index: BiPermProverIndex<P>,
    f: DenseMle,
    g: DenseMle,
    log: Seq<TranscriptOp>,
    proof: BiPermProof<P>,
    final_log: Seq<TranscriptOp>,
) -> bool {
    let nv = index.perm.spec_num_vars();
    let half = nv / 2;
    let log4 = absorb_commitments(
        log,
        index.ind_l_commit.canonical_bytes(),
        index.ind_r_commit.canonical_bytes(),
        proof.f_commit.canonical_bytes(),
        proof.g_commit.canonical_bytes(),
    );
    let alpha = challenge_values(log4, "alpha"@, nv);
    let log5 = P::open_log(pk, g.table(), nv, alpha, after_challenges(log4, "alpha"@, nv));
    let (polys, rr, log6) = prove_rounds(
        sumcheck_tables(f.table(), index.perm, alpha),
        product_term(),
        3,
        nv,
        log5,
    );
    let point_l = rr + alpha.take(half as int);
    let point_r = rr + alpha.skip(half as int);
    let log7 = P::open_log(pk, f.table(), nv, rr, log6);
    let log8 = P::open_log(pk, index.ind_l.table(), nv + half, point_l, log7);
    &&& P::commits_to(pk, f.table(), nv, P::view_of(proof.f_commit))
    &&& P::commits_to(pk, g.table(), nv, P::view_of(proof.g_commit))
    &&& proof.g_at_alpha.v() == mle_eval(g.table(), alpha)
    &&& P::is_honest_proof(pk, g.table(), nv, alpha, proof.g_opening)
    &&& polys_values(proof.sumcheck.round_polys@) == polys
    &&& proof.f_at_r.v() == mle_eval(f.table(), rr)
    &&& P::is_honest_proof(pk, f.table(), nv, rr, proof.f_opening)
    &&& proof.ind_l_at_r.v() == mle_eval(index.ind_l.table(), point_l)
    &&& P::is_honest_proof(pk, index.ind_l.table(), nv + half, point_l, proof.ind_l_opening)
    &&& proof.ind_r_at_r.v() == mle_eval(index.ind_r.table(), point_r)
    &&& P::is_honest_proof(pk, index.ind_r.table(), nv + half, point_r, proof.ind_r_opening)
    &&& final_log == P::open_log(pk, index.ind_r.table(), nv + half, point_r, log8)
}

/// The transcript that `prove` leaves when it fails after committing to
/// `f` and `g` as `cf` and `cg`: the transcript after the opening of `g`
/// when that opening or the indicator tables fail, and after the opening
/// of the left indicator otherwise.
pub open spec fn failure_log<P: PolynomialCommitment>(
    pk: &P::ProverKey,
    index: BiPermProverIndex<P>,
    f: DenseMle,
    g: DenseMle,
    log: Seq<TranscriptOp>,
    cf: P::Commitment,
    cg: P::Commitment,
) -> Seq<TranscriptOp> {
    let nv = index.perm.spec_num_vars();
    let half = nv / 2;
    let log4 = absorb_commitments(
        log,
        index.ind_l_commit.canonical_bytes(),
        index.ind_r_commit.canonical_bytes(),
        cf.canonical_bytes(),
        cg.canonical_bytes(),
    );
    let alpha = challenge_values(log4, "alpha"@, nv);
    let log5 = P::open_log(pk, g.table(), nv, alpha, after_challenges(log4, "alpha"@, nv));
    if !P::open_admits(pk, nv) || nv % 2 != 0 {
        log5
    } else {
        let (polys, rr, log6) = prove_rounds(
            sumcheck_tables(f.table(), index.perm, alpha),
            product_term(),
            3,
            nv,
            log5,
        );
        let log7 = P::open_log(pk, f.table(), nv, rr, log6);
        P::open_log(pk, index.ind_l.table(), nv + half, rr + alpha.take(half as int), log7)
    }
}

/// Prove `g(sigma(x)) = f(x)` for all `x` in `B_mu`: commit to `f` and `g`,
/// absorb the index and instance commitments, squeeze `alpha`, open `g` at
/// `alpha`, run the degree-three sumcheck on `f * h_L * h_R`, then open `f`
/// at the sumcheck point `r` and the two indicators at `(r, alpha_L)` and
/// `(r, alpha_R)`.
pub fn prove<P: PolynomialCommitment>(
    pk: &P::ProverKey,
    index: &BiPermProverIndex<P>,
    f: &DenseMle,
    g: &DenseMle,
    transcript: &mut Transcript,
) -> (r: Result<BiPermProof<P>, BiPermError<P::Error>>)
    requires
        P::prover_key_valid(pk),
        f.well_formed(),
        g.well_formed(),
        f.num_vars == index.perm.spec_num_vars(),
        g.num_vars == index.perm.spec_num_vars(),
        index.ind_l.well_formed(),
        index.ind_r.well_formed(),
        index.ind_l.num_vars == index.perm.spec_num_vars() + index.perm.spec_num_vars() / 2,
        index.ind_r.num_vars == index.perm.spec_num_vars() + index.perm.spec_num_vars() / 2,
        P::commit_admits(pk, index.perm.spec_num_vars()) ==> P::commitment_fits(
            pk,
            index.perm.spec_num_vars(),
        ) && index.ind_l_commit.canonical_bytes().len() <= u32::MAX
            && index.ind_r_commit.canonical_bytes().len() <= u32::MAX,
    ensures
        ({
            let nv = index.perm.spec_num_vars();
            &&& r is Ok <==> P::commit_admits(pk, nv) && P::open_admits(pk, nv) && nv % 2 == 0
                && P::open_admits(pk, nv + nv / 2)
            &&& r matches Err(e) ==> e is Pcs || e is Core
            &&& r matches Err(BiPermError::Core(e)) ==> e == (CoreError::OddNumVars {
                num_vars: nv as usize,
            })
            &&& P::commit_admits(pk, nv) && P::open_admits(pk, nv) && nv % 2 != 0 ==> (r matches Err(
                BiPermError::Core(_),
            ))
            &&& (r matches Err(BiPermError::Pcs(e)) ==> e == (if !P::commit_admits(pk, nv) {
                P::commit_error(pk, nv)
            } else if !P::open_admits(pk, nv) {
                P::open_error(pk, nv, nv)
            } else {
                P::open_error(pk, nv + nv / 2, nv + nv / 2)
            }))
        }),
        r matches Ok(proof) ==> proof_made(pk, *index, *f, *g, old(transcript)@, proof, final(transcript)@),
        r is Err && !P::commit_admits(pk, index.perm.spec_num_vars()) ==> final(transcript)@ == old(
            transcript,
        )@,
        r is Err && P::commit_admits(pk, index.perm.spec_num_vars()) ==> exists|
            cf: P::Commitment,
            cg: P::Commitment,
        |
            #![trigger P::commits_to(pk, f.table(), index.perm.spec_num_vars(), P::view_of(cf)), P::commits_to(pk, g.table(), index.perm.spec_num_vars(), P::view_of(cg))]
            P::commits_to(pk, f.table(), index.perm.spec_num_vars(), P::view_of(cf))
                && P::commits_to(pk, g.table(), index.perm.spec_num_vars(), P::view_of(cg))
                && final(transcript)@ == failure_log(pk, *index, *f, *g, old(transcript)@, cf, cg),
{
    let num_vars = index.perm.num_vars();
    let ghost log0 = transcript@;
    let f_commit = match P::commit(pk, MleRef::Dense(f)) {
        Ok(c) => c,
        Err(e) => {
            return Err(BiPermError::Pcs(e));
        },
    };
    let g_commit = match P::commit(pk, MleRef::Dense(g)) {
        Ok(c) => c,
        Err(e) => {
            return Err(BiPermError::Pcs(e));
        },
    };
    transcript.append("ind_l_commit", &index.ind_l_commit);
    transcript.append("ind_r_commit", &index.ind_r_commit);
    transcript.append("f_commit", &f_commit);
    transcript.append("g_commit", &g_commit);
    let alpha = transcript.challenge_vec("alpha", num_vars);
    let (g_at_alpha, g_opening) = match P::open(pk, MleRef::Dense(g), alpha.as_slice(), transcript) {
        Ok(o) => o,
        Err(e) => {
            proof {
                assert(P::commits_to(pk, f.table(), num_vars as nat, P::view_of(f_commit))
                    && P::commits_to(pk, g.table(), num_vars as nat, P::view_of(g_commit))
                    && transcript@ == failure_log(pk, *index, *f, *g, log0, f_commit, g_commit));
            }
            return Err(BiPermError::Pcs(e));
        },
    };
    let half = num_vars / 2;
    let alpha_l = copy_range(alpha.as_slice(), 0, half);
    let alpha_r = copy_range(alpha.as_slice(), half, num_vars);
    proof {
        assert(vals(alpha_l@) =~= vals(alpha@).take(half as int));
        assert(vals(alpha_r@) =~= vals(alpha@).skip(half as int));
    }
    let h_l_evals = match indicator_table(&index.perm, alpha_l.as_slice(), true) {
        Ok(t) => t,
        Err(e) => {
            proof {
                assert(P::commits_to(pk, f.table(), num_vars as nat, P::view_of(f_commit))
                    && P::commits_to(pk, g.table(), num_vars as nat, P::view_of(g_commit))
                    && transcript@ == failure_log(pk, *index, *f, *g, log0, f_commit, g_commit));
            }
            return Err(BiPermError::Core(e));
        },
    };
    let h_r_evals = match indicator_table(&index.perm, alpha_r.as_slice(), false) {
        Ok(t) => t,
        Err(e) => {
            proof {
                assert(P::commits_to(pk, f.table(), num_vars as nat, P::view_of(f_commit))
                    && P::commits_to(pk, g.table(), num_vars as nat, P::view_of(g_commit))
                    && transcript@ == failure_log(pk, *index, *f, *g, log0, f_commit, g_commit));
            }
            return Err(BiPermError::Core(e));
        },
    };
    let h_l = DenseMle::from_evaluations_vec(num_vars, h_l_evals);
    let h_r = DenseMle::from_evaluations_vec(num_vars, h_r_evals);
    let factors = vec![f.clone(), h_l, h_r];
    let ghost log5 = transcript@;
    proof {
        assert(factor_tables(factors@) =~= sumcheck_tables(f.table(), index.perm, vals(alpha@)));
        assert(Seq::new(factors@.len(), |i: int| i as usize) =~= Seq::new(3, |i: int| i as usize));
        lemma_prove_rounds_len(
            factor_tables(factors@),
            product_term(),
            3,
            num_vars as nat,
            log5,
        );
    }
    let output = sumcheck::prove(factors.as_slice(), transcript);
    let (f_at_r, f_opening) = match P::open(
        pk,
        MleRef::Dense(f),
        output.challenges.as_slice(),
        transcript,
    ) {
        Ok(o) => o,
        Err(e) => {
            proof {
                assert(P::commits_to(pk, f.table(), num_vars as nat, P::view_of(f_commit))
                    && P::commits_to(pk, g.table(), num_vars as nat, P::view_of(g_commit))
                    && transcript@ == failure_log(pk, *index, *f, *g, log0, f_commit, g_commit));
            }
            return Err(BiPermError::Pcs(e));
        },
    };
    let point_l = concat_range(output.challenges.as_slice(), alpha.as_slice(), 0, half);
    let point_r = concat_range(output.challenges.as_slice(), alpha.as_slice(), half, num_vars);
    proof {
        assert(vals(point_l@) =~= vals(output.challenges@) + vals(alpha@).take(half as int));
        assert(vals(point_r@) =~= vals(output.challenges@) + vals(alpha@).skip(half as int));
    }
    let (ind_l_at_r, ind_l_opening) = match P::open(
        pk,
        MleRef::Sparse(&index.ind_l),
        point_l.as_slice(),
        transcript,
    ) {
        Ok(o) => o,
        Err(e) => {
            proof {
                assert(P::commits_to(pk, f.table(), num_vars as nat, P::view_of(f_commit))
                    && P::commits_to(pk, g.table(), num_vars as nat, P::view_of(g_commit))
                    && transcript@ == failure_log(pk, *index, *f, *g, log0, f_commit, g_commit));
            }
            return Err(BiPermError::Pcs(e));
        },
    };
    let (ind_r_at_r, ind_r_opening) = match P::open(
        pk,
        MleRef::Sparse(&index.ind_r),
        point_r.as_slice(),
        transcript,
    ) {
        Ok(o) => o,
        Err(e) => {
            proof {
                assert(P::commits_to(pk, f.table(), num_vars as nat, P::view_of(f_commit))
                    && P::commits_to(pk, g.table(), num_vars as nat, P::view_of(g_commit))
                    && transcript@ == failure_log(pk, *index, *f, *g, log0, f_commit, g_commit));
            }
            return Err(BiPermError::Pcs(e));
        },
    };
    Ok(
        BiPermProof {
            f_commit,
            g_commit,
            sumcheck: output.proof,
            g_at_alpha,
            g_opening,
            f_at_r,
            f_opening,
            ind_l_at_r,
            ind_l_opening,
            ind_r_at_r,
            ind_r_opening,
        },
    )
}

/// The verdict of opening verification as the protocol reads it.
pub open spec fn opening_verdict<E>(outcome: Result<bool, E>) -> Result<(), BiPermError<E>> {
    match outcome {
        Err(e) => Err(BiPermError::Pcs(e)),
        Ok(false) => Err(BiPermError::PcsVerifyFailed),
        Ok(true) => Ok(()),
    }
}

/// The verifier after the sumcheck, from the sumcheck point `rr`, its final
/// claim and the transcript `log`: the result and the transcript it leaves.
pub open spec fn verify_openings<P: PolynomialCommitment>(
    vk: &P::VerifierKey,
    index: BiPermVerifierIndex<P>,
    proof: BiPermProof<P>,
    alpha: Seq<int>,
    rr: Seq<int>,
    final_claim: int,
    log: Seq<TranscriptOp>,
) -> (Result<(), BiPermError<P::Error>>, Seq<TranscriptOp>) {
    let half = (index.num_vars / 2) as int;
    let (f_ok, log1) = P::verify_outcome(
        vk,
        P::view_of(proof.f_commit),
        rr,
        proof.f_at_r.v(),
        proof.f_opening,
        log,
    );
    if !(opening_verdict(f_ok) is Ok) {
        (opening_verdict(f_ok), log1)
    } else {
        let (l_ok, log2) = P::verify_outcome(
            vk,
            P::view_of(index.ind_l_commit),
            rr + alpha.take(half),
            proof.ind_l_at_r.v(),
            proof.ind_l_opening,
            log1,
        );
        if !(opening_verdict(l_ok) is Ok) {
            (opening_verdict(l_ok), log2)
        } else {
            let (r_ok, log3) = P::verify_outcome(
                vk,
                P::view_of(index.ind_r_commit),
                rr + alpha.skip(half),
                proof.ind_r_at_r.v(),
                proof.ind_r_opening,
                log2,
            );
            if !(opening_verdict(r_ok) is Ok) {
                (opening_verdict(r_ok), log3)
            } else if fmul(fmul(proof.f_at_r.v(), proof.ind_l_at_r.v()), proof.ind_r_at_r.v())
                != final_claim {
                (Err(BiPermError::FinalCheckFailed), log3)
            } else {
                (Ok(()), log3)
            }
        }
    }
}

/// The verifier's result on `proof` and the transcript it leaves.
pub open spec fn verify_result<P: PolynomialCommitment>(
    vk: &P::VerifierKey,
    index: BiPermVerifierIndex<P>,
    proof: BiPermProof<P>,
    log: Seq<TranscriptOp>,
) -> (Result<(), BiPermError<P::Error>>, Seq<TranscriptOp>) {
    let nv = index.num_vars as nat;
    let log4 = absorb_commitments(
        log,
        index.ind_l_commit.canonical_bytes(),
        index.ind_r_commit.canonical_bytes(),
        proof.f_commit.canonical_bytes(),
        proof.g_commit.canonical_bytes(),
    );
    let alpha = challenge_values(log4, "alpha"@, nv);
    let (g_ok, log5) = P::verify_outcome(
        vk,
        P::view_of(proof.g_commit),
        alpha,
        proof.g_at_alpha.v(),
        proof.g_opening,
        after_challenges(log4, "alpha"@, nv),
    );
    if !(opening_verdict(g_ok) is Ok) {
        (opening_verdict(g_ok), log5)
    } else {
        let (sc, log6) = verify_spec(
            proof.g_at_alpha.v(),
            nv,
            3,
            polys_values(proof.sumcheck.round_polys@),
            log5,
        );
        match sc {
            Err(e) => (Err(BiPermError::Sumcheck(e)), log6),
            Ok((rr, final_claim)) => verify_openings(vk, index, proof, alpha, rr, final_claim, log6),
        }
    }
}

/// Verify a BiPerm proof with the verifier key and the verifier's index
/// alone: the opening of `g` at `alpha`, the sumcheck from `g(alpha)`, the
/// openings of `f` and of both indicators, and finally
/// `f(r) * ind_L(r, alpha_L) * ind_R(r, alpha_R)` against the sumcheck's
/// final claim.
pub fn verify<P: PolynomialCommitment>(
    vk: &P::VerifierKey,
    index: &BiPermVerifierIndex<P>,
    proof: &BiPermProof<P>,
    transcript: &mut Transcript,
) -> (r: Result<(), BiPermError<P::Error>>)
    requires
        P::verify_admits(vk, P::view_of(proof.g_commit), index.num_vars as nat, proof.g_opening),
        P::verify_admits(vk, P::view_of(proof.f_commit), index.num_vars as nat, proof.f_opening),
        P::verify_admits(
            vk,
            P::view_of(index.ind_l_commit),
            (index.num_vars + index.num_vars / 2) as nat,
            proof.ind_l_opening,
        ),
        P::verify_admits(
            vk,
            P::view_of(index.ind_r_commit),
            (index.num_vars + (index.num_vars - index.num_vars / 2)) as nat,
            proof.ind_r_opening,
        ),
        index.ind_l_commit.canonical_bytes().len() <= u32::MAX,
        index.ind_r_commit.canonical_bytes().len() <= u32::MAX,
        proof.f_commit.canonical_bytes().len() <= u32::MAX,
        proof.g_commit.canonical_bytes().len() <= u32::MAX,
    ensures
        (r, final(transcript)@) == verify_result(vk, *index, *proof, old(transcript)@),
{
    let num_vars = index.num_vars;
    transcript.append("ind_l_commit", &index.ind_l_commit);
    transcript.append("ind_r_commit", &index.ind_r_commit);
    transcript.append("f_commit", &proof.f_commit);
    transcript.append("g_commit", &proof.g_commit);
    let alpha = transcript.challenge_vec("alpha", num_vars);
    let alpha_ok = match P::verify(
        vk,
        &proof.g_commit,
        alpha.as_slice(),
        proof.g_at_alpha,
        &proof.g_opening,
        transcript,
    ) {
        Ok(b) => b,
        Err(e) => {
            return Err(BiPermError::Pcs(e));
        },
    };
    if !alpha_ok {
        return Err(BiPermError::PcsVerifyFailed);
    }
    let ghost log6 = transcript@;
    let out = match sumcheck::verify(proof.g_at_alpha, num_vars, 3, &proof.sumcheck, transcript) {
        Ok(o) => o,
        Err(e) => {
            return Err(BiPermError::Sumcheck(e));
        },
    };
    proof {
        lemma_verify_challenges_len(
            proof.g_at_alpha.v(),
            polys_values(proof.sumcheck.round_polys@),
            3,
            0,
            log6,
            Seq::empty(),
        );
    }
    let r_ok = match P::verify(
        vk,
        &proof.f_commit,
        out.challenges.as_slice(),
        proof.f_at_r,
        &proof.f_opening,
        transcript,
    ) {
        Ok(b) => b,
        Err(e) => {
            return Err(BiPermError::Pcs(e));
        },
    };
    if !r_ok {
        return Err(BiPermError::PcsVerifyFailed);
    }
    let half = num_vars / 2;
    let point_l = concat_range(out.challenges.as_slice(), alpha.as_slice(), 0, half);
    let point_r = concat_range(out.challenges.as_slice(), alpha.as_slice(), half, num_vars);
    proof {
        assert(vals(point_l@) =~= vals(out.challenges@) + vals(alpha@).take(half as int));
        assert(vals(point_r@) =~= vals(out.challenges@) + vals(alpha@).skip(half as int));
    }
    let ind_l_ok = match P::verify(
        vk,
        &index.ind_l_commit,
        point_l.as_slice(),
        proof.ind_l_at_r,
        &proof.ind_l_opening,
        transcript,
    ) {
        Ok(b) => b,
        Err(e) => {
            return Err(BiPermError::Pcs(e));
        },
    };
    if !ind_l_ok {
        return Err(BiPermError::PcsVerifyFailed);
    }
    let ind_r_ok = match P::verify(
        vk,
        &index.ind_r_commit,
        point_r.as_slice(),
        proof.ind_r_at_r,
        &proof.ind_r_opening,
        transcript,
    ) {
        Ok(b) => b,
        Err(e) => {
            return Err(BiPermError::Pcs(e));
        },
    };
    if !ind_r_ok {
        return Err(BiPermError::PcsVerifyFailed);
    }
    if proof.f_at_r.mul(proof.ind_l_at_r).mul(proof.ind_r_at_r) != out.final_claim {
        return Err(BiPermError::FinalCheckFailed);
    }
    Ok(())
}

/// Entry `y * 2^mu + c` of the half-indicator table is one exactly when
/// `y` is the chosen half of `sigma(c)`.
proof fn lemma_indicator_entry(p: Permutation, use_left: bool, c: int, y: int)
    requires
        p.well_formed(),
        p.spec_num_vars() % 2 == 0,
        0 <= c < pow2(p.spec_num_vars()),
        0 <= y < pow2(p.spec_num_vars() / 2),
    ensures
        0 <= y * pow2(p.spec_num_vars()) + c < half_indicator_table(p, use_left).len(),
        half_indicator_table(p, use_left)[y * pow2(p.spec_num_vars()) + c] == (if y == digit(
            p@[c] as nat,
            p.spec_num_vars() / 2,
            if use_left { 0 } else { 1 },
        ) {
            1int
        } else {
            0int
        }),
{
    let nv = p.spec_num_vars();
    let half = nv / 2;
    let j: nat = if use_left { 0 } else { 1 };
    let cols = pow2(nv);
    let rows = pow2(half);
    let k = y * cols + c;
    lemma_pow2_adds(nv, half);
    assert(k < rows * cols) by (nonlinear_arith)
        requires
            k == y * cols + c,
            y < rows,
            c < cols,
    ;
    vstd::arithmetic::mul::lemma_mul_is_commutative(rows as int, cols as int);
    vstd::arithmetic::mul::lemma_mul_is_commutative(cols as int, y);
    let d = digit(p@[c] as nat, half, j) as int;
    if y == d {
        assert(indicator_index(p, c, use_left) == k);
    } else {
        if exists|x: int| 0 <= x < p@.len() && indicator_index(p, x, use_left) == k {
            let x = choose|x: int| 0 <= x < p@.len() && indicator_index(p, x, use_left) == k;
            let dx = digit(p@[x] as nat, half, j) as int;
            vstd::arithmetic::div_mod::lemma_div_multiples_vanish_fancy(dx, x, cols as int);
            vstd::arithmetic::div_mod::lemma_div_multiples_vanish_fancy(y, c, cols as int);
            vstd::arithmetic::mul::lemma_mul_is_commutative(cols as int, dx);
            assert(x + cols * dx == c + cols * y);
        }
    }
}

/// Column `c` of the `eq`-weighted indicator sums to `h(c) * eq(c, r)`.
proof fn lemma_indicator_column(p: Permutation, r: Seq<int>, a: Seq<int>, use_left: bool, c: int)
    requires
        p.well_formed(),
        p.spec_num_vars() % 2 == 0,
        r.len() == p.spec_num_vars(),
        a.len() == p.spec_num_vars() / 2,
        0 <= c < pow2(p.spec_num_vars()),
    ensures
        fsum(
            Seq::new(
                pow2(p.spec_num_vars() / 2),
                |y: int|
                    fmul(
                        half_indicator_table(p, use_left)[y * pow2(p.spec_num_vars()) + c],
                        fmul(eq_table(r)[c], eq_table(a)[y]),
                    ),
            ),
        ) == fmul(indicator_values(p, a, use_left)[c], eq_table(r)[c]),
{
    let nv = p.spec_num_vars();
    let half = nv / 2;
    let j: nat = if use_left { 0 } else { 1 };
    let cols = pow2(nv);
    let rows = pow2(half);
    let hi = half_indicator_table(p, use_left);
    let rt = eq_table(r);
    let at = eq_table(a);
    let col = Seq::new(rows, |y: int| fmul(hi[y * cols + c], fmul(rt[c], at[y])));
    let d = digit(p@[c] as nat, half, j) as int;
    lemma_pow2_pos(half);
    vstd::arithmetic::div_mod::lemma_mod_bound((p@[c] as nat / pow2(j * half)) as int, rows as int);
    lemma_eq_value_canonical(bool_point(c as nat, r.len()), r);
    lemma_eq_value_canonical(bool_point(d as nat, a.len()), a);
    lemma_results_canonical(rt[c], at[d]);
    assert forall|y: int| 0 <= y < rows && y != d implies col[y] == 0 by {
        lemma_indicator_entry(p, use_left, c, y);
        lemma_canonical_mod(0);
    }
    lemma_indicator_entry(p, use_left, c, d);
    lemma_identities(fmul(rt[c], at[d]));
    lemma_fsum_one_nonzero(col, d);
    crate::field::lemma_commutative(rt[c], at[d]);
}

/// The identity the verifier's indicator openings rest on: the committed
/// half indicator opened at `(r, alpha_half)` is the multilinear extension
/// of `x -> eq(sigma_half(x), alpha_half)` at `r`, since fixing the
/// `alpha` variables of the indicator and extending commute.
pub proof fn lemma_indicator_partial_eval(p: Permutation, r: Seq<int>, a: Seq<int>, use_left: bool)
    requires
        p.well_formed(),
        p.spec_num_vars() % 2 == 0,
        r.len() == p.spec_num_vars(),
        a.len() == p.spec_num_vars() / 2,
        all_canonical(r),
        all_canonical(a),
    ensures
        mle_eval(half_indicator_table(p, use_left), r + a) == mle_eval(
            indicator_values(p, a, use_left),
            r,
        ),
{
    let nv = p.spec_num_vars();
    let half = nv / 2;
    let j: nat = if use_left { 0 } else { 1 };
    let cols = pow2(nv);
    let rows = pow2(half);
    let hi = half_indicator_table(p, use_left);
    let t = eq_table(r + a);
    let rt = eq_table(r);
    let at = eq_table(a);
    let h = indicator_values(p, a, use_left);
    lemma_pow2_adds(nv, half);
    assert(hi.len() == rows * cols) by {
        vstd::arithmetic::mul::lemma_mul_is_commutative(rows as int, cols as int);
    }
    assert(all_canonical(hi)) by {
        assert forall|k: int| 0 <= k < hi.len() implies 0 <= #[trigger] hi[k] < modulus() by {}
    }
    assert((r + a).len() == nv + half);
    lemma_mle_eval_sum(hi, r + a);
    let g = |k: int| fmul(hi[k], t[k]);
    lemma_fsum_blocks(g, rows, cols);
    assert(Seq::new(rows * cols, g) =~= Seq::new(hi.len(), |k: int| fmul(hi[k], t[k])));
    let f = |y: int, c: int| fmul(hi[y * cols + c], fmul(rt[c], at[y]));
    let by_rows = Seq::new(rows, |y: int| fsum(Seq::new(cols, |c: int| g(y * cols + c))));
    assert forall|y: int| 0 <= y < rows implies #[trigger] by_rows[y] == fsum(
        Seq::new(cols, |c: int| f(y, c)),
    ) by {
        assert forall|c: int| 0 <= c < cols implies #[trigger] g(y * cols + c) == f(y, c) by {
            lemma_eq_table_concat(r, a, c as nat, y as nat);
            vstd::arithmetic::mul::lemma_mul_is_commutative(cols as int, y);
        }
        assert(Seq::new(cols, |c: int| g(y * cols + c)) =~= Seq::new(cols, |c: int| f(y, c)));
    }
    assert(by_rows =~= Seq::new(rows, |y: int| fsum(Seq::new(cols, |c: int| f(y, c)))));
    lemma_fsum_exchange(f, rows, cols);
    let by_cols = Seq::new(cols, |c: int| fsum(Seq::new(rows, |y: int| f(y, c))));
    assert forall|c: int| 0 <= c < cols implies #[trigger] by_cols[c] == fmul(h[c], rt[c]) by {
        lemma_indicator_column(p, r, a, use_left, c);
        assert(Seq::new(rows, |y: int| f(y, c)) =~= Seq::new(
            rows,
            |y: int| fmul(hi[y * cols + c], fmul(rt[c], at[y])),
        ));
    }
    assert(all_canonical(h)) by {
        assert forall|x: int| 0 <= x < h.len() implies 0 <= #[trigger] h[x] < modulus() by {
            let d = digit(p@[x] as nat, half, j);
            lemma_pow2_pos(half);
            vstd::arithmetic::div_mod::lemma_mod_bound((p@[x] as nat / pow2(j * half)) as int, rows as int);
            lemma_eq_value_canonical(bool_point(d, a.len()), a);
        }
    }
    lemma_mle_eval_sum(h, r);
    assert(by_cols =~= Seq::new(h.len(), |c: int| fmul(h[c], rt[c])));
}

/// The reduction BiPerm rests on: when `g(sigma(x)) = f(x)` on the cube,
/// `sum_x f(x) * h_L(x) * h_R(x) = g(alpha)`, `h_L`, `h_R` the half
/// indicators at `alpha_L`, `alpha_R`. So the sumcheck the prover runs on
/// `f * h_L * h_R` starts from the value `g` opens to at `alpha`.
pub proof fn lemma_biperm_claim(p: Permutation, f: Seq<int>, g: Seq<int>, alpha: Seq<int>)
    requires
        p.well_formed(),
        p.spec_num_vars() % 2 == 0,
        f.len() == p@.len(),
        g.len() == p@.len(),
        alpha.len() == p.spec_num_vars(),
        all_canonical(f),
        all_canonical(g),
        all_canonical(alpha),
        forall|x: int| 0 <= x < p@.len() ==> g[p@[x] as int] == f[x],
    ensures
        ({
            let half = (p.spec_num_vars() / 2) as int;
            let hl = indicator_values(p, alpha.take(half), true);
            let hr = indicator_values(p, alpha.skip(half), false);
            fsum(Seq::new(p@.len(), |x: int| fmul(fmul(f[x], hl[x]), hr[x]))) == mle_eval(g, alpha)
        }),
{
    let nv = p.spec_num_vars();
    let half = nv / 2;
    let n = p@.len();
    let al = alpha.take(half as int);
    let ar = alpha.skip(half as int);
    let e = eq_table(alpha);
    let hl = indicator_values(p, al, true);
    let hr = indicator_values(p, ar, false);
    assert(al + ar =~= alpha);
    lemma_mle_eval_sum(g, alpha);
    let s = Seq::new(n, |y: int| fmul(g[y], e[y]));
    assert(crate::sums::is_injection(p@));
    crate::sums::lemma_fsum_reindex(s, p@);
    let lhs = Seq::new(n, |x: int| fmul(fmul(f[x], hl[x]), hr[x]));
    assert forall|x: int| 0 <= x < n implies #[trigger] lhs[x] == s[p@[x] as int] by {
        let y = p@[x] as nat;
        let lo = digit(y, half, 0);
        let hi = digit(y, half, 1);
        crate::permutation::lemma_halves_recombine(p, x);
        lemma_pow2_pos(half);
        assert(0 * half == 0);
        assert(1 * half == half);
        vstd::arithmetic::div_mod::lemma_mod_bound((y / pow2(0 * half)) as int, pow2(half) as int);
        vstd::arithmetic::div_mod::lemma_mod_bound((y / pow2(1 * half)) as int, pow2(half) as int);
        lemma_eq_table_concat(al, ar, lo, hi);
        vstd::arithmetic::mul::lemma_mul_is_commutative(hi as int, pow2(half) as int);
        crate::field::lemma_associative(f[x], hl[x], hr[x]);
    }
    assert(lhs =~= Seq::new(n, |x: int| s[p@[x] as int]));
}

/// The single term at an entry: `f * h_L * h_R` there.
proof fn lemma_product_term_at(tables: Seq<Seq<int>>, x: int)
    requires
        0 <= tables[0][x] < modulus(),
    ensures
        crate::completeness::point_product(tables, 1, product_term()[0].1, x, 3) == fmul(
            fmul(tables[0][x], tables[1][x]),
            tables[2][x],
        ),
{
    let fs = product_term()[0].1;
    assert(fs =~= seq![0usize, 1usize, 2usize]);
    assert(crate::completeness::point_product(tables, 1, fs, x, 0) == 1);
    lemma_identities(tables[0][x]);
    assert(crate::completeness::point_product(tables, 1, fs, x, 1) == tables[0][x]);
    assert(crate::completeness::point_product(tables, 1, fs, x, 2) == fmul(tables[0][x], tables[1][x]));
}

/// The sum the sumcheck starts from, for the single term `f * h_L * h_R`:
/// the sum over the cube of the products.
proof fn lemma_product_term_sum(tables: Seq<Seq<int>>, n: nat)
    requires
        tables.len() == 3,
        forall|x: int| 0 <= x < n ==> 0 <= #[trigger] tables[0][x] < modulus(),
    ensures
        crate::completeness::expr_sum(tables, product_term(), n) == fsum(
            Seq::new(n, |x: int| fmul(fmul(tables[0][x], tables[1][x]), tables[2][x])),
        ),
    decreases n,
{
    if n > 0 {
        let x = n - 1;
        let terms = product_term();
        lemma_product_term_sum(tables, (n - 1) as nat);
        let prev = crate::completeness::expr_sum(tables, terms, (n - 1) as nat);
        assert(0 <= tables[0][x] < modulus());
        lemma_product_term_at(tables, x);
        assert(crate::completeness::point_terms(tables, terms, x, 0, prev) == prev);
        let f = |x: int| fmul(fmul(tables[0][x], tables[1][x]), tables[2][x]);
        assert(Seq::new(n, f).drop_last() =~= Seq::new((n - 1) as nat, f));
    }
}

/// The three tables of the sumcheck are canonical, of `2^mu` entries each.
proof fn lemma_biperm_tables_ok(perm: Permutation, ft: Seq<int>, alpha: Seq<int>)
    requires
        perm.well_formed(),
        perm.spec_num_vars() % 2 == 0,
        ft.len() == perm@.len(),
        all_canonical(ft),
        alpha.len() == perm.spec_num_vars(),
    ensures
        crate::completeness::sum_ok(sumcheck_tables(ft, perm, alpha), product_term(), pow2(perm.spec_num_vars())),
{
    let nv = perm.spec_num_vars();
    let half = nv / 2;
    let tables = sumcheck_tables(ft, perm, alpha);
    let terms = product_term();
    assert forall|i: int, j: int| 0 <= i < 3 && 0 <= j < tables[i].len() implies 0 <= #[trigger] tables[i][j]
        < modulus() by {
        if i > 0 {
            let a = if i == 1 { alpha.take(half as int) } else { alpha.skip(half as int) };
            let k: nat = if i == 1 { 0 } else { 1 };
            let d = digit(perm@[j] as nat, half, k);
            lemma_pow2_pos(half);
            vstd::arithmetic::div_mod::lemma_mod_bound((perm@[j] as nat / pow2(k * half)) as int, pow2(half) as int);
            lemma_eq_value_canonical(bool_point(d, a.len()), a);
        }
    }
    assert(terms[0].1 =~= seq![0usize, 1usize, 2usize]);
    assert(sumcheck::terms_in_range(terms, tables.len()));
    lemma_canonical_mod(1);
}

/// The verifier's final check on the values the prover opened: their
/// product is the expression the sumcheck ends with.
proof fn lemma_biperm_final(perm: Permutation, ft: Seq<int>, alpha: Seq<int>, rr: Seq<int>)
    requires
        perm.well_formed(),
        perm.spec_num_vars() % 2 == 0,
        ft.len() == perm@.len(),
        alpha.len() == perm.spec_num_vars(),
        rr.len() == perm.spec_num_vars(),
        all_canonical(alpha),
        all_canonical(rr),
        0 <= mle_eval(ft, rr) < modulus(),
    ensures
        ({
            let half = (perm.spec_num_vars() / 2) as int;
            crate::completeness::expr_at(sumcheck_tables(ft, perm, alpha), product_term(), rr) == fmul(
                fmul(mle_eval(ft, rr), mle_eval(half_indicator_table(perm, true), rr + alpha.take(half))),
                mle_eval(half_indicator_table(perm, false), rr + alpha.skip(half)),
            )
        }),
{
    let half = (perm.spec_num_vars() / 2) as int;
    let tables = sumcheck_tables(ft, perm, alpha);
    let terms = product_term();
    lemma_indicator_partial_eval(perm, rr, alpha.take(half), true);
    lemma_indicator_partial_eval(perm, rr, alpha.skip(half), false);
    let m = tables.map_values(|t: Seq<int>| seq![mle_eval(t, rr)]);
    lemma_product_term_at(m, 0);
    let x = crate::completeness::point_product(m, 1, terms[0].1, 0, 3);
    lemma_results_canonical(fmul(m[0][0], m[1][0]), m[2][0]);
    lemma_identities(x);
    assert(crate::completeness::point_terms(m, terms, 0, 0, 0) == 0);
}

/// Completeness of BiPerm. When `g(sigma(x)) = f(x)` on the cube and the
/// commitment scheme verifies its own honest openings, a proof that `prove`
/// makes from the index that `index` makes is accepted by `verify` on the
/// same transcript, which it leaves as the prover left it.
pub proof fn lemma_biperm_complete<P: PolynomialCommitment>(
    pk: &P::ProverKey,
    vk: &P::VerifierKey,
    perm: Permutation,
    pi: BiPermProverIndex<P>,
    vi: BiPermVerifierIndex<P>,
    f: DenseMle,
    g: DenseMle,
    log: Seq<TranscriptOp>,
    proof: BiPermProof<P>,
    final_log: Seq<TranscriptOp>,
)
    requires
        crate::pcs::openings_verify::<P>(pk, vk),
        perm.well_formed(),
        perm.spec_num_vars() % 2 == 0,
        index_made::<P>(pk, perm, pi, vi),
        f.well_formed(),
        g.well_formed(),
        f.num_vars == perm.spec_num_vars(),
        g.num_vars == perm.spec_num_vars(),
        forall|x: int| 0 <= x < perm@.len() ==> g.table()[perm@[x] as int] == #[trigger] f.table()[x],
        proof_made::<P>(pk, pi, f, g, log, proof, final_log),
    ensures
        verify_result(vk, vi, proof, log) == (Ok::<(), BiPermError<P::Error>>(()), final_log),
{
    let nv = perm.spec_num_vars();
    let half = nv / 2;
    let ft = f.table();
    let gt = g.table();
    let log4 = absorb_commitments(
        log,
        pi.ind_l_commit.canonical_bytes(),
        pi.ind_r_commit.canonical_bytes(),
        proof.f_commit.canonical_bytes(),
        proof.g_commit.canonical_bytes(),
    );
    let alpha = challenge_values(log4, "alpha"@, nv);
    let al = alpha.take(half as int);
    let ar = alpha.skip(half as int);
    let log5 = P::open_log(pk, gt, nv, alpha, after_challenges(log4, "alpha"@, nv));
    crate::transcript::lemma_challenge_values_canonical(log4, "alpha"@, nv);
    // The index's permutation is `perm`.
    assert(indicator_values(pi.perm, al, true) =~= indicator_values(perm, al, true));
    assert(indicator_values(pi.perm, ar, false) =~= indicator_values(perm, ar, false));
    let tables = sumcheck_tables(ft, perm, alpha);
    let terms = product_term();
    assert(sumcheck_tables(ft, pi.perm, alpha) =~= tables);
    let (polys, rr, log6) = prove_rounds(tables, terms, 3, nv, log5);
    // The sumcheck starts from `g(alpha)` and accepts.
    crate::field::lemma_vals_canonical(f.evaluations@);
    crate::field::lemma_vals_canonical(g.evaluations@);
    lemma_biperm_claim(perm, ft, gt, alpha);
    lemma_product_term_sum(tables, pow2(nv));
    assert(Seq::new(pow2(nv), |x: int| fmul(fmul(tables[0][x], tables[1][x]), tables[2][x])) =~= Seq::new(
        perm@.len(),
        |x: int| fmul(fmul(ft[x], tables[1][x]), tables[2][x]),
    ));
    lemma_biperm_tables_ok(perm, ft, alpha);
    assert(terms[0].1 =~= seq![0usize, 1usize, 2usize]);
    reveal_with_fuel(sumcheck::max_factors, 2);
    crate::completeness::lemma_nodes_have_inverses(4);
    crate::completeness::lemma_sumcheck_complete(tables, terms, 3, nv, log5);
    // The final check.
    lemma_prove_rounds_len(tables, terms, 3, nv, log5);
    crate::completeness::lemma_prove_rounds_canonical(tables, terms, 3, nv, log5);
    crate::field::lemma_value_range(proof.f_at_r);
    lemma_biperm_final(perm, ft, alpha, rr);
}

/// BiPerm with Hyrax: an honest proof verifies, for keys that share their
/// generators, when the multi-scalar multiplication is linear over them.
pub proof fn lemma_biperm_complete_hyrax(
    pk: &crate::hyrax::HyraxKey,
    vk: &crate::hyrax::HyraxKey,
    perm: Permutation,
    pi: BiPermProverIndex<crate::hyrax::Hyrax>,
    vi: BiPermVerifierIndex<crate::hyrax::Hyrax>,
    f: DenseMle,
    g: DenseMle,
    log: Seq<TranscriptOp>,
    proof: BiPermProof<crate::hyrax::Hyrax>,
    final_log: Seq<TranscriptOp>,
)
    requires
        pk.generators@ == vk.generators@,
        crate::hyrax::msm_linear(vk.generators@),
        perm.well_formed(),
        perm.spec_num_vars() % 2 == 0,
        index_made::<crate::hyrax::Hyrax>(pk, perm, pi, vi),
        f.well_formed(),
        g.well_formed(),
        f.num_vars == perm.spec_num_vars(),
        g.num_vars == perm.spec_num_vars(),
        forall|x: int| 0 <= x < perm@.len() ==> g.table()[perm@[x] as int] == #[trigger] f.table()[x],
        proof_made::<crate::hyrax::Hyrax>(pk, pi, f, g, log, proof, final_log),
    ensures
        verify_result(vk, vi, proof, log) == (Ok::<(), BiPermError<crate::hyrax::HyraxError>>(()), final_log),
{
    crate::hyrax::lemma_hyrax_openings_verify(pk, vk);
    lemma_biperm_complete::<crate::hyrax::Hyrax>(pk, vk, perm, pi, vi, f, g, log, proof, final_log);
}

/// The honest proof with its sumcheck messages replaced by `s`.
pub open spec fn with_sumcheck<P: PolynomialCommitment>(proof: BiPermProof<P>, s: SumcheckProof) -> BiPermProof<P> {
    BiPermProof { sumcheck: s, ..proof }
}

/// The proof with opened value `k` (`g(alpha)`, `f(r)`, `ind_L`, `ind_R`
/// in that order) replaced by `w`.
pub open spec fn forge_value<P: PolynomialCommitment>(proof: BiPermProof<P>, k: int, w: Fe) -> BiPermProof<P> {
    if k == 0 {
        BiPermProof { g_at_alpha: w, ..proof }
    } else if k == 1 {
        BiPermProof { f_at_r: w, ..proof }
    } else if k == 2 {
        BiPermProof { ind_l_at_r: w, ..proof }
    } else {
        BiPermProof { ind_r_at_r: w, ..proof }
    }
}

/// Opened value `k` of the proof, in the order of `forge_value`.
pub open spec fn opened_value<P: PolynomialCommitment>(proof: BiPermProof<P>, k: int) -> Fe {
    if k == 0 {
        proof.g_at_alpha
    } else if k == 1 {
        proof.f_at_r
    } else if k == 2 {
        proof.ind_l_at_r
    } else {
        proof.ind_r_at_r
    }
}

/// BiPerm accepts only when the opening of `g` at `alpha` verifies, the
/// sumcheck from `g(alpha)` passes with point `r` and final claim `c`, the
/// openings of `f` at `r`, of `ind_L` at `(r, alpha_L)` and of `ind_R` at
/// `(r, alpha_R)` verify, and `f(r) * ind_L(r, alpha_L) * ind_R(r, alpha_R)`
/// equals `c`. When all of that passes but the product differs from `c`,
/// it refuses with `FinalCheckFailed`.
pub proof fn lemma_biperm_final_check<P: PolynomialCommitment>(
    vk: &P::VerifierKey,
    index: BiPermVerifierIndex<P>,
    proof: BiPermProof<P>,
    log: Seq<TranscriptOp>,
)
    ensures
        ({
            let nv = index.num_vars as nat;
            let half = (index.num_vars / 2) as int;
            let log4 = absorb_commitments(
                log,
                index.ind_l_commit.canonical_bytes(),
                index.ind_r_commit.canonical_bytes(),
                proof.f_commit.canonical_bytes(),
                proof.g_commit.canonical_bytes(),
            );
            let alpha = challenge_values(log4, "alpha"@, nv);
            let (g_ok, log5) = P::verify_outcome(
                vk,
                P::view_of(proof.g_commit),
                alpha,
                proof.g_at_alpha.v(),
                proof.g_opening,
                after_challenges(log4, "alpha"@, nv),
            );
            let (sc, log6) = verify_spec(
                proof.g_at_alpha.v(),
                nv,
                3,
                polys_values(proof.sumcheck.round_polys@),
                log5,
            );
            let rr = sc->Ok_0.0;
            let claim = sc->Ok_0.1;
            let (f_ok, log1) = P::verify_outcome(
                vk,
                P::view_of(proof.f_commit),
                rr,
                proof.f_at_r.v(),
                proof.f_opening,
                log6,
            );
            let (l_ok, log2) = P::verify_outcome(
                vk,
                P::view_of(index.ind_l_commit),
                rr + alpha.take(half),
                proof.ind_l_at_r.v(),
                proof.ind_l_opening,
                log1,
            );
            let (r_ok, log3) = P::verify_outcome(
                vk,
                P::view_of(index.ind_r_commit),
                rr + alpha.skip(half),
                proof.ind_r_at_r.v(),
                proof.ind_r_opening,
                log2,
            );
            let product = fmul(fmul(proof.f_at_r.v(), proof.ind_l_at_r.v()), proof.ind_r_at_r.v());
            let openings_pass = g_ok == Ok::<bool, P::Error>(true) && sc is Ok && f_ok == Ok::<
                bool,
                P::Error,
            >(true) && l_ok == Ok::<bool, P::Error>(true) && r_ok == Ok::<bool, P::Error>(true);
            &&& verify_result(vk, index, proof, log).0 is Ok ==> openings_pass && product == claim
            &&& openings_pass && product != claim ==> verify_result(vk, index, proof, log).0
                == Err::<(), BiPermError<P::Error>>(BiPermError::FinalCheckFailed)
        }),
{
}

/// BiPerm refuses an honest proof whose sumcheck round `i` has its first
/// value changed, with the sumcheck's error for that round, whatever the
/// challenges.
pub proof fn lemma_biperm_rejects_tampered_round<P: PolynomialCommitment>(
    pk: &P::ProverKey,
    vk: &P::VerifierKey,
    perm: Permutation,
    pi: BiPermProverIndex<P>,
    vi: BiPermVerifierIndex<P>,
    f: DenseMle,
    g: DenseMle,
    log: Seq<TranscriptOp>,
    proof: BiPermProof<P>,
    final_log: Seq<TranscriptOp>,
    i: nat,
    v: int,
    s: SumcheckProof,
)
    requires
        crate::pcs::openings_verify::<P>(pk, vk),
        perm.well_formed(),
        perm.spec_num_vars() % 2 == 0,
        index_made::<P>(pk, perm, pi, vi),
        f.well_formed(),
        g.well_formed(),
        f.num_vars == perm.spec_num_vars(),
        g.num_vars == perm.spec_num_vars(),
        forall|x: int| 0 <= x < perm@.len() ==> g.table()[perm@[x] as int] == #[trigger] f.table()[x],
        proof_made::<P>(pk, pi, f, g, log, proof, final_log),
        i < perm.spec_num_vars(),
        0 <= v < modulus(),
        v != polys_values(proof.sumcheck.round_polys@)[i as int][0],
        polys_values(s.round_polys@) == crate::completeness::tamper_round(
            polys_values(proof.sumcheck.round_polys@),
            i as int,
            v,
        ),
    ensures
        verify_result(vk, vi, with_sumcheck(proof, s), log).0 == Err::<(), BiPermError<P::Error>>(
            BiPermError::Sumcheck(SumcheckError::RoundCheckFailed { round: i as usize }),
        ),
{
    let nv = perm.spec_num_vars();
    let half = nv / 2;
    let ft = f.table();
    let gt = g.table();
    let log4 = absorb_commitments(
        log,
        pi.ind_l_commit.canonical_bytes(),
        pi.ind_r_commit.canonical_bytes(),
        proof.f_commit.canonical_bytes(),
        proof.g_commit.canonical_bytes(),
    );
    let alpha = challenge_values(log4, "alpha"@, nv);
    let al = alpha.take(half as int);
    let ar = alpha.skip(half as int);
    let log5 = P::open_log(pk, gt, nv, alpha, after_challenges(log4, "alpha"@, nv));
    crate::transcript::lemma_challenge_values_canonical(log4, "alpha"@, nv);
    assert(indicator_values(pi.perm, al, true) =~= indicator_values(perm, al, true));
    assert(indicator_values(pi.perm, ar, false) =~= indicator_values(perm, ar, false));
    let tables = sumcheck_tables(ft, perm, alpha);
    let terms = product_term();
    assert(sumcheck_tables(ft, pi.perm, alpha) =~= tables);
    let (polys, rr, log6) = prove_rounds(tables, terms, 3, nv, log5);
    crate::field::lemma_vals_canonical(f.evaluations@);
    crate::field::lemma_vals_canonical(g.evaluations@);
    lemma_biperm_claim(perm, ft, gt, alpha);
    lemma_product_term_sum(tables, pow2(nv));
    assert(Seq::new(pow2(nv), |x: int| fmul(fmul(tables[0][x], tables[1][x]), tables[2][x])) =~= Seq::new(
        perm@.len(),
        |x: int| fmul(fmul(ft[x], tables[1][x]), tables[2][x]),
    ));
    lemma_biperm_tables_ok(perm, ft, alpha);
    assert(terms[0].1 =~= seq![0usize, 1usize, 2usize]);
    reveal_with_fuel(sumcheck::max_factors, 2);
    crate::completeness::lemma_nodes_have_inverses(4);
    crate::completeness::lemma_sumcheck_rejects(tables, terms, 3, nv, log5, 0, nv, i, v);
}

/// BiPerm refuses an honest proof with one opened value forged, with the
/// opening-verification error, whatever the challenges, for a scheme that
/// verifies honest openings and refuses wrong values.
pub proof fn lemma_biperm_rejects_forged_value<P: PolynomialCommitment>(
    pk: &P::ProverKey,
    vk: &P::VerifierKey,
    perm: Permutation,
    pi: BiPermProverIndex<P>,
    vi: BiPermVerifierIndex<P>,
    f: DenseMle,
    g: DenseMle,
    log: Seq<TranscriptOp>,
    proof: BiPermProof<P>,
    final_log: Seq<TranscriptOp>,
    k: int,
    w: Fe,
)
    requires
        crate::pcs::openings_verify::<P>(pk, vk),
        perm.well_formed(),
        perm.spec_num_vars() % 2 == 0,
        index_made::<P>(pk, perm, pi, vi),
        f.well_formed(),
        g.well_formed(),
        f.num_vars == perm.spec_num_vars(),
        g.num_vars == perm.spec_num_vars(),
        forall|x: int| 0 <= x < perm@.len() ==> g.table()[perm@[x] as int] == #[trigger] f.table()[x],
        proof_made::<P>(pk, pi, f, g, log, proof, final_log),
        crate::pcs::wrong_values_refused::<P>(pk, vk),
        0 <= k < 4,
        w.v() != opened_value(proof, k).v(),
    ensures
        verify_result(vk, vi, forge_value(proof, k, w), log).0 == Err::<(), BiPermError<P::Error>>(
            BiPermError::PcsVerifyFailed,
        ),
{
    let nv = perm.spec_num_vars();
    let half = nv / 2;
    let ft = f.table();
    let gt = g.table();
    let log4 = absorb_commitments(
        log,
        pi.ind_l_commit.canonical_bytes(),
        pi.ind_r_commit.canonical_bytes(),
        proof.f_commit.canonical_bytes(),
        proof.g_commit.canonical_bytes(),
    );
    let alpha = challenge_values(log4, "alpha"@, nv);
    let al = alpha.take(half as int);
    let ar = alpha.skip(half as int);
    let log5 = P::open_log(pk, gt, nv, alpha, after_challenges(log4, "alpha"@, nv));
    crate::transcript::lemma_challenge_values_canonical(log4, "alpha"@, nv);
    assert(indicator_values(pi.perm, al, true) =~= indicator_values(perm, al, true));
    assert(indicator_values(pi.perm, ar, false) =~= indicator_values(perm, ar, false));
    let tables = sumcheck_tables(ft, perm, alpha);
    let terms = product_term();
    assert(sumcheck_tables(ft, pi.perm, alpha) =~= tables);
    let (polys, rr, log6) = prove_rounds(tables, terms, 3, nv, log5);
    crate::field::lemma_vals_canonical(f.evaluations@);
    crate::field::lemma_vals_canonical(g.evaluations@);
    lemma_biperm_claim(perm, ft, gt, alpha);
    lemma_product_term_sum(tables, pow2(nv));
    assert(Seq::new(pow2(nv), |x: int| fmul(fmul(tables[0][x], tables[1][x]), tables[2][x])) =~= Seq::new(
        perm@.len(),
        |x: int| fmul(fmul(ft[x], tables[1][x]), tables[2][x]),
    ));
    lemma_biperm_tables_ok(perm, ft, alpha);
    assert(terms[0].1 =~= seq![0usize, 1usize, 2usize]);
    reveal_with_fuel(sumcheck::max_factors, 2);
    crate::completeness::lemma_nodes_have_inverses(4);
    let forged = forge_value(proof, k, w);
    crate::field::lemma_value_range(w);
    crate::field::lemma_vals_canonical(f.evaluations@);
    if k == 0 {
        assert(P::verify_outcome(vk, P::view_of(proof.g_commit), alpha, w.v(), proof.g_opening,
            after_challenges(log4, "alpha"@, nv)).0 == Ok::<bool, P::Error>(false));
    } else {
        crate::completeness::lemma_sumcheck_complete(tables, terms, 3, nv, log5);
        lemma_prove_rounds_len(tables, terms, 3, nv, log5);
        crate::completeness::lemma_prove_rounds_canonical(tables, terms, 3, nv, log5);
        let log7 = P::open_log(pk, ft, nv, rr, log6);
        let log8 = P::open_log(pk, half_indicator_table(perm, true), nv + half, rr + al, log7);
        let hl = half_indicator_table(perm, true);
        let hr = half_indicator_table(perm, false);
        assert(all_canonical(hl)) by {
            assert forall|j: int| 0 <= j < hl.len() implies 0 <= #[trigger] hl[j] < modulus() by {}
        }
        assert(all_canonical(hr)) by {
            assert forall|j: int| 0 <= j < hr.len() implies 0 <= #[trigger] hr[j] < modulus() by {}
        }
        assert(all_canonical(rr + al)) by {
            assert forall|j: int| 0 <= j < (rr + al).len() implies 0 <= #[trigger] (rr + al)[j] < modulus() by {
                if j >= rr.len() { assert((rr + al)[j] == alpha[j - rr.len()]); }
            }
        }
        assert(all_canonical(rr + ar)) by {
            assert forall|j: int| 0 <= j < (rr + ar).len() implies 0 <= #[trigger] (rr + ar)[j] < modulus() by {
                if j >= rr.len() { assert((rr + ar)[j] == alpha[j - rr.len() + half]); }
            }
        }
        vstd::arithmetic::power2::lemma_pow2_adds(nv, half);
        if k == 1 {
            assert(P::verify_outcome(vk, P::view_of(proof.f_commit), rr, w.v(), proof.f_opening, log6).0
                == Ok::<bool, P::Error>(false));
        } else if k == 2 {
            assert(P::verify_outcome(vk, P::view_of(vi.ind_l_commit), rr + al, w.v(), proof.ind_l_opening, log7).0
                == Ok::<bool, P::Error>(false));
        } else {
            assert(P::verify_outcome(vk, P::view_of(vi.ind_r_commit), rr + ar, w.v(), proof.ind_r_opening, log8).0
                == Ok::<bool, P::Error>(false));
        }
    }
}

} // verus!
