//! ProdPerm: the grand-product permutation argument. Proves
//! `g(sigma(x)) = f(x)` for all `x in B_mu` by compressing each
//! `(index, value)` pair with challenges `beta, gamma` and checking
//!
//! `prod_x (f(x) + beta s_sigma(x) + gamma) / (g(x) + beta s_id(x) + gamma) = 1`
//!
//! through the product check. `index` commits once per `sigma` to
//! `s_sigma`, the image of `sigma` as field values; `s_id` is multilinear
//! already, `sum_j 2^j x_j`, and the verifier evaluates it directly.

use crate::eq::{eq_table, eq_value};
use crate::field::{all_canonical, fadd, finv, fmul, fsub, modulus, vals, Fe};
use crate::mle::{mle_eval, DenseMle};
use crate::pcs::{MleRef, PolynomialCommitment};
use crate::permutation::Permutation;
use crate::prodcheck::{
    self, check_tables, check_terms, root_point, tree_leaves, tree_table, with_first, with_last,
    ProdcheckError, ProdcheckEvals,
};
use crate::sumcheck::{polys_values, prove_rounds, verify_spec, SumcheckError, SumcheckProof};
use crate::transcript::{
    after_challenge, after_challenges, after_message, challenge_value, challenge_values,
    CanonicalBytes, Transcript, TranscriptOp,
};
use crate::zerocheck::with_factor;
use vstd::arithmetic::power2::pow2;
use vstd::prelude::*;

verus! {

/// A claimed evaluation and the proof that backs it.
pub struct Opening<P: PolynomialCommitment> {
    pub value: Fe,
    pub proof: P::Proof,
}

/// The proof: commitments to `f`, `g` and the product tree `v`, the
/// product check's sumcheck messages, and eight openings: `f`, `g` and
/// `s_sigma` at the sumcheck point `rho`, and `v` at the five points the
/// product check needs.
pub struct ProdPermProof<P: PolynomialCommitment> {
    pub f_commit: P::Commitment,
    pub g_commit: P::Commitment,
    pub v_commit: P::Commitment,
    pub sumcheck: SumcheckProof,
    pub f: Opening<P>,
    pub g: Opening<P>,
    pub sigma: Opening<P>,
    pub v_bot: Opening<P>,
    pub v_top: Opening<P>,
    pub v_left: Opening<P>,
    pub v_right: Opening<P>,
    pub v_root: Opening<P>,
}

/// The prover's half of the index: `s_sigma`, its commitment, and the
/// table of `s_id`, kept since it depends on neither instance nor
/// challenge.
pub struct ProdPermProverIndex<P: PolynomialCommitment> {
    pub sigma: DenseMle,
    pub sigma_commit: P::Commitment,
    pub identity: Vec<Fe>,
}

/// The verifier's half of the index: `mu` and the commitment to `s_sigma`.
pub struct ProdPermVerifierIndex<P: PolynomialCommitment> {
    pub num_vars: usize,
    pub sigma_commit: P::Commitment,
}

/// Why indexing, proving or verifying failed.
#[derive(Debug, PartialEq, Eq)]
pub enum ProdPermError<E> {
    Sumcheck(SumcheckError),
    /// The product tree could not be built: a denominator
    /// `g(x) + beta x + gamma` vanished on the cube.
    Prodcheck(ProdcheckError),
    /// A commitment-scheme operation failed.
    Pcs(E),
    /// An opening did not verify.
    PcsVerifyFailed,
    /// The tree's root did not open to one: the products differ.
    RootNotOne,
    /// The product-check constraints did not match the final claim.
    FinalCheckFailed,
}

impl<E> From<SumcheckError> for ProdPermError<E> {
    fn from(e: SumcheckError) -> (r: Self)
        ensures
            r == ProdPermError::<E>::Sumcheck(e),
    {
        ProdPermError::Sumcheck(e)
    }
}

impl<E> vstd::std_specs::convert::FromSpecImpl<SumcheckError> for ProdPermError<E> {
    open spec fn obeys_from_spec() -> bool {
        true
    }

    open spec fn from_spec(e: SumcheckError) -> Self {
        ProdPermError::Sumcheck(e)
    }
}

impl<E> From<ProdcheckError> for ProdPermError<E> {
    fn from(e: ProdcheckError) -> (r: Self)
        ensures
            r == ProdPermError::<E>::Prodcheck(e),
    {
        ProdPermError::Prodcheck(e)
    }
}

impl<E> vstd::std_specs::convert::FromSpecImpl<ProdcheckError> for ProdPermError<E> {
    open spec fn obeys_from_spec() -> bool {
        true
    }

    open spec fn from_spec(e: ProdcheckError) -> Self {
        ProdPermError::Prodcheck(e)
    }
}

/// The image of `sigma` as values: entry `x` is `sigma(x)`.
pub open spec fn image_table(p: Permutation) -> Seq<int> {
    Seq::new(p@.len(), |x: int| p@[x] as int)
}

/// The table of `s_id` over `B_n`: entry `x` is `x`.
pub open spec fn identity_table(n: nat) -> Seq<int> {
    Seq::new(pow2(n), |x: int| x)
}

/// `values(x) + beta ids(x) + gamma` at every point.
pub open spec fn compress_table(values: Seq<int>, ids: Seq<int>, beta: int, gamma: int) -> Seq<int> {
    Seq::new(values.len(), |x: int| fadd(fadd(values[x], fmul(beta, ids[x])), gamma))
}

/// `sum_j 2^j rho_j`, accumulated from the first coordinate on.
pub open spec fn identity_value(rho: Seq<int>) -> int
    decreases rho.len(),
{
    if rho.len() == 0 {
        0
    } else {
        fadd(
            identity_value(rho.drop_last()),
            fmul(pow2((rho.len() - 1) as nat) as int % modulus(), rho.last()),
        )
    }
}

/// `pi` and `vi` are the halves of the index that `index` makes for
/// `perm`.
pub open spec fn index_made<P: PolynomialCommitment>(
    pk: &P::ProverKey,
    perm: Permutation,
    pi: ProdPermProverIndex<P>,
    vi: ProdPermVerifierIndex<P>,
) -> bool {
    let nv = perm.spec_num_vars();
    &&& pi.sigma.well_formed()
    &&& pi.sigma.num_vars == nv
    &&& pi.sigma.table() == image_table(perm)
    &&& P::commits_to(pk, image_table(perm), nv, P::view_of(pi.sigma_commit))
    &&& vals(pi.identity@) == identity_table(nv)
    &&& vi.num_vars == nv
    &&& P::view_of(vi.sigma_commit) == P::view_of(pi.sigma_commit)
    &&& vi.sigma_commit.canonical_bytes() == pi.sigma_commit.canonical_bytes()
}

/// Preprocess a fixed `sigma`: build and commit `s_sigma`, and keep the
/// table of `s_id`. Fails only when the scheme cannot commit.
pub fn index<P: PolynomialCommitment>(pk: &P::ProverKey, perm: &Permutation) -> (r: Result<
    (ProdPermProverIndex<P>, ProdPermVerifierIndex<P>),
    ProdPermError<P::Error>,
>)
    requires
        P::prover_key_valid(pk),
    ensures
        r is Ok <==> P::commit_admits(pk, perm.spec_num_vars()),
        r matches Err(e) ==> e == ProdPermError::<P::Error>::Pcs(
            P::commit_error(pk, perm.spec_num_vars()),
        ),
        r matches Ok((pi, vi)) ==> index_made(pk, *perm, pi, vi),
{
    let num_vars = perm.num_vars();
    let image = perm.image_evaluations();
    let sigma = DenseMle::from_evaluations_vec(num_vars, image);
    proof {
        assert(sigma.table() =~= image_table(*perm));
    }
    let sigma_commit = match P::commit(pk, MleRef::Dense(&sigma)) {
        Ok(c) => c,
        Err(e) => {
            return Err(ProdPermError::Pcs(e));
        },
    };
    let identity = Permutation::identity(num_vars).image_evaluations();
    proof {
        assert(vals(identity@) =~= identity_table(num_vars as nat));
    }
    let vi = ProdPermVerifierIndex { num_vars, sigma_commit: P::clone_commitment(&sigma_commit) };
    Ok((ProdPermProverIndex { sigma, sigma_commit, identity }, vi))
}

/// `values(x) + beta ids[x] + gamma` over the cube, compressing the pair
/// `(id, value)` into one element.
pub fn compress(values: &DenseMle, ids: &[Fe], beta: Fe, gamma: Fe) -> (c: DenseMle)
    requires
        values.well_formed(),
        ids@.len() >= values.evaluations@.len(),
    ensures
        c.well_formed(),
        c.num_vars == values.num_vars,
        c.table() == compress_table(values.table(), vals(ids@), beta.v(), gamma.v()),
{
    let n = values.evaluations.len();
    let mut evals: Vec<Fe> = Vec::new();
    let mut x: usize = 0;
    while x < n
        invariant
            n == values.evaluations@.len(),
            ids@.len() >= n,
            x <= n,
            evals@.len() == x,
            forall|y: int|
                0 <= y < x ==> #[trigger] evals@[y].v() == compress_table(
                    values.table(),
                    vals(ids@),
                    beta.v(),
                    gamma.v(),
                )[y],
        decreases n - x,
    {
        evals.push(values.evaluations[x].add(beta.mul(ids[x])).add(gamma));
        x = x + 1;
    }
    let c = DenseMle::from_evaluations_vec(values.num_vars, evals);
    proof {
        assert(c.table() =~= compress_table(values.table(), vals(ids@), beta.v(), gamma.v()));
    }
    c
}

/// `s_id(rho) = sum_j 2^j rho_j`, the identity map's multilinear extension
/// in closed form, little-endian like every index here.
pub fn identity_at(rho: &[Fe]) -> (s: Fe)
    ensures
        s.v() == identity_value(vals(rho@)),
{
    let mut acc = Fe::zero();
    let mut weight = Fe::one();
    let mut i: usize = 0;
    proof {
        vstd::arithmetic::power2::lemma2_to64();
        crate::field::lemma_canonical_mod(1);
    }
    while i < rho.len()
        invariant
            i <= rho@.len(),
            acc.v() == identity_value(vals(rho@).take(i as int)),
            weight.v() == pow2(i as nat) as int % modulus(),
        decreases rho@.len() - i,
    {
        proof {
            assert(vals(rho@).take(i + 1).drop_last() =~= vals(rho@).take(i as int));
            let w = pow2(i as nat) as int;
            vstd::arithmetic::power2::lemma_pow2_unfold((i + 1) as nat);
            vstd::arithmetic::div_mod::lemma_add_mod_noop(w, w, modulus());
        }
        acc = acc.add(weight.mul(rho[i]));
        weight = weight.double();
        i = i + 1;
    }
    proof {
        assert(vals(rho@).take(rho@.len() as int) =~= vals(rho@));
    }
    acc
}

/// Open `poly` at `point`, pairing the value with its proof.
pub fn open<P: PolynomialCommitment>(
    pk: &P::ProverKey,
    poly: MleRef<'_>,
    point: &[Fe],
    transcript: &mut Transcript,
) -> (r: Result<Opening<P>, ProdPermError<P::Error>>)
    requires
        P::prover_key_valid(pk),
        poly.well_formed(),
        point@.len() == poly.spec_num_vars() || P::checks_point_len(),
    ensures
        r is Ok <==> P::open_admits(pk, poly.spec_num_vars()) && point@.len() == poly.spec_num_vars(),
        r matches Err(e) ==> e == ProdPermError::<P::Error>::Pcs(
            P::open_error(pk, poly.spec_num_vars(), point@.len() as nat),
        ),
        r matches Ok(o) ==> o.value.v() == mle_eval(poly.table(), vals(point@)),
        r matches Ok(o) ==> P::is_honest_proof(
            pk,
            poly.table(),
            poly.spec_num_vars(),
            vals(point@),
            o.proof,
        ),
        final(transcript)@ == P::open_log(
            pk,
            poly.table(),
            poly.spec_num_vars(),
            vals(point@),
            old(transcript)@,
        ),
{
    match P::open(pk, poly, point, transcript) {
        Ok((value, proof)) => Ok(Opening { value, proof }),
        Err(e) => Err(ProdPermError::Pcs(e)),
    }
}

/// The verdict on one opening and the transcript that checking it leaves.
pub open spec fn check_outcome<P: PolynomialCommitment>(
    vk: &P::VerifierKey,
    c: P::CommitmentView,
    point: Seq<int>,
    opening: Opening<P>,
    log: Seq<TranscriptOp>,
) -> (Result<(), ProdPermError<P::Error>>, Seq<TranscriptOp>) {
    let (ok, log1) = P::verify_outcome(vk, c, point, opening.value.v(), opening.proof, log);
    match ok {
        Err(e) => (Err(ProdPermError::Pcs(e)), log1),
        Ok(false) => (Err(ProdPermError::PcsVerifyFailed), log1),
        Ok(true) => (Ok(()), log1),
    }
}

/// Check one more opening after `prev`, unless `prev` already failed.
pub open spec fn then_check<P: PolynomialCommitment>(
    prev: (Result<(), ProdPermError<P::Error>>, Seq<TranscriptOp>),
    vk: &P::VerifierKey,
    c: P::CommitmentView,
    point: Seq<int>,
    opening: Opening<P>,
) -> (Result<(), ProdPermError<P::Error>>, Seq<TranscriptOp>) {
    if prev.0 is Err {
        prev
    } else {
        check_outcome(vk, c, point, opening, prev.1)
    }
}

/// Verify one opening against its commitment; a refused opening is
/// `PcsVerifyFailed`.
pub fn check<P: PolynomialCommitment>(
    vk: &P::VerifierKey,
    commitment: &P::Commitment,
    point: &[Fe],
    opening: &Opening<P>,
    transcript: &mut Transcript,
) -> (r: Result<(), ProdPermError<P::Error>>)
    requires
        P::verify_admits(vk, P::view_of(*commitment), point@.len() as nat, opening.proof),
    ensures
        (r, final(transcript)@) == check_outcome(
            vk,
            P::view_of(*commitment),
            vals(point@),
            *opening,
            old(transcript)@,
        ),
{
    let ok = match P::verify(vk, commitment, point, opening.value, &opening.proof, transcript) {
        Ok(b) => b,
        Err(e) => {
            return Err(ProdPermError::Pcs(e));
        },
    };
    if ok {
        Ok(())
    } else {
        Err(ProdPermError::PcsVerifyFailed)
    }
}

/// The transcript after the index and instance commitments are absorbed.
pub open spec fn absorb_commitments(
    log: Seq<TranscriptOp>,
    sigma: Seq<u8>,
    f: Seq<u8>,
    g: Seq<u8>,
) -> Seq<TranscriptOp> {
    after_message(
        after_message(after_message(log, "sigma_commit"@, sigma), "f_commit"@, f),
        "g_commit"@,
        g,
    )
}

/// `beta`, squeezed after the commitments.
pub open spec fn beta_of(log: Seq<TranscriptOp>) -> int {
    challenge_value(log, "beta"@)
}

/// `gamma`, squeezed after `beta`.
pub open spec fn gamma_of(log: Seq<TranscriptOp>) -> int {
    challenge_value(after_challenge(log, "beta"@), "gamma"@)
}

/// The transcript after `beta` and `gamma`.
pub open spec fn after_beta_gamma(log: Seq<TranscriptOp>) -> Seq<TranscriptOp> {
    after_challenge(after_challenge(log, "beta"@), "gamma"@)
}

/// `proof` is what `prove` makes from `index`, `f` and `g` on the
/// transcript `log`, leaving the transcript `final_log`.
pub open spec fn proof_made<P: PolynomialCommitment>(
    pk: &P::ProverKey,
    index: ProdPermProverIndex<P>,
    f: DenseMle,
    g: DenseMle,
    log: Seq<TranscriptOp>,
    proof: ProdPermProof<P>,
    final_log: Seq<TranscriptOp>,
) -> bool {
    let nv = index.sigma.num_vars as nat;
    let log3 = absorb_commitments(
        log,
        index.sigma_commit.canonical_bytes(),
        proof.f_commit.canonical_bytes(),
        proof.g_commit.canonical_bytes(),
    );
    let beta = beta_of(log3);
    let gamma = gamma_of(log3);
    let p = compress_table(f.table(), index.sigma.table(), beta, gamma);
    let q = compress_table(g.table(), vals(index.identity@), beta, gamma);
    let v = tree_table(tree_leaves(p, q));
    let log4 = after_message(
        after_beta_gamma(log3),
        "v_commit"@,
        proof.v_commit.canonical_bytes(),
    );
    let alpha = challenge_value(log4, "prodcheck_alpha"@);
    let log5 = after_challenge(log4, "prodcheck_alpha"@);
    let zr = challenge_values(log5, "zerocheck_r"@, nv);
    let (polys, rho, log6) = prove_rounds(
        check_tables(v, p, q).push(eq_table(zr)),
        with_factor(check_terms(alpha), 6),
        3,
        nv,
        after_challenges(log5, "zerocheck_r"@, nv),
    );
    let l_f = P::open_log(pk, f.table(), nv, rho, log6);
    let l_g = P::open_log(pk, g.table(), nv, rho, l_f);
    let l_s = P::open_log(pk, index.sigma.table(), nv, rho, l_g);
    let l_bot = P::open_log(pk, v, nv + 1, with_last(rho, 0), l_s);
    let l_top = P::open_log(pk, v, nv + 1, with_last(rho, 1), l_bot);
    let l_left = P::open_log(pk, v, nv + 1, with_first(rho, 0), l_top);
    let l_right = P::open_log(pk, v, nv + 1, with_first(rho, 1), l_left);
    &&& forall|x: int| 0 <= x < q.len() ==> #[trigger] fmul(q[x], finv(q[x])) == 1
    &&& P::commits_to(pk, f.table(), nv, P::view_of(proof.f_commit))
    &&& P::commits_to(pk, g.table(), nv, P::view_of(proof.g_commit))
    &&& P::commits_to(pk, v, nv + 1, P::view_of(proof.v_commit))
    &&& polys_values(proof.sumcheck.round_polys@) == polys
    &&& proof.f.value.v() == mle_eval(f.table(), rho)
    &&& P::is_honest_proof(pk, f.table(), nv, rho, proof.f.proof)
    &&& proof.g.value.v() == mle_eval(g.table(), rho)
    &&& P::is_honest_proof(pk, g.table(), nv, rho, proof.g.proof)
    &&& proof.sigma.value.v() == mle_eval(index.sigma.table(), rho)
    &&& P::is_honest_proof(pk, index.sigma.table(), nv, rho, proof.sigma.proof)
    &&& proof.v_bot.value.v() == mle_eval(v, with_last(rho, 0))
    &&& P::is_honest_proof(pk, v, nv + 1, with_last(rho, 0), proof.v_bot.proof)
    &&& proof.v_top.value.v() == mle_eval(v, with_last(rho, 1))
    &&& P::is_honest_proof(pk, v, nv + 1, with_last(rho, 1), proof.v_top.proof)
    &&& proof.v_left.value.v() == mle_eval(v, with_first(rho, 0))
    &&& P::is_honest_proof(pk, v, nv + 1, with_first(rho, 0), proof.v_left.proof)
    &&& proof.v_right.value.v() == mle_eval(v, with_first(rho, 1))
    &&& P::is_honest_proof(pk, v, nv + 1, with_first(rho, 1), proof.v_right.proof)
    &&& proof.v_root.value.v() == mle_eval(v, root_point(nv))
    &&& P::is_honest_proof(pk, v, nv + 1, root_point(nv), proof.v_root.proof)
    &&& final_log == P::open_log(pk, v, nv + 1, root_point(nv), l_right)
}

/// The denominators `g(x) + beta x + gamma` that `prove` builds after
/// committing to `f` and `g` as `cf` and `cg`.
pub open spec fn denominators<P: PolynomialCommitment>(
    index: ProdPermProverIndex<P>,
    g: DenseMle,
    log: Seq<TranscriptOp>,
    cf: P::Commitment,
    cg: P::Commitment,
) -> Seq<int> {
    let log3 = absorb_commitments(
        log,
        index.sigma_commit.canonical_bytes(),
        cf.canonical_bytes(),
        cg.canonical_bytes(),
    );
    compress_table(g.table(), vals(index.identity@), beta_of(log3), gamma_of(log3))
}

/// The transcript that `prove` leaves when it fails after committing to
/// `f` and `g` as `cf` and `cg` (and, when it got that far, to the tree as
/// `cv`): the transcript after `beta` and `gamma` when the tree cannot be
/// built or committed, after the opening of `f` when that opening fails,
/// and after the first opening of the tree otherwise.
pub open spec fn failure_log<P: PolynomialCommitment>(
    pk: &P::ProverKey,
    index: ProdPermProverIndex<P>,
    f: DenseMle,
    g: DenseMle,
    log: Seq<TranscriptOp>,
    cf: P::Commitment,
    cg: P::Commitment,
    cv: P::Commitment,
) -> Seq<TranscriptOp> {
    let nv = index.sigma.num_vars as nat;
    let log3 = absorb_commitments(
        log,
        index.sigma_commit.canonical_bytes(),
        cf.canonical_bytes(),
        cg.canonical_bytes(),
    );
    let beta = beta_of(log3);
    let gamma = gamma_of(log3);
    let p = compress_table(f.table(), index.sigma.table(), beta, gamma);
    let q = compress_table(g.table(), vals(index.identity@), beta, gamma);
    if !(forall|y: int| 0 <= y < q.len() ==> q[y] != 0) || !P::commit_admits(pk, nv + 1) {
        after_beta_gamma(log3)
    } else {
        let v = tree_table(tree_leaves(p, q));
        let log4 = after_message(after_beta_gamma(log3), "v_commit"@, cv.canonical_bytes());
        let alpha = challenge_value(log4, "prodcheck_alpha"@);
        let log5 = after_challenge(log4, "prodcheck_alpha"@);
        let zr = challenge_values(log5, "zerocheck_r"@, nv);
        let (polys, rho, log6) = prove_rounds(
            check_tables(v, p, q).push(eq_table(zr)),
            with_factor(check_terms(alpha), 6),
            3,
            nv,
            after_challenges(log5, "zerocheck_r"@, nv),
        );
        let l_f = P::open_log(pk, f.table(), nv, rho, log6);
        if !P::open_admits(pk, nv) {
            l_f
        } else {
            let l_g = P::open_log(pk, g.table(), nv, rho, l_f);
            let l_s = P::open_log(pk, index.sigma.table(), nv, rho, l_g);
            P::open_log(pk, v, nv + 1, with_last(rho, 0), l_s)
        }
    }
}

/// Prove `g(sigma(x)) = f(x)` for all `x` in `B_mu`: commit to `f` and `g`,
/// absorb them with the index commitment, squeeze `beta` and `gamma`,
/// build the two compressed polynomials and their product tree `v`, commit
/// `v` before the product check draws anything, run the product check, and
/// open everything at its point `rho`.
pub fn prove<P: PolynomialCommitment>(
    pk: &P::ProverKey,
    index: &ProdPermProverIndex<P>,
    f: &DenseMle,
    g: &DenseMle,
    transcript: &mut Transcript,
) -> (r: Result<ProdPermProof<P>, ProdPermError<P::Error>>)
    requires
        P::prover_key_valid(pk),
        index.sigma.well_formed(),
        0 < index.sigma.num_vars < usize::BITS - 1,
        f.well_formed(),
        g.well_formed(),
        f.num_vars == index.sigma.num_vars,
        g.num_vars == index.sigma.num_vars,
        index.identity@.len() >= g.evaluations@.len(),
        P::commit_admits(pk, index.sigma.num_vars as nat) ==> P::commitment_fits(
            pk,
            index.sigma.num_vars as nat,
        ) && index.sigma_commit.canonical_bytes().len() <= u32::MAX,
        P::commit_admits(pk, index.sigma.num_vars as nat + 1) ==> P::commitment_fits(
            pk,
            index.sigma.num_vars as nat + 1,
        ),
    ensures
        ({
            let nv = index.sigma.num_vars as nat;
            &&& r matches Err(e) ==> e is Pcs || e is Prodcheck
            &&& r matches Err(ProdPermError::Prodcheck(e)) ==> e is ZeroDenominator
                && P::commit_admits(pk, nv)
            &&& r is Ok ==> P::commit_admits(pk, nv) && P::commit_admits(pk, nv + 1)
                && P::open_admits(pk, nv) && P::open_admits(pk, nv + 1)
            &&& P::commit_admits(pk, nv) && P::commit_admits(pk, nv + 1) && P::open_admits(pk, nv)
                && P::open_admits(pk, nv + 1) && !(r is Ok) ==> (r matches Err(
                ProdPermError::Prodcheck(_),
            ))
            &&& (r matches Err(ProdPermError::Pcs(e)) ==> e == (if !P::commit_admits(pk, nv) {
                P::commit_error(pk, nv)
            } else if !P::commit_admits(pk, nv + 1) {
                P::commit_error(pk, nv + 1)
            } else if !P::open_admits(pk, nv) {
                P::open_error(pk, nv, nv)
            } else {
                P::open_error(pk, nv + 1, nv + 1)
            }))
        }),
        r matches Ok(proof) ==> proof_made(pk, *index, *f, *g, old(transcript)@, proof, final(transcript)@),
        r is Err && !P::commit_admits(pk, index.sigma.num_vars as nat) ==> final(transcript)@ == old(
            transcript,
        )@,
        r is Err && P::commit_admits(pk, index.sigma.num_vars as nat) ==> exists|
            cf: P::Commitment,
            cg: P::Commitment,
            cv: P::Commitment,
        |
            #![trigger failure_log(pk, *index, *f, *g, old(transcript)@, cf, cg, cv)]
            P::commits_to(pk, f.table(), index.sigma.num_vars as nat, P::view_of(cf))
                && P::commits_to(pk, g.table(), index.sigma.num_vars as nat, P::view_of(cg))
                && final(transcript)@ == failure_log(pk, *index, *f, *g, old(transcript)@, cf, cg, cv)
                && (r matches Err(ProdPermError::Prodcheck(ProdcheckError::ZeroDenominator { index: k }))
                ==> prodcheck::is_first_zero(
                    denominators::<P>(*index, *g, old(transcript)@, cf, cg),
                    k as int,
                )),
{
    let num_vars = index.sigma.num_vars;
    let ghost log0 = transcript@;
    let f_commit = match P::commit(pk, MleRef::Dense(f)) {
        Ok(c) => c,
        Err(e) => {
            return Err(ProdPermError::Pcs(e));
        },
    };
    let g_commit = match P::commit(pk, MleRef::Dense(g)) {
        Ok(c) => c,
        Err(e) => {
            return Err(ProdPermError::Pcs(e));
        },
    };
    transcript.append("sigma_commit", &index.sigma_commit);
    transcript.append("f_commit", &f_commit);
    transcript.append("g_commit", &g_commit);
    let beta = transcript.challenge("beta");
    let gamma = transcript.challenge("gamma");
    let p = compress(f, index.sigma.evaluations.as_slice(), beta, gamma);
    let q = compress(g, index.identity.as_slice(), beta, gamma);
    let v = match prodcheck::build(&p, &q) {
        Ok(v) => v,
        Err(e) => {
            proof {
                assert(P::commits_to(pk, f.table(), num_vars as nat, P::view_of(f_commit))
                    && P::commits_to(pk, g.table(), num_vars as nat, P::view_of(g_commit))
                    && transcript@ == failure_log(pk, *index, *f, *g, log0, f_commit, g_commit, f_commit)
                    && denominators::<P>(*index, *g, log0, f_commit, g_commit) == q.table());
            }
            return Err(ProdPermError::Prodcheck(e));
        },
    };
    let v_commit = match P::commit(pk, MleRef::Dense(&v)) {
        Ok(c) => c,
        Err(e) => {
            proof {
                assert(P::commits_to(pk, f.table(), num_vars as nat, P::view_of(f_commit))
                    && P::commits_to(pk, g.table(), num_vars as nat, P::view_of(g_commit))
                    && transcript@ == failure_log(pk, *index, *f, *g, log0, f_commit, g_commit, f_commit)
                    && denominators::<P>(*index, *g, log0, f_commit, g_commit) == q.table());
            }
            return Err(ProdPermError::Pcs(e));
        },
    };
    transcript.append("v_commit", &v_commit);
    let ghost log4 = transcript@;
    let output = prodcheck::prove(&v, &p, &q, transcript);
    proof {
        let alpha = challenge_value(log4, "prodcheck_alpha"@);
        let log5 = after_challenge(log4, "prodcheck_alpha"@);
        let zr = challenge_values(log5, "zerocheck_r"@, num_vars as nat);
        crate::sumcheck::lemma_prove_rounds_len(
            check_tables(v.table(), p.table(), q.table()).push(eq_table(zr)),
            with_factor(check_terms(alpha), 6),
            3,
            num_vars as nat,
            after_challenges(log5, "zerocheck_r"@, num_vars as nat),
        );
    }
    let rho = &output.challenges;
    let points = prodcheck::points(rho.as_slice());
    let f_open = match open::<P>(pk, MleRef::Dense(f), rho.as_slice(), transcript) {
        Ok(o) => o,
        Err(e) => {
            proof {
                assert(P::commits_to(pk, f.table(), num_vars as nat, P::view_of(f_commit))
                    && P::commits_to(pk, g.table(), num_vars as nat, P::view_of(g_commit))
                    && transcript@ == failure_log(pk, *index, *f, *g, log0, f_commit, g_commit, v_commit));
            }
            return Err(e);
        },
    };
    let g_open = match open::<P>(pk, MleRef::Dense(g), rho.as_slice(), transcript) {
        Ok(o) => o,
        Err(e) => {
            proof {
                assert(P::commits_to(pk, f.table(), num_vars as nat, P::view_of(f_commit))
                    && P::commits_to(pk, g.table(), num_vars as nat, P::view_of(g_commit))
                    && transcript@ == failure_log(pk, *index, *f, *g, log0, f_commit, g_commit, v_commit));
            }
            return Err(e);
        },
    };
    let sigma_open = match open::<P>(pk, MleRef::Dense(&index.sigma), rho.as_slice(), transcript) {
        Ok(o) => o,
        Err(e) => {
            proof {
                assert(P::commits_to(pk, f.table(), num_vars as nat, P::view_of(f_commit))
                    && P::commits_to(pk, g.table(), num_vars as nat, P::view_of(g_commit))
                    && transcript@ == failure_log(pk, *index, *f, *g, log0, f_commit, g_commit, v_commit));
            }
            return Err(e);
        },
    };
    let v_bot = match open::<P>(pk, MleRef::Dense(&v), points.bot.as_slice(), transcript) {
        Ok(o) => o,
        Err(e) => {
            proof {
                assert(P::commits_to(pk, f.table(), num_vars as nat, P::view_of(f_commit))
                    && P::commits_to(pk, g.table(), num_vars as nat, P::view_of(g_commit))
                    && transcript@ == failure_log(pk, *index, *f, *g, log0, f_commit, g_commit, v_commit));
            }
            return Err(e);
        },
    };
    let v_top = match open::<P>(pk, MleRef::Dense(&v), points.top.as_slice(), transcript) {
        Ok(o) => o,
        Err(e) => {
            proof {
                assert(P::commits_to(pk, f.table(), num_vars as nat, P::view_of(f_commit))
                    && P::commits_to(pk, g.table(), num_vars as nat, P::view_of(g_commit))
                    && transcript@ == failure_log(pk, *index, *f, *g, log0, f_commit, g_commit, v_commit));
            }
            return Err(e);
        },
    };
    let v_left = match open::<P>(pk, MleRef::Dense(&v), points.left.as_slice(), transcript) {
        Ok(o) => o,
        Err(e) => {
            proof {
                assert(P::commits_to(pk, f.table(), num_vars as nat, P::view_of(f_commit))
                    && P::commits_to(pk, g.table(), num_vars as nat, P::view_of(g_commit))
                    && transcript@ == failure_log(pk, *index, *f, *g, log0, f_commit, g_commit, v_commit));
            }
            return Err(e);
        },
    };
    let v_right = match open::<P>(pk, MleRef::Dense(&v), points.right.as_slice(), transcript) {
        Ok(o) => o,
        Err(e) => {
            proof {
                assert(P::commits_to(pk, f.table(), num_vars as nat, P::view_of(f_commit))
                    && P::commits_to(pk, g.table(), num_vars as nat, P::view_of(g_commit))
                    && transcript@ == failure_log(pk, *index, *f, *g, log0, f_commit, g_commit, v_commit));
            }
            return Err(e);
        },
    };
    let v_root = match open::<P>(pk, MleRef::Dense(&v), points.root.as_slice(), transcript) {
        Ok(o) => o,
        Err(e) => {
            proof {
                assert(P::commits_to(pk, f.table(), num_vars as nat, P::view_of(f_commit))
                    && P::commits_to(pk, g.table(), num_vars as nat, P::view_of(g_commit))
                    && transcript@ == failure_log(pk, *index, *f, *g, log0, f_commit, g_commit, v_commit));
            }
            return Err(e);
        },
    };
    Ok(
        ProdPermProof {
            f_commit,
            g_commit,
            v_commit,
            sumcheck: output.proof,
            f: f_open,
            g: g_open,
            sigma: sigma_open,
            v_bot,
            v_top,
            v_left,
            v_right,
            v_root,
        },
    )
}

/// The openings the verifier checks, in order, after the product check
/// returned the point `rho`: `f`, `g`, `s_sigma` at `rho`, then `v` at its
/// five points.
pub open spec fn check_openings<P: PolynomialCommitment>(
    vk: &P::VerifierKey,
    index: ProdPermVerifierIndex<P>,
    proof: ProdPermProof<P>,
    rho: Seq<int>,
    log: Seq<TranscriptOp>,
) -> (Result<(), ProdPermError<P::Error>>, Seq<TranscriptOp>) {
    let vc = P::view_of(proof.v_commit);
    let c_f = check_outcome(vk, P::view_of(proof.f_commit), rho, proof.f, log);
    let c_g = then_check(c_f, vk, P::view_of(proof.g_commit), rho, proof.g);
    let c_s = then_check(c_g, vk, P::view_of(index.sigma_commit), rho, proof.sigma);
    let c_bot = then_check(c_s, vk, vc, with_last(rho, 0), proof.v_bot);
    let c_top = then_check(c_bot, vk, vc, with_last(rho, 1), proof.v_top);
    let c_left = then_check(c_top, vk, vc, with_first(rho, 0), proof.v_left);
    let c_right = then_check(c_left, vk, vc, with_first(rho, 1), proof.v_right);
    then_check(c_right, vk, vc, root_point(rho.len()), proof.v_root)
}

/// The verifier's result on `proof` and the transcript it leaves.
pub open spec fn verify_result<P: PolynomialCommitment>(
    vk: &P::VerifierKey,
    index: ProdPermVerifierIndex<P>,
    proof: ProdPermProof<P>,
    log: Seq<TranscriptOp>,
) -> (Result<(), ProdPermError<P::Error>>, Seq<TranscriptOp>) {
    let nv = index.num_vars as nat;
    let log3 = absorb_commitments(
        log,
        index.sigma_commit.canonical_bytes(),
        proof.f_commit.canonical_bytes(),
        proof.g_commit.canonical_bytes(),
    );
    let beta = beta_of(log3);
    let gamma = gamma_of(log3);
    let log4 = after_message(after_beta_gamma(log3), "v_commit"@, proof.v_commit.canonical_bytes());
    let alpha = challenge_value(log4, "prodcheck_alpha"@);
    let log5 = after_challenge(log4, "prodcheck_alpha"@);
    let zr = challenge_values(log5, "zerocheck_r"@, nv);
    let (sc, log6) = verify_spec(
        0,
        nv,
        3,
        polys_values(proof.sumcheck.round_polys@),
        after_challenges(log5, "zerocheck_r"@, nv),
    );
    match sc {
        Err(e) => (Err(ProdPermError::Sumcheck(e)), log6),
        Ok((rho, final_claim)) => {
            let (opened, log7) = check_openings(vk, index, proof, rho, log6);
            if opened is Err {
                (opened, log7)
            } else if proof.v_root.value.v() != 1 {
                (Err(ProdPermError::RootNotOne), log7)
            } else {
                let p_at = fadd(fadd(proof.f.value.v(), fmul(beta, proof.sigma.value.v())), gamma);
                let q_at = fadd(fadd(proof.g.value.v(), fmul(beta, identity_value(rho))), gamma);
                let lhs = fmul(
                    eq_value(zr, rho),
                    fadd(
                        fsub(
                            proof.v_top.value.v(),
                            fmul(proof.v_left.value.v(), proof.v_right.value.v()),
                        ),
                        fmul(alpha, fsub(fmul(proof.v_bot.value.v(), q_at), p_at)),
                    ),
                );
                if lhs != final_claim {
                    (Err(ProdPermError::FinalCheckFailed), log7)
                } else {
                    (Ok(()), log7)
                }
            }
        },
    }
}

/// Verify a ProdPerm proof with the verifier key and the verifier's index
/// alone: the product check, the eight openings in the order they were
/// made, the root against one, and the product check's final claim with
/// `p(rho)` and `q(rho)` rebuilt from the openings and `s_id(rho)`.
pub fn verify<P: PolynomialCommitment>(
    vk: &P::VerifierKey,
    index: &ProdPermVerifierIndex<P>,
    proof: &ProdPermProof<P>,
    transcript: &mut Transcript,
) -> (r: Result<(), ProdPermError<P::Error>>)
    requires
        index.num_vars < usize::MAX,
        P::verify_admits(vk, P::view_of(proof.f_commit), index.num_vars as nat, proof.f.proof),
        P::verify_admits(vk, P::view_of(proof.g_commit), index.num_vars as nat, proof.g.proof),
        P::verify_admits(vk, P::view_of(index.sigma_commit), index.num_vars as nat, proof.sigma.proof),
        P::verify_admits(vk, P::view_of(proof.v_commit), index.num_vars as nat + 1, proof.v_bot.proof),
        P::verify_admits(vk, P::view_of(proof.v_commit), index.num_vars as nat + 1, proof.v_top.proof),
        P::verify_admits(vk, P::view_of(proof.v_commit), index.num_vars as nat + 1, proof.v_left.proof),
        P::verify_admits(
            vk,
            P::view_of(proof.v_commit),
            index.num_vars as nat + 1,
            proof.v_right.proof,
        ),
        P::verify_admits(vk, P::view_of(proof.v_commit), index.num_vars as nat + 1, proof.v_root.proof),
        index.sigma_commit.canonical_bytes().len() <= u32::MAX,
        proof.f_commit.canonical_bytes().len() <= u32::MAX,
        proof.g_commit.canonical_bytes().len() <= u32::MAX,
        proof.v_commit.canonical_bytes().len() <= u32::MAX,
    ensures
        (r, final(transcript)@) == verify_result(vk, *index, *proof, old(transcript)@),
{
    let num_vars = index.num_vars;
    transcript.append("sigma_commit", &index.sigma_commit);
    transcript.append("f_commit", &proof.f_commit);
    transcript.append("g_commit", &proof.g_commit);
    let beta = transcript.challenge("beta");
    let gamma = transcript.challenge("gamma");
    transcript.append("v_commit", &proof.v_commit);
    let out = match prodcheck::verify(num_vars, &proof.sumcheck, transcript) {
        Ok(o) => o,
        Err(e) => {
            return Err(ProdPermError::Sumcheck(e));
        },
    };
    proof {
        assert(out.challenges@.len() == num_vars) by {
            let log5 = after_challenge(
                after_message(
                    after_beta_gamma(
                        absorb_commitments(
                            old(transcript)@,
                            index.sigma_commit.canonical_bytes(),
                            proof.f_commit.canonical_bytes(),
                            proof.g_commit.canonical_bytes(),
                        ),
                    ),
                    "v_commit"@,
                    proof.v_commit.canonical_bytes(),
                ),
                "prodcheck_alpha"@,
            );
            crate::sumcheck::lemma_verify_challenges_len(
                0,
                polys_values(proof.sumcheck.round_polys@),
                3,
                0,
                after_challenges(log5, "zerocheck_r"@, num_vars as nat),
                Seq::empty(),
            );
        }
    }
    let rho = &out.challenges;
    match check(vk, &proof.f_commit, rho.as_slice(), &proof.f, transcript) {
        Ok(()) => {},
        Err(e) => {
            return Err(e);
        },
    }
    match check(vk, &proof.g_commit, rho.as_slice(), &proof.g, transcript) {
        Ok(()) => {},
        Err(e) => {
            return Err(e);
        },
    }
    match check(vk, &index.sigma_commit, rho.as_slice(), &proof.sigma, transcript) {
        Ok(()) => {},
        Err(e) => {
            return Err(e);
        },
    }
    match check(vk, &proof.v_commit, out.points.bot.as_slice(), &proof.v_bot, transcript) {
        Ok(()) => {},
        Err(e) => {
            return Err(e);
        },
    }
    match check(vk, &proof.v_commit, out.points.top.as_slice(), &proof.v_top, transcript) {
        Ok(()) => {},
        Err(e) => {
            return Err(e);
        },
    }
    match check(vk, &proof.v_commit, out.points.left.as_slice(), &proof.v_left, transcript) {
        Ok(()) => {},
        Err(e) => {
            return Err(e);
        },
    }
    match check(vk, &proof.v_commit, out.points.right.as_slice(), &proof.v_right, transcript) {
        Ok(()) => {},
        Err(e) => {
            return Err(e);
        },
    }
    match check(vk, &proof.v_commit, out.points.root.as_slice(), &proof.v_root, transcript) {
        Ok(()) => {},
        Err(e) => {
            return Err(e);
        },
    }
    if proof.v_root.value != Fe::one() {
        return Err(ProdPermError::RootNotOne);
    }
    let p_at_rho = proof.f.value.add(beta.mul(proof.sigma.value)).add(gamma);
    let q_at_rho = proof.g.value.add(beta.mul(identity_at(rho.as_slice()))).add(gamma);
    let evals = ProdcheckEvals {
        bot: proof.v_bot.value,
        top: proof.v_top.value,
        left: proof.v_left.value,
        right: proof.v_right.value,
    };
    if !out.final_check(&evals, p_at_rho, q_at_rho) {
        return Err(ProdPermError::FinalCheckFailed);
    }
    Ok(())
}

/// What ProdPerm rests on: when `g(sigma(x)) = f(x)` on the cube and no
/// denominator vanishes, the compressed multisets agree, so the product
/// tree of `f + beta s_sigma + gamma` over `g + beta s_id + gamma` has root
/// one, whatever `beta` and `gamma`.
pub proof fn lemma_consistent_root_is_one(
    p: Permutation,
    f: Seq<int>,
    g: Seq<int>,
    beta: int,
    gamma: int,
)
    requires
        p.well_formed(),
        f.len() == p@.len(),
        g.len() == p@.len(),
        forall|x: int| 0 <= x < p@.len() ==> g[p@[x] as int] == f[x],
        forall|y: int|
            0 <= y < p@.len() ==> #[trigger] fmul(
                compress_table(g, identity_table(p.spec_num_vars()), beta, gamma)[y],
                finv(compress_table(g, identity_table(p.spec_num_vars()), beta, gamma)[y]),
            ) == 1,
    ensures
        ({
            let num = compress_table(f, image_table(p), beta, gamma);
            let den = compress_table(g, identity_table(p.spec_num_vars()), beta, gamma);
            tree_table(tree_leaves(num, den))[2 * pow2(p.spec_num_vars()) - 2] == 1
        }),
{
    let nv = p.spec_num_vars();
    let n = p@.len();
    let num = compress_table(f, image_table(p), beta, gamma);
    let den = compress_table(g, identity_table(nv), beta, gamma);
    let leaves = tree_leaves(num, den);
    assert(all_canonical(leaves)) by {
        assert forall|i: int| 0 <= i < leaves.len() implies 0 <= #[trigger] leaves[i] < modulus() by {
            crate::field::lemma_results_canonical(finv(den[i]), num[i]);
        }
    }
    prodcheck::lemma_tree_root(leaves, nv);
    let inv = Seq::new(n, |y: int| finv(den[y]));
    assert(leaves =~= Seq::new(n, |i: int| fmul(inv[i], num[i])));
    crate::sums::lemma_fprod_mul(inv, num);
    assert(crate::sums::is_injection(p@));
    crate::sums::lemma_fprod_reindex(den, p@);
    assert(num =~= Seq::new(n, |x: int| den[p@[x] as int]));
    crate::sums::lemma_fprod_mul(inv, den);
    let ones = Seq::new(n, |i: int| fmul(inv[i], den[i]));
    assert forall|i: int| 0 <= i < n implies ones[i] == 1 by {
        crate::field::lemma_commutative(finv(den[i]), den[i]);
    }
    crate::sums::lemma_fprod_ones(ones);
}

/// `sum_j a 2^j z_j`, accumulated from the first coordinate, the weight
/// doubling at each step.
pub open spec fn weighted_sum(z: Seq<int>, a: int) -> int
    decreases z.len(),
{
    if z.len() == 0 {
        0
    } else {
        fadd(fmul(a, z[0]), weighted_sum(z.drop_first(), fadd(a, a)))
    }
}

/// The table `x -> a x + b` over `B_n`.
pub open spec fn affine_table(a: int, b: int, n: nat) -> Seq<int> {
    Seq::new(pow2(n), |x: int| fadd(fmul(a, x), b))
}

/// Folding the first variable of an affine table gives an affine table:
/// `(1 - r)(2ay + b) + r(2ay + a + b) = 2a y + (b + a r)`.
proof fn lemma_fold_affine(a: int, b: int, n: nat, r: int)
    requires
        n > 0,
        0 <= a < modulus(),
        0 <= b < modulus(),
        0 <= r < modulus(),
    ensures
        crate::mle::fold_first(affine_table(a, b, n), r) =~= affine_table(
            fadd(a, a),
            fadd(b, fmul(a, r)),
            (n - 1) as nat,
        ),
{
    let m = modulus();
    vstd::arithmetic::power2::lemma_pow2_unfold(n);
    let t = affine_table(a, b, n);
    let f = crate::mle::fold_first(t, r);
    let u = affine_table(fadd(a, a), fadd(b, fmul(a, r)), (n - 1) as nat);
    assert forall|y: int| 0 <= y < f.len() implies #[trigger] f[y] == u[y] by {
        let e0 = fadd(fmul(a, 2 * y), b);
        let e1 = fadd(fmul(a, 2 * y + 1), b);
        // Work over the integers: every field operation is the integer
        // expression reduced once.
        let lhs = (1 - r) * (a * (2 * y) + b) + r * (a * (2 * y + 1) + b);
        let rhs = (a + a) * y + (b + a * r);
        assert((1 - r) * (a * (2 * y) + b) + r * (a * (2 * y + 1) + b) == (a + a) * y + (b + a
            * r)) by (nonlinear_arith);
        crate::field::lemma_reduce_operands(a * (2 * y), b);
        crate::field::lemma_reduce_operands(a * (2 * y + 1), b);
        assert(e0 == (a * (2 * y) + b) % m);
        assert(e1 == (a * (2 * y + 1) + b) % m);
        crate::field::lemma_reduce_operands(1, r);
        crate::field::lemma_reduce_operands(1 - r, a * (2 * y) + b);
        crate::field::lemma_reduce_operands(r, a * (2 * y + 1) + b);
        assert(fmul(fsub(1, r), e0) == ((1 - r) * (a * (2 * y) + b)) % m) by {
            vstd::arithmetic::div_mod::lemma_mul_mod_noop_general(1 - r, a * (2 * y) + b, m);
        }
        assert(fmul(r, e1) == (r * (a * (2 * y + 1) + b)) % m) by {
            vstd::arithmetic::div_mod::lemma_mul_mod_noop_general(r, a * (2 * y + 1) + b, m);
        }
        vstd::arithmetic::div_mod::lemma_add_mod_noop(
            (1 - r) * (a * (2 * y) + b),
            r * (a * (2 * y + 1) + b),
            m,
        );
        assert(f[y] == lhs % m);
        vstd::arithmetic::div_mod::lemma_mul_mod_noop_general(a + a, y, m);
        vstd::arithmetic::div_mod::lemma_add_mod_noop(b, a * r, m);
        vstd::arithmetic::div_mod::lemma_add_mod_noop((a + a) * y, b + a * r, m);
        vstd::arithmetic::div_mod::lemma_mod_twice((a + a) * y, m);
        vstd::arithmetic::div_mod::lemma_mod_twice(b + a * r, m);
        vstd::arithmetic::div_mod::lemma_add_mod_noop(a, a, m);
        vstd::arithmetic::div_mod::lemma_add_mod_noop(b, a * r, m);
        crate::field::lemma_reduce_operands(a + a, y);
        crate::field::lemma_reduce_operands(b, a * r);
        assert(u[y] == fadd(fmul(fadd(a, a), y), fadd(b, fmul(a, r))));
        assert(fmul(fadd(a, a), y) == ((a + a) * y) % m);
        assert(fadd(b, fmul(a, r)) == (b + a * r) % m);
        vstd::arithmetic::div_mod::lemma_add_mod_noop((a + a) * y, b + a * r, m);
        assert(u[y] == rhs % m);
    }
}

/// The multilinear extension of an affine table of `n = z.len()` variables
/// at `z` is `b + sum_j a 2^j z_j`.
proof fn lemma_affine_eval(a: int, b: int, z: Seq<int>)
    requires
        0 <= a < modulus(),
        0 <= b < modulus(),
        all_canonical(z),
    ensures
        mle_eval(affine_table(a, b, z.len()), z) == fadd(b, weighted_sum(z, a)),
    decreases z.len(),
{
    if z.len() == 0 {
        vstd::arithmetic::power2::lemma2_to64();
        crate::field::lemma_identities(b);
        crate::field::lemma_canonical_mod(0);
        assert(fmul(a, 0) == 0);
    } else {
        let r = z[0];
        lemma_fold_affine(a, b, z.len(), r);
        crate::field::lemma_results_canonical(a, a);
        crate::field::lemma_results_canonical(b, fmul(a, r));
        crate::field::lemma_results_canonical(a, r);
        let zr = z.drop_first();
        assert(all_canonical(zr)) by {
            assert forall|i: int| 0 <= i < zr.len() implies 0 <= #[trigger] zr[i] < modulus() by {
                assert(zr[i] == z[i + 1]);
            }
        }
        lemma_affine_eval(fadd(a, a), fadd(b, fmul(a, r)), zr);
        let w = weighted_sum(zr, fadd(a, a));
        crate::field::lemma_associative(b, fmul(a, r), w);
    }
}

/// Doubling the weight and halving the power agree: `2a * 2^k = a * 2^(k+1)`.
proof fn lemma_double_weight(a: int, k: nat)
    requires
        0 <= a < modulus(),
    ensures
        fmul(fadd(a, a), pow2(k) as int % modulus()) == fmul(a, pow2(k + 1) as int % modulus()),
{
    let m = modulus();
    vstd::arithmetic::power2::lemma_pow2_unfold(k + 1);
    crate::field::lemma_reduce_operands(a + a, pow2(k) as int);
    crate::field::lemma_reduce_operands(a, pow2(k + 1) as int);
    crate::field::lemma_reduce_operands(a + a, pow2(k) as int);
    vstd::arithmetic::div_mod::lemma_mod_twice(a + a, m);
    assert(fadd(a, a) == (a + a) % m);
    crate::field::lemma_reduce_operands((a + a) % m, pow2(k) as int);
    assert(fmul((a + a) % m, pow2(k) as int) == fmul(a + a, pow2(k) as int)) by {
        crate::field::lemma_reduce_operands(a + a, pow2(k) as int);
    }
    assert((a + a) * pow2(k) == a * pow2(k + 1)) by (nonlinear_arith)
        requires
            pow2(k + 1) == 2 * pow2(k),
    ;
}

/// Peeling the last coordinate off the weighted sum.
proof fn lemma_weighted_sum_last(z: Seq<int>, a: int)
    requires
        z.len() > 0,
        0 <= a < modulus(),
    ensures
        weighted_sum(z, a) == fadd(
            weighted_sum(z.drop_last(), a),
            fmul(fmul(a, pow2((z.len() - 1) as nat) as int % modulus()), z.last()),
        ),
    decreases z.len(),
{
    let m = modulus();
    if z.len() == 1 {
        vstd::arithmetic::power2::lemma2_to64();
        assert(z.drop_first() =~= Seq::<int>::empty());
        assert(z.drop_last() =~= Seq::<int>::empty());
        crate::field::lemma_canonical_mod(1);
        crate::field::lemma_identities(a);
        crate::field::lemma_results_canonical(a, z[0]);
        crate::field::lemma_identities(fmul(a, z[0]));
        crate::field::lemma_canonical_mod(0);
        assert(pow2(0) == 1);
        assert((z.len() - 1) as nat == 0);
        assert(pow2((z.len() - 1) as nat) as int % m == 1);
        assert(fmul(a, 1) == a);
        assert(weighted_sum(z.drop_first(), fadd(a, a)) == 0);
        assert(weighted_sum(z, a) == fmul(a, z[0]));
        assert(weighted_sum(z.drop_last(), a) == 0);
        assert(z.last() == z[0]);
    } else {
        let a2 = fadd(a, a);
        crate::field::lemma_results_canonical(a, a);
        let zf = z.drop_first();
        lemma_weighted_sum_last(zf, a2);
        assert(zf.drop_last() =~= z.drop_last().drop_first());
        assert(z.drop_last()[0] == z[0]);
        assert(zf.last() == z.last());
        let k1 = (z.len() - 2) as nat;
        lemma_double_weight(a, k1);
        assert(k1 + 1 == (z.len() - 1) as nat);
        let x = fmul(a, z[0]);
        let y = weighted_sum(zf.drop_last(), a2);
        let t = fmul(fmul(a, pow2((z.len() - 1) as nat) as int % m), z.last());
        assert(pow2((k1 + 1) as nat) == pow2((z.len() - 1) as nat));
        assert(fmul(fmul(a2, pow2((zf.len() - 1) as nat) as int % m), zf.last()) == t);
        assert(weighted_sum(zf, a2) == fadd(y, t));
        assert(weighted_sum(z, a) == fadd(x, weighted_sum(zf, a2)));
        assert(weighted_sum(z.drop_last(), a) == fadd(x, y));
        crate::field::lemma_associative(x, y, t);
    }
}

/// The closed form is the identity map's extension: `sum_j 2^j rho_j` is the
/// multilinear extension of `x -> x` at `rho`.
pub proof fn lemma_identity_at_is_the_extension(rho: Seq<int>)
    requires
        rho.len() < 64,
        all_canonical(rho),
    ensures
        mle_eval(identity_table(rho.len()), rho) == identity_value(rho),
{
    let n = rho.len();
    vstd::arithmetic::power2::lemma2_to64();
    crate::field::lemma_canonical_mod(1);
    crate::field::lemma_canonical_mod(0);
    assert(identity_table(n) =~= affine_table(1, 0, n)) by {
        assert forall|x: int| 0 <= x < pow2(n) implies #[trigger] identity_table(n)[x] == affine_table(
            1,
            0,
            n,
        )[x] by {
            if n < 64 {
                vstd::arithmetic::power2::lemma_pow2_strictly_increases(n, 64);
            }
            crate::field::lemma_identities(x);
            crate::field::lemma_canonical_mod(x);
        }
    }
    lemma_affine_eval(1, 0, rho);
    lemma_identity_weighted(rho);
    crate::field::lemma_results_canonical(0, weighted_sum(rho, 1));
    lemma_weighted_sum_canonical(rho, 1);
    crate::field::lemma_identities(weighted_sum(rho, 1));
}

/// The weighted sum is a canonical value.
proof fn lemma_weighted_sum_canonical(z: Seq<int>, a: int)
    ensures
        0 <= weighted_sum(z, a) < modulus(),
    decreases z.len(),
{
    if z.len() > 0 {
        crate::field::lemma_results_canonical(fmul(a, z[0]), weighted_sum(z.drop_first(), fadd(a, a)));
    } else {
        crate::field::lemma_canonical_mod(0);
    }
}

/// `identity_value`, accumulated from the last coordinate, is the weighted
/// sum with unit weight.
proof fn lemma_identity_weighted(z: Seq<int>)
    ensures
        identity_value(z) == weighted_sum(z, 1),
    decreases z.len(),
{
    if z.len() > 0 {
        crate::field::lemma_canonical_mod(1);
        lemma_identity_weighted(z.drop_last());
        lemma_weighted_sum_last(z, 1);
        let p = pow2((z.len() - 1) as nat) as int % modulus();
        vstd::arithmetic::div_mod::lemma_mod_bound(pow2((z.len() - 1) as nat) as int, modulus());
        crate::field::lemma_identities(p);
    }
}

/// The multilinear extension of a compressed table is the compression of
/// the extensions: `v(rho) + beta ids(rho) + gamma`.
pub proof fn lemma_mle_compress(values: Seq<int>, ids: Seq<int>, beta: int, gamma: int, rho: Seq<int>)
    requires
        values.len() == pow2(rho.len()),
        ids.len() == values.len(),
        all_canonical(values),
        all_canonical(ids),
        all_canonical(rho),
        0 <= gamma < modulus(),
    ensures
        mle_eval(compress_table(values, ids, beta, gamma), rho) == fadd(
            fadd(mle_eval(values, rho), fmul(beta, mle_eval(ids, rho))),
            gamma,
        ),
{
    let n = values.len();
    let c = compress_table(values, ids, beta, gamma);
    let e = eq_table(rho);
    assert(all_canonical(c)) by {
        assert forall|k: int| 0 <= k < n implies 0 <= #[trigger] c[k] < modulus() by {
            crate::field::lemma_results_canonical(fadd(values[k], fmul(beta, ids[k])), gamma);
        }
    }
    crate::mle::lemma_mle_eval_sum(c, rho);
    crate::mle::lemma_mle_eval_sum(values, rho);
    crate::mle::lemma_mle_eval_sum(ids, rho);
    let a = Seq::new(n, |k: int| fmul(values[k], e[k]));
    let b = Seq::new(n, |k: int| fmul(ids[k], e[k]));
    let b2 = Seq::new(n, |k: int| fmul(b[k], beta));
    let e2 = Seq::new(n, |k: int| fmul(e[k], gamma));
    let ab = Seq::new(n, |k: int| fadd(a[k], b2[k]));
    crate::sums::lemma_fsum_scale(b, beta);
    crate::sums::lemma_fsum_scale(e, gamma);
    crate::sums::lemma_fsum_add(a, b2);
    crate::sums::lemma_fsum_add(ab, e2);
    crate::eq::lemma_eq_table_sums_to_one(rho);
    assert forall|k: int| 0 <= k < n implies #[trigger] fmul(c[k], e[k]) == fadd(ab[k], e2[k]) by {
        let bi = fmul(beta, ids[k]);
        crate::field::lemma_distributive(e[k], fadd(values[k], bi), gamma);
        crate::field::lemma_distributive(e[k], values[k], bi);
        crate::field::lemma_associative(beta, ids[k], e[k]);
        crate::field::lemma_commutative(beta, fmul(ids[k], e[k]));
        crate::field::lemma_commutative(gamma, e[k]);
    }
    assert(Seq::new(n, |k: int| fmul(c[k], e[k])) =~= Seq::new(ab.len(), |k: int| fadd(ab[k], e2[k])));
    assert(ab =~= Seq::new(a.len(), |k: int| fadd(a[k], b2[k])));
    assert(e.len() == n);
    crate::field::lemma_identities(gamma);
    crate::field::lemma_commutative(crate::sums::fsum(b), beta);
}

/// The image and identity tables hold canonical values.
proof fn lemma_index_tables_canonical(perm: Permutation)
    requires
        perm.well_formed(),
        perm.spec_num_vars() < 64,
    ensures
        all_canonical(image_table(perm)),
        all_canonical(identity_table(perm.spec_num_vars())),
{
    let nv = perm.spec_num_vars();
    vstd::arithmetic::power2::lemma2_to64();
    vstd::arithmetic::power2::lemma2_to64_rest();
    if nv < 64 {
        vstd::arithmetic::power2::lemma_pow2_strictly_increases(nv, 64);
    }
    assert(pow2(64) < modulus());
    assert forall|x: int| 0 <= x < perm@.len() implies 0 <= #[trigger] image_table(perm)[x] < modulus() by {
        assert(perm@[x] < perm@.len());
    }
}

/// `p(rho)` and `q(rho)` as the verifier rebuilds them: from the openings
/// of `f` and `s_sigma`, and from the opening of `g` and `s_id(rho)`.
proof fn lemma_prodperm_compressed_at(
    perm: Permutation,
    ft: Seq<int>,
    gt: Seq<int>,
    beta: int,
    gamma: int,
    rho: Seq<int>,
)
    requires
        perm.well_formed(),
        perm.spec_num_vars() < 64,
        ft.len() == perm@.len(),
        gt.len() == perm@.len(),
        rho.len() == perm.spec_num_vars(),
        all_canonical(ft),
        all_canonical(gt),
        all_canonical(rho),
        0 <= gamma < modulus(),
    ensures
        mle_eval(compress_table(ft, image_table(perm), beta, gamma), rho) == fadd(
            fadd(mle_eval(ft, rho), fmul(beta, mle_eval(image_table(perm), rho))),
            gamma,
        ),
        mle_eval(compress_table(gt, identity_table(perm.spec_num_vars()), beta, gamma), rho) == fadd(
            fadd(mle_eval(gt, rho), fmul(beta, identity_value(rho))),
            gamma,
        ),
{
    let nv = perm.spec_num_vars();
    lemma_index_tables_canonical(perm);
    lemma_mle_compress(ft, image_table(perm), beta, gamma, rho);
    lemma_mle_compress(gt, identity_table(nv), beta, gamma, rho);
    lemma_identity_at_is_the_extension(rho);
}

/// Completeness of ProdPerm. When `g(sigma(x)) = f(x)` on the cube and the
/// commitment scheme verifies its own honest openings, a proof that `prove`
/// makes from the index that `index` makes is accepted by `verify` on the
/// same transcript, which it leaves as the prover left it.
pub proof fn lemma_prodperm_complete<P: PolynomialCommitment>(
    pk: &P::ProverKey,
    vk: &P::VerifierKey,
    perm: Permutation,
    pi: ProdPermProverIndex<P>,
    vi: ProdPermVerifierIndex<P>,
    f: DenseMle,
    g: DenseMle,
    log: Seq<TranscriptOp>,
    proof: ProdPermProof<P>,
    final_log: Seq<TranscriptOp>,
)
    requires
        crate::pcs::openings_verify::<P>(pk, vk),
        perm.well_formed(),
        perm.spec_num_vars() < 64,
        index_made::<P>(pk, perm, pi, vi),
        f.well_formed(),
        g.well_formed(),
        f.num_vars == perm.spec_num_vars(),
        g.num_vars == perm.spec_num_vars(),
        forall|x: int| 0 <= x < perm@.len() ==> g.table()[perm@[x] as int] == #[trigger] f.table()[x],
        proof_made::<P>(pk, pi, f, g, log, proof, final_log),
    ensures
        verify_result(vk, vi, proof, log) == (Ok::<(), ProdPermError<P::Error>>(()), final_log),
{
    let nv = perm.spec_num_vars();
    let ft = f.table();
    let gt = g.table();
    let log3 = absorb_commitments(
        log,
        pi.sigma_commit.canonical_bytes(),
        proof.f_commit.canonical_bytes(),
        proof.g_commit.canonical_bytes(),
    );
    let beta = beta_of(log3);
    let gamma = gamma_of(log3);
    let p = compress_table(ft, image_table(perm), beta, gamma);
    let q = compress_table(gt, identity_table(nv), beta, gamma);
    let v = tree_table(tree_leaves(p, q));
    let log4 = after_message(after_beta_gamma(log3), "v_commit"@, proof.v_commit.canonical_bytes());
    let alpha = challenge_value(log4, "prodcheck_alpha"@);
    let log5 = after_challenge(log4, "prodcheck_alpha"@);
    let zr = challenge_values(log5, "zerocheck_r"@, nv);
    let tables = check_tables(v, p, q);
    let (polys, rho, log6) = prove_rounds(
        tables.push(eq_table(zr)),
        with_factor(check_terms(alpha), 6),
        3,
        nv,
        after_challenges(log5, "zerocheck_r"@, nv),
    );
    // Canonical challenges and tables.
    crate::transcript::lemma_challenge_values_canonical(log3, "beta"@, 1);
    crate::transcript::lemma_challenge_values_canonical(after_challenge(log3, "beta"@), "gamma"@, 1);
    crate::transcript::lemma_challenge_values_canonical(log4, "prodcheck_alpha"@, 1);
    assert(crate::transcript::challenge_values(after_challenge(log3, "beta"@), "gamma"@, 1)[0] == gamma);
    assert(crate::transcript::challenge_values(log4, "prodcheck_alpha"@, 1)[0] == alpha);
    crate::field::lemma_vals_canonical(f.evaluations@);
    crate::field::lemma_vals_canonical(g.evaluations@);
    lemma_index_tables_canonical(perm);
    assert(all_canonical(p)) by {
        assert forall|k: int| 0 <= k < p.len() implies 0 <= #[trigger] p[k] < modulus() by {
            crate::field::lemma_results_canonical(fadd(ft[k], fmul(beta, image_table(perm)[k])), gamma);
        }
    }
    assert(all_canonical(q)) by {
        assert forall|k: int| 0 <= k < q.len() implies 0 <= #[trigger] q[k] < modulus() by {
            crate::field::lemma_results_canonical(fadd(gt[k], fmul(beta, identity_table(nv)[k])), gamma);
        }
    }
    // The product check's zerocheck accepts.
    prodcheck::lemma_prodcheck_complete(p, q, nv, log4);
    crate::sumcheck::lemma_prove_rounds_len(
        tables.push(eq_table(zr)),
        with_factor(check_terms(alpha), 6),
        3,
        nv,
        after_challenges(log5, "zerocheck_r"@, nv),
    );
    crate::completeness::lemma_prove_rounds_canonical(
        tables.push(eq_table(zr)),
        with_factor(check_terms(alpha), 6),
        3,
        nv,
        after_challenges(log5, "zerocheck_r"@, nv),
    );
    // The eight openings verify, in order.
    assert(check_openings(vk, vi, proof, rho, log6).0 is Ok);
    assert(check_openings(vk, vi, proof, rho, log6).1 == final_log);
    // The root is one.
    lemma_consistent_root_is_one(perm, ft, gt, beta, gamma);
    assert(all_canonical(tree_leaves(p, q))) by {
        let leaves = tree_leaves(p, q);
        assert forall|i: int| 0 <= i < leaves.len() implies 0 <= #[trigger] leaves[i] < modulus() by {
            crate::field::lemma_results_canonical(finv(q[i]), p[i]);
        }
    }
    prodcheck::lemma_tree_canonical(tree_leaves(p, q));
    prodcheck::lemma_points_partial_evals(v, rho);
    // The final check.
    lemma_prodperm_compressed_at(perm, ft, gt, beta, gamma, rho);
}

/// ProdPerm with Hyrax: an honest proof verifies, for keys that share their
/// generators, when the multi-scalar multiplication is linear over them.
pub proof fn lemma_prodperm_complete_hyrax(
    pk: &crate::hyrax::HyraxKey,
    vk: &crate::hyrax::HyraxKey,
    perm: Permutation,
    pi: ProdPermProverIndex<crate::hyrax::Hyrax>,
    vi: ProdPermVerifierIndex<crate::hyrax::Hyrax>,
    f: DenseMle,
    g: DenseMle,
    log: Seq<TranscriptOp>,
    proof: ProdPermProof<crate::hyrax::Hyrax>,
    final_log: Seq<TranscriptOp>,
)
    requires
        pk.generators@ == vk.generators@,
        crate::hyrax::msm_linear(vk.generators@),
        perm.well_formed(),
        perm.spec_num_vars() < 64,
        index_made::<crate::hyrax::Hyrax>(pk, perm, pi, vi),
        f.well_formed(),
        g.well_formed(),
        f.num_vars == perm.spec_num_vars(),
        g.num_vars == perm.spec_num_vars(),
        forall|x: int| 0 <= x < perm@.len() ==> g.table()[perm@[x] as int] == #[trigger] f.table()[x],
        proof_made::<crate::hyrax::Hyrax>(pk, pi, f, g, log, proof, final_log),
    ensures
        verify_result(vk, vi, proof, log) == (Ok::<(), ProdPermError<crate::hyrax::HyraxError>>(()), final_log),
{
    crate::hyrax::lemma_hyrax_openings_verify(pk, vk);
    lemma_prodperm_complete::<crate::hyrax::Hyrax>(pk, vk, perm, pi, vi, f, g, log, proof, final_log);
}

/// Opening `k` of the proof: `f`, `g`, `s_sigma` at `rho`, then `v` at the
/// bottom, top, left, right and root points, in the order they are checked.
pub open spec fn opening_at<P: PolynomialCommitment>(proof: ProdPermProof<P>, k: int) -> Opening<P> {
    if k == 0 {
        proof.f
    } else if k == 1 {
        proof.g
    } else if k == 2 {
        proof.sigma
    } else if k == 3 {
        proof.v_bot
    } else if k == 4 {
        proof.v_top
    } else if k == 5 {
        proof.v_left
    } else if k == 6 {
        proof.v_right
    } else {
        proof.v_root
    }
}

/// The proof with the value of opening `k` (in the order of `opening_at`)
/// replaced by `w`.
pub open spec fn forge_opening<P: PolynomialCommitment>(proof: ProdPermProof<P>, k: int, w: Fe) -> ProdPermProof<P> {
    let o = Opening::<P> { value: w, proof: opening_at(proof, k).proof };
    if k == 0 {
        ProdPermProof { f: o, ..proof }
    } else if k == 1 {
        ProdPermProof { g: o, ..proof }
    } else if k == 2 {
        ProdPermProof { sigma: o, ..proof }
    } else if k == 3 {
        ProdPermProof { v_bot: o, ..proof }
    } else if k == 4 {
        ProdPermProof { v_top: o, ..proof }
    } else if k == 5 {
        ProdPermProof { v_left: o, ..proof }
    } else if k == 6 {
        ProdPermProof { v_right: o, ..proof }
    } else {
        ProdPermProof { v_root: o, ..proof }
    }
}

/// ProdPerm accepts only when the zerocheck sumcheck from zero passes with
/// point `rho` and final claim `c`, all eight openings verify, the root of
/// the product tree opens to one, and
/// `eq(r, rho) * ((v_top - v_left * v_right) + alpha * (v_bot * q(rho) - p(rho)))`
/// equals `c`, where `p(rho) = f(rho) + beta * s_sigma(rho) + gamma` and
/// `q(rho) = g(rho) + beta * s_id(rho) + gamma` are rebuilt from the
/// openings. When all the rest passes but that value differs from `c`, it
/// refuses with `FinalCheckFailed`.
pub proof fn lemma_prodperm_final_check<P: PolynomialCommitment>(
    vk: &P::VerifierKey,
    index: ProdPermVerifierIndex<P>,
    proof: ProdPermProof<P>,
    log: Seq<TranscriptOp>,
)
    ensures
        ({
            let nv = index.num_vars as nat;
            let log3 = absorb_commitments(
                log,
                index.sigma_commit.canonical_bytes(),
                proof.f_commit.canonical_bytes(),
                proof.g_commit.canonical_bytes(),
            );
            let beta = beta_of(log3);
            let gamma = gamma_of(log3);
            let log4 = after_message(
                after_beta_gamma(log3),
                "v_commit"@,
                proof.v_commit.canonical_bytes(),
            );
            let alpha = challenge_value(log4, "prodcheck_alpha"@);
            let log5 = after_challenge(log4, "prodcheck_alpha"@);
            let zr = challenge_values(log5, "zerocheck_r"@, nv);
            let sc = verify_spec(
                0,
                nv,
                3,
                polys_values(proof.sumcheck.round_polys@),
                after_challenges(log5, "zerocheck_r"@, nv),
            );
            let rho = sc.0->Ok_0.0;
            let claim = sc.0->Ok_0.1;
            let opened = check_openings(vk, index, proof, rho, sc.1).0;
            let p_at = fadd(fadd(proof.f.value.v(), fmul(beta, proof.sigma.value.v())), gamma);
            let q_at = fadd(fadd(proof.g.value.v(), fmul(beta, identity_value(rho))), gamma);
            let lhs = fmul(
                eq_value(zr, rho),
                fadd(
                    fsub(proof.v_top.value.v(), fmul(proof.v_left.value.v(), proof.v_right.value.v())),
                    fmul(alpha, fsub(fmul(proof.v_bot.value.v(), q_at), p_at)),
                ),
            );
            let rest_passes = sc.0 is Ok && opened is Ok && proof.v_root.value.v() == 1;
            &&& verify_result(vk, index, proof, log).0 is Ok ==> rest_passes && lhs == claim
            &&& rest_passes && lhs != claim ==> verify_result(vk, index, proof, log).0 == Err::<
                (),
                ProdPermError<P::Error>,
            >(ProdPermError::FinalCheckFailed)
        }),
{
}

/// ProdPerm refuses an honest proof with the value of any one of its eight
/// openings forged, with the opening-verification error, whatever the
/// challenges, for a scheme that verifies honest openings and refuses wrong
/// values.
pub proof fn lemma_prodperm_rejects_forged_opening<P: PolynomialCommitment>(
    pk: &P::ProverKey,
    vk: &P::VerifierKey,
    perm: Permutation,
    pi: ProdPermProverIndex<P>,
    vi: ProdPermVerifierIndex<P>,
    f: DenseMle,
    g: DenseMle,
    log: Seq<TranscriptOp>,
    proof: ProdPermProof<P>,
    final_log: Seq<TranscriptOp>,
    k: int,
    w: Fe,
)
    requires
        crate::pcs::openings_verify::<P>(pk, vk),
        crate::pcs::wrong_values_refused::<P>(pk, vk),
        perm.well_formed(),
        perm.spec_num_vars() < 64,
        index_made::<P>(pk, perm, pi, vi),
        f.well_formed(),
        g.well_formed(),
        f.num_vars == perm.spec_num_vars(),
        g.num_vars == perm.spec_num_vars(),
        forall|x: int| 0 <= x < perm@.len() ==> g.table()[perm@[x] as int] == #[trigger] f.table()[x],
        proof_made::<P>(pk, pi, f, g, log, proof, final_log),
        0 <= k < 8,
        w.v() != opening_at(proof, k).value.v(),
    ensures
        verify_result(vk, vi, forge_opening(proof, k, w), log).0 == Err::<(), ProdPermError<P::Error>>(
            ProdPermError::PcsVerifyFailed,
        ),
{
    let nv = perm.spec_num_vars();
    let ft = f.table();
    let gt = g.table();
    let log3 = absorb_commitments(
        log,
        pi.sigma_commit.canonical_bytes(),
        proof.f_commit.canonical_bytes(),
        proof.g_commit.canonical_bytes(),
    );
    let beta = beta_of(log3);
    let gamma = gamma_of(log3);
    let p = compress_table(ft, image_table(perm), beta, gamma);
    let q = compress_table(gt, identity_table(nv), beta, gamma);
    let v = tree_table(tree_leaves(p, q));
    let log4 = after_message(after_beta_gamma(log3), "v_commit"@, proof.v_commit.canonical_bytes());
    let alpha = challenge_value(log4, "prodcheck_alpha"@);
    let log5 = after_challenge(log4, "prodcheck_alpha"@);
    let zr = challenge_values(log5, "zerocheck_r"@, nv);
    let tables = check_tables(v, p, q);
    let (polys, rho, log6) = prove_rounds(
        tables.push(eq_table(zr)),
        with_factor(check_terms(alpha), 6),
        3,
        nv,
        after_challenges(log5, "zerocheck_r"@, nv),
    );
    // Canonical challenges and tables.
    crate::transcript::lemma_challenge_values_canonical(log3, "beta"@, 1);
    crate::transcript::lemma_challenge_values_canonical(after_challenge(log3, "beta"@), "gamma"@, 1);
    crate::transcript::lemma_challenge_values_canonical(log4, "prodcheck_alpha"@, 1);
    assert(crate::transcript::challenge_values(after_challenge(log3, "beta"@), "gamma"@, 1)[0] == gamma);
    assert(crate::transcript::challenge_values(log4, "prodcheck_alpha"@, 1)[0] == alpha);
    crate::field::lemma_vals_canonical(f.evaluations@);
    crate::field::lemma_vals_canonical(g.evaluations@);
    lemma_index_tables_canonical(perm);
    assert(all_canonical(p)) by {
        assert forall|k: int| 0 <= k < p.len() implies 0 <= #[trigger] p[k] < modulus() by {
            crate::field::lemma_results_canonical(fadd(ft[k], fmul(beta, image_table(perm)[k])), gamma);
        }
    }
    assert(all_canonical(q)) by {
        assert forall|k: int| 0 <= k < q.len() implies 0 <= #[trigger] q[k] < modulus() by {
            crate::field::lemma_results_canonical(fadd(gt[k], fmul(beta, identity_table(nv)[k])), gamma);
        }
    }
    // The product check's zerocheck accepts.
    prodcheck::lemma_prodcheck_complete(p, q, nv, log4);
    crate::sumcheck::lemma_prove_rounds_len(
        tables.push(eq_table(zr)),
        with_factor(check_terms(alpha), 6),
        3,
        nv,
        after_challenges(log5, "zerocheck_r"@, nv),
    );
    crate::completeness::lemma_prove_rounds_canonical(
        tables.push(eq_table(zr)),
        with_factor(check_terms(alpha), 6),
        3,
        nv,
        after_challenges(log5, "zerocheck_r"@, nv),
    );
    let forged = forge_opening(proof, k, w);
    crate::field::lemma_value_range(w);
    assert(all_canonical(tree_leaves(p, q))) by {
        let leaves = tree_leaves(p, q);
        assert forall|i: int| 0 <= i < leaves.len() implies 0 <= #[trigger] leaves[i] < modulus() by {
            crate::field::lemma_results_canonical(finv(q[i]), p[i]);
        }
    }
    prodcheck::lemma_tree_canonical(tree_leaves(p, q));
    vstd::arithmetic::power2::lemma_pow2_unfold(nv + 1);
    lemma_forged_check::<P>(pk, vk, vi, proof, forged, k, w, ft, gt, image_table(perm), v, rho, log6, nv);
}

/// The opening checks after the product check, on a proof whose opening
/// `k` alone carries a wrong value: the first `k` pass and check `k` fails.
proof fn lemma_forged_check<P: PolynomialCommitment>(
    pk: &P::ProverKey,
    vk: &P::VerifierKey,
    vi: ProdPermVerifierIndex<P>,
    proof: ProdPermProof<P>,
    forged: ProdPermProof<P>,
    k: int,
    w: Fe,
    ft: Seq<int>,
    gt: Seq<int>,
    st: Seq<int>,
    v: Seq<int>,
    rho: Seq<int>,
    log6: Seq<TranscriptOp>,
    nv: nat,
)
    requires
        crate::pcs::openings_verify::<P>(pk, vk),
        crate::pcs::wrong_values_refused::<P>(pk, vk),
        0 <= k < 8,
        0 <= w.v() < modulus(),
        w.v() != opening_at(proof, k).value.v(),
        forged == forge_opening(proof, k, w),
        rho.len() == nv,
        all_canonical(rho),
        ft.len() == pow2(nv) && gt.len() == pow2(nv) && st.len() == pow2(nv),
        v.len() == pow2(nv + 1),
        all_canonical(ft) && all_canonical(gt) && all_canonical(st) && all_canonical(v),
        P::commits_to(pk, ft, nv, P::view_of(proof.f_commit)),
        P::commits_to(pk, gt, nv, P::view_of(proof.g_commit)),
        P::commits_to(pk, st, nv, P::view_of(vi.sigma_commit)),
        P::commits_to(pk, v, nv + 1, P::view_of(proof.v_commit)),
        proof.f.value.v() == mle_eval(ft, rho),
        P::is_honest_proof(pk, ft, nv, rho, proof.f.proof),
        proof.g.value.v() == mle_eval(gt, rho),
        P::is_honest_proof(pk, gt, nv, rho, proof.g.proof),
        proof.sigma.value.v() == mle_eval(st, rho),
        P::is_honest_proof(pk, st, nv, rho, proof.sigma.proof),
        proof.v_bot.value.v() == mle_eval(v, with_last(rho, 0)),
        P::is_honest_proof(pk, v, nv + 1, with_last(rho, 0), proof.v_bot.proof),
        proof.v_top.value.v() == mle_eval(v, with_last(rho, 1)),
        P::is_honest_proof(pk, v, nv + 1, with_last(rho, 1), proof.v_top.proof),
        proof.v_left.value.v() == mle_eval(v, with_first(rho, 0)),
        P::is_honest_proof(pk, v, nv + 1, with_first(rho, 0), proof.v_left.proof),
        proof.v_right.value.v() == mle_eval(v, with_first(rho, 1)),
        P::is_honest_proof(pk, v, nv + 1, with_first(rho, 1), proof.v_right.proof),
        proof.v_root.value.v() == mle_eval(v, root_point(nv)),
        P::is_honest_proof(pk, v, nv + 1, root_point(nv), proof.v_root.proof),
    ensures
        check_openings(vk, vi, forged, rho, log6).0 == Err::<(), ProdPermError<P::Error>>(
            ProdPermError::PcsVerifyFailed,
        ),
{
    let l0 = with_last(rho, 0);
    let l1 = with_last(rho, 1);
    let f0 = with_first(rho, 0);
    let f1 = with_first(rho, 1);
    let rt = root_point(nv);
    assert(all_canonical(l0)) by {
        assert forall|j: int| 0 <= j < l0.len() implies 0 <= #[trigger] l0[j] < modulus() by {}
    }
    assert(all_canonical(l1)) by {
        assert forall|j: int| 0 <= j < l1.len() implies 0 <= #[trigger] l1[j] < modulus() by {}
    }
    assert(all_canonical(f0)) by {
        assert forall|j: int| 0 <= j < f0.len() implies 0 <= #[trigger] f0[j] < modulus() by {
            if j > 0 { assert(f0[j] == rho[j - 1]); }
        }
    }
    assert(all_canonical(f1)) by {
        assert forall|j: int| 0 <= j < f1.len() implies 0 <= #[trigger] f1[j] < modulus() by {
            if j > 0 { assert(f1[j] == rho[j - 1]); }
        }
    }
    assert(all_canonical(rt)) by {
        assert forall|j: int| 0 <= j < rt.len() implies 0 <= #[trigger] rt[j] < modulus() by {}
    }
    let vc = P::view_of(forged.v_commit);
    let c_f = check_outcome(vk, P::view_of(forged.f_commit), rho, forged.f, log6);
    let c_g = then_check(c_f, vk, P::view_of(forged.g_commit), rho, forged.g);
    let c_s = then_check(c_g, vk, P::view_of(vi.sigma_commit), rho, forged.sigma);
    let c_bot = then_check(c_s, vk, vc, l0, forged.v_bot);
    let c_top = then_check(c_bot, vk, vc, l1, forged.v_top);
    let c_left = then_check(c_top, vk, vc, f0, forged.v_left);
    let c_right = then_check(c_left, vk, vc, f1, forged.v_right);
    let c_root = then_check(c_right, vk, vc, rt, forged.v_root);
    if k > 0 {
        lemma_honest_check::<P>(pk, vk, ft, nv, rho, P::view_of(forged.f_commit), forged.f, log6);
    }
    if k > 1 {
        lemma_honest_check::<P>(pk, vk, gt, nv, rho, P::view_of(forged.g_commit), forged.g, c_f.1);
    }
    if k > 2 {
        lemma_honest_check::<P>(pk, vk, st, nv, rho, P::view_of(vi.sigma_commit), forged.sigma, c_g.1);
    }
    if k > 3 {
        lemma_honest_check::<P>(pk, vk, v, nv + 1, l0, vc, forged.v_bot, c_s.1);
    }
    if k > 4 {
        lemma_honest_check::<P>(pk, vk, v, nv + 1, l1, vc, forged.v_top, c_bot.1);
    }
    if k > 5 {
        lemma_honest_check::<P>(pk, vk, v, nv + 1, f0, vc, forged.v_left, c_top.1);
    }
    if k > 6 {
        lemma_honest_check::<P>(pk, vk, v, nv + 1, f1, vc, forged.v_right, c_left.1);
    }
    if k == 0 {
        assert(c_f.0 == Err::<(), ProdPermError<P::Error>>(ProdPermError::PcsVerifyFailed));
    } else if k == 1 {
        assert(c_g.0 == Err::<(), ProdPermError<P::Error>>(ProdPermError::PcsVerifyFailed));
    } else if k == 2 {
        assert(c_s.0 == Err::<(), ProdPermError<P::Error>>(ProdPermError::PcsVerifyFailed));
    } else if k == 3 {
        assert(c_bot.0 == Err::<(), ProdPermError<P::Error>>(ProdPermError::PcsVerifyFailed));
    } else if k == 4 {
        assert(c_top.0 == Err::<(), ProdPermError<P::Error>>(ProdPermError::PcsVerifyFailed));
    } else if k == 5 {
        assert(c_left.0 == Err::<(), ProdPermError<P::Error>>(ProdPermError::PcsVerifyFailed));
    } else if k == 6 {
        assert(c_right.0 == Err::<(), ProdPermError<P::Error>>(ProdPermError::PcsVerifyFailed));
    } else {
        assert(c_root.0 == Err::<(), ProdPermError<P::Error>>(ProdPermError::PcsVerifyFailed));
    }
}

/// An honest opening of a committed table passes its check.
proof fn lemma_honest_check<P: PolynomialCommitment>(
    pk: &P::ProverKey,
    vk: &P::VerifierKey,
    table: Seq<int>,
    nv: nat,
    point: Seq<int>,
    c: P::CommitmentView,
    o: Opening<P>,
    log: Seq<TranscriptOp>,
)
    requires
        crate::pcs::openings_verify::<P>(pk, vk),
        P::commits_to(pk, table, nv, c),
        P::is_honest_proof(pk, table, nv, point, o.proof),
        o.value.v() == mle_eval(table, point),
    ensures
        check_outcome(vk, c, point, o, log).0 is Ok,
{
    let _ = P::open_log(pk, table, nv, point, log);
}

} // verus!
