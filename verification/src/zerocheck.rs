//! Zerocheck: prove that a constraint `C(x) = sum_i c_i prod_k g_{i,k}(x)`
//! vanishes on all of `B_mu`. A random point `r` is drawn, and the claim
//! becomes the sumcheck `sum_x eq(r, x) * C(x) = 0`.

use crate::eq::{eq, eq_eval_table, eq_table, eq_value};
use crate::field::{vals, Fe};
use crate::mle::DenseMle;
use crate::sumcheck::{
    self, factor_tables, factors_consistent, max_factors, polys_values,
    prove_rounds, term_views, terms_in_range, verify_spec, SumcheckError, SumcheckProof,
    SumcheckProverOutput, Term,
};
use crate::transcript::{after_challenges, challenge_values, Transcript};
use vstd::prelude::*;

verus! {

/// What a successful zerocheck verification hands back: the sumcheck point
/// `rho`, `eq(r, rho)` for the zerocheck point `r`, and the sumcheck's final
/// claim, which must equal `eq(r, rho) * C(rho)`.
#[derive(Debug, Clone, PartialEq, Eq)]
pub struct ZerocheckOutput {
    pub challenges: Vec<Fe>,
    pub eq_eval: Fe,
    pub final_claim: Fe,
}

/// Each term with the factor `idx` multiplied in.
pub open spec fn with_factor(terms: Seq<(int, Seq<usize>)>, idx: usize) -> Seq<(int, Seq<usize>)> {
    terms.map_values(|t: (int, Seq<usize>)| (t.0, t.1.push(idx)))
}

/// Multiplying one more factor into every term raises the degree by one.
pub proof fn lemma_max_factors_with_factor(terms: Seq<(int, Seq<usize>)>, idx: usize)
    requires
        terms.len() > 0,
    ensures
        max_factors(with_factor(terms, idx)) == max_factors(terms) + 1,
    decreases terms.len(),
{
    let w = with_factor(terms, idx);
    assert(w.drop_last() =~= with_factor(terms.drop_last(), idx));
    assert(w.last() == (terms.last().0, terms.last().1.push(idx)));
    if terms.len() > 1 {
        lemma_max_factors_with_factor(terms.drop_last(), idx);
    } else {
        assert(max_factors(terms.drop_last()) == 0);
        assert(max_factors(w.drop_last()) == 0);
    }
}

/// Prove that the constraint of `terms` over `factors` vanishes on `B_mu`:
/// draw `r`, multiply the table of `eq(r, .)` into every term as one more
/// factor, and run the sumcheck on it.
pub fn prove(factors: &[DenseMle], terms: &[Term], transcript: &mut Transcript) -> (out:
    SumcheckProverOutput)
    requires
        factors_consistent(factors@),
        factors@.len() < usize::MAX,
        terms@.len() > 0,
        terms_in_range(term_views(terms@), factors@.len()),
        1 <= max_factors(term_views(terms@)) < usize::MAX - 1,
        32 * (max_factors(term_views(terms@)) + 2) <= u32::MAX,
    ensures
        ({
            let nv = factors@[0].num_vars as nat;
            let r = challenge_values(old(transcript)@, "zerocheck_r"@, nv);
            let (polys, chals, log) = prove_rounds(
                factor_tables(factors@).push(eq_table(r)),
                with_factor(term_views(terms@), factors@.len() as usize),
                max_factors(term_views(terms@)) + 1,
                nv,
                after_challenges(old(transcript)@, "zerocheck_r"@, nv),
            );
            &&& polys_values(out.proof.round_polys@) == polys
            &&& vals(out.challenges@) == chals
            &&& final(transcript)@ == log
        }),
{
    let num_vars = factors[0].num_vars;
    proof {
        assert(factors@[0].well_formed());
    }
    let r = transcript.challenge_vec("zerocheck_r", num_vars);
    let eq_mle = DenseMle::from_evaluations_vec(num_vars, eq_eval_table(r.as_slice()));
    let mut all: Vec<DenseMle> = Vec::new();
    let mut i: usize = 0;
    while i < factors.len()
        invariant
            i <= factors@.len(),
            all@.len() == i,
            forall|j: int|
                0 <= j < i ==> (#[trigger] all@[j]).evaluations@ == factors@[j].evaluations@
                    && all@[j].num_vars == factors@[j].num_vars,
        decreases factors@.len() - i,
    {
        all.push(factors[i].clone());
        i = i + 1;
    }
    let eq_idx = all.len();
    all.push(eq_mle);
    let mut eq_terms: Vec<Term> = Vec::new();
    let mut t: usize = 0;
    while t < terms.len()
        invariant
            t <= terms@.len(),
            eq_terms@.len() == t,
            eq_idx == factors@.len(),
            forall|j: int|
                0 <= j < t ==> (#[trigger] eq_terms@[j]).coeff == terms@[j].coeff
                    && eq_terms@[j].factors@ == terms@[j].factors@.push(eq_idx),
        decreases terms@.len() - t,
    {
        let mut fs: Vec<usize> = Vec::new();
        let mut k: usize = 0;
        while k < terms[t].factors.len()
            invariant
                t < terms@.len(),
                k <= terms@[t as int].factors@.len(),
                fs@ == terms@[t as int].factors@.take(k as int),
            decreases terms@[t as int].factors@.len() - k,
        {
            fs.push(terms[t].factors[k]);
            k = k + 1;
            proof {
                assert(fs@ =~= terms@[t as int].factors@.take(k as int));
            }
        }
        proof {
            assert(terms@[t as int].factors@.take(k as int) =~= terms@[t as int].factors@);
        }
        fs.push(eq_idx);
        eq_terms.push(Term { coeff: terms[t].coeff, factors: fs });
        t = t + 1;
    }
    proof {
        let tw = term_views(terms@);
        let ew = term_views(eq_terms@);
        assert(ew =~= with_factor(tw, eq_idx));
        lemma_max_factors_with_factor(tw, eq_idx);
        assert(factor_tables(all@) =~= factor_tables(factors@).push(eq_table(vals(r@))));
        assert forall|i: int| 0 <= i < all@.len() implies (#[trigger] all@[i]).well_formed()
            && all@[i].num_vars == all@[0].num_vars by {
            if i < factors@.len() {
                assert(factors@[i].well_formed());
            }
        }
        assert forall|a: int, k: int|
            0 <= a < ew.len() && 0 <= k < ew[a].1.len() implies #[trigger] ew[a].1[k]
            < all@.len() by {
            if k < tw[a].1.len() {
                assert(ew[a].1[k] == tw[a].1[k]);
            }
        }
    }
    sumcheck::prove_terms(all.as_slice(), eq_terms.as_slice(), transcript)
}

/// Verify a zerocheck proof for a constraint of degree `degree` (the `eq`
/// factor is counted here): draw the same `r`, verify the sumcheck against
/// claim zero, and hand back `eq(r, rho)` for the caller's final check.
pub fn verify(num_vars: usize, degree: usize, proof: &SumcheckProof, transcript: &mut Transcript) -> (res:
    Result<ZerocheckOutput, SumcheckError>)
    requires
        degree < usize::MAX - 1,
        32 * (degree + 2) <= u32::MAX,
    ensures
        ({
            let r = challenge_values(old(transcript)@, "zerocheck_r"@, num_vars as nat);
            let (spec_res, spec_log) = verify_spec(
                0,
                num_vars as nat,
                (degree + 1) as nat,
                polys_values(proof.round_polys@),
                after_challenges(old(transcript)@, "zerocheck_r"@, num_vars as nat),
            );
            &&& final(transcript)@ == spec_log
            &&& res is Ok <==> spec_res is Ok
            &&& res matches Ok(out) ==> spec_res == Ok::<(Seq<int>, int), SumcheckError>(
                (vals(out.challenges@), out.final_claim.v()),
            ) && out.eq_eval.v() == eq_value(r, vals(out.challenges@))
            &&& res matches Err(e) ==> spec_res == Err::<(Seq<int>, int), SumcheckError>(e)
        }),
{
    let r = transcript.challenge_vec("zerocheck_r", num_vars);
    let zero = Fe::zero();
    match sumcheck::verify(zero, num_vars, degree + 1, proof, transcript) {
        Ok(out) => {
            proof {
                sumcheck::lemma_verify_challenges_len(
                    0,
                    polys_values(proof.round_polys@),
                    (degree + 1) as nat,
                    0,
                    after_challenges(old(transcript)@, "zerocheck_r"@, num_vars as nat),
                    Seq::empty(),
                );
            }
            let eq_eval = eq(r.as_slice(), out.challenges.as_slice());
            Ok(ZerocheckOutput { challenges: out.challenges, eq_eval, final_claim: out.final_claim })
        },
        Err(e) => Err(e),
    }
}

} // verus!
