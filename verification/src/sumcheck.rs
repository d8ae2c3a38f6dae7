//! Sumcheck for sums of products of multilinear polynomials.
//!
//! Reduces the claim `T = sum_{x in B_mu} sum_i c_i prod_k g_{i,k}(x)` to one
//! evaluation claim at a random point `r`. Each round's univariate
//! polynomial of degree `d` travels as its evaluations at `0, 1, ..., d`.

use crate::field::{
    fadd, finv, fmul, fsub, lemma_inverse_unique, lemma_value_range, le_bytes, modulus, vals, Fe,
};
use crate::mle::{copy_values, fold_first, DenseMle};
use vstd::arithmetic::power2::*;
use crate::transcript::{
    after_challenge, after_message, challenge_value, concat_bytes, CanonicalBytes, Transcript,
    TranscriptOp,
};
use vstd::prelude::*;

verus! {

/// Errors produced by the sumcheck verifier.
#[derive(Debug, Clone, Copy, PartialEq, Eq, Structural)]
pub enum SumcheckError {
    /// The proof has the wrong number of rounds for `num_vars`.
    WrongNumRounds { expected: usize, got: usize },
    /// A round polynomial has the wrong number of evaluations for the
    /// declared degree.
    MalformedRoundPoly { round: usize, expected: usize, got: usize },
    /// `s_i(0) + s_i(1)` did not match the previous round's claim.
    RoundCheckFailed { round: usize },
}

/// The prover's messages: `round_polys[i]` holds round `i`'s polynomial as
/// its evaluations at `0, 1, ..., degree`.
#[derive(Debug, Clone, PartialEq, Eq)]
pub struct SumcheckProof {
    pub round_polys: Vec<Vec<Fe>>,
}

/// The proof plus the challenge point.
#[derive(Debug, Clone, PartialEq, Eq)]
pub struct SumcheckProverOutput {
    pub proof: SumcheckProof,
    pub challenges: Vec<Fe>,
}

/// What a successful verification hands back: the random point and the
/// value the proved expression must take there.
#[derive(Debug, Clone, PartialEq, Eq)]
pub struct SumcheckOutput {
    pub challenges: Vec<Fe>,
    pub final_claim: Fe,
}

/// One product term `coeff * prod_k g_{factors[k]}`, its factors given by
/// index into a shared slice.
#[derive(Debug, Clone, PartialEq, Eq)]
pub struct Term {
    pub coeff: Fe,
    pub factors: Vec<usize>,
}

/// The 32-byte encodings of the values, one after the other.
pub open spec fn values_bytes(s: Seq<int>) -> Seq<u8>
    decreases s.len(),
{
    if s.len() == 0 {
        Seq::empty()
    } else {
        values_bytes(s.drop_last()) + le_bytes(s.last(), 32)
    }
}

/// The round polynomials' values.
pub open spec fn polys_values(polys: Seq<Vec<Fe>>) -> Seq<Seq<int>> {
    polys.map_values(|p: Vec<Fe>| vals(p@))
}

/// The product of `prod_{j < k, j != i} (x - j)`, in loop order.
pub open spec fn lagrange_product(x: int, i: int, k: nat) -> int
    decreases k,
{
    if k == 0 {
        1
    } else if k - 1 == i {
        lagrange_product(x, i, (k - 1) as nat)
    } else {
        fmul(lagrange_product(x, i, (k - 1) as nat), fsub(x, k - 1))
    }
}

/// The inverse of `d`, with zero for zero. In the prime field every
/// Lagrange denominator over the nodes `0..n` is a product of nonzero
/// differences and so is never zero; the zero case keeps evaluation total.
pub open spec fn inv_or_zero(d: int) -> int {
    if d == 0 {
        0
    } else {
        finv(d)
    }
}

/// The first `k` terms of the Lagrange interpolation through
/// `(j, e[j])`, evaluated at `r`.
pub open spec fn lagrange_partial(e: Seq<int>, r: int, k: nat) -> int
    decreases k,
{
    if k == 0 {
        0
    } else {
        let i = k - 1;
        fadd(
            lagrange_partial(e, r, (k - 1) as nat),
            fmul(
                fmul(e[i], lagrange_product(r, i, e.len())),
                inv_or_zero(lagrange_product(i, i, e.len())),
            ),
        )
    }
}

/// The polynomial of degree `e.len() - 1` through `(j, e[j])`, evaluated at
/// `r`.
pub open spec fn lagrange_value(e: Seq<int>, r: int) -> int {
    lagrange_partial(e, r, e.len())
}

/// Evaluate the polynomial given by its values at `0, 1, ..., n - 1` at
/// `r`, by Lagrange interpolation.
fn lagrange_eval(evals: &Vec<Fe>, r: Fe) -> (res: Fe)
    ensures
        res.v() == lagrange_value(vals(evals@), r.v()),
{
    let n = evals.len();
    let ghost e = vals(evals@);
    let mut result = Fe::zero();
    let mut i: usize = 0;
    while i < n
        invariant
            n == evals@.len(),
            e == vals(evals@),
            i <= n,
            result.v() == lagrange_partial(e, r.v(), i as nat),
        decreases n - i,
    {
        let xi = Fe::from_u64(i as u64);
        let mut num = Fe::one();
        let mut den = Fe::one();
        let mut j: usize = 0;
        while j < n
            invariant
                n == evals@.len(),
                i < n,
                j <= n,
                xi.v() == i,
                num.v() == lagrange_product(r.v(), i as int, j as nat),
                den.v() == lagrange_product(i as int, i as int, j as nat),
            decreases n - j,
        {
            if i != j {
                let xj = Fe::from_u64(j as u64);
                num = num.mul(r.sub(xj));
                den = den.mul(xi.sub(xj));
            }
            j = j + 1;
        }
        let inv = match den.inverse() {
            Some(w) => {
                proof {
                    lemma_value_range(w);
                    lemma_inverse_unique(den.v(), w.v());
                }
                w
            },
            None => Fe::zero(),
        };
        result = result.add(evals[i].mul(num).mul(inv));
        i = i + 1;
    }
    result
}

} // verus!

verus! {

/// The 32-byte encodings of elements, concatenated, are those of their
/// values.
pub proof fn lemma_concat_bytes_values(s: Seq<Fe>)
    ensures
        concat_bytes(s) == values_bytes(vals(s)),
    decreases s.len(),
{
    if s.len() > 0 {
        lemma_concat_bytes_values(s.drop_last());
        assert(vals(s).drop_last() =~= vals(s.drop_last()));
    }
}

/// Each value takes 32 bytes.
pub proof fn lemma_values_bytes_len(s: Seq<int>)
    ensures
        values_bytes(s).len() == 32 * s.len(),
    decreases s.len(),
{
    if s.len() > 0 {
        lemma_values_bytes_len(s.drop_last());
    }
}

/// The verifier from round `round` on, with running claim `claim`, the
/// transcript at `log` and the challenges `chals` drawn so far: its result
/// and the transcript it leaves.
pub open spec fn verify_rounds(
    claim: int,
    polys: Seq<Seq<int>>,
    degree: nat,
    round: nat,
    log: Seq<TranscriptOp>,
    chals: Seq<int>,
) -> (Result<(Seq<int>, int), SumcheckError>, Seq<TranscriptOp>)
    decreases polys.len() - round,
{
    if round >= polys.len() {
        (Ok((chals, claim)), log)
    } else {
        let p = polys[round as int];
        if p.len() != degree + 1 {
            (
                Err(
                    SumcheckError::MalformedRoundPoly {
                        round: round as usize,
                        expected: (degree + 1) as usize,
                        got: p.len() as usize,
                    },
                ),
                log,
            )
        } else if fadd(p[0], p[1]) != claim {
            (Err(SumcheckError::RoundCheckFailed { round: round as usize }), log)
        } else {
            let log1 = after_message(log, "round"@, values_bytes(p));
            let r = challenge_value(log1, "r"@);
            verify_rounds(
                lagrange_value(p, r),
                polys,
                degree,
                round + 1,
                after_challenge(log1, "r"@),
                chals.push(r),
            )
        }
    }
}

/// The verifier's result on a proof with round polynomials `polys` and the
/// transcript it leaves.
pub open spec fn verify_spec(
    claim: int,
    num_vars: nat,
    degree: nat,
    polys: Seq<Seq<int>>,
    log: Seq<TranscriptOp>,
) -> (Result<(Seq<int>, int), SumcheckError>, Seq<TranscriptOp>) {
    if polys.len() != num_vars {
        (
            Err(
                SumcheckError::WrongNumRounds {
                    expected: num_vars as usize,
                    got: polys.len() as usize,
                },
            ),
            log,
        )
    } else {
        verify_rounds(claim, polys, degree, 0, log, Seq::empty())
    }
}

/// Verify a sumcheck proof against `initial_claim`: the number of rounds,
/// each round polynomial's length `degree + 1`, and
/// `s_i(0) + s_i(1) == claim` round by round, the next claim being `s_i`
/// at the round's challenge. On success, the challenge point and the final
/// claim, which the caller checks against the proved expression.
pub fn verify(
    initial_claim: Fe,
    num_vars: usize,
    degree: usize,
    proof: &SumcheckProof,
    transcript: &mut Transcript,
) -> (res: Result<SumcheckOutput, SumcheckError>)
    requires
        degree < usize::MAX,
        32 * (degree + 1) <= u32::MAX,
        degree == 0 && proof.round_polys@.len() == num_vars && num_vars > 0
            ==> proof.round_polys@[0]@.len() != 1,
    ensures
        ({
            let (spec_res, spec_log) = verify_spec(
                initial_claim.v(),
                num_vars as nat,
                degree as nat,
                polys_values(proof.round_polys@),
                old(transcript)@,
            );
            &&& final(transcript)@ == spec_log
            &&& res is Ok <==> spec_res is Ok
            &&& res matches Ok(out) ==> spec_res == Ok::<(Seq<int>, int), SumcheckError>(
                (vals(out.challenges@), out.final_claim.v()),
            )
            &&& res matches Err(e) ==> spec_res == Err::<(Seq<int>, int), SumcheckError>(e)
        }),
{
    let ghost polys = polys_values(proof.round_polys@);
    let ghost log0 = transcript@;
    if proof.round_polys.len() != num_vars {
        return Err(
            SumcheckError::WrongNumRounds { expected: num_vars, got: proof.round_polys.len() },
        );
    }
    let mut claim = initial_claim;
    let mut challenges: Vec<Fe> = Vec::new();
    let mut round: usize = 0;
    proof {
        assert(vals(challenges@) =~= Seq::<int>::empty());
    }
    while round < proof.round_polys.len()
        invariant
            polys == polys_values(proof.round_polys@),
            polys.len() == proof.round_polys@.len(),
            polys.len() == num_vars,
            log0 == old(transcript)@,
            degree < usize::MAX,
            32 * (degree + 1) <= u32::MAX,
            degree == 0 ==> round == 0,
            degree == 0 && polys.len() > 0 ==> proof.round_polys@[0]@.len() != 1,
            round <= proof.round_polys@.len(),
            verify_rounds(
                claim.v(),
                polys,
                degree as nat,
                round as nat,
                transcript@,
                vals(challenges@),
            ) == verify_rounds(initial_claim.v(), polys, degree as nat, 0, log0, Seq::empty()),
        decreases proof.round_polys@.len() - round,
    {
        let round_poly = &proof.round_polys[round];
        proof {
            assert(polys[round as int] == vals(round_poly@));
            assert(polys[round as int].len() == round_poly@.len());
        }
        if round_poly.len() != degree + 1 {
            return Err(
                SumcheckError::MalformedRoundPoly {
                    round,
                    expected: degree + 1,
                    got: round_poly.len(),
                },
            );
        }
        if round_poly[0].add(round_poly[1]) != claim {
            proof {
                assert(polys[round as int][0] == round_poly@[0].v());
                assert(polys[round as int][1] == round_poly@[1].v());
            }
            return Err(SumcheckError::RoundCheckFailed { round });
        }
        proof {
            lemma_concat_bytes_values(round_poly@);
            lemma_values_bytes_len(vals(round_poly@));
        }
        transcript.append_slice("round", round_poly.as_slice());
        let r = transcript.challenge("r");
        let ghost old_chals = vals(challenges@);
        challenges.push(r);
        proof {
            assert(vals(challenges@) =~= old_chals.push(r.v()));
        }
        claim = lagrange_eval(round_poly, r);
        round = round + 1;
    }
    Ok(SumcheckOutput { challenges, final_claim: claim })
}

} // verus!

verus! {

/// `(1 - c) * e + c * o`: the line through `(0, e)` and `(1, o)` at `c`.
pub open spec fn lin(c: int, e: int, o: int) -> int {
    fadd(fmul(fsub(1, c), e), fmul(c, o))
}

/// The values of a list of tables.
pub open spec fn tables_values(tables: Seq<Vec<Fe>>) -> Seq<Seq<int>> {
    tables.map_values(|t: Vec<Fe>| vals(t@))
}

/// The evaluation tables of the factors.
pub open spec fn factor_tables(factors: Seq<DenseMle>) -> Seq<Seq<int>> {
    factors.map_values(|f: DenseMle| vals(f.evaluations@))
}

/// Every table has `len` entries.
pub open spec fn tables_have_len(tables: Seq<Seq<int>>, len: nat) -> bool {
    forall|i: int| 0 <= i < tables.len() ==> #[trigger] tables[i].len() == len
}

/// A term as its coefficient's value and its factor indices.
pub open spec fn term_views(terms: Seq<Term>) -> Seq<(int, Seq<usize>)> {
    terms.map_values(|t: Term| (t.coeff.v(), t.factors@))
}

/// Every factor index of every term is below `n`.
pub open spec fn terms_in_range(terms: Seq<(int, Seq<usize>)>, n: nat) -> bool {
    forall|t: int, k: int|
        0 <= t < terms.len() && 0 <= k < terms[t].1.len() ==> #[trigger] terms[t].1[k] < n
}

/// The largest number of factors of a term.
pub open spec fn max_factors(terms: Seq<(int, Seq<usize>)>) -> nat
    decreases terms.len(),
{
    if terms.len() == 0 {
        0
    } else {
        let m = max_factors(terms.drop_last());
        let l = terms.last().1.len();
        if l > m {
            l
        } else {
            m
        }
    }
}

/// `coeff` times the first `k` factors at the pair `(2y, 2y + 1)`, each
/// factor restricted to the line at `c`, multiplied in order.
pub open spec fn term_product(
    tables: Seq<Seq<int>>,
    coeff: int,
    factors: Seq<usize>,
    y: int,
    c: int,
    k: nat,
) -> int
    decreases k,
{
    if k == 0 {
        coeff
    } else {
        let i = factors[k - 1] as int;
        fmul(
            term_product(tables, coeff, factors, y, c, (k - 1) as nat),
            lin(c, tables[i][2 * y], tables[i][2 * y + 1]),
        )
    }
}

/// `base` plus the first `n` terms' products at pair `y` and point `c`.
pub open spec fn terms_sum(
    tables: Seq<Seq<int>>,
    terms: Seq<(int, Seq<usize>)>,
    y: int,
    c: int,
    n: nat,
    base: int,
) -> int
    decreases n,
{
    if n == 0 {
        base
    } else {
        let t = terms[n - 1];
        fadd(
            terms_sum(tables, terms, y, c, (n - 1) as nat, base),
            term_product(tables, t.0, t.1, y, c, t.1.len()),
        )
    }
}

/// The round polynomial at `c`, summed over the first `ny` pairs.
pub open spec fn round_sum(tables: Seq<Seq<int>>, terms: Seq<(int, Seq<usize>)>, c: int, ny: nat) -> int
    decreases ny,
{
    if ny == 0 {
        0
    } else {
        terms_sum(
            tables,
            terms,
            ny - 1,
            c,
            terms.len(),
            round_sum(tables, terms, c, (ny - 1) as nat),
        )
    }
}

/// The round polynomial's evaluations at `0, 1, ..., degree`.
pub open spec fn round_evals(tables: Seq<Seq<int>>, terms: Seq<(int, Seq<usize>)>, degree: nat) -> Seq<int> {
    Seq::new(degree + 1, |c: int| round_sum(tables, terms, c, tables[0].len() / 2))
}

/// Every table with its first variable fixed to `r`.
pub open spec fn fold_tables(tables: Seq<Seq<int>>, r: int) -> Seq<Seq<int>> {
    tables.map_values(|t: Seq<int>| fold_first(t, r))
}

/// The honest prover over `rounds` rounds from the tables `tables` and the
/// transcript `log`: its round polynomials, its challenges and the
/// transcript it leaves.
pub open spec fn prove_rounds(
    tables: Seq<Seq<int>>,
    terms: Seq<(int, Seq<usize>)>,
    degree: nat,
    rounds: nat,
    log: Seq<TranscriptOp>,
) -> (Seq<Seq<int>>, Seq<int>, Seq<TranscriptOp>)
    decreases rounds,
{
    if rounds == 0 {
        (Seq::empty(), Seq::empty(), log)
    } else {
        let evals = round_evals(tables, terms, degree);
        let log1 = after_message(log, "round"@, values_bytes(evals));
        let r = challenge_value(log1, "r"@);
        let rest = prove_rounds(
            fold_tables(tables, r),
            terms,
            degree,
            (rounds - 1) as nat,
            after_challenge(log1, "r"@),
        );
        (seq![evals] + rest.0, seq![r] + rest.1, rest.2)
    }
}

/// The round polynomial at `c`, over `half` pairs.
fn round_value(tables: &Vec<Vec<Fe>>, terms: &[Term], c: Fe, half: usize) -> (s: Fe)
    requires
        tables_have_len(tables_values(tables@), (2 * half) as nat),
        terms_in_range(term_views(terms@), tables@.len()),
        2 * half <= usize::MAX,
    ensures
        s.v() == round_sum(tables_values(tables@), term_views(terms@), c.v(), half as nat),
{
    let ghost tv = tables_values(tables@);
    let ghost tw = term_views(terms@);
    let one_minus_c = Fe::one().sub(c);
    let mut sum = Fe::zero();
    let mut y: usize = 0;
    while y < half
        invariant
            tv == tables_values(tables@),
            tables_have_len(tv, (2 * half) as nat),
            terms_in_range(tw, tables@.len()),
                tw == term_views(terms@),
            2 * half <= usize::MAX,
            one_minus_c.v() == fsub(1, c.v()),
            y <= half,
            sum.v() == round_sum(tv, tw, c.v(), y as nat),
        decreases half - y,
    {
        let ghost base = sum.v();
        let mut t: usize = 0;
        while t < terms.len()
            invariant
                tv == tables_values(tables@),
                tables_have_len(tv, (2 * half) as nat),
                terms_in_range(tw, tables@.len()),
                tw == term_views(terms@),
                2 * half <= usize::MAX,
                one_minus_c.v() == fsub(1, c.v()),
                y < half,
                t <= terms@.len(),
                sum.v() == terms_sum(tv, tw, y as int, c.v(), t as nat, base),
            decreases terms@.len() - t,
        {
            let term = &terms[t];
            let mut prod = term.coeff;
            let mut k: usize = 0;
            while k < term.factors.len()
                invariant
                    tv == tables_values(tables@),
                    tables_have_len(tv, (2 * half) as nat),
                    terms_in_range(tw, tables@.len()),
                tw == term_views(terms@),
                    2 * half <= usize::MAX,
                    one_minus_c.v() == fsub(1, c.v()),
                    y < half,
                    t < terms@.len(),
                    *term == terms@[t as int],
                    k <= term.factors@.len(),
                    prod.v() == term_product(
                        tv,
                        term.coeff.v(),
                        term.factors@,
                        y as int,
                        c.v(),
                        k as nat,
                    ),
                decreases term.factors@.len() - k,
            {
                let i = term.factors[k];
                proof {
                    assert(tw[t as int].1[k as int] == i);
                    assert(i < tables@.len());
                    assert(tv[i as int].len() == 2 * half);
                    assert(tv[i as int] == vals(tables@[i as int]@));
                }
                let even = tables[i][2 * y];
                let odd = tables[i][2 * y + 1];
                prod = prod.mul(one_minus_c.mul(even).add(c.mul(odd)));
                k = k + 1;
            }
            proof {
                assert(tw[t as int] == (term.coeff.v(), term.factors@));
            }
            sum = sum.add(prod);
            t = t + 1;
        }
        y = y + 1;
    }
    sum
}

/// A table with its first variable fixed to `r`.
fn fold_table(table: &Vec<Fe>, r: Fe) -> (folded: Vec<Fe>)
    ensures
        vals(folded@) =~= fold_first(vals(table@), r.v()),
{
    let n = table.len();
    let half = n / 2;
    let one_minus_r = Fe::one().sub(r);
    let mut folded: Vec<Fe> = Vec::new();
    let mut y: usize = 0;
    while y < half
        invariant
            n == table@.len(),
            half == n / 2,
            one_minus_r.v() == fsub(1, r.v()),
            y <= half,
            folded@.len() == y,
            forall|z: int| 0 <= z < y ==> #[trigger] folded@[z].v() == fold_first(vals(table@), r.v())[z],
        decreases half - y,
    {
        let even = table[2 * y];
        let odd = table[2 * y + 1];
        folded.push(one_minus_r.mul(even).add(r.mul(odd)));
        y = y + 1;
    }
    folded
}

} // verus!

verus! {

/// The factors agree on the number of variables and are well formed.
pub open spec fn factors_consistent(factors: Seq<DenseMle>) -> bool {
    &&& factors.len() > 0
    &&& forall|i: int|
        0 <= i < factors.len() ==> (#[trigger] factors[i]).well_formed() && factors[i].num_vars
            == factors[0].num_vars
}

/// Prove `T = sum_{x in B_mu} sum_i c_i prod_k g_{i,k}(x)`, each term of
/// `terms` indexing into `factors`. The degree is the largest number of
/// factors in a term. Returns the round polynomials and the challenges; the
/// claim `T` goes to the verifier out of band.
pub fn prove_terms(factors: &[DenseMle], terms: &[Term], transcript: &mut Transcript) -> (out:
    SumcheckProverOutput)
    requires
        factors_consistent(factors@),
        terms@.len() > 0,
        terms_in_range(term_views(terms@), factors@.len()),
        1 <= max_factors(term_views(terms@)) < usize::MAX,
        32 * (max_factors(term_views(terms@)) + 1) <= u32::MAX,
    ensures
        ({
            let (polys, chals, log) = prove_rounds(
                factor_tables(factors@),
                term_views(terms@),
                max_factors(term_views(terms@)),
                factors@[0].num_vars as nat,
                old(transcript)@,
            );
            &&& polys_values(out.proof.round_polys@) == polys
            &&& vals(out.challenges@) == chals
            &&& final(transcript)@ == log
        }),
{
    let num_vars = factors[0].num_vars;
    let ghost tw = term_views(terms@);
    let mut degree: usize = 0;
    let mut t: usize = 0;
    while t < terms.len()
        invariant
            t <= terms@.len(),
            tw == term_views(terms@),
            degree == max_factors(tw.take(t as int)),
        decreases terms@.len() - t,
    {
        proof {
            assert(tw.take(t + 1).drop_last() =~= tw.take(t as int));
            assert(tw.take(t + 1).last() == tw[t as int]);
        }
        if terms[t].factors.len() > degree {
            degree = terms[t].factors.len();
        }
        t = t + 1;
    }
    proof {
        assert(tw.take(terms@.len() as int) =~= tw);
    }
    let ghost init = factor_tables(factors@);
    let mut tables: Vec<Vec<Fe>> = Vec::new();
    let mut f: usize = 0;
    while f < factors.len()
        invariant
            f <= factors@.len(),
            tables@.len() == f,
            forall|i: int| 0 <= i < f ==> #[trigger] tables@[i]@ == factors@[i].evaluations@,
        decreases factors@.len() - f,
    {
        tables.push(copy_values(&factors[f].evaluations));
        f = f + 1;
    }
    proof {
        assert(tables_values(tables@) =~= init);
        assert(factors@[0].well_formed());
    }
    let ghost log0 = transcript@;
    let mut round_polys: Vec<Vec<Fe>> = Vec::new();
    let mut challenges: Vec<Fe> = Vec::new();
    let mut k: usize = 0;
    proof {
        assert(polys_values(round_polys@) =~= Seq::<Seq<int>>::empty());
        assert(vals(challenges@) =~= Seq::<int>::empty());
        assert(tables_have_len(init, pow2(num_vars as nat)));
    }
    while k < num_vars
        invariant
            factors_consistent(factors@),
            num_vars == factors@[0].num_vars,
            num_vars < usize::BITS,
            terms_in_range(tw, factors@.len()),
            tw == term_views(terms@),
            degree == max_factors(tw),
            1 <= degree < usize::MAX,
            32 * (degree + 1) <= u32::MAX,
            log0 == old(transcript)@,
            init == factor_tables(factors@),
            k <= num_vars,
            tables@.len() == factors@.len(),
            tables_have_len(tables_values(tables@), pow2((num_vars - k) as nat)),
            ({
                let rest = prove_rounds(
                    tables_values(tables@),
                    tw,
                    degree as nat,
                    (num_vars - k) as nat,
                    transcript@,
                );
                prove_rounds(init, tw, degree as nat, num_vars as nat, log0) == (
                    polys_values(round_polys@) + rest.0,
                    vals(challenges@) + rest.1,
                    rest.2,
                )
            }),
        decreases num_vars - k,
    {
        let ghost cur = tables_values(tables@);
        proof {
            lemma_pow2_unfold((num_vars - k) as nat);
            lemma_pow2_pos((num_vars - k - 1) as nat);
            assert(cur[0].len() == pow2((num_vars - k) as nat));
            vstd::bits::lemma_usize_pow2_no_overflow((num_vars - k) as nat);
        }
        let half = tables[0].len() / 2;
        let mut evals: Vec<Fe> = Vec::new();
        let mut c: usize = 0;
        while c <= degree
            invariant
                cur == tables_values(tables@),
                tables_have_len(cur, (2 * half) as nat),
                half == cur[0].len() / 2,
                terms_in_range(tw, tables@.len()),
                tw == term_views(terms@),
                tables@.len() == factors@.len(),
                2 * half <= usize::MAX,
                degree < usize::MAX,
                c <= degree + 1,
                evals@.len() == c,
                forall|j: int| 0 <= j < c ==> #[trigger] evals@[j].v() == round_evals(
                    cur,
                    tw,
                    degree as nat,
                )[j],
            decreases degree + 1 - c,
        {
            let s = round_value(&tables, terms, Fe::from_u64(c as u64), half);
            evals.push(s);
            c = c + 1;
        }
        proof {
            assert(vals(evals@) =~= round_evals(cur, tw, degree as nat));
            lemma_concat_bytes_values(evals@);
            lemma_values_bytes_len(vals(evals@));
        }
        transcript.append_slice("round", evals.as_slice());
        let ghost evals_v = vals(evals@);
        let ghost old_polys = polys_values(round_polys@);
        round_polys.push(evals);
        let r = transcript.challenge("r");
        let ghost old_chals = vals(challenges@);
        challenges.push(r);
        let mut new_tables: Vec<Vec<Fe>> = Vec::new();
        let mut i: usize = 0;
        while i < tables.len()
            invariant
                i <= tables@.len(),
                new_tables@.len() == i,
                forall|j: int|
                    0 <= j < i ==> vals(#[trigger] new_tables@[j]@) == fold_first(
                        vals(tables@[j]@),
                        r.v(),
                    ),
            decreases tables@.len() - i,
        {
            new_tables.push(fold_table(&tables[i], r));
            i = i + 1;
        }
        proof {
            assert(tables_values(new_tables@) =~= fold_tables(cur, r.v()));
            assert(polys_values(round_polys@) =~= old_polys.push(evals_v));
            assert(vals(challenges@) =~= old_chals.push(r.v()));
            let nt = tables_values(new_tables@);
            assert forall|j: int| 0 <= j < nt.len() implies #[trigger] nt[j].len() == pow2(
                (num_vars - (k + 1)) as nat,
            ) by {
                assert(nt[j] == fold_first(cur[j], r.v()));
            }
            let rest = prove_rounds(nt, tw, degree as nat, (num_vars - (k + 1)) as nat, transcript@);
            assert(old_polys + (seq![evals_v] + rest.0) =~= old_polys.push(evals_v) + rest.0);
            assert(old_chals + (seq![r.v()] + rest.1) =~= old_chals.push(r.v()) + rest.1);
        }
        tables = new_tables;
        k = k + 1;
    }
    proof {
        assert(polys_values(round_polys@) + Seq::<Seq<int>>::empty() =~= polys_values(round_polys@));
        assert(vals(challenges@) + Seq::<int>::empty() =~= vals(challenges@));
    }
    SumcheckProverOutput { proof: SumcheckProof { round_polys }, challenges }
}

/// Prove `T = sum_{x in B_mu} prod_k g_k(x)`: the single term of all
/// `factors` with coefficient one.
pub fn prove(factors: &[DenseMle], transcript: &mut Transcript) -> (out: SumcheckProverOutput)
    requires
        factors_consistent(factors@),
        factors@.len() < usize::MAX,
        32 * (factors@.len() + 1) <= u32::MAX,
    ensures
        ({
            let n = factors@.len();
            let (polys, chals, log) = prove_rounds(
                factor_tables(factors@),
                seq![(1int, Seq::new(n, |i: int| i as usize))],
                n,
                factors@[0].num_vars as nat,
                old(transcript)@,
            );
            &&& polys_values(out.proof.round_polys@) == polys
            &&& vals(out.challenges@) == chals
            &&& final(transcript)@ == log
        }),
{
    let mut idx: Vec<usize> = Vec::new();
    let mut i: usize = 0;
    while i < factors.len()
        invariant
            i <= factors@.len(),
            idx@.len() == i,
            forall|j: int| 0 <= j < i ==> idx@[j] == j,
        decreases factors@.len() - i,
    {
        idx.push(i);
        i = i + 1;
    }
    let term = Term { coeff: Fe::one(), factors: idx };
    let terms = vec![term];
    proof {
        let n = factors@.len();
        let tw = term_views(terms@);
        assert(tw[0].1 =~= Seq::new(n, |i: int| i as usize));
        assert(tw =~= seq![(1int, Seq::new(n, |i: int| i as usize))]);
        assert(tw.drop_last() =~= Seq::<(int, Seq<usize>)>::empty());
        reveal_with_fuel(max_factors, 2);
        assert(max_factors(tw) == n);
    }
    prove_terms(factors, terms.as_slice(), transcript)
}

} // verus!

verus! {

/// The honest prover sends one round polynomial and draws one challenge per
/// round.
pub proof fn lemma_prove_rounds_len(
    tables: Seq<Seq<int>>,
    terms: Seq<(int, Seq<usize>)>,
    degree: nat,
    rounds: nat,
    log: Seq<TranscriptOp>,
)
    ensures
        prove_rounds(tables, terms, degree, rounds, log).0.len() == rounds,
        prove_rounds(tables, terms, degree, rounds, log).1.len() == rounds,
    decreases rounds,
{
    if rounds > 0 {
        let evals = round_evals(tables, terms, degree);
        let log1 = crate::transcript::after_message(log, "round"@, values_bytes(evals));
        let r = challenge_value(log1, "r"@);
        lemma_prove_rounds_len(
            fold_tables(tables, r),
            terms,
            degree,
            (rounds - 1) as nat,
            after_challenge(log1, "r"@),
        );
    }
}

/// A successful verification draws one challenge per round.
pub proof fn lemma_verify_challenges_len(
    claim: int,
    polys: Seq<Seq<int>>,
    degree: nat,
    round: nat,
    log: Seq<TranscriptOp>,
    chals: Seq<int>,
)
    requires
        round <= polys.len(),
    ensures
        verify_rounds(claim, polys, degree, round, log, chals).0 matches Ok(out) ==> out.0.len()
            == chals.len() + polys.len() - round,
    decreases polys.len() - round,
{
    if round < polys.len() {
        let p = polys[round as int];
        if p.len() == degree + 1 && fadd(p[0], p[1]) == claim {
            let log1 = crate::transcript::after_message(log, "round"@, values_bytes(p));
            let r = challenge_value(log1, "r"@);
            lemma_verify_challenges_len(
                lagrange_value(p, r),
                polys,
                degree,
                round + 1,
                after_challenge(log1, "r"@),
                chals.push(r),
            );
        }
    }
}

/// From round `round` on, the verifier accepts only round polynomials of
/// exactly `degree + 1` values; a `MalformedRoundPoly` error names a round
/// whose polynomial has another length, with the expected and the actual
/// length, all earlier rounds having the right length; a
/// `RoundCheckFailed` error names a round whose polynomial, and every
/// earlier one, has the right length.
proof fn lemma_verify_rounds_lengths(
    claim: int,
    polys: Seq<Seq<int>>,
    degree: nat,
    round: nat,
    log: Seq<TranscriptOp>,
    chals: Seq<int>,
)
    requires
        round <= polys.len(),
        polys.len() <= usize::MAX,
        degree + 1 <= usize::MAX,
        forall|i: int| 0 <= i < polys.len() ==> #[trigger] polys[i].len() <= usize::MAX,
    ensures
        verify_rounds(claim, polys, degree, round, log, chals).0 is Ok ==> forall|i: int|
            round <= i < polys.len() ==> #[trigger] polys[i].len() == degree + 1,
        verify_rounds(claim, polys, degree, round, log, chals).0 matches Err(
            SumcheckError::MalformedRoundPoly { round: k, expected, got },
        ) ==> {
            &&& round <= k < polys.len()
            &&& expected == degree + 1
            &&& got == polys[k as int].len()
            &&& got != degree + 1
            &&& forall|j: int| round <= j < k ==> #[trigger] polys[j].len() == degree + 1
        },
        verify_rounds(claim, polys, degree, round, log, chals).0 matches Err(
            SumcheckError::RoundCheckFailed { round: k },
        ) ==> {
            &&& round <= k < polys.len()
            &&& forall|j: int| round <= j <= k ==> #[trigger] polys[j].len() == degree + 1
        },
        !(verify_rounds(claim, polys, degree, round, log, chals).0 is Err
            && verify_rounds(claim, polys, degree, round, log, chals).0->Err_0 is WrongNumRounds),
    decreases polys.len() - round,
{
    if round < polys.len() {
        let p = polys[round as int];
        if p.len() == degree + 1 && fadd(p[0], p[1]) == claim {
            let log1 = crate::transcript::after_message(log, "round"@, values_bytes(p));
            let r = challenge_value(log1, "r"@);
            lemma_verify_rounds_lengths(
                lagrange_value(p, r),
                polys,
                degree,
                round + 1,
                after_challenge(log1, "r"@),
                chals.push(r),
            );
        }
    }
}

/// The sumcheck verifier accepts only a proof with `num_vars` round
/// polynomials of exactly `degree + 1` values each. A proof with the right
/// number of rounds whose round `i` is the first of another length is
/// refused with `MalformedRoundPoly` naming round `i`, `degree + 1` and that
/// length, unless an earlier round already failed its sum check.
pub proof fn lemma_sumcheck_round_lengths(
    claim: int,
    num_vars: nat,
    degree: nat,
    polys: Seq<Seq<int>>,
    log: Seq<TranscriptOp>,
)
    requires
        polys.len() <= usize::MAX,
        degree + 1 <= usize::MAX,
        forall|i: int| 0 <= i < polys.len() ==> #[trigger] polys[i].len() <= usize::MAX,
    ensures
        verify_spec(claim, num_vars, degree, polys, log).0 is Ok ==> {
            &&& polys.len() == num_vars
            &&& forall|i: int| 0 <= i < polys.len() ==> #[trigger] polys[i].len() == degree + 1
        },
        forall|i: int|
            0 <= i < polys.len() && polys.len() == num_vars && #[trigger] polys[i].len() != degree + 1
                && (forall|j: int| 0 <= j < i ==> polys[j].len() == degree + 1) ==> {
                ||| verify_spec(claim, num_vars, degree, polys, log).0 == Err::<(Seq<int>, int), SumcheckError>(
                    SumcheckError::MalformedRoundPoly {
                        round: i as usize,
                        expected: (degree + 1) as usize,
                        got: polys[i].len() as usize,
                    },
                )
                ||| verify_spec(claim, num_vars, degree, polys, log).0 matches Err(
                    SumcheckError::RoundCheckFailed { round: k },
                ) && k < i
            },
{
    if polys.len() == num_vars {
        lemma_verify_rounds_lengths(claim, polys, degree, 0, log, Seq::empty());
        let res = verify_spec(claim, num_vars, degree, polys, log).0;
        assert forall|i: int|
            0 <= i < polys.len() && polys.len() == num_vars && #[trigger] polys[i].len() != degree + 1
                && (forall|j: int| 0 <= j < i ==> polys[j].len() == degree + 1) implies {
                ||| res == Err::<(Seq<int>, int), SumcheckError>(
                    SumcheckError::MalformedRoundPoly {
                        round: i as usize,
                        expected: (degree + 1) as usize,
                        got: polys[i].len() as usize,
                    },
                )
                ||| res matches Err(SumcheckError::RoundCheckFailed { round: k }) && k < i
            } by {
            match res {
                Ok(_) => {
                    assert(polys[i].len() == degree + 1);
                },
                Err(SumcheckError::MalformedRoundPoly { round: k, expected, got }) => {
                    if (k as int) < i {
                        assert(polys[k as int].len() == degree + 1);
                    } else if (k as int) > i {
                        assert(polys[i].len() == degree + 1);
                    }
                },
                Err(SumcheckError::RoundCheckFailed { round: k }) => {
                    if (k as int) >= i {
                        assert(polys[i].len() == degree + 1);
                    }
                },
                Err(SumcheckError::WrongNumRounds { .. }) => {},
            }
        }
    }
}

} // verus!
