//! The honest sumcheck prover against the verifier: each round polynomial
//! sums to the running claim on `{0, 1}`, has degree at most the largest
//! number of factors in a term, and its value at the challenge is the sum
//! over the folded tables. Together: an honest proof of the true sum is
//! accepted, with the prover's challenges and the expression's value at
//! them as the final claim. The same for zerocheck, whose sum is zero when
//! the expression vanishes on the cube, and whose final claim carries
//! `eq(r, rho)`, the extension of the table of `eq(., r)`.

use crate::field::{
    fadd, fmul, fsub, lemma_associative, lemma_canonical_mod, lemma_commutative, lemma_identities,
    lemma_reduce_operands, lemma_results_canonical, modulus,
};
use crate::interp::{
    bden, diffs, dens_invertible, interp, interp_term, invertible, lemma_interp_exact,
    lemma_peval_mul_lin, padd, peval, pmul_lin, pvals,
};
use crate::sumcheck::{
    lagrange_partial, lagrange_product, lagrange_value, lin, max_factors, round_evals, round_sum,
    term_product, terms_in_range, terms_sum,
};
use crate::sumcheck::{fold_tables, prove_rounds, verify_rounds, verify_spec};
use crate::sums::fprod;
use crate::transcript::{after_challenge, after_message, challenge_value, TranscriptOp};
use vstd::arithmetic::power2::{lemma_pow2_pos, lemma_pow2_unfold, pow2};
use vstd::prelude::*;

verus! {

/// The nodes `0, 1, ..., n - 1`.
pub open spec fn nodes(n: nat) -> Seq<int> {
    Seq::new(n, |j: int| j)
}

/// Every Lagrange denominator over the nodes `0..n` has an inverse.
pub open spec fn nodes_have_inverses(n: nat) -> bool {
    forall|i: int| 0 <= i < n ==> #[trigger] invertible(lagrange_product(i, i, n))
}

/// The product `lagrange_product(x, i, k)` is that of `x - j` over the
/// nodes `j < k` other than `i`.
proof fn lemma_lagrange_product_fprod(x: int, i: int, k: nat)
    requires
        0 <= i,
    ensures
        lagrange_product(x, i, k) == fprod(
            diffs(
                if i < k {
                    nodes(k).remove(i)
                } else {
                    nodes(k)
                },
                x,
            ),
        ),
    decreases k,
{
    let cur = if i < k {
        nodes(k).remove(i)
    } else {
        nodes(k)
    };
    if k == 0 {
        assert(diffs(cur, x).len() == 0);
    } else {
        lemma_lagrange_product_fprod(x, i, (k - 1) as nat);
        let prev = if i < k - 1 {
            nodes((k - 1) as nat).remove(i)
        } else {
            nodes((k - 1) as nat)
        };
        if k - 1 == i {
            assert(cur =~= prev);
        } else {
            assert(cur =~= prev.push(k - 1));
            assert(diffs(cur, x).drop_last() =~= diffs(prev, x));
        }
    }
}

/// The first `k` terms of `lagrange_partial` are those of the interpolant
/// over the nodes `0..n`.
proof fn lemma_lagrange_partial_interp(e: Seq<int>, r: int, k: nat)
    requires
        k <= e.len(),
        nodes_have_inverses(e.len()),
    ensures
        lagrange_partial(e, r, k) == crate::sums::fsum(
            Seq::new(k, |i: int| interp_term(nodes(e.len()), e, r, i)),
        ),
    decreases k,
{
    if k > 0 {
        let n = e.len();
        let i = k - 1;
        lemma_lagrange_partial_interp(e, r, (k - 1) as nat);
        lemma_lagrange_product_fprod(r, i, n);
        lemma_lagrange_product_fprod(i, i, n);
        assert(nodes(n)[i] == i);
        assert(invertible(lagrange_product(i, i, n)));
        assert(lagrange_product(i, i, n) != 0) by {
            lemma_canonical_mod(0);
            vstd::arithmetic::mul::lemma_mul_basics(crate::field::finv(0));
        }
        assert(Seq::new(k, |i: int| interp_term(nodes(n), e, r, i)).drop_last() =~= Seq::new(
            (k - 1) as nat,
            |i: int| interp_term(nodes(n), e, r, i),
        ));
    }
}

/// The verifier's Lagrange evaluation through the nodes `0..n` is exact on
/// polynomials with at most `n` coefficients.
pub proof fn lemma_lagrange_value_exact(a: Seq<int>, n: nat, r: int)
    requires
        1 <= n,
        a.len() <= n,
        nodes_have_inverses(n),
    ensures
        lagrange_value(pvals(a, nodes(n)), r) == peval(a, r),
{
    let xs = nodes(n);
    let e = pvals(a, xs);
    lemma_lagrange_partial_interp(e, r, n);
    assert forall|i: int| 0 <= i < n implies #[trigger] invertible(bden(xs, i)) by {
        lemma_lagrange_product_fprod(i, i, n);
        assert(xs[i] == i);
        assert(invertible(lagrange_product(i, i, n)));
    }
    assert(dens_invertible(xs));
    lemma_interp_exact(xs, a, r);
}

/// Every entry of every table is canonical.
pub open spec fn tables_canonical(tables: Seq<Seq<int>>) -> bool {
    forall|i: int, j: int|
        0 <= i < tables.len() && 0 <= j < tables[i].len() ==> 0 <= #[trigger] tables[i][j]
            < modulus()
}

/// Every term's coefficient is canonical.
pub open spec fn coeffs_canonical(terms: Seq<(int, Seq<usize>)>) -> bool {
    forall|t: int| 0 <= t < terms.len() ==> 0 <= #[trigger] terms[t].0 < modulus()
}

/// The tables the factors of `factors` index all have entry `x`, and it is
/// canonical.
pub open spec fn entries_ok(tables: Seq<Seq<int>>, factors: Seq<usize>, x: int) -> bool {
    forall|k: int|
        0 <= k < factors.len() ==> (factors[k] as int) < tables.len() && 0 <= x < tables[
            factors[k] as int].len() && 0 <= #[trigger] tables[factors[k] as int][x] < modulus()
}

/// A line through `(0, e)` and `(1, o)` as `e + (o - e) c`.
proof fn lemma_lin_form(c: int, e: int, o: int)
    requires
        0 <= e < modulus(),
    ensures
        lin(c, e, o) == fadd(e, fmul(fsub(o, e), c)),
{
    let m = modulus();
    lemma_reduce_operands(1 - c, e);
    lemma_reduce_operands(o - e, c);
    lemma_reduce_operands((1 - c) * e, (c * o) % m);
    lemma_reduce_operands((1 - c) * e, c * o);
    lemma_reduce_operands(e, (o - e) * c);
    assert((1 - c) * e + c * o == e + (o - e) * c) by (nonlinear_arith);
}

/// The coefficients, in the line parameter `c`, of `term_product`.
pub open spec fn product_coeffs(
    tables: Seq<Seq<int>>,
    coeff: int,
    factors: Seq<usize>,
    y: int,
    k: nat,
) -> Seq<int>
    decreases k,
{
    if k == 0 {
        seq![coeff]
    } else {
        let i = factors[k - 1] as int;
        let e = tables[i][2 * y];
        let o = tables[i][2 * y + 1];
        pmul_lin(product_coeffs(tables, coeff, factors, y, (k - 1) as nat), e, fsub(o, e))
    }
}

/// A term's product along the line is a polynomial with one coefficient
/// more than it has factors.
proof fn lemma_product_coeffs(
    tables: Seq<Seq<int>>,
    coeff: int,
    factors: Seq<usize>,
    y: int,
    c: int,
    k: nat,
)
    requires
        0 <= coeff < modulus(),
        k <= factors.len(),
        entries_ok(tables, factors, 2 * y),
    ensures
        peval(product_coeffs(tables, coeff, factors, y, k), c) == term_product(
            tables,
            coeff,
            factors,
            y,
            c,
            k,
        ),
        product_coeffs(tables, coeff, factors, y, k).len() == k + 1,
    decreases k,
{
    if k == 0 {
        let a = seq![coeff];
        assert(a.drop_first().len() == 0);
        assert(peval(a.drop_first(), c) == 0);
        lemma_canonical_mod(0);
        vstd::arithmetic::mul::lemma_mul_basics(c);
        lemma_identities(coeff);
    } else {
        let i = factors[k - 1] as int;
        let e = tables[i][2 * y];
        let o = tables[i][2 * y + 1];
        let prev = product_coeffs(tables, coeff, factors, y, (k - 1) as nat);
        lemma_product_coeffs(tables, coeff, factors, y, c, (k - 1) as nat);
        assert(0 <= tables[factors[k - 1] as int][2 * y] < modulus());
        lemma_peval_mul_lin(prev, e, fsub(o, e), c);
        lemma_lin_form(c, e, o);
        lemma_commutative(lin(c, e, o), peval(prev, c));
    }
}

/// The tables and terms of a sum over `len` entries: canonical tables of
/// `len` entries each, and terms that index into them with canonical
/// coefficients.
pub open spec fn sum_ok(tables: Seq<Seq<int>>, terms: Seq<(int, Seq<usize>)>, len: nat) -> bool {
    &&& tables_canonical(tables)
    &&& crate::sumcheck::tables_have_len(tables, len)
    &&& terms_in_range(terms, tables.len())
    &&& coeffs_canonical(terms)
}

proof fn lemma_entries_ok(
    tables: Seq<Seq<int>>,
    terms: Seq<(int, Seq<usize>)>,
    len: nat,
    t: int,
    x: int,
)
    requires
        sum_ok(tables, terms, len),
        0 <= t < terms.len(),
        0 <= x < len,
    ensures
        entries_ok(tables, terms[t].1, x),
{
    assert forall|k: int| 0 <= k < terms[t].1.len() implies (terms[t].1[k] as int) < tables.len()
        && 0 <= x < tables[terms[t].1[k] as int].len() && 0 <= #[trigger] tables[terms[t].1[
        k] as int][x] < modulus() by {
        assert(terms[t].1[k] < tables.len());
        assert(tables[terms[t].1[k] as int].len() == len);
    }
}

/// No term has more factors than `max_factors`.
pub proof fn lemma_max_factors_bound(terms: Seq<(int, Seq<usize>)>, t: int)
    requires
        0 <= t < terms.len(),
    ensures
        terms[t].1.len() <= max_factors(terms),
    decreases terms.len(),
{
    if t < terms.len() - 1 {
        lemma_max_factors_bound(terms.drop_last(), t);
    }
}

/// The coefficients of `terms_sum` in the line parameter.
pub open spec fn terms_coeffs(
    tables: Seq<Seq<int>>,
    terms: Seq<(int, Seq<usize>)>,
    y: int,
    n: nat,
    base: Seq<int>,
) -> Seq<int>
    decreases n,
{
    if n == 0 {
        base
    } else {
        let t = terms[n - 1];
        padd(
            terms_coeffs(tables, terms, y, (n - 1) as nat, base),
            product_coeffs(tables, t.0, t.1, y, t.1.len()),
        )
    }
}

/// The coefficients of the round polynomial summed over the first `ny`
/// pairs.
pub open spec fn round_coeffs(tables: Seq<Seq<int>>, terms: Seq<(int, Seq<usize>)>, ny: nat) -> Seq<
    int,
>
    decreases ny,
{
    if ny == 0 {
        Seq::empty()
    } else {
        terms_coeffs(tables, terms, ny - 1, terms.len(), round_coeffs(tables, terms, (ny - 1) as nat))
    }
}

proof fn lemma_terms_coeffs(
    tables: Seq<Seq<int>>,
    terms: Seq<(int, Seq<usize>)>,
    len: nat,
    y: int,
    c: int,
    n: nat,
    base: Seq<int>,
    base_value: int,
)
    requires
        sum_ok(tables, terms, len),
        0 <= 2 * y < len,
        n <= terms.len(),
        peval(base, c) == base_value,
    ensures
        peval(terms_coeffs(tables, terms, y, n, base), c) == terms_sum(
            tables,
            terms,
            y,
            c,
            n,
            base_value,
        ),
        terms_coeffs(tables, terms, y, n, base).len() <= if base.len() > max_factors(terms) + 1 {
            base.len()
        } else {
            max_factors(terms) + 1
        },
    decreases n,
{
    if n > 0 {
        let t = terms[n - 1];
        lemma_terms_coeffs(tables, terms, len, y, c, (n - 1) as nat, base, base_value);
        lemma_entries_ok(tables, terms, len, n - 1, 2 * y);
        lemma_product_coeffs(tables, t.0, t.1, y, c, t.1.len());
        lemma_max_factors_bound(terms, n - 1);
        crate::interp::lemma_peval_add(
            terms_coeffs(tables, terms, y, (n - 1) as nat, base),
            product_coeffs(tables, t.0, t.1, y, t.1.len()),
            c,
        );
    }
}

/// The round polynomial is a polynomial in `c` with at most
/// `max_factors + 1` coefficients.
pub proof fn lemma_round_coeffs(
    tables: Seq<Seq<int>>,
    terms: Seq<(int, Seq<usize>)>,
    len: nat,
    c: int,
    ny: nat,
)
    requires
        sum_ok(tables, terms, len),
        2 * ny <= len,
    ensures
        peval(round_coeffs(tables, terms, ny), c) == round_sum(tables, terms, c, ny),
        round_coeffs(tables, terms, ny).len() <= max_factors(terms) + 1,
    decreases ny,
{
    if ny > 0 {
        lemma_round_coeffs(tables, terms, len, c, (ny - 1) as nat);
        lemma_terms_coeffs(
            tables,
            terms,
            len,
            ny - 1,
            c,
            terms.len(),
            round_coeffs(tables, terms, (ny - 1) as nat),
            round_sum(tables, terms, c, (ny - 1) as nat),
        );
    }
}

/// The verifier's Lagrange evaluation of an honest round polynomial at `r`
/// is the round polynomial at `r`.
pub proof fn lemma_round_interp(
    tables: Seq<Seq<int>>,
    terms: Seq<(int, Seq<usize>)>,
    len: nat,
    degree: nat,
    r: int,
)
    requires
        sum_ok(tables, terms, len),
        tables.len() > 0,
        max_factors(terms) <= degree,
        nodes_have_inverses(degree + 1),
    ensures
        lagrange_value(round_evals(tables, terms, degree), r) == round_sum(
            tables,
            terms,
            r,
            len / 2,
        ),
{
    let half = len / 2;
    assert(tables[0].len() == len);
    let a = round_coeffs(tables, terms, half);
    lemma_round_coeffs(tables, terms, len, r, half);
    assert forall|c: int| 0 <= c < degree + 1 implies #[trigger] round_evals(tables, terms, degree)[c]
        == pvals(a, nodes(degree + 1))[c] by {
        lemma_round_coeffs(tables, terms, len, c, half);
    }
    assert(round_evals(tables, terms, degree) =~= pvals(a, nodes(degree + 1)));
    lemma_lagrange_value_exact(a, degree + 1, r);
}

/// `coeff` times the first `k` factors at entry `x`.
pub open spec fn point_product(
    tables: Seq<Seq<int>>,
    coeff: int,
    factors: Seq<usize>,
    x: int,
    k: nat,
) -> int
    decreases k,
{
    if k == 0 {
        coeff
    } else {
        fmul(point_product(tables, coeff, factors, x, (k - 1) as nat), tables[factors[k - 1] as int][x])
    }
}

/// `base` plus the first `n` terms at entry `x`.
pub open spec fn point_terms(
    tables: Seq<Seq<int>>,
    terms: Seq<(int, Seq<usize>)>,
    x: int,
    n: nat,
    base: int,
) -> int
    decreases n,
{
    if n == 0 {
        base
    } else {
        let t = terms[n - 1];
        fadd(
            point_terms(tables, terms, x, (n - 1) as nat, base),
            point_product(tables, t.0, t.1, x, t.1.len()),
        )
    }
}

/// The expression `sum_i c_i prod_k g_{i,k}` summed over the first `nx`
/// entries of the tables.
pub open spec fn expr_sum(tables: Seq<Seq<int>>, terms: Seq<(int, Seq<usize>)>, nx: nat) -> int
    decreases nx,
{
    if nx == 0 {
        0
    } else {
        point_terms(tables, terms, nx - 1, terms.len(), expr_sum(tables, terms, (nx - 1) as nat))
    }
}

/// The expression at the point `z`: each table replaced by the value of its
/// multilinear extension there.
pub open spec fn expr_at(tables: Seq<Seq<int>>, terms: Seq<(int, Seq<usize>)>, z: Seq<int>) -> int {
    point_terms(
        tables.map_values(|t: Seq<int>| seq![crate::mle::mle_eval(t, z)]),
        terms,
        0,
        terms.len(),
        0,
    )
}

proof fn lemma_point_terms_canonical(
    tables: Seq<Seq<int>>,
    terms: Seq<(int, Seq<usize>)>,
    x: int,
    n: nat,
    base: int,
)
    requires
        0 <= base < modulus(),
    ensures
        0 <= point_terms(tables, terms, x, n, base) < modulus(),
    decreases n,
{
    if n > 0 {
        let t = terms[n - 1];
        lemma_results_canonical(
            point_terms(tables, terms, x, (n - 1) as nat, base),
            point_product(tables, t.0, t.1, x, t.1.len()),
        );
    }
}

proof fn lemma_expr_sum_canonical(tables: Seq<Seq<int>>, terms: Seq<(int, Seq<usize>)>, nx: nat)
    ensures
        0 <= expr_sum(tables, terms, nx) < modulus(),
    decreases nx,
{
    if nx == 0 {
        lemma_canonical_mod(0);
    } else {
        lemma_expr_sum_canonical(tables, terms, (nx - 1) as nat);
        lemma_point_terms_canonical(
            tables,
            terms,
            nx - 1,
            terms.len(),
            expr_sum(tables, terms, (nx - 1) as nat),
        );
    }
}

/// The base of `point_terms` comes out as an addend.
proof fn lemma_point_terms_base(
    tables: Seq<Seq<int>>,
    terms: Seq<(int, Seq<usize>)>,
    x: int,
    n: nat,
    base: int,
)
    requires
        0 <= base < modulus(),
    ensures
        point_terms(tables, terms, x, n, base) == fadd(base, point_terms(tables, terms, x, n, 0)),
    decreases n,
{
    if n == 0 {
        lemma_identities(base);
    } else {
        let t = terms[n - 1];
        lemma_point_terms_base(tables, terms, x, (n - 1) as nat, base);
        lemma_associative(
            base,
            point_terms(tables, terms, x, (n - 1) as nat, 0),
            point_product(tables, t.0, t.1, x, t.1.len()),
        );
    }
}

/// On the line through entries `2y` and `2y + 1`, a term's product at `0`
/// and `1` is its product at those entries, and at `r` it is its product
/// over the tables folded at `r`.
proof fn lemma_product_on_line(
    tables: Seq<Seq<int>>,
    coeff: int,
    factors: Seq<usize>,
    y: int,
    r: int,
    k: nat,
)
    requires
        k <= factors.len(),
        entries_ok(tables, factors, 2 * y),
        entries_ok(tables, factors, 2 * y + 1),
    ensures
        term_product(tables, coeff, factors, y, 0, k) == point_product(tables, coeff, factors, 2 * y, k),
        term_product(tables, coeff, factors, y, 1, k) == point_product(
            tables,
            coeff,
            factors,
            2 * y + 1,
            k,
        ),
        term_product(tables, coeff, factors, y, r, k) == point_product(
            crate::sumcheck::fold_tables(tables, r),
            coeff,
            factors,
            y,
            k,
        ),
    decreases k,
{
    if k > 0 {
        lemma_product_on_line(tables, coeff, factors, y, r, (k - 1) as nat);
        let i = factors[k - 1] as int;
        let e = tables[i][2 * y];
        let o = tables[i][2 * y + 1];
        assert(0 <= tables[factors[k - 1] as int][2 * y] < modulus());
        assert(0 <= tables[factors[k - 1] as int][2 * y + 1] < modulus());
        lemma_canonical_mod(0);
        lemma_canonical_mod(1);
        lemma_identities(e);
        lemma_identities(o);
        lemma_identities(1);
        lemma_identities(0);
        assert(lin(0, e, o) == e);
        assert(lin(1, e, o) == o);
        assert(crate::sumcheck::fold_tables(tables, r)[i] == crate::mle::fold_first(tables[i], r));
        assert(crate::mle::fold_first(tables[i], r)[y] == lin(r, e, o));
    }
}

proof fn lemma_terms_on_line(
    tables: Seq<Seq<int>>,
    terms: Seq<(int, Seq<usize>)>,
    len: nat,
    y: int,
    r: int,
    n: nat,
    b0: int,
    b1: int,
    br: int,
)
    requires
        sum_ok(tables, terms, len),
        0 <= 2 * y,
        2 * y + 1 < len,
        n <= terms.len(),
    ensures
        terms_sum(tables, terms, y, 0, n, b0) == point_terms(tables, terms, 2 * y, n, b0),
        terms_sum(tables, terms, y, 1, n, b1) == point_terms(tables, terms, 2 * y + 1, n, b1),
        terms_sum(tables, terms, y, r, n, br) == point_terms(
            crate::sumcheck::fold_tables(tables, r),
            terms,
            y,
            n,
            br,
        ),
    decreases n,
{
    if n > 0 {
        let t = terms[n - 1];
        lemma_terms_on_line(tables, terms, len, y, r, (n - 1) as nat, b0, b1, br);
        lemma_entries_ok(tables, terms, len, n - 1, 2 * y);
        lemma_entries_ok(tables, terms, len, n - 1, 2 * y + 1);
        lemma_product_on_line(tables, t.0, t.1, y, r, t.1.len());
    }
}

/// The round polynomial at `0` plus at `1` is the sum over the entries the
/// pairs cover.
pub proof fn lemma_round_ends(
    tables: Seq<Seq<int>>,
    terms: Seq<(int, Seq<usize>)>,
    len: nat,
    ny: nat,
)
    requires
        sum_ok(tables, terms, len),
        2 * ny <= len,
    ensures
        fadd(round_sum(tables, terms, 0, ny), round_sum(tables, terms, 1, ny)) == expr_sum(
            tables,
            terms,
            2 * ny,
        ),
    decreases ny,
{
    if ny == 0 {
        lemma_canonical_mod(0);
    } else {
        let y = ny - 1;
        let nt = terms.len();
        let a1 = round_sum(tables, terms, 0, (ny - 1) as nat);
        let b1 = round_sum(tables, terms, 1, (ny - 1) as nat);
        let e = expr_sum(tables, terms, (2 * y) as nat);
        lemma_round_ends(tables, terms, len, (ny - 1) as nat);
        lemma_terms_on_line(tables, terms, len, y, 0, nt, a1, b1, 0);
        lemma_round_canonical(tables, terms, 0, (ny - 1) as nat);
        lemma_round_canonical(tables, terms, 1, (ny - 1) as nat);
        let s0 = point_terms(tables, terms, 2 * y, nt, 0);
        let s1 = point_terms(tables, terms, 2 * y + 1, nt, 0);
        lemma_point_terms_base(tables, terms, 2 * y, nt, a1);
        lemma_point_terms_base(tables, terms, 2 * y + 1, nt, b1);
        crate::interp::lemma_add4(a1, s0, b1, s1);
        lemma_expr_sum_canonical(tables, terms, (2 * y) as nat);
        lemma_associative(e, s0, s1);
        lemma_point_terms_base(tables, terms, 2 * y, nt, e);
        lemma_expr_sum_canonical(tables, terms, (2 * y + 1) as nat);
        lemma_point_terms_base(tables, terms, 2 * y + 1, nt, expr_sum(tables, terms, (2 * y + 1) as nat));
        assert(expr_sum(tables, terms, (2 * y + 1) as nat) == point_terms(tables, terms, 2 * y, nt, e));
        assert(expr_sum(tables, terms, 2 * ny) == point_terms(
            tables,
            terms,
            2 * y + 1,
            nt,
            expr_sum(tables, terms, (2 * y + 1) as nat),
        ));
    }
}

proof fn lemma_round_canonical(tables: Seq<Seq<int>>, terms: Seq<(int, Seq<usize>)>, c: int, ny: nat)
    ensures
        0 <= round_sum(tables, terms, c, ny) < modulus(),
    decreases ny,
{
    if ny == 0 {
        lemma_canonical_mod(0);
    } else {
        lemma_round_canonical(tables, terms, c, (ny - 1) as nat);
        lemma_terms_sum_canonical(
            tables,
            terms,
            ny - 1,
            c,
            terms.len(),
            round_sum(tables, terms, c, (ny - 1) as nat),
        );
    }
}

proof fn lemma_terms_sum_canonical(
    tables: Seq<Seq<int>>,
    terms: Seq<(int, Seq<usize>)>,
    y: int,
    c: int,
    n: nat,
    base: int,
)
    requires
        0 <= base < modulus(),
    ensures
        0 <= terms_sum(tables, terms, y, c, n, base) < modulus(),
    decreases n,
{
    if n > 0 {
        let t = terms[n - 1];
        lemma_results_canonical(
            terms_sum(tables, terms, y, c, (n - 1) as nat, base),
            term_product(tables, t.0, t.1, y, c, t.1.len()),
        );
    }
}

/// The round polynomial at `r` is the sum over the tables folded at `r`.
pub proof fn lemma_round_fold(
    tables: Seq<Seq<int>>,
    terms: Seq<(int, Seq<usize>)>,
    len: nat,
    r: int,
    ny: nat,
)
    requires
        sum_ok(tables, terms, len),
        2 * ny <= len,
    ensures
        round_sum(tables, terms, r, ny) == expr_sum(crate::sumcheck::fold_tables(tables, r), terms, ny),
    decreases ny,
{
    if ny > 0 {
        lemma_round_fold(tables, terms, len, r, (ny - 1) as nat);
        let b = round_sum(tables, terms, r, (ny - 1) as nat);
        lemma_terms_on_line(tables, terms, len, ny - 1, r, terms.len(), 0, 0, b);
    }
}

/// Folding keeps the tables canonical and halves their length.
proof fn lemma_fold_sum_ok(tables: Seq<Seq<int>>, terms: Seq<(int, Seq<usize>)>, len: nat, r: int)
    requires
        sum_ok(tables, terms, 2 * len),
    ensures
        sum_ok(fold_tables(tables, r), terms, len),
{
    let f = fold_tables(tables, r);
    assert forall|i: int, j: int| 0 <= i < f.len() && 0 <= j < f[i].len() implies 0 <= #[trigger] f[i][j]
        < modulus() by {
        let t = tables[i];
        lemma_results_canonical(fmul(fsub(1, r), t[2 * j]), fmul(r, t[2 * j + 1]));
    }
    assert forall|i: int| 0 <= i < f.len() implies #[trigger] f[i].len() == len by {
        assert(tables[i].len() == 2 * len);
    }
}

/// On tables of one entry, the sum over them is the expression at the
/// empty point.
proof fn lemma_expr_at_empty(tables: Seq<Seq<int>>, terms: Seq<(int, Seq<usize>)>)
    requires
        crate::sumcheck::tables_have_len(tables, 1),
    ensures
        expr_sum(tables, terms, 1) == expr_at(tables, terms, Seq::empty()),
{
    let mapped = tables.map_values(|t: Seq<int>| seq![crate::mle::mle_eval(t, Seq::empty())]);
    assert forall|i: int| 0 <= i < tables.len() implies #[trigger] mapped[i] =~= tables[i] by {
        assert(tables[i].len() == 1);
    }
    assert(mapped =~= tables);
    assert(expr_sum(tables, terms, 0) == 0);
    assert(expr_sum(tables, terms, 1) == point_terms(tables, terms, 0, terms.len(), 0));
}

/// Fixing the first variable to `r` and then the rest to `z` is fixing
/// them all to `r, z`.
proof fn lemma_expr_at_fold(tables: Seq<Seq<int>>, terms: Seq<(int, Seq<usize>)>, r: int, z: Seq<int>)
    ensures
        expr_at(fold_tables(tables, r), terms, z) == expr_at(tables, terms, seq![r] + z),
{
    let rz = seq![r] + z;
    let m1 = fold_tables(tables, r).map_values(
        |t: Seq<int>| seq![crate::mle::mle_eval(t, z)],
    );
    let m2 = tables.map_values(|t: Seq<int>| seq![crate::mle::mle_eval(t, rz)]);
    assert(rz.drop_first() =~= z);
    assert forall|i: int| 0 <= i < tables.len() implies #[trigger] m1[i] =~= m2[i] by {
        assert(crate::mle::mle_eval(tables[i], rz) == crate::mle::mle_eval(
            crate::mle::fold_first(tables[i], r),
            z,
        ));
    }
    assert(m1 =~= m2);
}

/// The verifier from round `round` on, fed the honest prover's remaining
/// `k` round polynomials with the true sum as the claim.
proof fn lemma_rounds_complete(
    tables: Seq<Seq<int>>,
    terms: Seq<(int, Seq<usize>)>,
    degree: nat,
    k: nat,
    log: Seq<TranscriptOp>,
    polys: Seq<Seq<int>>,
    round: nat,
    chals: Seq<int>,
)
    requires
        sum_ok(tables, terms, pow2(k)),
        tables.len() > 0,
        1 <= degree,
        max_factors(terms) <= degree,
        nodes_have_inverses(degree + 1),
        polys.len() == round + k,
        polys.subrange(round as int, polys.len() as int) == prove_rounds(
            tables,
            terms,
            degree,
            k,
            log,
        ).0,
    ensures
        ({
            let (ps, cs, plog) = prove_rounds(tables, terms, degree, k, log);
            verify_rounds(expr_sum(tables, terms, pow2(k)), polys, degree, round, log, chals) == (
            Ok::<(Seq<int>, int), crate::sumcheck::SumcheckError>(
                (chals + cs, expr_at(tables, terms, cs)),
            ), plog)
        }),
    decreases k,
{
    let claim = expr_sum(tables, terms, pow2(k));
    if k == 0 {
        assert(chals + Seq::<int>::empty() =~= chals);
        assert(pow2(0) == 1) by {
            vstd::arithmetic::power2::lemma2_to64();
        }
        lemma_expr_at_empty(tables, terms);
    } else {
        let len = pow2(k);
        let half = pow2((k - 1) as nat);
        lemma_pow2_unfold(k);
        lemma_pow2_pos((k - 1) as nat);
        assert(tables[0].len() == len);
        let evals = round_evals(tables, terms, degree);
        let log1 = after_message(log, "round"@, crate::sumcheck::values_bytes(evals));
        let r = challenge_value(log1, "r"@);
        let log2 = after_challenge(log1, "r"@);
        let rest = prove_rounds(fold_tables(tables, r), terms, degree, (k - 1) as nat, log2);
        let p = polys[round as int];
        assert(p == polys.subrange(round as int, polys.len() as int)[0]);
        assert(p == evals);
        // The sum check of the round.
        assert(len / 2 == half);
        lemma_round_ends(tables, terms, len, half);
        assert(fadd(p[0], p[1]) == claim);
        // The next claim.
        lemma_round_interp(tables, terms, len, degree, r);
        lemma_round_fold(tables, terms, len, r, half);
        assert(lagrange_value(p, r) == expr_sum(fold_tables(tables, r), terms, half));
        lemma_fold_sum_ok(tables, terms, half, r);
        assert(polys.subrange((round + 1) as int, polys.len() as int) =~= polys.subrange(
            round as int,
            polys.len() as int,
        ).drop_first());
        assert((seq![evals] + rest.0).drop_first() =~= rest.0);
        lemma_rounds_complete(
            fold_tables(tables, r),
            terms,
            degree,
            (k - 1) as nat,
            log2,
            polys,
            round + 1,
            chals.push(r),
        );
        assert(chals.push(r) + rest.1 =~= chals + (seq![r] + rest.1));
        lemma_expr_at_fold(tables, terms, r, rest.1);
    }
}

/// The round polynomials with the first value of round `i` replaced by `v`.
pub open spec fn tamper_round(polys: Seq<Seq<int>>, i: int, v: int) -> Seq<Seq<int>> {
    polys.update(i, polys[i].update(0, v))
}

/// Adding the same value to two different canonical values keeps them
/// apart.
proof fn lemma_fadd_cancel(a: int, c: int, b: int)
    requires
        0 <= a < modulus(),
        0 <= c < modulus(),
        a != c,
    ensures
        fadd(a, b) != fadd(c, b),
{
    let m = modulus();
    if fadd(a, b) == fadd(c, b) {
        vstd::arithmetic::div_mod::lemma_sub_mod_noop(a + b, c + b, m);
        lemma_canonical_mod(0);
        assert((a + b - (c + b)) % m == 0) by {
            vstd::arithmetic::div_mod::lemma_mod_bound(a + b, m);
        }
        assert(a - c == a + b - (c + b));
        if a > c {
            vstd::arithmetic::div_mod::lemma_small_mod((a - c) as nat, m as nat);
        } else {
            vstd::arithmetic::div_mod::lemma_mod_add_multiples_vanish(a - c, m);
            vstd::arithmetic::div_mod::lemma_small_mod((a - c + m) as nat, m as nat);
        }
    }
}

/// The verifier from round `round` on, fed the honest prover's remaining
/// round polynomials with the first value of round `i` changed: it refuses
/// round `i`.
proof fn lemma_rounds_tampered(
    tables: Seq<Seq<int>>,
    terms: Seq<(int, Seq<usize>)>,
    degree: nat,
    k: nat,
    log: Seq<TranscriptOp>,
    polys: Seq<Seq<int>>,
    round: nat,
    chals: Seq<int>,
    i: nat,
    v: int,
)
    requires
        sum_ok(tables, terms, pow2(k)),
        tables.len() > 0,
        1 <= degree,
        max_factors(terms) <= degree,
        nodes_have_inverses(degree + 1),
        polys.len() == round + k,
        round <= i < round + k,
        0 <= v < modulus(),
        v != prove_rounds(tables, terms, degree, k, log).0[i - round][0],
        polys.subrange(round as int, polys.len() as int) == tamper_round(
            prove_rounds(tables, terms, degree, k, log).0,
            i - round,
            v,
        ),
    ensures
        verify_rounds(expr_sum(tables, terms, pow2(k)), polys, degree, round, log, chals).0
            == Err::<(Seq<int>, int), crate::sumcheck::SumcheckError>(
            crate::sumcheck::SumcheckError::RoundCheckFailed { round: i as usize },
        ),
    decreases k,
{
    let claim = expr_sum(tables, terms, pow2(k));
    let len = pow2(k);
    let half = pow2((k - 1) as nat);
    lemma_pow2_unfold(k);
    lemma_pow2_pos((k - 1) as nat);
    assert(tables[0].len() == len);
    let evals = round_evals(tables, terms, degree);
    let log1 = after_message(log, "round"@, crate::sumcheck::values_bytes(evals));
    let r = challenge_value(log1, "r"@);
    let log2 = after_challenge(log1, "r"@);
    let rest = prove_rounds(fold_tables(tables, r), terms, degree, (k - 1) as nat, log2);
    let honest = prove_rounds(tables, terms, degree, k, log).0;
    crate::sumcheck::lemma_prove_rounds_len(tables, terms, degree, k, log);
    crate::sumcheck::lemma_prove_rounds_len(fold_tables(tables, r), terms, degree, (k - 1) as nat, log2);
    assert(honest == seq![evals] + rest.0);
    let p = polys[round as int];
    assert(p == polys.subrange(round as int, polys.len() as int)[0]);
    assert(len / 2 == half);
    lemma_round_ends(tables, terms, len, half);
    if i == round {
        assert(p == evals.update(0, v));
        lemma_round_canonical(tables, terms, 0, half);
        lemma_fadd_cancel(v, evals[0], evals[1]);
    } else {
        let j = i - round;
        let t = tamper_round(honest, j, v);
        assert(t[0] == honest[0]);
        assert(honest[0] == evals);
        assert(p == evals);
        lemma_round_interp(tables, terms, len, degree, r);
        lemma_round_fold(tables, terms, len, r, half);
        lemma_fold_sum_ok(tables, terms, half, r);
        assert(polys.subrange((round + 1) as int, polys.len() as int) =~= t.drop_first());
        assert forall|a: int| 0 <= a < rest.0.len() implies #[trigger] t.drop_first()[a] == tamper_round(
            rest.0,
            j - 1,
            v,
        )[a] by {
            assert(honest[a + 1] == rest.0[a]);
        }
        assert(polys.subrange((round + 1) as int, polys.len() as int) =~= tamper_round(
            rest.0,
            i - round - 1,
            v,
        ));
        lemma_rounds_tampered(
            fold_tables(tables, r),
            terms,
            degree,
            (k - 1) as nat,
            log2,
            polys,
            round + 1,
            chals.push(r),
            i,
            v,
        );
    }
}

/// The sumcheck verifier refuses the honest prover's round polynomials with
/// the wrong number of rounds, refuses them in round zero against any claim
/// but the true sum, and refuses round `i` when its first value is changed,
/// whatever the challenges.
pub proof fn lemma_sumcheck_rejects(
    tables: Seq<Seq<int>>,
    terms: Seq<(int, Seq<usize>)>,
    degree: nat,
    num_vars: nat,
    log: Seq<TranscriptOp>,
    claim: int,
    rounds: nat,
    i: nat,
    v: int,
)
    requires
        sum_ok(tables, terms, pow2(num_vars)),
        tables.len() > 0,
        1 <= degree,
        max_factors(terms) <= degree,
        nodes_have_inverses(degree + 1),
    ensures
        ({
            let polys = prove_rounds(tables, terms, degree, num_vars, log).0;
            let sum = expr_sum(tables, terms, pow2(num_vars));
            &&& rounds != num_vars ==> verify_spec(claim, rounds, degree, polys, log) == (Err::<
                (Seq<int>, int),
                crate::sumcheck::SumcheckError,
            >(
                crate::sumcheck::SumcheckError::WrongNumRounds {
                    expected: rounds as usize,
                    got: num_vars as usize,
                },
            ), log)
            &&& num_vars > 0 && 0 <= claim < modulus() && claim != sum ==> verify_spec(
                claim,
                num_vars,
                degree,
                polys,
                log,
            ).0 == Err::<(Seq<int>, int), crate::sumcheck::SumcheckError>(
                crate::sumcheck::SumcheckError::RoundCheckFailed { round: 0 },
            )
            &&& i < num_vars && 0 <= v < modulus() && v != polys[i as int][0] ==> verify_spec(
                sum,
                num_vars,
                degree,
                tamper_round(polys, i as int, v),
                log,
            ).0 == Err::<(Seq<int>, int), crate::sumcheck::SumcheckError>(
                crate::sumcheck::SumcheckError::RoundCheckFailed { round: i as usize },
            )
        }),
{
    let polys = prove_rounds(tables, terms, degree, num_vars, log).0;
    let sum = expr_sum(tables, terms, pow2(num_vars));
    crate::sumcheck::lemma_prove_rounds_len(tables, terms, degree, num_vars, log);
    if num_vars > 0 && 0 <= claim < modulus() && claim != sum {
        let k = num_vars;
        let len = pow2(k);
        let half = pow2((k - 1) as nat);
        lemma_pow2_unfold(k);
        lemma_pow2_pos((k - 1) as nat);
        assert(tables[0].len() == len);
        assert(len / 2 == half);
        lemma_round_ends(tables, terms, len, half);
        assert(polys[0] == round_evals(tables, terms, degree));
    }
    if i < num_vars && 0 <= v < modulus() && v != polys[i as int][0] {
        let t = tamper_round(polys, i as int, v);
        assert(t.subrange(0, t.len() as int) =~= tamper_round(polys, i as int, v));
        lemma_rounds_tampered(tables, terms, degree, num_vars, log, t, 0, Seq::empty(), i, v);
    }
}

/// Completeness of sumcheck. Fed, on the same transcript, the honest
/// prover's round polynomials and the true sum of the expression over the
/// hypercube, the verifier accepts: it draws the prover's challenges,
/// leaves the transcript as the prover left it, and its final claim is the
/// expression at the challenge point, each table replaced by its
/// multilinear extension there.
pub proof fn lemma_sumcheck_complete(
    tables: Seq<Seq<int>>,
    terms: Seq<(int, Seq<usize>)>,
    degree: nat,
    num_vars: nat,
    log: Seq<TranscriptOp>,
)
    requires
        sum_ok(tables, terms, pow2(num_vars)),
        tables.len() > 0,
        1 <= degree,
        max_factors(terms) <= degree,
        nodes_have_inverses(degree + 1),
    ensures
        ({
            let (polys, chals, plog) = prove_rounds(tables, terms, degree, num_vars, log);
            verify_spec(expr_sum(tables, terms, pow2(num_vars)), num_vars, degree, polys, log) == (
            Ok::<(Seq<int>, int), crate::sumcheck::SumcheckError>(
                (chals, expr_at(tables, terms, chals)),
            ), plog)
        }),
{
    let (polys, chals, plog) = prove_rounds(tables, terms, degree, num_vars, log);
    crate::sumcheck::lemma_prove_rounds_len(tables, terms, degree, num_vars, log);
    assert(polys.subrange(0, polys.len() as int) =~= polys);
    lemma_rounds_complete(tables, terms, degree, num_vars, log, polys, 0, Seq::empty());
    assert(Seq::<int>::empty() + chals =~= chals);
}

/// A canonical `w` with `d w == 1` makes `d` invertible.
proof fn lemma_witness(d: int, w: int)
    requires
        0 <= w < modulus(),
        fmul(d, w) == 1,
    ensures
        invertible(d),
{
    crate::interp::lemma_finv_witness(d, w);
}

/// A product of invertible elements is invertible.
pub proof fn lemma_invertible_mul(a: int, b: int)
    requires
        invertible(a),
        invertible(b),
    ensures
        invertible(fmul(a, b)),
{
    let ia = crate::field::finv(a);
    let ib = crate::field::finv(b);
    crate::interp::lemma_finv_canonical(a);
    crate::interp::lemma_finv_canonical(b);
    crate::interp::lemma_mul4(a, b, ib, ia);
    lemma_commutative(b, ib);
    lemma_canonical_mod(1);
    lemma_identities(1);
    lemma_results_canonical(ia, ib);
    lemma_commutative(ia, ib);
    lemma_witness(fmul(a, b), fmul(ia, ib));
}

/// The integers `1..40` are invertible: their prime factors are, and the
/// inverses of those are exhibited.
proof fn lemma_small_invertible(k: int)
    requires
        1 <= k < 40,
    ensures
        invertible(k),
    decreases k,
{
    if k == 1 {
        lemma_canonical_mod(1);
        lemma_identities(1);
        lemma_witness(1, 1);
    } else if k % 2 == 0 {
        lemma_witness(2, 10944121435919637611123202872628637544274182200208017171849102093287904247809int);
        lemma_small_invertible(k / 2);
        lemma_invertible_mul(2, k / 2);
        lemma_canonical_mod(k);
    } else if k % 3 == 0 {
        lemma_witness(3, 14592161914559516814830937163504850059032242933610689562465469457717205663745int);
        lemma_small_invertible(k / 3);
        lemma_invertible_mul(3, k / 3);
        lemma_canonical_mod(k);
    } else if k % 5 == 0 {
        lemma_witness(5, 8755297148735710088898562298102910035419345760166413737479281674630323398247int);
        lemma_small_invertible(k / 5);
        lemma_invertible_mul(5, k / 5);
        lemma_canonical_mod(k);
    } else if k == 7 {
        lemma_witness(7, 3126891838834182174606629392179610726935480628630862049099743455225115499374int);
    } else if k == 11 {
        lemma_witness(11, 7959361044305190989907783907366281850381223418333103397708437886027566725679int);
    } else if k == 13 {
        lemma_witness(13, 20204531881697792512842836072545177004813874831153262471106034633762284765185int);
    } else if k == 17 {
        lemma_witness(17, 7725262190060920666675202027737861795958246258970365062481719124673814763159int);
    } else if k == 19 {
        lemma_witness(19, 1152012782728382906434021355013540794134124442127159702299905483503989920822int);
    } else if k == 23 {
        lemma_witness(23, 8564964602024064217400767465535455469431968678423665612751471203442707672198int);
    } else if k == 29 {
        lemma_witness(29, 21133475876258610559410322788524265602736351834884446952536197145659401306113int);
    } else if k == 31 {
        lemma_witness(31, 2824289402817970996418891063904164527554627664569810883057832798267846257499int);
    } else {
        assert(k == 37);
        lemma_witness(37, 591574131671331762763416371493439867258063902713946874154005518556102932314int);
    }
}

/// The negation of an invertible element is invertible.
proof fn lemma_neg_invertible(a: int)
    requires
        invertible(a),
    ensures
        invertible((-a) % modulus()),
{
    let w = crate::field::finv(a);
    let m = modulus();
    lemma_reduce_operands(-a, -w);
    lemma_reduce_operands((-a) % m, -w);
    assert((-a) * (-w) == a * w) by (nonlinear_arith);
    vstd::arithmetic::div_mod::lemma_mod_bound(-w, m);
    lemma_witness((-a) % m, (-w) % m);
}

/// The Lagrange denominators over nodes below `40` are invertible.
proof fn lemma_denominator_invertible(i: int, k: nat)
    requires
        0 <= i < 40,
        k <= 40,
    ensures
        invertible(lagrange_product(i, i, k)),
    decreases k,
{
    if k == 0 {
        lemma_canonical_mod(1);
        lemma_identities(1);
        lemma_witness(1, 1);
    } else {
        lemma_denominator_invertible(i, (k - 1) as nat);
        if k - 1 != i {
            let d = i - (k - 1);
            if d > 0 {
                lemma_small_invertible(d);
                lemma_canonical_mod(d);
            } else {
                lemma_small_invertible(-d);
                lemma_neg_invertible(-d);
            }
            lemma_invertible_mul(lagrange_product(i, i, (k - 1) as nat), fsub(i, k - 1));
        }
    }
}

/// Through at most `40` nodes, every Lagrange denominator is invertible.
pub proof fn lemma_nodes_have_inverses(n: nat)
    requires
        n <= 40,
    ensures
        nodes_have_inverses(n),
{
    assert forall|i: int| 0 <= i < n implies #[trigger] invertible(lagrange_product(i, i, n)) by {
        lemma_denominator_invertible(i, n);
    }
}

/// Completeness of sumcheck for the inputs of `prove_terms`: the verifier,
/// given the true sum of the expression over the factors' hypercube and
/// the round polynomials that `prove_terms` sends, accepts on the same
/// transcript with the prover's challenges, and its final claim is the
/// expression at them.
pub proof fn lemma_prove_terms_complete(
    factors: Seq<crate::mle::DenseMle>,
    terms: Seq<crate::sumcheck::Term>,
    log: Seq<TranscriptOp>,
)
    requires
        crate::sumcheck::factors_consistent(factors),
        terms_in_range(crate::sumcheck::term_views(terms), factors.len()),
        1 <= max_factors(crate::sumcheck::term_views(terms)),
        nodes_have_inverses(max_factors(crate::sumcheck::term_views(terms)) + 1),
    ensures
        ({
            let tables = crate::sumcheck::factor_tables(factors);
            let tw = crate::sumcheck::term_views(terms);
            let nv = factors[0].num_vars as nat;
            let (polys, chals, plog) = prove_rounds(tables, tw, max_factors(tw), nv, log);
            verify_spec(expr_sum(tables, tw, pow2(nv)), nv, max_factors(tw), polys, log) == (
            Ok::<(Seq<int>, int), crate::sumcheck::SumcheckError>(
                (chals, expr_at(tables, tw, chals)),
            ), plog)
        }),
{
    let tables = crate::sumcheck::factor_tables(factors);
    let tw = crate::sumcheck::term_views(terms);
    let nv = factors[0].num_vars as nat;
    assert forall|i: int, j: int| 0 <= i < tables.len() && 0 <= j < tables[i].len() implies 0
        <= #[trigger] tables[i][j] < modulus() by {
        crate::field::lemma_vals_canonical(factors[i].evaluations@);
    }
    assert forall|i: int| 0 <= i < tables.len() implies #[trigger] tables[i].len() == pow2(nv) by {
        assert(factors[i].well_formed());
    }
    assert forall|t: int| 0 <= t < tw.len() implies 0 <= #[trigger] tw[t].0 < modulus() by {
        crate::field::lemma_value_range(terms[t].coeff);
    }
    lemma_sumcheck_complete(tables, tw, max_factors(tw), nv, log);
}

/// The honest prover's challenges are canonical.
pub proof fn lemma_prove_rounds_canonical(
    tables: Seq<Seq<int>>,
    terms: Seq<(int, Seq<usize>)>,
    degree: nat,
    rounds: nat,
    log: Seq<TranscriptOp>,
)
    ensures
        crate::field::all_canonical(prove_rounds(tables, terms, degree, rounds, log).1),
    decreases rounds,
{
    if rounds > 0 {
        let evals = round_evals(tables, terms, degree);
        let log1 = after_message(log, "round"@, crate::sumcheck::values_bytes(evals));
        let r = challenge_value(log1, "r"@);
        let rest = prove_rounds(fold_tables(tables, r), terms, degree, (rounds - 1) as nat, after_challenge(log1, "r"@));
        lemma_prove_rounds_canonical(fold_tables(tables, r), terms, degree, (rounds - 1) as nat, after_challenge(log1, "r"@));
        crate::transcript::lemma_challenge_values_canonical(log1, "r"@, 1);
        assert(crate::transcript::challenge_values(log1, "r"@, 1)[0] == r);
        let cs = seq![r] + rest.1;
        assert forall|i: int| 0 <= i < cs.len() implies 0 <= #[trigger] cs[i] < modulus() by {
            if i > 0 {
                assert(cs[i] == rest.1[i - 1]);
            }
        }
    }
}

/// Every entry of `t` times `c`.
pub open spec fn scale_table(t: Seq<int>, c: int) -> Seq<int> {
    Seq::new(t.len(), |i: int| fmul(t[i], c))
}

/// The multilinear extension is linear in the table: scaling the table
/// scales its extension.
pub proof fn lemma_mle_eval_scale(t: Seq<int>, c: int, z: Seq<int>)
    requires
        t.len() == pow2(z.len()),
    ensures
        crate::mle::mle_eval(scale_table(t, c), z) == fmul(crate::mle::mle_eval(t, z), c),
    decreases z.len(),
{
    if z.len() == 0 {
        vstd::arithmetic::power2::lemma2_to64();
    } else {
        let z0 = z[0];
        let ft = crate::mle::fold_first(t, z0);
        let fs = crate::mle::fold_first(scale_table(t, c), z0);
        lemma_pow2_unfold(z.len());
        assert forall|y: int| 0 <= y < fs.len() implies #[trigger] fs[y] == scale_table(ft, c)[y] by {
            let a = fsub(1, z0);
            lemma_associative(a, t[2 * y], c);
            lemma_associative(z0, t[2 * y + 1], c);
            crate::field::lemma_distributive(c, fmul(a, t[2 * y]), fmul(z0, t[2 * y + 1]));
            lemma_commutative(c, fmul(a, t[2 * y]));
            lemma_commutative(c, fmul(z0, t[2 * y + 1]));
            lemma_commutative(c, fadd(fmul(a, t[2 * y]), fmul(z0, t[2 * y + 1])));
        }
        assert(fs =~= scale_table(ft, c));
        lemma_mle_eval_scale(ft, c, z.drop_first());
    }
}

/// `u (b w) + z (a w) == (u b + z a) w`, the product on the right.
proof fn lemma_fold_coefficient(u: int, b: int, z: int, a: int, w: int)
    ensures
        fadd(fmul(u, fmul(b, w)), fmul(z, fmul(a, w))) == fmul(w, fadd(fmul(u, b), fmul(z, a))),
{
    lemma_associative(u, b, w);
    lemma_associative(z, a, w);
    crate::field::lemma_distributive(w, fmul(u, b), fmul(z, a));
    lemma_commutative(w, fadd(fmul(u, b), fmul(z, a)));
}

/// Fixing the first variable of the table of `eq(., a)` to `z0` leaves the
/// table of `eq(., a[1..])` scaled by `eq(z0, a0)`.
proof fn lemma_eq_table_fold(a: Seq<int>, z0: int)
    requires
        a.len() > 0,
        crate::field::all_canonical(a),
    ensures
        crate::mle::fold_first(crate::eq::eq_table(a), z0) =~= scale_table(
            crate::eq::eq_table(a.drop_first()),
            fadd(fmul(fsub(1, z0), fsub(1, a[0])), fmul(z0, a[0])),
        ),
{
    let n = a.len();
    let a0 = a[0];
    let a1 = a.drop_first();
    let e = crate::eq::eq_table(a);
    let e1 = crate::eq::eq_table(a1);
    let fe = crate::mle::fold_first(e, z0);
    assert(seq![a0] + a1 =~= a);
    lemma_pow2_unfold(n);
    crate::eq::lemma_eq_table_one(a0);
    vstd::arithmetic::power2::lemma2_to64();
    assert forall|y: int| 0 <= y < fe.len() implies #[trigger] fe[y] == scale_table(
        e1,
        fadd(fmul(fsub(1, z0), fsub(1, a0)), fmul(z0, a0)),
    )[y] by {
        crate::eq::lemma_eq_table_concat(seq![a0], a1, 0, y as nat);
        crate::eq::lemma_eq_table_concat(seq![a0], a1, 1, y as nat);
        lemma_fold_coefficient(fsub(1, z0), fsub(1, a0), z0, a0, e1[y]);
    }
}

/// The multilinear extension of the table of `eq(., a)` is `eq(a, .)`.
pub proof fn lemma_eq_table_extension(a: Seq<int>, z: Seq<int>)
    requires
        a.len() == z.len(),
        crate::field::all_canonical(a),
    ensures
        crate::mle::mle_eval(crate::eq::eq_table(a), z) == crate::eq::eq_value(a, z),
    decreases a.len(),
{
    if a.len() == 0 {
        vstd::arithmetic::power2::lemma2_to64();
        assert(crate::eq::bool_point(0, 0) =~= Seq::<int>::empty());
    } else {
        let a0 = a[0];
        let z0 = z[0];
        let a1 = a.drop_first();
        let z1 = z.drop_first();
        let e1 = crate::eq::eq_table(a1);
        let ef = fadd(fmul(fsub(1, z0), fsub(1, a0)), fmul(z0, a0));
        assert(seq![a0] + a1 =~= a);
        assert(seq![z0] + z1 =~= z);
        assert(crate::field::all_canonical(a1));
        lemma_eq_table_fold(a, z0);
        lemma_eq_table_extension(a1, z1);
        lemma_mle_eval_scale(e1, ef, z1);
        crate::eq::lemma_eq_value_concat(seq![a0], a1, seq![z0], z1);
        // `eq` over one coordinate is its factor.
        assert(seq![a0].drop_last() =~= Seq::<int>::empty());
        assert(seq![z0].drop_last() =~= Seq::<int>::empty());
        let f1 = crate::eq::eq_factor(a0, z0);
        lemma_results_canonical(fmul(a0, z0), fmul(fsub(1, a0), fsub(1, z0)));
        lemma_identities(f1);
        assert(seq![a0].last() == a0 && seq![z0].last() == z0);
        assert(crate::eq::eq_value(seq![a0].drop_last(), seq![z0].drop_last()) == 1);
        assert(crate::eq::eq_value(seq![a0], seq![z0]) == fmul(1, f1));
        assert(crate::eq::eq_value(seq![a0], seq![z0]) == f1);
        lemma_commutative(fmul(a0, z0), fmul(fsub(1, a0), fsub(1, z0)));
        lemma_commutative(a0, z0);
        lemma_commutative(fsub(1, a0), fsub(1, z0));
        lemma_commutative(f1, crate::eq::eq_value(a1, z1));
    }
}

/// The products of a term over the tables with one more table appended,
/// before the appended factor, are the products over the tables.
proof fn lemma_point_product_push(
    tables: Seq<Seq<int>>,
    e: Seq<int>,
    coeff: int,
    factors: Seq<usize>,
    idx: usize,
    x: int,
    k: nat,
)
    requires
        k <= factors.len(),
        forall|j: int| 0 <= j < factors.len() ==> #[trigger] factors[j] < tables.len(),
    ensures
        point_product(tables.push(e), coeff, factors.push(idx), x, k) == point_product(
            tables,
            coeff,
            factors,
            x,
            k,
        ),
    decreases k,
{
    if k > 0 {
        lemma_point_product_push(tables, e, coeff, factors, idx, x, (k - 1) as nat);
        assert(factors.push(idx)[k - 1] == factors[k - 1]);
        assert(factors[k - 1] < tables.len());
    }
}

/// Appending the table `e` to the tables and its index to every term
/// multiplies the terms' sum at each entry by `e` there.
pub proof fn lemma_point_with_factor(
    tables: Seq<Seq<int>>,
    terms: Seq<(int, Seq<usize>)>,
    e: Seq<int>,
    x: int,
    n: nat,
)
    requires
        n <= terms.len(),
        terms_in_range(terms, tables.len()),
        tables.len() < usize::MAX,
    ensures
        point_terms(
            tables.push(e),
            crate::zerocheck::with_factor(terms, tables.len() as usize),
            x,
            n,
            0,
        ) == fmul(point_terms(tables, terms, x, n, 0), e[x]),
    decreases n,
{
    let idx = tables.len() as usize;
    let t2 = tables.push(e);
    let w = crate::zerocheck::with_factor(terms, idx);
    if n == 0 {
        lemma_canonical_mod(0);
        vstd::arithmetic::mul::lemma_mul_basics(e[x]);
    } else {
        let t = terms[n - 1];
        lemma_point_with_factor(tables, terms, e, x, (n - 1) as nat);
        assert(w[n - 1] == (t.0, t.1.push(idx)));
        assert forall|j: int| 0 <= j < t.1.len() implies #[trigger] t.1[j] < tables.len() by {
            assert(terms[n - 1].1[j] < tables.len());
        }
        lemma_point_product_push(tables, e, t.0, t.1, idx, x, t.1.len());
        assert(t.1.push(idx)[t.1.len() as int] == idx);
        assert(t2[idx as int] == e);
        let pp = point_product(tables, t.0, t.1, x, t.1.len());
        assert(point_product(t2, t.0, t.1.push(idx), x, t.1.len() + 1) == fmul(pp, e[x]));
        crate::field::lemma_distributive(e[x], point_terms(tables, terms, x, (n - 1) as nat, 0), pp);
    }
}

/// The table of `eq` appended to every term of an expression that
/// vanishes on every entry: the sum over the entries is zero.
proof fn lemma_vanishing_sum(
    tables: Seq<Seq<int>>,
    terms: Seq<(int, Seq<usize>)>,
    e: Seq<int>,
    n: nat,
)
    requires
        terms_in_range(terms, tables.len()),
        tables.len() < usize::MAX,
        forall|x: int| 0 <= x < n ==> #[trigger] point_terms(tables, terms, x, terms.len(), 0) == 0,
    ensures
        expr_sum(tables.push(e), crate::zerocheck::with_factor(terms, tables.len() as usize), n) == 0,
    decreases n,
{
    if n > 0 {
        let w = crate::zerocheck::with_factor(terms, tables.len() as usize);
        lemma_vanishing_sum(tables, terms, e, (n - 1) as nat);
        lemma_point_with_factor(tables, terms, e, n - 1, terms.len());
        assert(point_terms(tables, terms, n - 1, terms.len(), 0) == 0);
        vstd::arithmetic::mul::lemma_mul_basics(e[n - 1]);
        lemma_canonical_mod(0);
        assert(w.len() == terms.len());
    }
}

/// The expression vanishes on the first `len` entries.
pub open spec fn vanishes_on(tables: Seq<Seq<int>>, terms: Seq<(int, Seq<usize>)>, len: nat) -> bool {
    forall|x: int| 0 <= x < len ==> #[trigger] point_terms(tables, terms, x, terms.len(), 0) == 0
}

/// Completeness of zerocheck. For an expression that vanishes on the cube,
/// fed on the same transcript the round polynomials that the zerocheck
/// prover sends, the zerocheck verifier accepts (the sumcheck from zero,
/// after the same point `r`): it draws the prover's challenges `rho`,
/// leaves the transcript as the prover left it, and its final claim is
/// `C(rho) eq(r, rho)`, `C` the expression with each table replaced by its
/// multilinear extension.
pub proof fn lemma_zerocheck_complete(
    tables: Seq<Seq<int>>,
    terms: Seq<(int, Seq<usize>)>,
    degree: nat,
    num_vars: nat,
    log: Seq<TranscriptOp>,
)
    requires
        sum_ok(tables, terms, pow2(num_vars)),
        vanishes_on(tables, terms, pow2(num_vars)),
        0 < tables.len() < usize::MAX,
        terms.len() > 0,
        max_factors(terms) < degree,
        nodes_have_inverses(degree + 1),
    ensures
        ({
            let r = crate::transcript::challenge_values(log, "zerocheck_r"@, num_vars);
            let log1 = crate::transcript::after_challenges(log, "zerocheck_r"@, num_vars);
            let (polys, chals, plog) = prove_rounds(
                tables.push(crate::eq::eq_table(r)),
                crate::zerocheck::with_factor(terms, tables.len() as usize),
                degree,
                num_vars,
                log1,
            );
            verify_spec(0, num_vars, degree, polys, log1) == (Ok::<
                (Seq<int>, int),
                crate::sumcheck::SumcheckError,
            >((chals, fmul(expr_at(tables, terms, chals), crate::eq::eq_value(r, chals)))), plog)
        }),
{
    let r = crate::transcript::challenge_values(log, "zerocheck_r"@, num_vars);
    let log1 = crate::transcript::after_challenges(log, "zerocheck_r"@, num_vars);
    let e = crate::eq::eq_table(r);
    let idx = tables.len() as usize;
    let t2 = tables.push(e);
    let w = crate::zerocheck::with_factor(terms, idx);
    let len = pow2(num_vars);
    crate::transcript::lemma_challenge_values_canonical(log, "zerocheck_r"@, num_vars);
    // The extended sum is well formed and sums to zero.
    assert forall|i: int, j: int| 0 <= i < t2.len() && 0 <= j < t2[i].len() implies 0 <= #[trigger] t2[i][j]
        < modulus() by {
        if i == tables.len() {
            crate::eq::lemma_eq_value_canonical(crate::eq::bool_point(j as nat, r.len()), r);
        } else {
            assert(t2[i] == tables[i]);
        }
    }
    assert forall|i: int| 0 <= i < t2.len() implies #[trigger] t2[i].len() == len by {
        if i < tables.len() {
            assert(t2[i] == tables[i]);
        }
    }
    assert forall|a: int, k: int| 0 <= a < w.len() && 0 <= k < w[a].1.len() implies #[trigger] w[a].1[k]
        < t2.len() by {
        if k < terms[a].1.len() {
            assert(w[a].1[k] == terms[a].1[k]);
            assert(terms[a].1[k] < tables.len());
        }
    }
    assert forall|t: int| 0 <= t < w.len() implies 0 <= #[trigger] w[t].0 < modulus() by {
        assert(w[t].0 == terms[t].0);
    }
    crate::zerocheck::lemma_max_factors_with_factor(terms, idx);
    lemma_vanishing_sum(tables, terms, e, len);
    lemma_sumcheck_complete(t2, w, degree, num_vars, log1);
    // The final claim.
    let (polys, chals, plog) = prove_rounds(t2, w, degree, num_vars, log1);
    crate::sumcheck::lemma_prove_rounds_len(t2, w, degree, num_vars, log1);
    let m = tables.map_values(|t: Seq<int>| seq![crate::mle::mle_eval(t, chals)]);
    let ev = seq![crate::mle::mle_eval(e, chals)];
    assert(t2.map_values(|t: Seq<int>| seq![crate::mle::mle_eval(t, chals)]) =~= m.push(ev));
    lemma_point_with_factor(m, terms, ev, 0, terms.len());
    lemma_eq_table_extension(r, chals);
}

} // verus!
