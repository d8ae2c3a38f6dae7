//! Polynomials over the field by their coefficients, and the exactness of
//! Lagrange interpolation: through nodes whose Lagrange denominators are
//! invertible, the interpolant of a polynomial with no more coefficients
//! than nodes is the polynomial itself.

use crate::field::{
    fadd, finv, fmul, fsub, lemma_associative, lemma_canonical_mod, lemma_commutative,
    lemma_distributive, lemma_identities, lemma_inverse_unique, lemma_reduce_operands,
    lemma_results_canonical, modulus,
};
use crate::sums::{fprod, fsum, lemma_fprod_canonical, lemma_fsum_canonical};
use vstd::arithmetic::div_mod::{lemma_add_mod_noop, lemma_mod_twice};
use vstd::prelude::*;

verus! {

/// The coefficient of `x^k`, zero past the end.
pub open spec fn coef(a: Seq<int>, k: int) -> int {
    if 0 <= k < a.len() {
        a[k]
    } else {
        0
    }
}

/// The coefficients after the constant one.
pub open spec fn ptail(a: Seq<int>) -> Seq<int> {
    if a.len() == 0 {
        a
    } else {
        a.drop_first()
    }
}

/// `a_0 + x (a_1 + x (a_2 + ...))`.
pub open spec fn peval(a: Seq<int>, x: int) -> int
    decreases a.len(),
{
    if a.len() == 0 {
        0
    } else {
        fadd(a[0], fmul(x, peval(a.drop_first(), x)))
    }
}

/// The sum of two polynomials.
pub open spec fn padd(a: Seq<int>, b: Seq<int>) -> Seq<int> {
    Seq::new(
        if a.len() >= b.len() {
            a.len()
        } else {
            b.len()
        },
        |k: int| fadd(coef(a, k), coef(b, k)),
    )
}

/// A polynomial times a constant.
pub open spec fn pscale(a: Seq<int>, c: int) -> Seq<int> {
    Seq::new(a.len(), |k: int| fmul(a[k], c))
}

/// A polynomial times `x`.
pub open spec fn pshift(a: Seq<int>) -> Seq<int> {
    seq![0int] + a
}

/// A polynomial times `u + v x`.
pub open spec fn pmul_lin(a: Seq<int>, u: int, v: int) -> Seq<int> {
    padd(pscale(a, u), pshift(pscale(a, v)))
}

/// `(a + b) + (c + d) == (a + c) + (b + d)`.
pub proof fn lemma_add4(a: int, b: int, c: int, d: int)
    ensures
        fadd(fadd(a, b), fadd(c, d)) == fadd(fadd(a, c), fadd(b, d)),
{
    let m = modulus();
    lemma_add_mod_noop(a + b, c + d, m);
    lemma_add_mod_noop(a + c, b + d, m);
    lemma_mod_twice(a + b, m);
    lemma_mod_twice(c + d, m);
    lemma_mod_twice(a + c, m);
    lemma_mod_twice(b + d, m);
    lemma_reduce_operands(a + b, c + d);
    lemma_reduce_operands(a + c, b + d);
    lemma_reduce_operands((a + b) % m, c + d);
    lemma_reduce_operands((a + c) % m, b + d);
}

/// Values of polynomials are canonical.
pub proof fn lemma_peval_canonical(a: Seq<int>, x: int)
    ensures
        0 <= peval(a, x) < modulus(),
    decreases a.len(),
{
    if a.len() == 0 {
        lemma_canonical_mod(0);
    } else {
        lemma_results_canonical(a[0], fmul(x, peval(a.drop_first(), x)));
    }
}

/// Horner's step for any polynomial, the empty one included.
pub proof fn lemma_peval_step(a: Seq<int>, x: int)
    ensures
        peval(a, x) == fadd(coef(a, 0), fmul(x, peval(ptail(a), x))),
{
    if a.len() == 0 {
        lemma_canonical_mod(0);
        lemma_reduce_operands(x, 0);
        assert(fmul(x, 0) == 0) by {
            vstd::arithmetic::mul::lemma_mul_basics(x);
        }
    }
}

/// Evaluation is additive.
pub proof fn lemma_peval_add(a: Seq<int>, b: Seq<int>, x: int)
    ensures
        peval(padd(a, b), x) == fadd(peval(a, x), peval(b, x)),
    decreases a.len() + b.len(),
{
    let s = padd(a, b);
    if a.len() == 0 && b.len() == 0 {
        lemma_canonical_mod(0);
    } else {
        let ta = ptail(a);
        let tb = ptail(b);
        assert(ptail(s) =~= padd(ta, tb));
        lemma_peval_add(ta, tb, x);
        lemma_peval_step(a, x);
        lemma_peval_step(b, x);
        lemma_peval_step(s, x);
        lemma_distributive(x, peval(ta, x), peval(tb, x));
        lemma_add4(coef(a, 0), coef(b, 0), fmul(x, peval(ta, x)), fmul(x, peval(tb, x)));
    }
}

/// Evaluation commutes with scaling.
pub proof fn lemma_peval_scale(a: Seq<int>, c: int, x: int)
    ensures
        peval(pscale(a, c), x) == fmul(peval(a, x), c),
    decreases a.len(),
{
    let s = pscale(a, c);
    if a.len() == 0 {
        lemma_canonical_mod(0);
        vstd::arithmetic::mul::lemma_mul_basics(c);
    } else {
        let ta = a.drop_first();
        assert(s.drop_first() =~= pscale(ta, c));
        lemma_peval_scale(ta, c, x);
        // s(x) = a0 c + x (A'(x) c) and a(x) c = (a0 + x A'(x)) c
        lemma_distributive(c, a[0], fmul(x, peval(ta, x)));
        lemma_commutative(c, a[0]);
        lemma_commutative(c, fmul(x, peval(ta, x)));
        lemma_commutative(fadd(a[0], fmul(x, peval(ta, x))), c);
        lemma_associative(x, peval(ta, x), c);
    }
}

/// Evaluation of a shift is `x` times the evaluation.
pub proof fn lemma_peval_shift(a: Seq<int>, x: int)
    ensures
        peval(pshift(a), x) == fmul(x, peval(a, x)),
{
    let s = pshift(a);
    assert(s.drop_first() =~= a);
    lemma_results_canonical(x, peval(a, x));
    lemma_identities(fmul(x, peval(a, x)));
}

/// Evaluation of a product with a linear factor.
pub proof fn lemma_peval_mul_lin(a: Seq<int>, u: int, v: int, x: int)
    ensures
        peval(pmul_lin(a, u, v), x) == fmul(fadd(u, fmul(v, x)), peval(a, x)),
{
    let pa = peval(a, x);
    lemma_peval_add(pscale(a, u), pshift(pscale(a, v)), x);
    lemma_peval_scale(a, u, x);
    lemma_peval_scale(a, v, x);
    lemma_peval_shift(pscale(a, v), x);
    // u a + x (a v) == (u + v x) a
    lemma_distributive(pa, u, fmul(v, x));
    lemma_commutative(pa, u);
    lemma_commutative(fadd(u, fmul(v, x)), pa);
    lemma_associative(x, pa, v);
    lemma_commutative(x, fmul(pa, v));
    lemma_associative(pa, v, x);
    lemma_commutative(pa, fmul(v, x));
    lemma_commutative(fmul(pa, v), x);
}

/// Integers that differ by a multiple of the modulus have equal residues.
pub proof fn lemma_congruent(e1: int, e2: int, k: int)
    requires
        e1 == e2 + k * modulus(),
    ensures
        e1 % modulus() == e2 % modulus(),
{
    vstd::arithmetic::div_mod::lemma_mod_multiples_vanish(k, e2, modulus());
    vstd::arithmetic::mul::lemma_mul_is_commutative(k, modulus());
}

/// The quotient of `a(x) - a(t)` by `x - t`, by synthetic division.
pub open spec fn sdiv(a: Seq<int>, t: int) -> Seq<int>
    decreases a.len(),
{
    if a.len() == 0 {
        a
    } else {
        padd(a.drop_first(), pscale(sdiv(a.drop_first(), t), t))
    }
}

/// The quotient has one coefficient fewer.
pub proof fn lemma_sdiv_len(a: Seq<int>, t: int)
    ensures
        a.len() == 0 ==> sdiv(a, t).len() == 0,
        a.len() > 0 ==> sdiv(a, t).len() == a.len() - 1,
    decreases a.len(),
{
    if a.len() > 0 {
        lemma_sdiv_len(a.drop_first(), t);
    }
}

/// The ring identity behind one step of synthetic division.
proof fn lemma_factor_identity(a0: int, x: int, t: int, at: int, sx: int, m: int, q: int)
    ensures
        a0 + t * at + (x - t) * ((at + (x - t) * sx - m * q) + sx * t) == a0 + x * (at + (x - t)
            * sx - m * q) + (t * q) * m,
{
    let p = (x - t) * sx;
    let ax = at + p - m * q;
    vstd::arithmetic::mul::lemma_mul_is_distributive_add(x - t, ax, sx * t);
    vstd::arithmetic::mul::lemma_mul_is_associative(x - t, sx, t);
    vstd::arithmetic::mul::lemma_mul_is_distributive_sub_other_way(ax, x, t);
    vstd::arithmetic::mul::lemma_mul_is_distributive_add(t, at + p, -(m * q));
    vstd::arithmetic::mul::lemma_mul_is_distributive_add(t, at, p);
    vstd::arithmetic::mul::lemma_mul_is_commutative(t, p);
    vstd::arithmetic::mul::lemma_mul_is_associative(t, m, q);
    vstd::arithmetic::mul::lemma_mul_is_commutative(t, m);
    vstd::arithmetic::mul::lemma_mul_is_associative(m, t, q);
    vstd::arithmetic::mul::lemma_mul_is_commutative(m, t * q);
    vstd::arithmetic::mul::lemma_mul_unary_negation(t, m * q);
    assert(ax * (x - t) == (x - t) * ax) by {
        vstd::arithmetic::mul::lemma_mul_is_commutative(ax, x - t);
    }
    assert(ax * x == x * ax) by {
        vstd::arithmetic::mul::lemma_mul_is_commutative(ax, x);
    }
    assert(ax * t == t * ax) by {
        vstd::arithmetic::mul::lemma_mul_is_commutative(ax, t);
    }
}

/// The factor theorem: `a(x) = a(t) + (x - t) q(x)` with `q = sdiv(a, t)`.
pub proof fn lemma_factor(a: Seq<int>, t: int, x: int)
    ensures
        peval(a, x) == fadd(peval(a, t), fmul(fsub(x, t), peval(sdiv(a, t), x))),
    decreases a.len(),
{
    let m = modulus();
    if a.len() == 0 {
        lemma_canonical_mod(0);
        assert(fmul(fsub(x, t), 0) == 0) by {
            vstd::arithmetic::mul::lemma_mul_basics(fsub(x, t));
        }
    } else {
        let a0 = a[0];
        let aa = a.drop_first();
        let sq = sdiv(aa, t);
        lemma_factor(aa, t, x);
        let ax = peval(aa, x);
        let at = peval(aa, t);
        let sx = peval(sq, x);
        lemma_peval_canonical(aa, x);
        lemma_peval_canonical(aa, t);
        lemma_peval_canonical(sq, x);
        lemma_peval_add(aa, pscale(sq, t), x);
        lemma_peval_scale(sq, t, x);
        // To the integers.
        lemma_reduce_operands(a0, x * ax);
        lemma_reduce_operands(a0, t * at);
        lemma_reduce_operands(ax, sx * t);
        vstd::arithmetic::div_mod::lemma_mul_mod_noop_general(x - t, ax + sx * t, m);
        vstd::arithmetic::div_mod::lemma_add_mod_noop(a0 + t * at, (x - t) * (ax + sx * t), m);
        vstd::arithmetic::div_mod::lemma_mod_twice(a0 + t * at, m);
        vstd::arithmetic::div_mod::lemma_mod_twice((x - t) * (ax + sx * t), m);
        lemma_reduce_operands(a0 + t * at, (x - t) * (ax + sx * t));
        lemma_reduce_operands((a0 + t * at) % m, (x - t) * (ax + sx * t));
        vstd::arithmetic::div_mod::lemma_mul_mod_noop_general(x - t, sx, m);
        lemma_reduce_operands(at, (x - t) * sx);
        // The induction hypothesis over the integers.
        assert(ax == (at + (x - t) * sx) % m);
        let q = (at + (x - t) * sx) / m;
        vstd::arithmetic::div_mod::lemma_fundamental_div_mod(at + (x - t) * sx, m);
        let e1 = a0 + x * ax;
        let e2 = a0 + t * at + (x - t) * (ax + sx * t);
        lemma_factor_identity(a0, x, t, at, sx, m, q);
        assert(ax == at + (x - t) * sx - m * q);
        lemma_congruent(e2, e1, t * q);
    }
}

/// `r - y` for every node `y`.
pub open spec fn diffs(ys: Seq<int>, r: int) -> Seq<int> {
    Seq::new(ys.len(), |j: int| fsub(r, ys[j]))
}

/// The numerator of the `i`-th Lagrange basis polynomial at `r`:
/// `prod_{j != i} (r - x_j)`.
pub open spec fn bnum(xs: Seq<int>, i: int, r: int) -> int {
    fprod(diffs(xs.remove(i), r))
}

/// The denominator of the `i`-th Lagrange basis polynomial:
/// `prod_{j != i} (x_i - x_j)`.
pub open spec fn bden(xs: Seq<int>, i: int) -> int {
    fprod(diffs(xs.remove(i), xs[i]))
}

/// The `i`-th term of the interpolant of the values `e` at `r`.
pub open spec fn interp_term(xs: Seq<int>, e: Seq<int>, r: int, i: int) -> int {
    fmul(fmul(e[i], bnum(xs, i, r)), finv(bden(xs, i)))
}

/// The Lagrange interpolant through `(x_i, e_i)`, evaluated at `r`.
pub open spec fn interp(xs: Seq<int>, e: Seq<int>, r: int) -> int {
    fsum(Seq::new(xs.len(), |i: int| interp_term(xs, e, r, i)))
}

/// `d` has an inverse in the field.
pub open spec fn invertible(d: int) -> bool {
    fmul(d, finv(d)) == 1
}

/// Every Lagrange denominator of the nodes is invertible.
pub open spec fn dens_invertible(xs: Seq<int>) -> bool {
    forall|i: int| 0 <= i < xs.len() ==> #[trigger] invertible(bden(xs, i))
}

/// A canonical `w` with `d w == 1` is the inverse of `d`, which is then
/// invertible.
pub proof fn lemma_finv_witness(d: int, w: int)
    requires
        0 <= w < modulus(),
        fmul(d, w) == 1,
    ensures
        invertible(d),
        finv(d) == w,
{
    lemma_inverse_unique(d, w);
}

/// An invertible element's inverse is canonical.
pub proof fn lemma_finv_canonical(d: int)
    requires
        invertible(d),
    ensures
        0 <= finv(d) < modulus(),
{
    let w = finv(d);
    lemma_reduce_operands(d, w);
    vstd::arithmetic::div_mod::lemma_mod_bound(w, modulus());
    assert(0 <= w % modulus() < modulus() && fmul(d, w % modulus()) == 1);
}

/// The factors of an invertible product are invertible, and the inverse of
/// the product is the product of the inverses.
pub proof fn lemma_invertible_factors(a: int, b: int)
    requires
        invertible(fmul(a, b)),
        0 <= a < modulus(),
        0 <= b < modulus(),
    ensures
        invertible(a),
        invertible(b),
        finv(fmul(a, b)) == fmul(finv(a), finv(b)),
{
    let d = fmul(a, b);
    let w = finv(d);
    lemma_finv_canonical(d);
    lemma_associative(a, b, w);
    lemma_results_canonical(b, w);
    lemma_inverse_unique(a, fmul(b, w));
    lemma_commutative(a, b);
    lemma_associative(b, a, w);
    lemma_results_canonical(a, w);
    lemma_inverse_unique(b, fmul(a, w));
    // (b w)(a w) = ((a b) w) w = w
    lemma_associative(fmul(b, w), a, w);
    lemma_associative(b, w, a);
    lemma_commutative(w, a);
    lemma_associative(b, a, w);
    lemma_commutative(b, a);
    lemma_identities(w);
}

/// Removing node `m` from the basis of node `i`: the numerator and
/// denominator lose their factor for `m`.
pub proof fn lemma_basis_remove(xs: Seq<int>, i: int, m: int, r: int)
    requires
        0 <= i < xs.len(),
        0 <= m < xs.len(),
        i != m,
    ensures
        ({
            let i2 = if i < m { i } else { i - 1 };
            &&& xs.remove(m)[i2] == xs[i]
            &&& bnum(xs, i, r) == fmul(bnum(xs.remove(m), i2, r), fsub(r, xs[m]))
            &&& bden(xs, i) == fmul(bden(xs.remove(m), i2), fsub(xs[i], xs[m]))
        }),
{
    let i2 = if i < m { i } else { i - 1 };
    let m2 = if m < i { m } else { m - 1 };
    let ys = xs.remove(i);
    assert(ys[m2] == xs[m]);
    assert(ys.remove(m2) =~= xs.remove(m).remove(i2));
    assert(diffs(ys, r).remove(m2) =~= diffs(ys.remove(m2), r));
    assert(diffs(ys, xs[i]).remove(m2) =~= diffs(ys.remove(m2), xs[i]));
    crate::sums::lemma_fprod_remove(diffs(ys, r), m2);
    crate::sums::lemma_fprod_remove(diffs(ys, xs[i]), m2);
}

/// Removing a node keeps the denominators invertible.
pub proof fn lemma_dens_invertible_remove(xs: Seq<int>, m: int)
    requires
        0 <= m < xs.len(),
        dens_invertible(xs),
    ensures
        dens_invertible(xs.remove(m)),
{
    let ys = xs.remove(m);
    assert forall|i2: int| 0 <= i2 < ys.len() implies #[trigger] invertible(bden(ys, i2)) by {
        let i = if i2 < m { i2 } else { i2 + 1 };
        lemma_basis_remove(xs, i, m, 0);
        assert(invertible(bden(xs, i)));
        lemma_fprod_canonical(diffs(ys.remove(i2), ys[i2]));
        lemma_results_canonical(xs[i], xs[m]);
        lemma_invertible_factors(bden(ys, i2), fsub(xs[i], xs[m]));
    }
}

/// Interpolation is additive in the values.
pub proof fn lemma_interp_add(xs: Seq<int>, u: Seq<int>, v: Seq<int>, r: int)
    requires
        u.len() >= xs.len(),
        v.len() >= xs.len(),
    ensures
        interp(xs, Seq::new(xs.len(), |i: int| fadd(u[i], v[i])), r) == fadd(
            interp(xs, u, r),
            interp(xs, v, r),
        ),
{
    let n = xs.len();
    let w = Seq::new(n, |i: int| fadd(u[i], v[i]));
    let tu = Seq::new(n, |i: int| interp_term(xs, u, r, i));
    let tv = Seq::new(n, |i: int| interp_term(xs, v, r, i));
    assert forall|i: int| 0 <= i < n implies #[trigger] interp_term(xs, w, r, i) == fadd(
        tu[i],
        tv[i],
    ) by {
        let nb = bnum(xs, i, r);
        let ib = finv(bden(xs, i));
        lemma_distributive(nb, u[i], v[i]);
        lemma_distributive(ib, fmul(u[i], nb), fmul(v[i], nb));
    }
    crate::sums::lemma_fsum_add(tu, tv);
    assert(Seq::new(n, |i: int| interp_term(xs, w, r, i)) =~= Seq::new(
        tu.len(),
        |i: int| fadd(tu[i], tv[i]),
    ));
}

/// Interpolating constant values `c` gives `c` times the interpolant of
/// ones.
pub proof fn lemma_interp_const(xs: Seq<int>, c: int, r: int)
    requires
        0 <= c < modulus(),
    ensures
        interp(xs, Seq::new(xs.len(), |i: int| c), r) == fmul(
            interp(xs, Seq::new(xs.len(), |i: int| 1int), r),
            c,
        ),
{
    let n = xs.len();
    let ones = Seq::new(n, |i: int| 1int);
    let cs = Seq::new(n, |i: int| c);
    let t1 = Seq::new(n, |i: int| interp_term(xs, ones, r, i));
    crate::sums::lemma_fsum_scale(t1, c);
    assert forall|i: int| 0 <= i < n implies #[trigger] interp_term(xs, cs, r, i) == fmul(t1[i], c) by {
        let nb = bnum(xs, i, r);
        let ib = finv(bden(xs, i));
        lemma_fprod_canonical(diffs(xs.remove(i), r));
        lemma_identities(nb);
        // (c nb) ib == ((1 nb) ib) c
        lemma_associative(c, nb, ib);
        lemma_commutative(c, fmul(nb, ib));
        lemma_associative(1, nb, ib);
        lemma_identities(fmul(nb, ib));
        lemma_results_canonical(nb, ib);
        lemma_canonical_mod(1);
    }
    assert(Seq::new(n, |i: int| interp_term(xs, cs, r, i)) =~= Seq::new(
        t1.len(),
        |i: int| fmul(t1[i], c),
    ));
}

/// Four factors multiplied in two pairs can be paired the other way.
pub proof fn lemma_mul4(a: int, b: int, c: int, e: int)
    ensures
        fmul(fmul(a, b), fmul(c, e)) == fmul(fmul(a, e), fmul(b, c)),
{
    let m = modulus();
    vstd::arithmetic::div_mod::lemma_mul_mod_noop_general(a * b, c * e, m);
    vstd::arithmetic::div_mod::lemma_mul_mod_noop_general(a * e, b * c, m);
    assert((a * b) * (c * e) == (a * e) * (b * c)) by (nonlinear_arith);
}

/// The rearrangement behind one term of the vanishing lemma:
/// `((d s)(b rho))(ib id) == ((s b) ib) rho` when `d id == 1`.
proof fn lemma_term_rearrange(d: int, s: int, b: int, rho: int, ib: int, id: int)
    requires
        fmul(d, id) == 1,
    ensures
        fmul(fmul(fmul(d, s), fmul(b, rho)), fmul(ib, id)) == fmul(fmul(fmul(s, b), ib), rho),
{
    let sb = fmul(s, b);
    lemma_associative(d, s, fmul(b, rho));
    lemma_associative(s, b, rho);
    lemma_mul4(d, fmul(sb, rho), ib, id);
    let z = fmul(fmul(sb, rho), ib);
    lemma_results_canonical(fmul(sb, rho), ib);
    lemma_identities(z);
    lemma_associative(sb, rho, ib);
    lemma_commutative(rho, ib);
    lemma_associative(sb, ib, rho);
}

/// Interpolating values that carry the factor `x_i - x_m`: the term of node
/// `m` vanishes, and the factor comes out as `r - x_m` in front of the
/// interpolant over the other nodes.
pub proof fn lemma_interp_vanish(xs: Seq<int>, m: int, s: Seq<int>, r: int)
    requires
        0 <= m < xs.len(),
        s.len() == xs.len(),
        dens_invertible(xs),
    ensures
        interp(xs, Seq::new(xs.len(), |i: int| fmul(fsub(xs[i], xs[m]), s[i])), r) == fmul(
            interp(xs.remove(m), s.remove(m), r),
            fsub(r, xs[m]),
        ),
{
    let n = xs.len();
    let w = Seq::new(n, |i: int| fmul(fsub(xs[i], xs[m]), s[i]));
    let ys = xs.remove(m);
    let s2 = s.remove(m);
    let rho = fsub(r, xs[m]);
    let t = Seq::new(n, |i: int| interp_term(xs, w, r, i));
    let t2 = Seq::new((n - 1) as nat, |i2: int| interp_term(ys, s2, r, i2));
    // The term of node `m` is zero.
    assert(t[m] == 0) by {
        lemma_canonical_mod(0);
        assert(fsub(xs[m], xs[m]) == 0);
        lemma_identities(0);
        vstd::arithmetic::mul::lemma_mul_basics(s[m]);
        vstd::arithmetic::mul::lemma_mul_basics(bnum(xs, m, r));
        vstd::arithmetic::mul::lemma_mul_basics(finv(bden(xs, m)));
    }
    crate::sums::lemma_fsum_remove(t, m);
    crate::sums::lemma_fsum_canonical(t.remove(m));
    lemma_identities(fsum(t.remove(m)));
    // Every other term is the smaller interpolant's term times `rho`.
    crate::sums::lemma_fsum_scale(t2, rho);
    assert forall|i2: int| 0 <= i2 < n - 1 implies #[trigger] t.remove(m)[i2] == fmul(t2[i2], rho) by {
        let i = if i2 < m { i2 } else { i2 + 1 };
        assert(t.remove(m)[i2] == t[i]);
        lemma_basis_remove(xs, i, m, r);
        let delta = fsub(xs[i], xs[m]);
        let b2 = bnum(ys, i2, r);
        let d2 = bden(ys, i2);
        assert(invertible(bden(xs, i)));
        lemma_fprod_canonical(diffs(ys.remove(i2), ys[i2]));
        lemma_results_canonical(xs[i], xs[m]);
        lemma_invertible_factors(d2, delta);
        lemma_term_rearrange(delta, s[i], b2, rho, finv(d2), finv(delta));
        assert(s2[i2] == s[i]);
    }
    assert(t.remove(m) =~= Seq::new(t2.len(), |i2: int| fmul(t2[i2], rho)));
}

/// The values of the polynomial `a` at the nodes.
pub open spec fn pvals(a: Seq<int>, xs: Seq<int>) -> Seq<int> {
    Seq::new(xs.len(), |i: int| peval(a, xs[i]))
}

/// The sum of the Lagrange basis polynomials at `r`.
pub open spec fn basis_sum(xs: Seq<int>, r: int) -> int {
    interp(xs, Seq::new(xs.len(), |i: int| 1int), r)
}

/// Splitting `a` at the last node `t` as `a(t) + (x - t) q(x)`.
proof fn lemma_interp_split(xs: Seq<int>, a: Seq<int>, r: int)
    requires
        xs.len() >= 1,
        dens_invertible(xs),
    ensures
        interp(xs, pvals(a, xs), r) == fadd(
            fmul(basis_sum(xs, r), peval(a, xs.last())),
            fmul(interp(xs.drop_last(), pvals(sdiv(a, xs.last()), xs.drop_last()), r), fsub(r, xs.last())),
        ),
{
    let n = xs.len();
    let m = n - 1;
    let t = xs[m];
    let c = peval(a, t);
    let q = sdiv(a, t);
    let u = Seq::new(n, |i: int| c);
    let sq = pvals(q, xs);
    let v = Seq::new(n, |i: int| fmul(fsub(xs[i], xs[m]), sq[i]));
    assert forall|i: int| 0 <= i < n implies #[trigger] pvals(a, xs)[i] == fadd(u[i], v[i]) by {
        lemma_factor(a, t, xs[i]);
    }
    assert(pvals(a, xs) =~= Seq::new(n, |i: int| fadd(u[i], v[i])));
    lemma_interp_add(xs, u, v, r);
    lemma_peval_canonical(a, t);
    lemma_interp_const(xs, c, r);
    lemma_interp_vanish(xs, m, sq, r);
    assert(xs.remove(m) =~= xs.drop_last());
    assert(sq.remove(m) =~= pvals(q, xs.drop_last()));
}

/// A constant polynomial has the same value everywhere.
proof fn lemma_peval_constant(a: Seq<int>, x: int, y: int)
    requires
        a.len() <= 1,
    ensures
        peval(a, x) == peval(a, y),
{
    if a.len() == 1 {
        assert(a.drop_first().len() == 0);
        assert(peval(a.drop_first(), x) == 0);
        assert(peval(a.drop_first(), y) == 0);
        lemma_canonical_mod(0);
        vstd::arithmetic::mul::lemma_mul_basics(x);
        vstd::arithmetic::mul::lemma_mul_basics(y);
    }
}

/// The polynomial `1` and the line `x - x0`.
proof fn lemma_small_polys(x0: int, t: int, x: int)
    ensures
        peval(seq![1int], x) == 1,
        sdiv(seq![fsub(0, x0), 1int], t) =~= seq![1int],
        peval(seq![fsub(0, x0), 1int], x) == fmul(fsub(x, x0), 1),
{
    let one = seq![1int];
    let l = seq![fsub(0, x0), 1int];
    lemma_canonical_mod(0);
    lemma_canonical_mod(1);
    vstd::arithmetic::mul::lemma_mul_basics(x);
    assert(one.drop_first().len() == 0);
    assert(peval(one.drop_first(), x) == 0);
    assert(peval(one, x) == 1);
    assert(l.drop_first() =~= one);
    assert(sdiv(one.drop_first(), t).len() == 0);
    assert(pscale(sdiv(one.drop_first(), t), t).len() == 0);
    assert(sdiv(one, t).len() == 0);
    assert(pscale(sdiv(one, t), t).len() == 0);
    assert(padd(one, pscale(sdiv(one, t), t)) =~= one);
    // (0 - x0) + x == x - x0
    lemma_identities(x % modulus());
    vstd::arithmetic::div_mod::lemma_mod_bound(x, modulus());
    lemma_reduce_operands(fsub(0, x0), x);
    lemma_reduce_operands(0 - x0, x);
    lemma_results_canonical(x, x0);
    lemma_identities(fsub(x, x0));
}

/// Through `n` nodes with invertible Lagrange denominators, the
/// interpolant of a polynomial with at most `n` coefficients is the
/// polynomial itself.
pub proof fn lemma_interp_exact(xs: Seq<int>, a: Seq<int>, r: int)
    requires
        xs.len() >= 1,
        a.len() <= xs.len(),
        dens_invertible(xs),
    ensures
        interp(xs, pvals(a, xs), r) == peval(a, r),
    decreases xs.len(),
{
    let n = xs.len();
    if n == 1 {
        let e = pvals(a, xs);
        let ts = Seq::new(1, |i: int| interp_term(xs, e, r, i));
        assert(xs.remove(0).len() == 0);
        assert(diffs(xs.remove(0), r) =~= Seq::<int>::empty());
        assert(diffs(xs.remove(0), xs[0]) =~= Seq::<int>::empty());
        assert(bnum(xs, 0, r) == 1);
        assert(bden(xs, 0) == 1);
        lemma_canonical_mod(1);
        lemma_inverse_unique(1, 1);
        lemma_peval_canonical(a, xs[0]);
        lemma_identities(e[0]);
        crate::sums::lemma_fsum_single(ts);
        lemma_peval_constant(a, xs[0], r);
    } else {
        let t = xs.last();
        let x0 = xs[0];
        let xs2 = xs.drop_last();
        let xs0 = xs.remove(0);
        assert(xs.remove(n - 1) =~= xs2);
        lemma_dens_invertible_remove(xs, n - 1);
        lemma_dens_invertible_remove(xs, 0);
        let one = seq![1int];
        let l = seq![fsub(0, x0), 1int];
        lemma_small_polys(x0, t, r);
        assert forall|x: int| #[trigger] peval(one, x) == 1 by {
            lemma_small_polys(x0, t, x);
        }
        assert forall|x: int| #[trigger] peval(l, x) == fmul(fsub(x, x0), 1) by {
            lemma_small_polys(x0, t, x);
        }
        // The basis sums to one: interpolate the line `x - x0` two ways.
        lemma_interp_exact(xs2, one, r);
        lemma_interp_exact(xs0, one, r);
        let b = basis_sum(xs, r);
        let d = fsub(t, x0);
        lemma_interp_split(xs, l, r);
        let ones = Seq::new(n, |i: int| 1int);
        assert(pvals(l, xs) =~= Seq::new(n, |i: int| fmul(fsub(xs[i], xs[0]), ones[i])));
        lemma_interp_vanish(xs, 0, ones, r);
        assert(ones.remove(0) =~= pvals(one, xs0));
        assert(pvals(sdiv(l, t), xs2) =~= pvals(one, xs2));
        lemma_results_canonical(r, x0);
        lemma_results_canonical(r, t);
        lemma_identities(fsub(r, x0));
        lemma_identities(fsub(r, t));
        assert(fadd(fmul(b, d), fsub(r, t)) == fsub(r, x0));
        assert(fmul(b, d) == d) by {
            let bd = fmul(b, d);
            lemma_results_canonical(b, d);
            let mo = modulus();
            assert((bd + (r - t) % mo) % mo == (r - x0) % mo);
            lemma_reduce_operands(bd, r - t);
            vstd::arithmetic::div_mod::lemma_mod_sub_multiples_vanish(bd + r - t, mo);
            vstd::arithmetic::div_mod::lemma_sub_mod_noop(bd + r - t, r - t, mo);
            vstd::arithmetic::div_mod::lemma_sub_mod_noop(r - x0, r - t, mo);
            lemma_canonical_mod(bd);
        }
        // `t - x0` is a factor of the last denominator.
        assert(invertible(d)) by {
            let ds = diffs(xs2, t);
            assert(xs.remove(n - 1) =~= xs2);
            assert(ds[0] == d);
            crate::sums::lemma_fprod_remove(ds, 0);
            lemma_fprod_canonical(ds.remove(0));
            lemma_results_canonical(t, x0);
            assert(invertible(bden(xs, n - 1)));
            lemma_invertible_factors(fprod(ds.remove(0)), d);
        }
        assert(b == 1) by {
            crate::sums::lemma_fsum_canonical(Seq::new(n, |i: int| interp_term(xs, ones, r, i)));
            lemma_finv_canonical(d);
            lemma_associative(b, d, finv(d));
            lemma_identities(b);
        }
        // The general polynomial.
        let q = sdiv(a, t);
        lemma_sdiv_len(a, t);
        lemma_interp_exact(xs2, q, r);
        lemma_interp_split(xs, a, r);
        lemma_factor(a, t, r);
        lemma_peval_canonical(a, t);
        lemma_identities(peval(a, t));
        lemma_commutative(fsub(r, t), peval(q, r));
    }
}

} // verus!
