//! The equality polynomial
//! `eq(X, Y) = prod_i (X_i * Y_i + (1 - X_i) * (1 - Y_i))`,
//! which on boolean points is `1` exactly when they agree.

use crate::field::{
    all_canonical, fadd, fmul, fsub, lemma_canonical_mod, lemma_identities, lemma_results_canonical,
    lemma_value_range, vals, Fe,
};
use vstd::arithmetic::div_mod::*;
use vstd::arithmetic::power2::*;
use vstd::bits::*;
use vstd::prelude::*;

verus! {

/// One factor of `eq`: `x * y + (1 - x) * (1 - y)`.
pub open spec fn eq_factor(x: int, y: int) -> int {
    fadd(fmul(x, y), fmul(fsub(1, x), fsub(1, y)))
}

/// `eq(x, y)` over the field, for points of equal length.
pub open spec fn eq_value(x: Seq<int>, y: Seq<int>) -> int
    decreases x.len(),
{
    if x.len() == 0 {
        1
    } else {
        fmul(eq_value(x.drop_last(), y.drop_last()), eq_factor(x.last(), y.last()))
    }
}

/// Bit `i` of `x`.
pub open spec fn bit_of(x: nat, i: nat) -> nat {
    (x / pow2(i)) % 2
}

/// The boolean point of `n` coordinates whose `i`-th coordinate is bit `i`
/// of `x` (little-endian, variable `0` is the least significant bit).
pub open spec fn bool_point(x: nat, n: nat) -> Seq<int> {
    Seq::new(n, |i: int| bit_of(x, i as nat) as int)
}

/// The table of `eq(., alpha)` over the hypercube: entry `x` is
/// `eq(bool_point(x), alpha)`.
pub open spec fn eq_table(alpha: Seq<int>) -> Seq<int> {
    Seq::new(pow2(alpha.len()), |x: int| eq_value(bool_point(x as nat, alpha.len()), alpha))
}

/// `eq(x, y)` at a single pair of points of equal length.
pub fn eq(x: &[Fe], y: &[Fe]) -> (r: Fe)
    requires
        x@.len() == y@.len(),
    ensures
        r.v() == eq_value(vals(x@), vals(y@)),
{
    let n = x.len();
    let mut acc = Fe::one();
    let mut i: usize = 0;
    while i < n
        invariant
            n == x@.len(),
            n == y@.len(),
            i <= n,
            acc.v() == eq_value(vals(x@).take(i as int), vals(y@).take(i as int)),
        decreases n - i,
    {
        let xi = x[i];
        let yi = y[i];
        let one = Fe::one();
        let term = xi.mul(yi).add(one.sub(xi).mul(one.sub(yi)));
        proof {
            let xs = vals(x@).take(i + 1);
            let ys = vals(y@).take(i + 1);
            assert(xs.drop_last() =~= vals(x@).take(i as int));
            assert(ys.drop_last() =~= vals(y@).take(i as int));
        }
        acc = acc.mul(term);
        i = i + 1;
    }
    proof {
        assert(vals(x@).take(n as int) =~= vals(x@));
        assert(vals(y@).take(n as int) =~= vals(y@));
    }
    acc
}

proof fn lemma_bits_of_shifted(x: nat, k: nat, i: nat)
    requires
        x < pow2(k),
        i <= k,
    ensures
        i < k ==> bit_of(x + pow2(k), i) == bit_of(x, i),
        i == k ==> bit_of(x + pow2(k), i) == 1 && bit_of(x, i) == 0,
{
    lemma_pow2_pos(i);
    let d = pow2(i) as int;
    lemma_pow2_adds(i, (k - i) as nat);
    let c = pow2((k - i) as nat) as int;
    assert(pow2(k) == d * c);
    lemma_hoist_over_denominator(x as int, c, d as nat);
    vstd::arithmetic::mul::lemma_mul_is_commutative(c, d);
    if i < k {
        lemma_pow2_unfold((k - i) as nat);
        let h = pow2((k - i - 1) as nat) as int;
        assert(c == 2 * h);
        lemma_mod_multiples_vanish(h, x as int / d, 2);
    } else {
        assert(c == 1) by {
            lemma2_to64();
        }
        lemma_basic_div(x as int, d);
        vstd::arithmetic::div_mod::lemma_basic_div(x as int, d);
    }
}

/// The bits of `x + 2^k` below `k` are those of `x`, and its bit `k` is one.
proof fn lemma_bool_point_shift(x: nat, k: nat)
    requires
        x < pow2(k),
    ensures
        bool_point(x + pow2(k), k + 1).drop_last() =~= bool_point(x, k),
        bool_point(x + pow2(k), k + 1).last() == 1,
        bool_point(x, k + 1).drop_last() =~= bool_point(x, k),
        bool_point(x, k + 1).last() == 0,
{
    assert forall|i: int| 0 <= i < k implies bool_point(x + pow2(k), k + 1)[i] == bool_point(
        x,
        k,
    )[i] by {
        lemma_bits_of_shifted(x, k, i as nat);
    }
    lemma_bits_of_shifted(x, k, k);
}

/// The evaluation table of `eq(., alpha)` over `B_mu`, `mu = alpha.len()`,
/// little-endian: entry `x` is `eq` at the point whose `i`-th coordinate is
/// bit `i` of `x`.
#[verifier::spinoff_prover]
pub fn eq_eval_table(alpha: &[Fe]) -> (table: Vec<Fe>)
    requires
        alpha@.len() < usize::BITS,
    ensures
        table@.len() == pow2(alpha@.len()),
        vals(table@) =~= eq_table(vals(alpha@)),
{
    let mu = alpha.len();
    proof {
        lemma_usize_pow2_no_overflow(mu as nat);
        lemma_usize_shl_is_mul(1, mu);
    }
    let size = 1usize << mu;
    let mut table: Vec<Fe> = Vec::new();
    let mut z: usize = 0;
    while z < size
        invariant
            z <= size,
            table@.len() == z,
            forall|i: int| 0 <= i < z ==> table@[i].v() == 0,
        decreases size - z,
    {
        table.push(Fe::zero());
        z = z + 1;
    }
    table.set(0, Fe::one());
    let ghost av = vals(alpha@);
    proof {
        lemma2_to64();
        assert(eq_value(bool_point(0, 0), av.take(0)) == 1);
    }
    let mut k: usize = 0;
    while k < mu
        invariant
            mu == alpha@.len(),
            av == vals(alpha@),
            mu < usize::BITS,
            size == pow2(mu as nat),
            k <= mu,
            table@.len() == size,
            forall|x: int|
                0 <= x < pow2(k as nat) ==> #[trigger] table@[x].v() == eq_value(
                    bool_point(x as nat, k as nat),
                    av.take(k as int),
                ),
        decreases mu - k,
    {
        let a = alpha[k];
        let one_minus_a = Fe::one().sub(a);
        proof {
            lemma_usize_pow2_no_overflow(k as nat);
            lemma_usize_shl_is_mul(1, k);
            lemma_pow2_unfold((k + 1) as nat);
            if k + 1 < mu {
                lemma_pow2_strictly_increases((k + 1) as nat, mu as nat);
            }
            lemma2_to64();
        }
        let half = 1usize << k;
        let ghost old_table = table@;
        let mut x: usize = half;
        while x > 0
            invariant
                half == pow2(k as nat),
                half == 1usize << k,
                k < usize::BITS,
                2 * half <= size,
                table@.len() == size,
                x <= half,
                a == alpha@[k as int],
                k < mu,
                mu == alpha@.len(),
                av == vals(alpha@),
                one_minus_a.v() == fsub(1, a.v()),
                forall|w: int| 0 <= w < x ==> #[trigger] table@[w] == old_table[w],
                forall|w: int|
                    x <= w < half ==> #[trigger] table@[w].v() == fmul(
                        old_table[w].v(),
                        one_minus_a.v(),
                    ) && table@[w + half].v() == fmul(old_table[w].v(), a.v()),
            decreases x,
        {
            x = x - 1;
            let v = table[x];
            proof {
                assert(x | half == x + half) by (bit_vector)
                    requires
                        x < half,
                        half == 1usize << k,
                        k < usize::BITS,
                ;
            }
            table.set(x | half, v.mul(a));
            table.set(x, v.mul(one_minus_a));
        }
        proof {
            let ak = av[k as int];
            assert(av.take(k + 1).drop_last() =~= av.take(k as int));
            assert(av.take(k + 1).last() == ak);
            assert(ak == a.v());
            lemma_value_range(a);
            assert forall|x: int| 0 <= x < pow2((k + 1) as nat) implies #[trigger] table@[x].v()
                == eq_value(bool_point(x as nat, (k + 1) as nat), av.take(k + 1)) by {
                if x < half {
                    lemma_bool_point_shift(x as nat, k as nat);
                    assert(table@[x].v() == fmul(old_table[x].v(), fsub(1, ak)));
                    assert(old_table[x].v() == eq_value(bool_point(x as nat, k as nat), av.take(k as int)));
                    assert(eq_factor(0, ak) == fsub(1, ak)) by {
                        lemma_identities(ak);
                        lemma_results_canonical(1, ak);
                        lemma_identities(fsub(1, ak));
                        assert(fmul(0, ak) == 0);
                        assert(fsub(1, 0) == 1);
                        assert(fmul(1, fsub(1, ak)) == fsub(1, ak));
                        assert(fadd(0, fsub(1, ak)) == fsub(1, ak));
                    }
                } else {
                    let y = (x - half) as nat;
                    lemma_bool_point_shift(y, k as nat);
                    assert(x as nat == y + pow2(k as nat));
                    assert(table@[y as int].v() == fmul(old_table[y as int].v(), one_minus_a.v()));
                    assert(table@[y + half].v() == fmul(old_table[y as int].v(), ak));
                    assert(old_table[y as int].v() == eq_value(bool_point(y, k as nat), av.take(k as int)));
                    assert(eq_factor(1, ak) == ak) by {
                        lemma_identities(ak);
                        lemma_canonical_mod(1);
                        assert(fsub(1, 1) == 0);
                        assert(fmul(0, fsub(1, ak)) == 0) by {
                            lemma_results_canonical(1, ak);
                            lemma_identities(fsub(1, ak));
                        }
                        assert(fadd(ak, 0) == ak);
                    }
                }
            }
        }
        k = k + 1;
    }
    proof {
        assert(av.take(mu as int) =~= av);
        assert forall|x: int| 0 <= x < pow2(mu as nat) implies vals(table@)[x] == eq_table(av)[x] by {
        }
    }
    table
}

/// `eq` values are canonical.
pub proof fn lemma_eq_value_canonical(x: Seq<int>, y: Seq<int>)
    ensures
        0 <= eq_value(x, y) < crate::field::modulus(),
    decreases x.len(),
{
    if x.len() == 0 {
        lemma2_to64();
    } else {
        lemma_results_canonical(
            eq_value(x.drop_last(), y.drop_last()),
            eq_factor(x.last(), y.last()),
        );
    }
}

/// `eq` over concatenated points is the product of the two `eq`s.
pub proof fn lemma_eq_value_concat(x1: Seq<int>, x2: Seq<int>, y1: Seq<int>, y2: Seq<int>)
    requires
        x1.len() == y1.len(),
        x2.len() == y2.len(),
    ensures
        eq_value(x1 + x2, y1 + y2) == fmul(eq_value(x1, y1), eq_value(x2, y2)),
    decreases x2.len(),
{
    lemma_eq_value_canonical(x1, y1);
    if x2.len() == 0 {
        assert(x1 + x2 =~= x1);
        assert(y1 + y2 =~= y1);
        lemma_identities(eq_value(x1, y1));
    } else {
        lemma_eq_value_concat(x1, x2.drop_last(), y1, y2.drop_last());
        assert((x1 + x2).drop_last() =~= x1 + x2.drop_last());
        assert((y1 + y2).drop_last() =~= y1 + y2.drop_last());
        crate::field::lemma_associative(
            eq_value(x1, y1),
            eq_value(x2.drop_last(), y2.drop_last()),
            eq_factor(x2.last(), y2.last()),
        );
    }
}

/// The bits of `c + 2^m r`, `c < 2^m`: those of `c` below `m`, those of
/// `r` from `m` on.
proof fn lemma_bit_of_concat(c: nat, r: nat, m: nat, i: nat)
    requires
        c < pow2(m),
    ensures
        i < m ==> bit_of(c + pow2(m) * r, i) == bit_of(c, i),
        i >= m ==> bit_of(c + pow2(m) * r, i) == bit_of(r, (i - m) as nat),
{
    let x = c + pow2(m) * r;
    lemma_pow2_pos(m);
    if i < m {
        let d = pow2(i) as int;
        let k = pow2((m - i) as nat) as int;
        lemma_pow2_pos(i);
        lemma_pow2_adds(i, (m - i) as nat);
        assert(pow2(m) == d * k);
        lemma_hoist_over_denominator(c as int, k * r, d as nat);
        assert(k * r * d == pow2(m) * r) by {
            vstd::arithmetic::mul::lemma_mul_is_commutative(k, d);
            vstd::arithmetic::mul::lemma_mul_is_associative(d, k, r as int);
            vstd::arithmetic::mul::lemma_mul_is_commutative(k * r, d);
        }
        lemma_pow2_unfold((m - i) as nat);
        let h = pow2((m - i - 1) as nat) as int;
        assert(k * r == 2 * (h * r)) by {
            vstd::arithmetic::mul::lemma_mul_is_associative(2, h, r as int);
        }
        lemma_mod_multiples_vanish(h * r, c as int / d, 2);
    } else {
        let e = pow2((i - m) as nat) as int;
        lemma_pow2_pos((i - m) as nat);
        lemma_pow2_adds(m, (i - m) as nat);
        lemma_div_denominator(x as int, pow2(m) as int, e);
        lemma_div_multiples_vanish_fancy(r as int, c as int, pow2(m) as int);
    }
}

/// The boolean point of `c + 2^m r` is that of `c` followed by that of `r`.
pub proof fn lemma_bool_point_concat(c: nat, r: nat, m: nat, n: nat)
    requires
        c < pow2(m),
    ensures
        bool_point(c + pow2(m) * r, m + n) == bool_point(c, m) + bool_point(r, n),
{
    assert forall|i: int| 0 <= i < m + n implies bool_point(c + pow2(m) * r, m + n)[i] == (
    bool_point(c, m) + bool_point(r, n))[i] by {
        lemma_bit_of_concat(c, r, m, i as nat);
    }
    assert(bool_point(c + pow2(m) * r, m + n) =~= bool_point(c, m) + bool_point(r, n));
}

/// The `eq` table of a concatenated point is the tensor product of the two
/// tables: entry `c + 2^|a| r` is `eq_table(a)[c] * eq_table(b)[r]`.
pub proof fn lemma_eq_table_concat(a: Seq<int>, b: Seq<int>, c: nat, r: nat)
    requires
        c < pow2(a.len()),
        r < pow2(b.len()),
    ensures
        c + pow2(a.len()) * r < pow2((a + b).len()),
        eq_table(a + b)[(c + pow2(a.len()) * r) as int] == fmul(eq_table(a)[c as int], eq_table(b)[r as int]),
{
    let m = a.len();
    let n = b.len();
    lemma_pow2_adds(m, n);
    assert(c + pow2(m) * r < pow2(m) * pow2(n)) by (nonlinear_arith)
        requires
            c < pow2(m),
            r < pow2(n),
    ;
    lemma_bool_point_concat(c, r, m, n);
    lemma_eq_value_concat(bool_point(c, m), bool_point(r, n), a, b);
}

/// The table of `eq(., z0)` over one variable: `1 - z0` at `0`, `z0` at `1`.
pub proof fn lemma_eq_table_one(z0: int)
    requires
        0 <= z0 < crate::field::modulus(),
    ensures
        eq_table(seq![z0]).len() == 2,
        eq_table(seq![z0])[0] == fsub(1, z0),
        eq_table(seq![z0])[1] == z0,
{
    lemma2_to64();
    let t = eq_table(seq![z0]);
    let p0 = bool_point(0, 1);
    let p1 = bool_point(1, 1);
    assert(p0.drop_last() =~= Seq::<int>::empty());
    assert(p1.drop_last() =~= Seq::<int>::empty());
    assert(seq![z0].drop_last() =~= Seq::<int>::empty());
    assert(p0.last() == 0);
    assert(p1.last() == 1);
    lemma_identities(z0);
    lemma_results_canonical(1, z0);
    lemma_identities(fsub(1, z0));
    lemma_canonical_mod(1);
    assert(fmul(0, z0) == 0);
    assert(fsub(1, 0) == 1);
    assert(fsub(1, 1) == 0);
    assert(eq_factor(0, z0) == fsub(1, z0));
    assert(eq_factor(1, z0) == z0) by {
        assert(fmul(1, z0) == z0);
        assert(fmul(0, fsub(1, z0)) == 0);
        assert(fadd(z0, 0) == z0);
    }
    assert(seq![z0].last() == z0);
    assert(p0.len() == 1 && p1.len() == 1);
    assert(eq_value(p0.drop_last(), seq![z0].drop_last()) == 1);
    assert(eq_value(p1.drop_last(), seq![z0].drop_last()) == 1);
    assert(t[0] == eq_value(p0, seq![z0]));
    assert(t[1] == eq_value(p1, seq![z0]));
    assert(eq_value(p0, seq![z0]) == fmul(1, eq_factor(0, z0)));
    assert(eq_value(p1, seq![z0]) == fmul(1, eq_factor(1, z0)));
}

/// `eq` of two bits is one when they agree and zero otherwise.
proof fn lemma_eq_factor_bits(b: int, c: int)
    requires
        b == 0 || b == 1,
        c == 0 || c == 1,
    ensures
        eq_factor(b, c) == (if b == c { 1int } else { 0int }),
{
    lemma_canonical_mod(0);
    lemma_canonical_mod(1);
    lemma_identities(1);
    lemma_identities(0);
}

/// On boolean points `eq` is the indicator of equality: over `n`
/// variables, `eq(x, y)` is one when `x` and `y` agree in their low `n`
/// bits and zero otherwise.
pub proof fn lemma_eq_bool_points(x: nat, y: nat, n: nat)
    ensures
        eq_value(bool_point(x, n), bool_point(y, n)) == (if x % pow2(n) == y % pow2(n) {
            1int
        } else {
            0int
        }),
    decreases n,
{
    if n == 0 {
        lemma2_to64();
    } else {
        let m = (n - 1) as nat;
        lemma_eq_bool_points(x, y, m);
        let px = bool_point(x, n);
        let py = bool_point(y, n);
        assert(px.drop_last() =~= bool_point(x, m));
        assert(py.drop_last() =~= bool_point(y, m));
        let bx = bit_of(x, m) as int;
        let by = bit_of(y, m) as int;
        lemma_pow2_pos(m);
        lemma_mod_bound((x / pow2(m)) as int, 2);
        lemma_mod_bound((y / pow2(m)) as int, 2);
        lemma_eq_factor_bits(bx, by);
        let e = eq_value(bool_point(x, m), bool_point(y, m));
        lemma_canonical_mod(0);
        lemma_canonical_mod(1);
        lemma_identities(e);
        lemma_pow2_unfold(n);
        let d = pow2(m) as int;
        assert(pow2(n) == d * 2);
        lemma_mod_breakdown(x as int, d, 2);
        lemma_mod_breakdown(y as int, d, 2);
        lemma_mod_bound(x as int, d);
        lemma_mod_bound(y as int, d);
        let ax = (x % pow2(m)) as int;
        let ay = (y % pow2(m)) as int;
        assert(x % pow2(n) == d * bx + ax);
        assert(y % pow2(n) == d * by + ay);
        if bx == by {
            assert(d * bx == d * by);
        } else if bx == 0 {
            assert(d * by == d);
            assert(d * bx == 0);
        } else {
            assert(d * bx == d);
            assert(d * by == 0);
        }
    }
}

/// The `eq` table at any point sums to one.
pub proof fn lemma_eq_table_sums_to_one(alpha: Seq<int>)
    requires
        all_canonical(alpha),
    ensures
        crate::sums::fsum(eq_table(alpha)) == 1,
    decreases alpha.len(),
{
    let t = eq_table(alpha);
    if alpha.len() == 0 {
        lemma2_to64();
        assert(bool_point(0, 0) =~= Seq::<int>::empty());
        crate::sums::lemma_fsum_single(t);
    } else {
        let a0 = alpha[0];
        let rest = alpha.drop_first();
        let h = pow2(rest.len());
        let tr = eq_table(rest);
        lemma_eq_table_sums_to_one(rest);
        assert(seq![a0] + rest =~= alpha);
        lemma_eq_table_one(a0);
        lemma_pow2_unfold(alpha.len());
        let g = |k: int| t[k];
        crate::sums::lemma_fsum_blocks(g, h, 2);
        assert(Seq::new(h * 2, g) =~= t);
        let rows = Seq::new(h, |r: int| crate::sums::fsum(Seq::new(2, |c: int| g(r * 2 + c))));
        assert forall|y: int| 0 <= y < h implies #[trigger] rows[y] == tr[y] by {
            let pair = Seq::new(2, |c: int| g(y * 2 + c));
            lemma_eq_table_concat(seq![a0], rest, 0, y as nat);
            lemma_eq_table_concat(seq![a0], rest, 1, y as nat);
            lemma_results_canonical(fsub(1, a0), tr[y]);
            crate::sums::lemma_fsum_pair(pair);
            crate::field::lemma_distributive(tr[y], fsub(1, a0), a0);
            crate::field::lemma_commutative(fsub(1, a0), tr[y]);
            crate::field::lemma_commutative(a0, tr[y]);
            assert(fadd(fsub(1, a0), a0) == 1) by {
                crate::field::lemma_reduce_operands(1 - a0, a0);
                lemma_canonical_mod(1);
            }
            lemma_eq_value_canonical(bool_point(y as nat, rest.len()), rest);
            lemma_identities(tr[y]);
        }
        assert(rows =~= tr);
    }
}

} // verus!
