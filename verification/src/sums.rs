//! Finite sums in the field, and the rearrangements the tensor proofs need.

use crate::field::{
    fadd, fmul, lemma_associative, lemma_canonical_mod, lemma_commutative,
    lemma_distributive, lemma_identities, lemma_reduce_operands, lemma_results_canonical, modulus,
};
use vstd::prelude::*;

verus! {

/// `s[0] + s[1] + ... + s[n - 1]` in the field, added left to right from
/// zero.
pub open spec fn fsum(s: Seq<int>) -> int
    decreases s.len(),
{
    if s.len() == 0 {
        0
    } else {
        fadd(fsum(s.drop_last()), s.last())
    }
}

/// `sum_i a_i b_i` in the field, over the first `a.len()` indices.
pub open spec fn inner(a: Seq<int>, b: Seq<int>) -> int {
    fsum(Seq::new(a.len(), |i: int| fmul(a[i], b[i])))
}

/// A sum is a canonical value.
pub proof fn lemma_fsum_canonical(s: Seq<int>)
    ensures
        0 <= fsum(s) < modulus(),
    decreases s.len(),
{
    if s.len() == 0 {
    } else {
        lemma_results_canonical(fsum(s.drop_last()), s.last());
    }
}

/// The sum of a concatenation is the sum of the sums.
pub proof fn lemma_fsum_append(a: Seq<int>, b: Seq<int>)
    ensures
        fsum(a + b) == fadd(fsum(a), fsum(b)),
    decreases b.len(),
{
    lemma_fsum_canonical(a);
    if b.len() == 0 {
        assert(a + b =~= a);
        lemma_identities(fsum(a));
    } else {
        lemma_fsum_append(a, b.drop_last());
        assert((a + b).drop_last() =~= a + b.drop_last());
        lemma_associative(fsum(a), fsum(b.drop_last()), b.last());
    }
}

/// Sums of equal length add termwise.
pub proof fn lemma_fsum_add(a: Seq<int>, b: Seq<int>)
    requires
        a.len() == b.len(),
    ensures
        fsum(Seq::new(a.len(), |i: int| fadd(a[i], b[i]))) == fadd(fsum(a), fsum(b)),
    decreases a.len(),
{
    let s = Seq::new(a.len(), |i: int| fadd(a[i], b[i]));
    if a.len() == 0 {
        lemma_identities(0);
    } else {
        let a1 = a.drop_last();
        let b1 = b.drop_last();
        lemma_fsum_add(a1, b1);
        assert(s.drop_last() =~= Seq::new(a1.len(), |i: int| fadd(a1[i], b1[i])));
        let x = fsum(a1);
        let y = fsum(b1);
        let u = a.last();
        let v = b.last();
        // (x + y) + (u + v) == (x + u) + (y + v)
        lemma_associative(x, y, fadd(u, v));
        lemma_associative(y, u, v);
        lemma_commutative(y, u);
        lemma_associative(u, y, v);
        lemma_associative(x, u, fadd(y, v));
        lemma_reduce_operands(x, y + v);
        lemma_reduce_operands(u, y + v);
        assert(fadd(y, fadd(u, v)) == fadd(u, fadd(y, v))) by {
            assert(fadd(y, fadd(u, v)) == fadd(fadd(y, u), v));
            assert(fadd(u, fadd(y, v)) == fadd(fadd(u, y), v));
        }
    }
}

/// A factor pulls out of a sum.
pub proof fn lemma_fsum_scale(a: Seq<int>, c: int)
    ensures
        fmul(fsum(a), c) == fsum(Seq::new(a.len(), |i: int| fmul(a[i], c))),
    decreases a.len(),
{
    let s = Seq::new(a.len(), |i: int| fmul(a[i], c));
    if a.len() == 0 {
        lemma_canonical_mod(0);
    } else {
        let a1 = a.drop_last();
        lemma_fsum_scale(a1, c);
        assert(s.drop_last() =~= Seq::new(a1.len(), |i: int| fmul(a1[i], c)));
        lemma_distributive(c, fsum(a1), a.last());
    }
}

/// Two equal sequences have equal sums (a convenience for rewriting).
pub proof fn lemma_fsum_ext(a: Seq<int>, b: Seq<int>)
    requires
        a.len() == b.len(),
        forall|i: int| 0 <= i < a.len() ==> a[i] == b[i],
    ensures
        fsum(a) == fsum(b),
{
    assert(a =~= b);
}

/// The sum over a `rows x cols` grid, flattened row by row, is the sum of
/// the row sums.
pub proof fn lemma_fsum_blocks(g: spec_fn(int) -> int, rows: nat, cols: nat)
    ensures
        fsum(Seq::new(rows * cols, g)) == fsum(
            Seq::new(rows, |r: int| fsum(Seq::new(cols, |c: int| g(r * cols + c)))),
        ),
    decreases rows,
{
    let rs = Seq::new(rows, |r: int| fsum(Seq::new(cols, |c: int| g(r * cols + c))));
    if rows == 0 {
        assert(rows * cols == 0) by (nonlinear_arith)
            requires
                rows == 0,
        ;
        assert(Seq::new(rows * cols, g) =~= Seq::<int>::empty());
    } else {
        let r0 = (rows - 1) as nat;
        lemma_fsum_blocks(g, r0, cols);
        assert(rows * cols == r0 * cols + cols) by (nonlinear_arith)
            requires
                r0 == rows - 1,
        ;
        let head = Seq::new(r0 * cols, g);
        let block = Seq::new(cols, |c: int| g(r0 * cols + c));
        assert(Seq::new(rows * cols, g) =~= head + block);
        lemma_fsum_append(head, block);
        assert(rs.drop_last() =~= Seq::new(
            r0,
            |r: int| fsum(Seq::new(cols, |c: int| g(r * cols + c))),
        ));
    }
}

/// Finite double sums can be taken in either order.
pub proof fn lemma_fsum_exchange(f: spec_fn(int, int) -> int, rows: nat, cols: nat)
    ensures
        fsum(Seq::new(rows, |r: int| fsum(Seq::new(cols, |c: int| f(r, c))))) == fsum(
            Seq::new(cols, |c: int| fsum(Seq::new(rows, |r: int| f(r, c)))),
        ),
    decreases rows,
{
    let lhs = Seq::new(rows, |r: int| fsum(Seq::new(cols, |c: int| f(r, c))));
    let rhs = Seq::new(cols, |c: int| fsum(Seq::new(rows, |r: int| f(r, c))));
    if rows == 0 {
        assert forall|c: int| 0 <= c < cols implies rhs[c] == 0 by {
            assert(Seq::new(rows, |r: int| f(r, c)) =~= Seq::<int>::empty());
        }
        lemma_fsum_zeros(rhs);
    } else {
        let r0 = (rows - 1) as nat;
        lemma_fsum_exchange(f, r0, cols);
        assert(lhs.drop_last() =~= Seq::new(r0, |r: int| fsum(Seq::new(cols, |c: int| f(r, c)))));
        let prev = Seq::new(cols, |c: int| fsum(Seq::new(r0, |r: int| f(r, c))));
        let last = Seq::new(cols, |c: int| f(r0 as int, c));
        lemma_fsum_add(prev, last);
        assert forall|c: int| 0 <= c < cols implies #[trigger] rhs[c] == fadd(prev[c], last[c]) by {
            assert(Seq::new(rows, |r: int| f(r, c)).drop_last() =~= Seq::new(
                r0,
                |r: int| f(r, c),
            ));
        }
        assert(rhs =~= Seq::new(cols, |c: int| fadd(prev[c], last[c])));
    }
}

/// A sum of zeros is zero.
pub proof fn lemma_fsum_zeros(s: Seq<int>)
    requires
        forall|i: int| 0 <= i < s.len() ==> s[i] == 0,
    ensures
        fsum(s) == 0,
    decreases s.len(),
{
    if s.len() > 0 {
        lemma_fsum_zeros(s.drop_last());
        lemma_canonical_mod(0);
    }
}

/// A sum of one canonical term is that term.
pub proof fn lemma_fsum_single(s: Seq<int>)
    requires
        s.len() == 1,
        0 <= s[0] < modulus(),
    ensures
        fsum(s) == s[0],
{
    assert(s.drop_last() =~= Seq::<int>::empty());
    assert(fsum(s.drop_last()) == 0);
    assert(s.last() == s[0]);
    lemma_identities(s[0]);
}

/// A sum of two canonical terms is their field sum.
pub proof fn lemma_fsum_pair(s: Seq<int>)
    requires
        s.len() == 2,
        0 <= s[0] < modulus(),
    ensures
        fsum(s) == fadd(s[0], s[1]),
{
    let s1 = s.drop_last();
    assert(s1.drop_last() =~= Seq::<int>::empty());
    assert(fsum(s1.drop_last()) == 0);
    assert(s1.last() == s[0]);
    lemma_identities(s[0]);
    assert(fsum(s1) == s[0]);
    assert(s.last() == s[1]);
}

/// A sum whose terms all vanish but one canonical term is that term.
pub proof fn lemma_fsum_one_nonzero(s: Seq<int>, i: int)
    requires
        0 <= i < s.len(),
        0 <= s[i] < modulus(),
        forall|j: int| 0 <= j < s.len() && j != i ==> s[j] == 0,
    ensures
        fsum(s) == s[i],
    decreases s.len(),
{
    let d = s.drop_last();
    if i == s.len() - 1 {
        lemma_fsum_zeros(d);
        lemma_identities(s[i]);
    } else {
        lemma_fsum_one_nonzero(d, i);
        lemma_identities(s[i]);
    }
}

/// `pi` maps `[0, n)` one-to-one into `[0, n)`, `n = pi.len()`.
pub open spec fn is_injection(pi: Seq<usize>) -> bool {
    &&& forall|i: int| 0 <= i < pi.len() ==> pi[i] < pi.len()
    &&& forall|i: int, j: int| 0 <= i < j < pi.len() ==> pi[i] != pi[j]
}

/// Removing `s[v]` from a sum and adding it back gives the sum.
pub proof fn lemma_fsum_remove(s: Seq<int>, v: int)
    requires
        0 <= v < s.len(),
    ensures
        fsum(s) == fadd(fsum(s.remove(v)), s[v]),
{
    let a = s.subrange(0, v);
    let b = s.subrange(v + 1, s.len() as int);
    assert(s =~= (a + seq![s[v]]) + b);
    assert(s.remove(v) =~= a + b);
    lemma_fsum_append(a + seq![s[v]], b);
    lemma_fsum_append(a, seq![s[v]]);
    lemma_fsum_append(a, b);
    lemma_fsum_canonical(a);
    lemma_fsum_canonical(b);
    assert(fsum(seq![s[v]]) == fadd(0, s[v])) by {
        let one = seq![s[v]];
        assert(one.drop_last() =~= Seq::<int>::empty());
        assert(fsum(one.drop_last()) == 0);
        assert(one.last() == s[v]);
    }
    lemma_reduce_operands(0, s[v]);
    lemma_reduce_operands(fsum(a), s[v]);
    lemma_associative(fsum(a), s[v], fsum(b));
    lemma_commutative(s[v], fsum(b));
    lemma_associative(fsum(a), fsum(b), s[v]);
    lemma_reduce_operands(fsum(a), s[v] + fsum(b));
    lemma_reduce_operands(fsum(a), fsum(b) + s[v]);
}

/// Reindexing a sum by a bijection of its indices leaves it unchanged.
pub proof fn lemma_fsum_reindex(s: Seq<int>, pi: Seq<usize>)
    requires
        s.len() == pi.len(),
        is_injection(pi),
    ensures
        fsum(Seq::new(pi.len(), |x: int| s[pi[x] as int])) == fsum(s),
    decreases pi.len(),
{
    let n = pi.len();
    if n > 0 {
        let v = pi[n - 1] as int;
        let s2 = s.remove(v);
        let pi2 = Seq::new(
            (n - 1) as nat,
            |x: int|
                if (pi[x] as int) < v {
                    pi[x]
                } else {
                    (pi[x] - 1) as usize
                },
        );
        assert forall|x: int| 0 <= x < n - 1 implies #[trigger] pi[x] != pi[n - 1] by {}
        assert(is_injection(pi2)) by {
            assert forall|i: int, j: int| 0 <= i < j < pi2.len() implies pi2[i] != pi2[j] by {
                assert(pi[i] != pi[j]);
                assert(pi[i] != pi[n - 1]);
                assert(pi[j] != pi[n - 1]);
            }
        }
        lemma_fsum_reindex(s2, pi2);
        let whole = Seq::new(n, |x: int| s[pi[x] as int]);
        let part = Seq::new(pi2.len(), |x: int| s2[pi2[x] as int]);
        assert(whole.drop_last() =~= part) by {
            assert forall|x: int| 0 <= x < n - 1 implies whole[x] == part[x] by {
                assert(pi[x] != pi[n - 1]);
            }
        }
        lemma_fsum_remove(s, v);
    }
}

/// `s[0] * s[1] * ... * s[n - 1]` in the field, multiplied left to right
/// from one.
pub open spec fn fprod(s: Seq<int>) -> int
    decreases s.len(),
{
    if s.len() == 0 {
        1
    } else {
        fmul(fprod(s.drop_last()), s.last())
    }
}

/// A product is a canonical value.
pub proof fn lemma_fprod_canonical(s: Seq<int>)
    ensures
        0 <= fprod(s) < modulus(),
    decreases s.len(),
{
    if s.len() == 0 {
        lemma_canonical_mod(1);
    } else {
        lemma_results_canonical(fprod(s.drop_last()), s.last());
    }
}

/// The product of a concatenation is the product of the products.
pub proof fn lemma_fprod_append(a: Seq<int>, b: Seq<int>)
    ensures
        fprod(a + b) == fmul(fprod(a), fprod(b)),
    decreases b.len(),
{
    lemma_fprod_canonical(a);
    if b.len() == 0 {
        assert(a + b =~= a);
        lemma_identities(fprod(a));
    } else {
        lemma_fprod_append(a, b.drop_last());
        assert((a + b).drop_last() =~= a + b.drop_last());
        lemma_associative(fprod(a), fprod(b.drop_last()), b.last());
    }
}

/// Products of equal length multiply termwise.
pub proof fn lemma_fprod_mul(a: Seq<int>, b: Seq<int>)
    requires
        a.len() == b.len(),
    ensures
        fprod(Seq::new(a.len(), |i: int| fmul(a[i], b[i]))) == fmul(fprod(a), fprod(b)),
    decreases a.len(),
{
    let s = Seq::new(a.len(), |i: int| fmul(a[i], b[i]));
    if a.len() == 0 {
        lemma_canonical_mod(1);
        lemma_identities(1);
    } else {
        let a1 = a.drop_last();
        let b1 = b.drop_last();
        lemma_fprod_mul(a1, b1);
        assert(s.drop_last() =~= Seq::new(a1.len(), |i: int| fmul(a1[i], b1[i])));
        let x = fprod(a1);
        let y = fprod(b1);
        let u = a.last();
        let v = b.last();
        lemma_associative(x, y, fmul(u, v));
        lemma_associative(y, u, v);
        lemma_commutative(y, u);
        lemma_associative(u, y, v);
        lemma_associative(x, u, fmul(y, v));
        lemma_reduce_operands(x, y * v);
        lemma_reduce_operands(u, y * v);
        assert(fmul(y, fmul(u, v)) == fmul(u, fmul(y, v))) by {
            assert(fmul(y, fmul(u, v)) == fmul(fmul(y, u), v));
            assert(fmul(u, fmul(y, v)) == fmul(fmul(u, y), v));
        }
    }
}

/// Removing `s[v]` from a product and multiplying it back gives the
/// product.
pub proof fn lemma_fprod_remove(s: Seq<int>, v: int)
    requires
        0 <= v < s.len(),
    ensures
        fprod(s) == fmul(fprod(s.remove(v)), s[v]),
{
    let a = s.subrange(0, v);
    let b = s.subrange(v + 1, s.len() as int);
    assert(s =~= (a + seq![s[v]]) + b);
    assert(s.remove(v) =~= a + b);
    lemma_fprod_append(a + seq![s[v]], b);
    lemma_fprod_append(a, seq![s[v]]);
    lemma_fprod_append(a, b);
    lemma_fprod_canonical(a);
    lemma_fprod_canonical(b);
    assert(fprod(seq![s[v]]) == fmul(1, s[v])) by {
        let one = seq![s[v]];
        assert(one.drop_last() =~= Seq::<int>::empty());
        assert(fprod(one.drop_last()) == 1);
        assert(one.last() == s[v]);
    }
    lemma_reduce_operands(1, s[v]);
    lemma_reduce_operands(fprod(a), s[v]);
    vstd::arithmetic::mul::lemma_mul_basics(s[v]);
    lemma_associative(fprod(a), s[v], fprod(b));
    lemma_commutative(s[v], fprod(b));
    lemma_associative(fprod(a), fprod(b), s[v]);
    lemma_reduce_operands(fprod(a), s[v] * fprod(b));
    lemma_reduce_operands(fprod(a), fprod(b) * s[v]);
}

/// Reindexing a product by a bijection of its indices leaves it unchanged.
pub proof fn lemma_fprod_reindex(s: Seq<int>, pi: Seq<usize>)
    requires
        s.len() == pi.len(),
        is_injection(pi),
    ensures
        fprod(Seq::new(pi.len(), |x: int| s[pi[x] as int])) == fprod(s),
    decreases pi.len(),
{
    let n = pi.len();
    if n > 0 {
        let v = pi[n - 1] as int;
        let s2 = s.remove(v);
        let pi2 = Seq::new(
            (n - 1) as nat,
            |x: int|
                if (pi[x] as int) < v {
                    pi[x]
                } else {
                    (pi[x] - 1) as usize
                },
        );
        assert forall|x: int| 0 <= x < n - 1 implies #[trigger] pi[x] != pi[n - 1] by {}
        assert(is_injection(pi2)) by {
            assert forall|i: int, j: int| 0 <= i < j < pi2.len() implies pi2[i] != pi2[j] by {
                assert(pi[i] != pi[j]);
                assert(pi[i] != pi[n - 1]);
                assert(pi[j] != pi[n - 1]);
            }
        }
        lemma_fprod_reindex(s2, pi2);
        let whole = Seq::new(n, |x: int| s[pi[x] as int]);
        let part = Seq::new(pi2.len(), |x: int| s2[pi2[x] as int]);
        assert(whole.drop_last() =~= part) by {
            assert forall|x: int| 0 <= x < n - 1 implies whole[x] == part[x] by {
                assert(pi[x] != pi[n - 1]);
            }
        }
        lemma_fprod_remove(s, v);
    }
}

/// A product of ones is one.
pub proof fn lemma_fprod_ones(s: Seq<int>)
    requires
        forall|i: int| 0 <= i < s.len() ==> s[i] == 1,
    ensures
        fprod(s) == 1,
    decreases s.len(),
{
    if s.len() > 0 {
        lemma_fprod_ones(s.drop_last());
        lemma_canonical_mod(1);
    }
}

/// Filling a zero term with `x` adds `x` to the sum.
pub proof fn lemma_fsum_fill(s: Seq<int>, i: int, x: int)
    requires
        0 <= i < s.len(),
        s[i] == 0,
    ensures
        fsum(s.update(i, x)) == fadd(fsum(s), x),
{
    let u = s.update(i, x);
    lemma_fsum_remove(s, i);
    lemma_fsum_remove(u, i);
    assert(u.remove(i) =~= s.remove(i));
    let r = fsum(s.remove(i));
    lemma_fsum_canonical(s.remove(i));
    lemma_identities(r);
    lemma_canonical_mod(0);
}

} // verus!
