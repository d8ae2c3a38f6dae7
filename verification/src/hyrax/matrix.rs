//! Reshaping and tensor helpers for the Hyrax commitment.
//!
//! A `nu`-variate table of `2^nu` evaluations is read as a
//! `2^nu_r x 2^nu_c` matrix `M`, `M[row][col] = evals[row * 2^nu_c + col]`:
//! the low `nu_c` bits of an index are its column, the high `nu_r` bits its
//! row. Correspondingly the first `nu_c` coordinates of a point `z` are the
//! column variables and the last `nu_r` the row variables, and
//! `f(z) = L^T M R` with `L = eq(., z_row)` and `R = eq(., z_col)`.

use crate::eq::{eq_eval_table, eq_table, lemma_eq_table_concat};
use crate::field::{all_canonical, fadd, fmul, lemma_associative, lemma_commutative, vals, Fe};
use crate::mle::{lemma_mle_eval_sum, mle_eval};
use crate::sums::{
    fsum, inner, lemma_fsum_blocks, lemma_fsum_exchange, lemma_fsum_ext, lemma_fsum_scale,
};
use vstd::arithmetic::power2::*;
use vstd::prelude::*;

verus! {

/// `w = L^T M` for the row-major matrix `e` with `cols` columns:
/// `w[col] = sum_row l[row] * e[row * cols + col]`.
pub open spec fn lt_times_m(e: Seq<int>, l: Seq<int>, cols: nat) -> Seq<int> {
    Seq::new(
        cols,
        |col: int| fsum(Seq::new(l.len(), |row: int| fmul(l[row], e[row * cols + col]))),
    )
}

/// `w = L^T M` accumulated over the stored entries `(k, v)` of a sparse
/// matrix, in order: each adds `l[k >> n_col] * v` to `w[k mod 2^n_col]`.
pub open spec fn lt_times_m_entries(entries: Seq<(usize, int)>, l: Seq<int>, n_col: nat) -> Seq<
    int,
>
    decreases entries.len(),
{
    if entries.len() == 0 {
        Seq::new(pow2(n_col), |c: int| 0int)
    } else {
        let w = lt_times_m_entries(entries.drop_last(), l, n_col);
        let (k, v) = entries.last();
        let col = k as nat % pow2(n_col);
        let row = k as nat / pow2(n_col);
        w.update(col as int, fadd(w[col as int], fmul(l[row as int], v)))
    }
}

/// Split `nu` variables into `(nu_r, nu_c)`: balanced, the extra variable of
/// an odd `nu` going to the columns.
pub fn split_vars(num_vars: usize) -> (r: (usize, usize))
    ensures
        r.0 == num_vars / 2,
        r.1 == num_vars - num_vars / 2,
{
    let n_row = num_vars / 2;
    let n_col = num_vars - n_row;
    (n_row, n_col)
}

/// A copy of `v[lo..hi]`.
pub(crate) fn copy_range<T: Copy>(v: &[T], lo: usize, hi: usize) -> (c: Vec<T>)
    requires
        lo <= hi <= v@.len(),
    ensures
        c@ == v@.subrange(lo as int, hi as int),
{
    let mut c: Vec<T> = Vec::new();
    let mut i: usize = lo;
    while i < hi
        invariant
            lo <= i <= hi,
            hi <= v@.len(),
            c@ == v@.subrange(lo as int, i as int),
        decreases hi - i,
    {
        c.push(v[i]);
        i = i + 1;
        proof {
            assert(c@ =~= v@.subrange(lo as int, i as int));
        }
    }
    c
}

/// The row tensor `L = eq(., z_row)`, `2^nu_r` entries, from the last
/// coordinates of `point`, those after the first `n_col`.
pub fn row_tensor(point: &[Fe], n_col: usize) -> (l: Vec<Fe>)
    requires
        n_col <= point@.len(),
        point@.len() - n_col < usize::BITS,
    ensures
        l@.len() == pow2((point@.len() - n_col) as nat),
        vals(l@) == eq_table(vals(point@).skip(n_col as int)),
{
    let tail = copy_range(point, n_col, point.len());
    proof {
        assert(vals(tail@) =~= vals(point@).skip(n_col as int));
    }
    eq_eval_table(tail.as_slice())
}

/// The column tensor `R = eq(., z_col)`, `2^nu_c` entries, from the first
/// `n_col` coordinates of `point`.
pub fn col_tensor(point: &[Fe], n_col: usize) -> (r: Vec<Fe>)
    requires
        n_col <= point@.len(),
        n_col < usize::BITS,
    ensures
        r@.len() == pow2(n_col as nat),
        vals(r@) == eq_table(vals(point@).take(n_col as int)),
{
    let head = copy_range(point, 0, n_col);
    proof {
        assert(vals(head@) =~= vals(point@).take(n_col as int));
    }
    eq_eval_table(head.as_slice())
}

/// The combined row `w = L^T M`, `2^n_col` entries, for the row-major
/// matrix `evals` and the row tensor `l`.
pub fn lt_times_m_dense(evals: &[Fe], l: &[Fe], n_col: usize) -> (w: Vec<Fe>)
    requires
        n_col < usize::BITS,
        l@.len() * pow2(n_col as nat) <= evals@.len(),
    ensures
        vals(w@) == lt_times_m(vals(evals@), vals(l@), pow2(n_col as nat)),
{
    proof {
        vstd::bits::lemma_usize_pow2_no_overflow(n_col as nat);
        vstd::bits::lemma_usize_shl_is_mul(1, n_col);
    }
    let cols = 1usize << n_col;
    let ghost e = vals(evals@);
    let ghost lv = vals(l@);
    let n_e = evals.len();
    let mut w: Vec<Fe> = Vec::new();
    let mut c: usize = 0;
    while c < cols
        invariant
            c <= cols,
            w@.len() == c,
            forall|j: int| 0 <= j < c ==> #[trigger] w@[j].v() == 0,
        decreases cols - c,
    {
        w.push(Fe::zero());
        c = c + 1;
    }
    let mut row: usize = 0;
    while row < l.len()
        invariant
            cols == pow2(n_col as nat),
            cols > 0,
            e == vals(evals@),
            lv == vals(l@),
            l@.len() * cols <= evals@.len(),
            n_e == evals@.len(),
            row <= l@.len(),
            w@.len() == cols,
            forall|j: int|
                0 <= j < cols ==> #[trigger] w@[j].v() == fsum(
                    Seq::new(row as nat, |r: int| fmul(lv[r], e[r * cols + j])),
                ),
        decreases l@.len() - row,
    {
        assert((row + 1) * cols <= l@.len() * cols) by (nonlinear_arith)
            requires
                row < l@.len(),
        ;
        assert(row * cols + cols == (row + 1) * cols) by (nonlinear_arith);
        assert(row * cols + cols <= n_e);
        let base = row * cols;
        let l_row = l[row];
        let mut col: usize = 0;
        while col < cols
            invariant
                cols == pow2(n_col as nat),
                e == vals(evals@),
                lv == vals(l@),
                row < l@.len(),
                base == row * cols,
                base + cols <= evals@.len(),
                l_row == l@[row as int],
                col <= cols,
                w@.len() == cols,
                n_e == evals@.len(),
                forall|j: int|
                    0 <= j < col ==> #[trigger] w@[j].v() == fsum(
                        Seq::new((row + 1) as nat, |r: int| fmul(lv[r], e[r * cols + j])),
                    ),
                forall|j: int|
                    col <= j < cols ==> #[trigger] w@[j].v() == fsum(
                        Seq::new(row as nat, |r: int| fmul(lv[r], e[r * cols + j])),
                    ),
            decreases cols - col,
        {
            let x = w[col].add(l_row.mul(evals[base + col]));
            proof {
                let s1 = Seq::new((row + 1) as nat, |r: int| fmul(lv[r], e[r * cols + col]));
                assert(s1.drop_last() =~= Seq::new(row as nat, |r: int| fmul(lv[r], e[r * cols + col])));
                assert(lv[row as int] == l_row.v());
                assert(e[base + col] == evals@[base + col].v());
                assert(s1.last() == fmul(lv[row as int], e[base + col]));
            }
            w.set(col, x);
            col = col + 1;
        }
        row = row + 1;
    }
    proof {
        assert(vals(w@) =~= lt_times_m(e, lv, cols as nat));
    }
    w
}

/// The sparse form of `lt_times_m_dense`: accumulate `w = L^T M` over the
/// stored entries `(k, v)`, `k` split into `row = k >> n_col` and
/// `col = k mod 2^n_col`.
pub fn lt_times_m_sparse(nonzeros: &[(usize, Fe)], l: &[Fe], n_col: usize) -> (w: Vec<Fe>)
    requires
        n_col < usize::BITS,
        forall|i: int|
            0 <= i < nonzeros@.len() ==> (#[trigger] nonzeros@[i]).0 as nat / pow2(n_col as nat)
                < l@.len(),
    ensures
        vals(w@) == lt_times_m_entries(
            nonzeros@.map_values(|p: (usize, Fe)| (p.0, p.1.v())),
            vals(l@),
            n_col as nat,
        ),
{
    proof {
        vstd::bits::lemma_usize_pow2_no_overflow(n_col as nat);
        vstd::bits::lemma_usize_shl_is_mul(1, n_col);
        lemma_pow2_pos(n_col as nat);
    }
    let cols = 1usize << n_col;
    let mask = cols - 1;
    let ghost ents = nonzeros@.map_values(|p: (usize, Fe)| (p.0, p.1.v()));
    let mut w: Vec<Fe> = Vec::new();
    let mut c: usize = 0;
    while c < cols
        invariant
            c <= cols,
            w@.len() == c,
            forall|j: int| 0 <= j < c ==> #[trigger] w@[j].v() == 0,
        decreases cols - c,
    {
        w.push(Fe::zero());
        c = c + 1;
    }
    proof {
        assert(vals(w@) =~= lt_times_m_entries(ents.take(0), vals(l@), n_col as nat));
    }
    let mut i: usize = 0;
    while i < nonzeros.len()
        invariant
            cols == pow2(n_col as nat),
            n_col < usize::BITS,
            mask == cols - 1,
            cols > 0,
            ents == nonzeros@.map_values(|p: (usize, Fe)| (p.0, p.1.v())),
            forall|j: int|
                0 <= j < nonzeros@.len() ==> (#[trigger] nonzeros@[j]).0 as nat / pow2(
                    n_col as nat,
                ) < l@.len(),
            i <= nonzeros@.len(),
            w@.len() == cols,
            vals(w@) == lt_times_m_entries(ents.take(i as int), vals(l@), n_col as nat),
        decreases nonzeros@.len() - i,
    {
        let (k, v) = nonzeros[i];
        proof {
            vstd::bits::lemma_usize_low_bits_mask_is_mod(k, n_col as nat);
            vstd::bits::lemma_usize_shr_is_div(k, n_col);
            assert(vstd::bits::low_bits_mask(n_col as nat) == mask);
            assert(ents.take(i + 1).drop_last() =~= ents.take(i as int));
            assert(ents.take(i + 1).last() == (k, v.v()));
            vstd::arithmetic::div_mod::lemma_mod_bound(k as int, cols as int);
            assert(nonzeros@[i as int].0 as nat / pow2(n_col as nat) < l@.len());
        }
        let col = k & mask;
        let row = k >> n_col;
        let x = w[col].add(l[row].mul(v));
        w.set(col, x);
        proof {
            assert(vals(w@) =~= lt_times_m_entries(ents.take(i + 1), vals(l@), n_col as nat));
        }
        i = i + 1;
    }
    proof {
        assert(ents.take(nonzeros@.len() as int) =~= ents);
    }
    w
}

/// `<w, r>`, over the shorter of the two.
pub fn dot(w: &[Fe], r: &[Fe]) -> (s: Fe)
    ensures
        s.v() == fsum(
            Seq::new(
                if w@.len() <= r@.len() {
                    w@.len()
                } else {
                    r@.len()
                },
                |i: int| fmul(w@[i].v(), r@[i].v()),
            ),
        ),
{
    let n = if w.len() <= r.len() {
        w.len()
    } else {
        r.len()
    };
    let ghost terms = Seq::new(n as nat, |i: int| fmul(w@[i].v(), r@[i].v()));
    let mut acc = Fe::zero();
    let mut i: usize = 0;
    while i < n
        invariant
            n <= w@.len(),
            n <= r@.len(),
            terms == Seq::new(n as nat, |i: int| fmul(w@[i].v(), r@[i].v())),
            i <= n,
            acc.v() == fsum(terms.take(i as int)),
        decreases n - i,
    {
        proof {
            assert(terms.take(i + 1).drop_last() =~= terms.take(i as int));
        }
        acc = acc.add(w[i].mul(r[i]));
        i = i + 1;
    }
    proof {
        assert(terms.take(n as int) =~= terms);
    }
    acc
}

/// `f(z) = L^T M R`: the multilinear extension of the row-major table `e`
/// at `z` is `<L^T M, R>`, with `L = eq(., z_row)` on the last coordinates
/// and `R = eq(., z_col)` on the first `n_col`.
pub proof fn lemma_tensor_eval(e: Seq<int>, z: Seq<int>, n_col: nat)
    requires
        e.len() == pow2(z.len()),
        n_col <= z.len(),
        all_canonical(e),
        all_canonical(z),
    ensures
        mle_eval(e, z) == inner(
            lt_times_m(e, eq_table(z.skip(n_col as int)), pow2(n_col)),
            eq_table(z.take(n_col as int)),
        ),
{
    let zc = z.take(n_col as int);
    let zr = z.skip(n_col as int);
    let cols = pow2(n_col);
    let rows = pow2(zr.len());
    let lt = eq_table(zr);
    let rt = eq_table(zc);
    let t = eq_table(z);
    assert(zc + zr =~= z);
    lemma_pow2_adds(n_col, zr.len());
    assert(e.len() == rows * cols) by {
        vstd::arithmetic::mul::lemma_mul_is_commutative(rows as int, cols as int);
    }
    lemma_mle_eval_sum(e, z);
    let g = |k: int| fmul(e[k], t[k]);
    lemma_fsum_blocks(g, rows, cols);
    assert(Seq::new(rows * cols, g) =~= Seq::new(e.len(), |i: int| fmul(e[i], t[i])));
    let f = |r: int, c: int| fmul(e[r * cols + c], fmul(rt[c], lt[r]));
    let by_rows = Seq::new(rows, |r: int| fsum(Seq::new(cols, |c: int| g(r * cols + c))));
    assert forall|r: int| 0 <= r < rows implies #[trigger] by_rows[r] == fsum(
        Seq::new(cols, |c: int| f(r, c)),
    ) by {
        assert forall|c: int| 0 <= c < cols implies #[trigger] g(r * cols + c) == f(r, c) by {
            lemma_eq_table_concat(zc, zr, c as nat, r as nat);
            assert(c + cols * r == r * cols + c) by {
                vstd::arithmetic::mul::lemma_mul_is_commutative(cols as int, r);
            }
        }
        assert(Seq::new(cols, |c: int| g(r * cols + c)) =~= Seq::new(cols, |c: int| f(r, c)));
    }
    assert(by_rows =~= Seq::new(rows, |r: int| fsum(Seq::new(cols, |c: int| f(r, c)))));
    lemma_fsum_exchange(f, rows, cols);
    let w = lt_times_m(e, lt, cols);
    assert forall|c: int| 0 <= c < cols implies #[trigger] fmul(w[c], rt[c]) == fsum(
        Seq::new(rows, |r: int| f(r, c)),
    ) by {
        let col_terms = Seq::new(lt.len(), |row: int| fmul(lt[row], e[row * cols + c]));
        lemma_fsum_scale(col_terms, rt[c]);
        assert forall|r: int| 0 <= r < rows implies fmul(col_terms[r], rt[c]) == f(r, c) by {
            let a = lt[r];
            let b = e[r * cols + c];
            let d = rt[c];
            lemma_associative(a, b, d);
            lemma_associative(b, d, a);
            lemma_commutative(fmul(b, d), a);
            lemma_commutative(d, a);
            lemma_associative(b, a, d);
            crate::field::lemma_reduce_operands(b * d, a);
            crate::field::lemma_reduce_operands(b, d * a);
            lemma_commutative(b, a);
            assert(fmul(fmul(a, b), d) == fmul(a, fmul(b, d)));
            assert(fmul(b, fmul(d, a)) == fmul(fmul(b, d), a));
        }
        lemma_fsum_ext(
            Seq::new(col_terms.len(), |i: int| fmul(col_terms[i], rt[c])),
            Seq::new(rows, |r: int| f(r, c)),
        );
    }
    assert(Seq::new(w.len(), |i: int| fmul(w[i], rt[i])) =~= Seq::new(
        cols,
        |c: int| fsum(Seq::new(rows, |r: int| f(r, c))),
    ));
}

/// The dense table of `len` entries holding the stored entries' values
/// and zero elsewhere.
pub open spec fn densify(entries: Seq<(usize, int)>, len: nat) -> Seq<int>
    decreases entries.len(),
{
    if entries.len() == 0 {
        Seq::new(len, |k: int| 0int)
    } else {
        let (k, v) = entries.last();
        densify(entries.drop_last(), len).update(k as int, v)
    }
}

/// No index is stored twice and every index lies in `[0, len)`.
pub open spec fn entries_distinct(entries: Seq<(usize, int)>, len: nat) -> bool {
    &&& forall|i: int| 0 <= i < entries.len() ==> (#[trigger] entries[i]).0 < len
    &&& forall|i: int, j: int| 0 <= i < j < entries.len() ==> entries[i].0 != entries[j].0
}

/// An index stored by none of the entries is zero in the dense table.
proof fn lemma_densify_absent(entries: Seq<(usize, int)>, len: nat, k: int)
    requires
        forall|i: int| 0 <= i < entries.len() ==> (#[trigger] entries[i]).0 < len,
        forall|i: int| 0 <= i < entries.len() ==> (#[trigger] entries[i]).0 != k,
    ensures
        densify(entries, len).len() == len,
        0 <= k < len ==> densify(entries, len)[k] == 0,
    decreases entries.len(),
{
    if entries.len() > 0 {
        let e1 = entries.drop_last();
        assert forall|i: int| 0 <= i < e1.len() implies (#[trigger] e1[i]).0 < len && e1[i].0 != k by {
            assert(e1[i] == entries[i]);
        }
        lemma_densify_absent(e1, len, k);
        assert(entries.last() == entries[entries.len() - 1]);
    }
}

/// Cell `(r, c)` of a `rows x cols` grid lies inside it, and is `k` only
/// when `r` and `c` are `k`'s row and column.
proof fn lemma_cell(r: int, c: int, rows: nat, cols: nat, k: int)
    requires
        0 <= r < rows,
        0 <= c < cols,
    ensures
        0 <= r * cols + c < rows * cols,
        r * cols + c == k ==> r == k / (cols as int) && c == k % (cols as int),
{
    assert(0 <= r * cols + c < rows * cols) by (nonlinear_arith)
        requires
            0 <= r < rows,
            0 <= c < cols,
    ;
    if r * cols + c == k {
        vstd::arithmetic::div_mod::lemma_div_multiples_vanish_fancy(r, c, cols as int);
        vstd::arithmetic::mul::lemma_mul_is_commutative(cols as int, r);
        vstd::arithmetic::div_mod::lemma_fundamental_div_mod(k, cols as int);
    }
}

/// Accumulating `w = L^T M` over the stored entries gives the same row as
/// the dense computation on the densified matrix.
pub proof fn lemma_sparse_matches_dense(entries: Seq<(usize, int)>, l: Seq<int>, n_col: nat)
    requires
        entries_distinct(entries, l.len() * pow2(n_col)),
    ensures
        lt_times_m_entries(entries, l, n_col) == lt_times_m(
            densify(entries, l.len() * pow2(n_col)),
            l,
            pow2(n_col),
        ),
    decreases entries.len(),
{
    let cols = pow2(n_col);
    let len = l.len() * cols;
    lemma_pow2_pos(n_col);
    if entries.len() == 0 {
        let d = densify(entries, len);
        assert forall|c: int| 0 <= c < cols implies #[trigger] lt_times_m(d, l, cols)[c] == 0 by {
            let s = Seq::new(l.len(), |row: int| fmul(l[row], d[row * cols + c]));
            assert forall|r: int| 0 <= r < l.len() implies s[r] == 0 by {
                assert(r * cols + c < len) by (nonlinear_arith)
                    requires
                        0 <= r < l.len(),
                        0 <= c < cols,
                        len == l.len() * cols,
                ;
                assert(0 <= r * cols + c) by (nonlinear_arith)
                    requires
                        0 <= r,
                        0 <= c,
                        cols > 0,
                ;
                crate::field::lemma_canonical_mod(0);
                vstd::arithmetic::mul::lemma_mul_basics(l[r]);
            }
            crate::sums::lemma_fsum_zeros(s);
        }
        assert(lt_times_m_entries(entries, l, n_col) =~= lt_times_m(d, l, cols));
    } else {
        let e1 = entries.drop_last();
        let (k, v) = entries.last();
        assert(entries_distinct(e1, len)) by {
            assert forall|i: int| 0 <= i < e1.len() implies (#[trigger] e1[i]).0 < len by {
                assert(e1[i] == entries[i]);
            }
            assert forall|i: int, j: int| 0 <= i < j < e1.len() implies e1[i].0 != e1[j].0 by {
                assert(e1[i] == entries[i]);
                assert(e1[j] == entries[j]);
            }
        }
        lemma_sparse_matches_dense(e1, l, n_col);
        let d1 = densify(e1, len);
        let d = densify(entries, len);
        let w1 = lt_times_m(d1, l, cols);
        let col = (k as nat % cols) as int;
        let row = (k as nat / cols) as int;
        assert(entries.last() == entries[entries.len() - 1]);
        assert(forall|i: int| 0 <= i < e1.len() ==> (#[trigger] e1[i]).0 != k) by {
            assert forall|i: int| 0 <= i < e1.len() implies (#[trigger] e1[i]).0 != k by {
                assert(entries[i] == e1[i]);
            }
        }
        lemma_densify_absent(e1, len, k as int);
        vstd::arithmetic::div_mod::lemma_fundamental_div_mod(k as int, cols as int);
        vstd::arithmetic::div_mod::lemma_mod_bound(k as int, cols as int);
        vstd::arithmetic::mul::lemma_mul_is_commutative(cols as int, row);
        assert(row < l.len()) by {
            vstd::arithmetic::div_mod::lemma_div_is_ordered(k as int, len - 1, cols as int);
            assert((len - 1) / (cols as int) < l.len()) by {
                vstd::arithmetic::div_mod::lemma_div_multiples_vanish_fancy(
                    (l.len() - 1) as int,
                    (cols - 1) as int,
                    cols as int,
                );
                assert(len - 1 == cols * (l.len() - 1) + (cols - 1)) by (nonlinear_arith)
                    requires
                        len == l.len() * cols,
                ;
            }
        }
        assert forall|c: int| 0 <= c < cols implies #[trigger] lt_times_m_entries(entries, l, n_col)[c]
            == lt_times_m(d, l, cols)[c] by {
            let s1 = Seq::new(l.len(), |r: int| fmul(l[r], d1[r * cols + c]));
            let s = Seq::new(l.len(), |r: int| fmul(l[r], d[r * cols + c]));
            if c == col {
                assert(s1[row] == 0) by {
                    crate::field::lemma_canonical_mod(0);
                    vstd::arithmetic::mul::lemma_mul_basics(l[row]);
                }
                assert forall|r: int| 0 <= r < l.len() implies s[r] == s1.update(row, fmul(l[row], v))[r] by {
                    lemma_cell(r, c, l.len(), cols, k as int);
                    if r == row {
                        assert(r * cols + c == k);
                    }
                }
                assert(s =~= s1.update(row, fmul(l[row], v)));
                crate::sums::lemma_fsum_fill(s1, row, fmul(l[row], v));
            } else {
                assert forall|r: int| 0 <= r < l.len() implies s[r] == s1[r] by {
                    lemma_cell(r, c, l.len(), cols, k as int);
                }
                assert(s =~= s1);
            }
        }
        assert(lt_times_m_entries(entries, l, n_col) =~= lt_times_m(d, l, cols));
    }
}

} // verus!
