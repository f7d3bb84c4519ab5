//! Dependent rows: a matrix whose rows are linearly dependent (two equal rows,
//! say) reduces to a form with a zero row.
use crate::field::{finv, lemma_finv, modulus, residue};
use crate::gauss::{
    first_nonzero_from, forward_inv, forward_result, is_row_echelon, lead, lemma_back_from,
    lemma_before_lead, lemma_first_nonzero_from, lemma_forward_inv_start, lemma_forward_result,
    lemma_inv_skips, lemma_lead, lemma_pull_inv, lemma_pull_run, lemma_rref_of, pull, rank_of, rref_of,
    count_nonzero_rows, is_nonzero_row, run_from,
    sub_rows,
};
use crate::mat::{is_matrix, ncols, swap_rows};
use crate::vec::all_residues;
use vstd::arithmetic::div_mod::{
    lemma_fundamental_div_mod, lemma_mod_bound, lemma_mod_multiples_vanish, lemma_mul_mod_noop_left,
    lemma_mul_mod_noop_right, lemma_small_mod,
};
use vstd::prelude::*;

verus! {

/// The sum of a sequence of integers.
pub open spec fn seq_sum(t: Seq<int>) -> int
    decreases t.len(),
{
    if t.len() == 0 {
        0
    } else {
        seq_sum(t.drop_last()) + t.last()
    }
}

/// The terms `y[i] * a[i][k]` of the combination of the rows of `a` by `y`, in column `k`.
pub open spec fn col_terms(a: Seq<Seq<int>>, y: Seq<int>, k: int) -> Seq<int> {
    Seq::new(a.len(), |i: int| y[i] * a[i][k])
}

/// The combination of the rows of `a` with coefficients `y` is the zero row.
pub open spec fn in_left_kernel(a: Seq<Seq<int>>, y: Seq<int>) -> bool {
    &&& y.len() == a.len()
    &&& forall|k: int| 0 <= k < ncols(a) ==> #[trigger] residue(seq_sum(col_terms(a, y, k))) == 0
}

/// Every entry of the row is zero.
pub open spec fn is_zero_row(r: Seq<int>) -> bool {
    forall|k: int| 0 <= k < r.len() ==> #[trigger] r[k] == 0
}

/// Coefficients that are residues, not all zero.
pub open spec fn nontrivial(y: Seq<int>) -> bool {
    &&& all_residues(y)
    &&& exists|i: int| 0 <= i < y.len() && y[i] != 0
}

/// Changing one term changes the sum by the difference.
proof fn lemma_sum_update(t: Seq<int>, i: int, x: int)
    requires
        0 <= i < t.len(),
    ensures
        seq_sum(t.update(i, x)) == seq_sum(t) - t[i] + x,
    decreases t.len(),
{
    let u = t.update(i, x);
    if i == t.len() - 1 {
        assert(u.drop_last() =~= t.drop_last());
    } else {
        assert(u.drop_last() =~= t.drop_last().update(i, x));
        lemma_sum_update(t.drop_last(), i, x);
    }
}

/// A sum of zeros is zero.
proof fn lemma_sum_zeros(t: Seq<int>)
    requires
        forall|i: int| 0 <= i < t.len() ==> #[trigger] t[i] == 0,
    ensures
        seq_sum(t) == 0,
    decreases t.len(),
{
    if t.len() > 0 {
        lemma_sum_zeros(t.drop_last());
    }
}

/// A product of two nonzero residues is nonzero.
proof fn lemma_no_zero_divisors(y: int, f: int)
    requires
        0 <= y < modulus(),
        0 < f < modulus(),
        residue(y * f) == 0,
    ensures
        y == 0,
{
    let m = modulus();
    let i = finv(f);
    lemma_finv(f);
    lemma_mul_mod_noop_left(y * f, i, m);
    assert((y * f) * i == y * (f * i)) by (nonlinear_arith);
    lemma_mul_mod_noop_right(y, f * i, m);
    assert(0 * i == 0);
    lemma_small_mod(0, m as nat);
    lemma_small_mod(y as nat, m as nat);
    assert(y * 1 == y);
}

/// A swap of rows, with the same swap of the coefficients, keeps the combination.
proof fn lemma_left_kernel_swap(a: Seq<Seq<int>>, y: Seq<int>, i: int, j: int) -> (y2: Seq<int>)
    requires
        is_matrix(a),
        in_left_kernel(a, y),
        nontrivial(y),
        0 <= i < a.len(),
        0 <= j < a.len(),
    ensures
        in_left_kernel(swap_rows(a, i, j), y2),
        nontrivial(y2),
{
    let y2 = y.update(i, y[j]).update(j, y[i]);
    let b = swap_rows(a, i, j);
    assert(b[0].len() == ncols(a));
    assert forall|k: int| 0 <= k < ncols(b) implies #[trigger] residue(seq_sum(col_terms(b, y2, k)))
        == 0 by {
        let t = col_terms(a, y, k);
        assert(residue(seq_sum(t)) == 0);
        if i != j {
            lemma_sum_update(t, i, t[j]);
            lemma_sum_update(t.update(i, t[j]), j, t[i]);
            assert(col_terms(b, y2, k) =~= t.update(i, t[j]).update(j, t[i]));
        } else {
            assert(col_terms(b, y2, k) =~= t);
        }
    }
    let w = choose|w: int| 0 <= w < y.len() && y[w] != 0;
    if w == i {
        assert(y2[j] != 0);
    } else if w == j {
        assert(y2[i] != 0);
    } else {
        assert(y2[w] != 0);
    }
    y2
}

/// Subtracting a multiple of row `from` from row `to`, with the coefficient
/// of `from` adjusted, keeps the combination.
proof fn lemma_left_kernel_sub(a: Seq<Seq<int>>, y: Seq<int>, to: int, from: int, s: int) -> (y2: Seq<
    int,
>)
    requires
        is_matrix(a),
        in_left_kernel(a, y),
        nontrivial(y),
        0 <= to < a.len(),
        0 <= from < a.len(),
        to != from,
    ensures
        in_left_kernel(sub_rows(a, to, from, s), y2),
        nontrivial(y2),
{
    let m = modulus();
    let yf = residue(y[from] + s * y[to]);
    let y2 = y.update(from, yf);
    let b = sub_rows(a, to, from, s);
    assert(b[0].len() == ncols(a));
    lemma_mod_bound(y[from] + s * y[to], m);
    assert forall|k: int| 0 <= k < ncols(b) implies #[trigger] residue(seq_sum(col_terms(b, y2, k)))
        == 0 by {
        let t = col_terms(a, y, k);
        let bt = b[to][k];
        assert(bt == residue(a[to][k] - residue(a[from][k] * s)));
        lemma_sum_update(t, to, y[to] * bt);
        lemma_sum_update(t.update(to, y[to] * bt), from, yf * a[from][k]);
        assert(col_terms(b, y2, k) =~= t.update(to, y[to] * bt).update(from, yf * a[from][k]));
        lemma_fundamental_div_mod(a[to][k] - residue(a[from][k] * s), m);
        lemma_fundamental_div_mod(a[from][k] * s, m);
        lemma_fundamental_div_mod(y[from] + s * y[to], m);
        let k1 = (a[to][k] - residue(a[from][k] * s)) / m;
        let k2 = (a[from][k] * s) / m;
        let k3 = (y[from] + s * y[to]) / m;
        let sum0 = seq_sum(t);
        let sum1 = seq_sum(col_terms(b, y2, k));
        let yt = y[to];
        let af = a[from][k];
        let d1 = bt - a[to][k];
        let d2 = yf - y[from];
        assert(d1 == -(af * s) + m * k2 - m * k1);
        assert(d2 == s * yt - m * k3);
        assert(sum1 - sum0 == yt * d1 + af * d2) by (nonlinear_arith)
            requires
                sum1 == sum0 - t[to] + yt * bt - t[from] + yf * af,
                t[to] == yt * a[to][k],
                t[from] == y[from] * af,
                d1 == bt - a[to][k],
                d2 == yf - y[from],
        ;
        assert(yt * d1 == -(yt * (af * s)) + m * (yt * k2) - m * (yt * k1)) by (nonlinear_arith)
            requires
                d1 == -(af * s) + m * k2 - m * k1,
        ;
        assert(af * d2 == (s * yt) * af - m * (k3 * af)) by (nonlinear_arith)
            requires
                d2 == s * yt - m * k3,
        ;
        assert(yt * (af * s) == (s * yt) * af) by (nonlinear_arith);
        assert(m * (-yt * k1 + yt * k2 - k3 * af) == -(m * (yt * k1)) + m * (yt * k2) - m * (k3
            * af)) by (nonlinear_arith);
        assert(sum1 == m * (-yt * k1 + yt * k2 - k3 * af) + sum0);
        lemma_mod_multiples_vanish(-yt * k1 + yt * k2 - k3 * af, sum0, m);
        assert(residue(sum0) == 0);
        assert(residue(sum1) == residue(sum0));
    }
    let w = choose|w: int| 0 <= w < y.len() && y[w] != 0;
    if y[to] != 0 {
        assert(y2[to] != 0);
    } else if w == from {
        assert(s * 0 == 0);
        lemma_small_mod(y[from] as nat, m as nat);
        assert(y2[from] != 0);
    } else {
        assert(y2[w] != 0);
    }
    y2
}

/// The forward phase keeps a nontrivial combination of the rows equal to zero.
proof fn lemma_run_left_kernel(a: Seq<Seq<int>>, n: int, r: int, c: int, row: int, y: Seq<int>) -> (y2: Seq<int>)
    requires
        forward_inv(a, n, r, c, row),
        in_left_kernel(a, y),
        nontrivial(y),
    ensures
        in_left_kernel(run_from(a, n, r, c, row).1, y2),
        nontrivial(y2),
    decreases n - c, a.len() + 1 - row,
{
    lemma_pull_run(a, n, r, c, row);
    lemma_pull_inv(a, n, r, c, row);
    match pull(a, n, r, c, row) {
        None => y,
        Some(p) => {
            let y1 = lemma_pull_left_kernel(a, n, r, c, row, y);
            lemma_run_left_kernel(p.mat, n, p.prow, p.col, p.row, y1)
        },
    }
}

/// One step of the forward phase keeps a nontrivial combination of the rows
/// equal to zero.
proof fn lemma_pull_left_kernel(a: Seq<Seq<int>>, n: int, r: int, c: int, row: int, y: Seq<int>) -> (y2: Seq<int>)
    requires
        forward_inv(a, n, r, c, row),
        in_left_kernel(a, y),
        nontrivial(y),
    ensures
        pull(a, n, r, c, row) matches Some(p) ==> in_left_kernel(p.mat, y2) && nontrivial(y2),
    decreases n - c, a.len() + 1 - row,
{
    if r < 0 || c < 0 || r >= a.len() || c >= n || row < r || row > a.len() {
        y
    } else {
        lemma_inv_skips(a, n, r, c, row);
        lemma_first_nonzero_from(a, c, r);
        if row == r {
            if a[r][c] != 0 {
                lemma_pull_left_kernel(a, n, r, c, r + 1, y)
            } else {
                match first_nonzero_from(a, c, r) {
                    Some(idx) => lemma_left_kernel_swap(a, y, r, idx),
                    None => lemma_pull_left_kernel(a, n, r, c + 1, r, y),
                }
            }
        } else if row == a.len() {
            lemma_pull_left_kernel(a, n, r + 1, c + 1, r + 1, y)
        } else if a[row][c] != 0 {
            lemma_left_kernel_sub(a, y, row, r, crate::field::fdiv(a[row][c], a[r][c]))
        } else {
            lemma_pull_left_kernel(a, n, r, c, row + 1, y)
        }
    }
}

/// In a row-echelon form, a combination of the rows equal to zero has a zero
/// coefficient on every nonzero row up to `i`.
proof fn lemma_echelon_kernel(f: Seq<Seq<int>>, y: Seq<int>, i: int)
    requires
        is_matrix(f),
        is_row_echelon(f),
        in_left_kernel(f, y),
        all_residues(y),
        0 <= i < f.len(),
    ensures
        forall|q: int| 0 <= q <= i && #[trigger] lead(f[q]) < ncols(f) ==> y[q] == 0,
    decreases i,
{
    let n = ncols(f) as int;
    if i > 0 {
        lemma_echelon_kernel(f, y, i - 1);
    }
    lemma_lead(f[i]);
    if lead(f[i]) < n {
        let l = lead(f[i]);
        let t = col_terms(f, y, l);
        assert forall|q: int| 0 <= q < f.len() && q != i implies #[trigger] t[q] == 0 by {
            if q < i {
                assert(lead(f[q]) < lead(f[i]));
                assert(y[q] == 0);
            } else {
                lemma_lead(f[q]);
                if lead(f[q]) < n {
                    assert(lead(f[i]) < lead(f[q]));
                }
                lemma_before_lead(f[q], l);
            }
            assert(t[q] == y[q] * f[q][l]);
        }
        let z = Seq::new(f.len(), |q: int| 0int);
        lemma_sum_zeros(z);
        lemma_sum_update(z, i, t[i]);
        assert(z.update(i, t[i]) =~= t);
        assert(residue(seq_sum(t)) == 0);
        lemma_no_zero_divisors(y[i], f[i][l]);
    }
}

/// A matrix whose rows have a nontrivial combination equal to zero reduces to
/// a form with a zero row.
pub proof fn lemma_dependent_rows_leave_zero_row(a: Seq<Seq<int>>, y: Seq<int>)
    requires
        is_matrix(a),
        in_left_kernel(a, y),
        nontrivial(y),
    ensures
        exists|q: int| 0 <= q < a.len() && #[trigger] is_zero_row(rref_of(a)[q]),
{
    lemma_forward_inv_start(a);
    let y2 = lemma_run_left_kernel(a, ncols(a) as int, 0, 0, 0, y);
    lemma_forward_result(a);
    let f = forward_result(a);
    let w = choose|w: int| 0 <= w < y2.len() && y2[w] != 0;
    lemma_echelon_kernel(f, y2, f.len() - 1);
    lemma_lead(f[w]);
    lemma_back_from(f, f.len() as int);
    let r = rref_of(a);
    assert(lead(r[w]) == ncols(a));
    lemma_lead(r[w]);
    lemma_rref_of(a);
    assert(r[w].len() == ncols(a));
    assert(is_zero_row(r[w]));
}

/// With a zero row among the first `i`, fewer than `i` of them are nonzero.
proof fn lemma_count_with_zero_row(a: Seq<Seq<int>>, w: int, i: int)
    requires
        0 <= w < i <= a.len(),
        is_zero_row(a[w]),
    ensures
        count_nonzero_rows(a.take(i)) < i,
    decreases i,
{
    assert(a.take(i).drop_last() =~= a.take(i - 1));
    assert(a.take(i).last() == a[i - 1]);
    if w < i - 1 {
        lemma_count_with_zero_row(a, w, i - 1);
    } else {
        lemma_count_at_most(a, i - 1);
        if is_nonzero_row(a[w]) {
            let j = choose|j: int| 0 <= j < a[w].len() && a[w][j] != 0;
            assert(a[w][j] == 0);
        }
    }
}

/// At most `i` of the first `i` rows are nonzero.
proof fn lemma_count_at_most(a: Seq<Seq<int>>, i: int)
    requires
        0 <= i <= a.len(),
    ensures
        count_nonzero_rows(a.take(i)) <= i,
    decreases i,
{
    if i > 0 {
        assert(a.take(i).drop_last() =~= a.take(i - 1));
        lemma_count_at_most(a, i - 1);
    }
}

/// A matrix with two equal rows reduces to a form with a zero row, so its
/// rank is below its number of rows.
pub proof fn lemma_equal_rows_leave_zero_row(a: Seq<Seq<int>>, i: int, j: int)
    requires
        is_matrix(a),
        0 <= i < a.len(),
        0 <= j < a.len(),
        i != j,
        a[i] == a[j],
    ensures
        exists|q: int| 0 <= q < a.len() && #[trigger] is_zero_row(rref_of(a)[q]),
        rank_of(a) < a.len(),
{
    let m = modulus();
    let y = Seq::new(a.len(), |q: int| if q == i { 1int } else if q == j { m - 1 } else { 0int });
    assert forall|k: int| 0 <= k < ncols(a) implies #[trigger] residue(seq_sum(col_terms(a, y, k)))
        == 0 by {
        let t = col_terms(a, y, k);
        let z = Seq::new(a.len(), |q: int| 0int);
        lemma_sum_zeros(z);
        lemma_sum_update(z, i, t[i]);
        lemma_sum_update(z.update(i, t[i]), j, t[j]);
        assert(z.update(i, t[i]).update(j, t[j]) =~= t);
        assert(t[i] + t[j] == m * a[i][k]) by (nonlinear_arith)
            requires
                t[i] == 1 * a[i][k],
                t[j] == (m - 1) * a[i][k],
        ;
        lemma_mod_multiples_vanish(a[i][k], 0, m);
        lemma_small_mod(0, m as nat);
    }
    assert(y[i] != 0);
    lemma_dependent_rows_leave_zero_row(a, y);
    let r = rref_of(a);
    lemma_rref_of(a);
    let w = choose|w: int| 0 <= w < a.len() && #[trigger] is_zero_row(r[w]);
    lemma_count_with_zero_row(r, w, r.len() as int);
    assert(r.take(r.len() as int) =~= r);
}

} // verus!
