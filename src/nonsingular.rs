//! Nonsingular matrices: the elimination of a square matrix that sends no
//! nonzero vector to zero ends with the identity.
use crate::field::{fdiv, fmul, fsub, lemma_div_mul_cancel, modulus, residue};
use crate::gauss::{
    first_nonzero_from, forward_inv, forward_result, lead, lemma_back_from,
    lemma_first_nonzero_from, lemma_forward_inv_start, lemma_forward_result, lemma_inv_skips,
    lemma_lead, lemma_pull_inv, lemma_row_ops_keep_matrix, pivot_cleared, rref_of,
    run_from, sub_rows, is_row_echelon,
};
use crate::mat::{identity_matrix, is_matrix, ncols, swap_rows};
use crate::vec::{all_residues, seq_fill, seq_scale, seq_sub};
use vstd::arithmetic::div_mod::{
    lemma_add_mod_noop, lemma_fundamental_div_mod, lemma_mod_multiples_vanish,
    lemma_small_mod, lemma_sub_mod_noop,
};
use vstd::prelude::*;

verus! {

/// The integer sum of the products of `u` and `x`, entry by entry.
pub open spec fn dot(u: Seq<int>, x: Seq<int>) -> int
    decreases u.len(),
{
    if u.len() == 0 {
        0
    } else {
        u[0] * x[0] + dot(u.drop_first(), x.drop_first())
    }
}

/// `b` sends `x` to the zero vector.
pub open spec fn in_kernel(b: Seq<Seq<int>>, x: Seq<int>) -> bool {
    forall|i: int| 0 <= i < b.len() ==> #[trigger] residue(dot(b[i], x)) == 0
}

/// The only vector of residues that `b` sends to zero is zero.
pub open spec fn is_nonsingular(b: Seq<Seq<int>>) -> bool {
    forall|x: Seq<int>|
        x.len() == ncols(b) && all_residues(x) && #[trigger] in_kernel(b, x) ==> forall|j: int|
            0 <= j < x.len() ==> #[trigger] x[j] == 0
}

/// A square matrix is invertible when it is nonsingular.
pub open spec fn is_invertible(a: Seq<Seq<int>>) -> bool {
    &&& a.len() == ncols(a)
    &&& is_nonsingular(a)
}

/// The trailing block of `a`: rows and columns from `c` on.
pub open spec fn block(a: Seq<Seq<int>>, c: int) -> Seq<Seq<int>> {
    Seq::new((a.len() - c) as nat, |i: int| a[i + c].subrange(c, ncols(a) as int))
}

/// `u - s * v` dotted with `x` is `u . x - s * (v . x)`, up to a multiple of the modulus.
proof fn lemma_dot_sub_scaled(u: Seq<int>, v: Seq<int>, x: Seq<int>, s: int) -> (k: int)
    requires
        u.len() == v.len(),
    ensures
        dot(seq_sub(u, seq_scale(v, s)), x) - dot(u, x) + s * dot(v, x) == k * modulus(),
    decreases u.len(),
{
    let w = seq_sub(u, seq_scale(v, s));
    if u.len() == 0 {
        0
    } else {
        let m = modulus();
        let q = fmul(v[0], s);
        lemma_fundamental_div_mod(u[0] - q, m);
        lemma_fundamental_div_mod(v[0] * s, m);
        let d = (u[0] - q) / m;
        let e = (v[0] * s) / m;
        assert(w[0] == fsub(u[0], q));
        assert(w.drop_first() =~= seq_sub(u.drop_first(), seq_scale(v.drop_first(), s)));
        let k0 = lemma_dot_sub_scaled(u.drop_first(), v.drop_first(), x.drop_first(), s);
        let k = (e - d) * x[0] + k0;
        assert(w[0] * x[0] - u[0] * x[0] + s * (v[0] * x[0]) == (e - d) * x[0] * m)
            by (nonlinear_arith)
            requires
                u[0] - q == m * d + w[0],
                v[0] * s == m * e + q,
        ;
        assert(dot(w, x) - dot(u, x) + s * dot(v, x) == k * m) by (nonlinear_arith)
            requires
                dot(w, x) == w[0] * x[0] + dot(w.drop_first(), x.drop_first()),
                dot(u, x) == u[0] * x[0] + dot(u.drop_first(), x.drop_first()),
                dot(v, x) == v[0] * x[0] + dot(v.drop_first(), x.drop_first()),
                dot(w.drop_first(), x.drop_first()) - dot(u.drop_first(), x.drop_first()) + s
                    * dot(v.drop_first(), x.drop_first()) == k0 * m,
                w[0] * x[0] - u[0] * x[0] + s * (v[0] * x[0]) == (e - d) * x[0] * m,
                k == (e - d) * x[0] + k0,
        ;
        k
    }
}

/// The dot product with a vector of zeros is zero.
proof fn lemma_dot_zeros(u: Seq<int>, n: nat)
    requires
        u.len() <= n,
    ensures
        dot(u, seq_fill(n, 0)) == 0,
    decreases u.len(),
{
    if u.len() > 0 {
        assert(seq_fill(n, 0).drop_first() =~= seq_fill((n - 1) as nat, 0));
        lemma_dot_zeros(u.drop_first(), (n - 1) as nat);
        assert(seq_fill(n, 0)[0] == 0);
        assert(u[0] * 0 == 0);
    }
}

/// A vector that the matrix after a subtraction of rows sends to zero is sent
/// to zero by the matrix before it.
proof fn lemma_kernel_sub(b: Seq<Seq<int>>, to: int, from: int, s: int, x: Seq<int>)
    requires
        0 <= to < b.len(),
        0 <= from < b.len(),
        to != from,
        b[to].len() == b[from].len(),
        in_kernel(sub_rows(b, to, from, s), x),
    ensures
        in_kernel(b, x),
{
    let m = modulus();
    let b2 = sub_rows(b, to, from, s);
    assert forall|i: int| 0 <= i < b.len() implies #[trigger] residue(dot(b[i], x)) == 0 by {
        if i == to {
            let k = lemma_dot_sub_scaled(b[to], b[from], x, s);
            assert(residue(dot(b2[to], x)) == 0);
            assert(residue(dot(b2[from], x)) == 0);
            let w = dot(b2[to], x);
            let v = dot(b[from], x);
            lemma_fundamental_div_mod(w, m);
            lemma_fundamental_div_mod(v, m);
            let k1 = w / m;
            let k2 = v / m;
            assert(dot(b[to], x) == m * (k1 + s * k2 - k) + 0) by (nonlinear_arith)
                requires
                    w - dot(b[to], x) + s * v == k * m,
                    w == m * k1,
                    v == m * k2,
            ;
            lemma_mod_multiples_vanish(k1 + s * k2 - k, 0, m);
        } else {
            assert(b2[i] == b[i]);
        }
    }
}

/// A vector that the matrix after a swap of rows sends to zero is sent to zero
/// by the matrix before it.
proof fn lemma_kernel_swap(b: Seq<Seq<int>>, i: int, j: int, x: Seq<int>)
    requires
        0 <= i < b.len(),
        0 <= j < b.len(),
        in_kernel(swap_rows(b, i, j), x),
    ensures
        in_kernel(b, x),
{
    let b2 = swap_rows(b, i, j);
    assert forall|r: int| 0 <= r < b.len() implies #[trigger] residue(dot(b[r], x)) == 0 by {
        if r == i {
            assert(b2[j] == b[i]);
        } else if r == j {
            assert(b2[i] == b[j]);
        } else {
            assert(b2[r] == b[r]);
        }
    }
}

/// The trailing block after a subtraction of rows inside it is the block with
/// that subtraction applied.
proof fn lemma_block_sub(a: Seq<Seq<int>>, col: int, row: int, s: int)
    requires
        is_matrix(a),
        0 <= col < row < a.len(),
        col < ncols(a),
    ensures
        block(sub_rows(a, row, col, s), col) == sub_rows(block(a, col), row - col, 0, s),
{
    let a2 = sub_rows(a, row, col, s);
    let l = block(a2, col);
    let r = sub_rows(block(a, col), row - col, 0, s);
    assert(a2[0].len() == ncols(a));
    assert forall|i: int| 0 <= i < l.len() implies #[trigger] l[i] == r[i] by {
        if i == row - col {
            assert(l[i] =~= r[i]);
        }
    }
    assert(l =~= r);
}

/// The trailing block after a swap of rows inside it is the block with that
/// swap applied.
proof fn lemma_block_swap(a: Seq<Seq<int>>, col: int, idx: int)
    requires
        is_matrix(a),
        0 <= col <= idx < a.len(),
        col < ncols(a),
    ensures
        block(swap_rows(a, col, idx), col) == swap_rows(block(a, col), 0, idx - col),
{
    let a2 = swap_rows(a, col, idx);
    assert(a2[0].len() == ncols(a));
    assert(block(a2, col) =~= swap_rows(block(a, col), 0, idx - col));
}

/// Row operations keep a matrix nonsingular.
proof fn lemma_nonsingular_ops(b: Seq<Seq<int>>, i: int, j: int, s: int)
    requires
        is_matrix(b),
        is_nonsingular(b),
        0 <= i < b.len(),
        0 <= j < b.len(),
    ensures
        is_nonsingular(swap_rows(b, i, j)),
        i != j ==> is_nonsingular(sub_rows(b, i, j, s)),
{
    lemma_row_ops_keep_matrix(b, i, j, s);
    assert forall|x: Seq<int>|
        x.len() == ncols(swap_rows(b, i, j)) && all_residues(x) && #[trigger] in_kernel(
            swap_rows(b, i, j),
            x,
        ) implies forall|r: int| 0 <= r < x.len() ==> #[trigger] x[r] == 0 by {
        lemma_kernel_swap(b, i, j, x);
    }
    if i != j {
        assert forall|x: Seq<int>|
            x.len() == ncols(sub_rows(b, i, j, s)) && all_residues(x) && #[trigger] in_kernel(
                sub_rows(b, i, j, s),
                x,
            ) implies forall|r: int| 0 <= r < x.len() ==> #[trigger] x[r] == 0 by {
            lemma_kernel_sub(b, i, j, s, x);
        }
    }
}

/// A nonsingular square block has a nonzero entry in its first column.
proof fn lemma_first_column_nonzero(b: Seq<Seq<int>>)
    requires
        is_matrix(b),
        b.len() == ncols(b),
        b.len() > 0,
        is_nonsingular(b),
    ensures
        exists|i: int| 0 <= i < b.len() && #[trigger] b[i][0] != 0,
{
    if forall|i: int| 0 <= i < b.len() ==> #[trigger] b[i][0] == 0 {
        let n = ncols(b);
        let x = seq![1int] + seq_fill((n - 1) as nat, 0);
        assert(x.drop_first() =~= seq_fill((n - 1) as nat, 0));
        assert forall|i: int| 0 <= i < b.len() implies #[trigger] residue(dot(b[i], x)) == 0 by {
            lemma_dot_zeros(b[i].drop_first(), (n - 1) as nat);
            lemma_small_mod(0, modulus() as nat);
            assert(b[i].len() == n);
            assert(b[i][0] == 0);
            assert(b[i][0] * x[0] == 0);
            assert(dot(b[i], x) == b[i][0] * x[0] + dot(b[i].drop_first(), x.drop_first()));
        }
        assert(all_residues(x));
        assert(in_kernel(b, x));
        assert(x[0] == 1);
    }
}

/// When the first column of a nonsingular block is a nonzero pivot above
/// zeros, the block without its first row and column is nonsingular.
proof fn lemma_schur(b: Seq<Seq<int>>)
    requires
        is_matrix(b),
        b.len() == ncols(b),
        b.len() > 0,
        is_nonsingular(b),
        b[0][0] != 0,
        forall|i: int| 0 < i < b.len() ==> #[trigger] b[i][0] == 0,
    ensures
        is_nonsingular(Seq::new((b.len() - 1) as nat, |i: int| b[i + 1].drop_first())),
{
    let m = modulus();
    let n = b.len();
    let sb = Seq::new((n - 1) as nat, |i: int| b[i + 1].drop_first());
    assert forall|y: Seq<int>|
        y.len() == ncols(sb) && all_residues(y) && #[trigger] in_kernel(sb, y) implies forall|j: int|
        0 <= j < y.len() ==> #[trigger] y[j] == 0 by {
        if n == 1 {
            assert(y.len() == 0);
        } else {
            assert(sb[0].len() == n - 1);
            let p = b[0][0];
            let d = dot(b[0].drop_first(), y);
            let t = fsub(0, residue(d));
            let x0 = fdiv(t, p);
            let x = seq![x0] + y;
            assert(x.drop_first() =~= y);
            assert(0 <= p < m);
            lemma_div_mul_cancel(t, p);
            lemma_small_mod(t as nat, m as nat);
            // p * x0 + d is a multiple of m
            lemma_sub_mod_noop(0, d, m);
            lemma_small_mod(0, m as nat);
            assert(residue(x0 * p) == residue(-d));
            assert(p * x0 == x0 * p) by (nonlinear_arith);
            lemma_add_mod_noop(p * x0, d, m);
            lemma_add_mod_noop(-d, d, m);
            lemma_mod_multiples_vanish(0, d, m);
            assert(residue(dot(b[0], x)) == 0);
            assert forall|i: int| 0 <= i < b.len() implies #[trigger] residue(dot(b[i], x)) == 0 by {
                if i > 0 {
                    assert(sb[i - 1] == b[i].drop_first());
                    assert(residue(dot(sb[i - 1], y)) == 0);
                    assert(b[i].len() == n);
                    assert(b[i][0] == 0);
                    assert(b[i][0] * x[0] == 0) by (nonlinear_arith)
                        requires
                            b[i][0] == 0,
                    ;
                    assert(dot(b[i], x) == b[i][0] * x[0] + dot(b[i].drop_first(), x.drop_first()));
                }
            }
            assert(all_residues(x)) by {
                assert forall|j: int| 0 <= j < x.len() implies 0 <= #[trigger] x[j] < m by {
                    if j > 0 {
                        assert(x[j] == y[j - 1]);
                    }
                }
            }
            assert(x.len() == ncols(b));
            assert(in_kernel(b, x));
            assert forall|j: int| 0 <= j < y.len() implies #[trigger] y[j] == 0 by {
                assert(x[j + 1] == y[j]);
            }
        }
    }
}

/// Pivot positions before `col` hold nonzero entries.
pub open spec fn diagonal_nonzero_before(a: Seq<Seq<int>>, col: int) -> bool {
    forall|c: int| 0 <= c < col ==> #[trigger] a[c][c] != 0
}

/// On a square matrix whose trailing block at `c` is nonsingular, the rest
/// of the forward phase finds a nonzero pivot in every diagonal position.
proof fn lemma_forward_nonsingular(a: Seq<Seq<int>>, c: int, row: int)
    requires
        a.len() == ncols(a),
        forward_inv(a, a.len() as int, c, c, row),
        c < a.len() ==> is_nonsingular(block(a, c)),
        diagonal_nonzero_before(a, c),
    ensures
        diagonal_nonzero_before(run_from(a, a.len() as int, c, c, row).1, a.len() as int),
    decreases a.len() - c, a.len() + 1 - row,
{
    let n = a.len() as int;
    if c < 0 || c >= n || row < c || row > n {
    } else {
        lemma_inv_skips(a, n, c, c, row);
        lemma_pull_inv(a, n, c, c, row);
        lemma_first_nonzero_from(a, c, c);
        if row == c {
            if a[c][c] != 0 {
                lemma_forward_nonsingular(a, c, c + 1);
            } else {
                let bl = block(a, c);
                assert(is_matrix(bl) && bl.len() == ncols(bl)) by {
                    assert(bl[0].len() == n - c);
                }
                lemma_first_column_nonzero(bl);
                let i = choose|i: int| 0 <= i < bl.len() && #[trigger] bl[i][0] != 0;
                assert(a[i + c][c] != 0);
                match first_nonzero_from(a, c, c) {
                    Some(idx) => {
                        let b = swap_rows(a, c, idx);
                        lemma_row_ops_keep_matrix(a, c, idx, 0);
                        lemma_block_swap(a, c, idx);
                        lemma_nonsingular_ops(bl, 0, idx - c, 0);
                        assert(diagonal_nonzero_before(b, c)) by {
                            assert forall|k: int| 0 <= k < c implies #[trigger] b[k][k] != 0 by {
                                assert(b[k] == a[k]);
                            }
                        }
                        lemma_forward_nonsingular(b, c, c + 1);
                    },
                    None => {},
                }
            }
        } else if row == n {
            let bl = block(a, c);
            assert(is_matrix(bl) && bl.len() == ncols(bl)) by {
                assert(bl[0].len() == n - c);
            }
            lemma_schur(bl);
            let sb = Seq::new((bl.len() - 1) as nat, |i: int| bl[i + 1].drop_first());
            assert(block(a, c + 1) =~= sb) by {
                assert forall|i: int| 0 <= i < sb.len() implies #[trigger] block(a, c + 1)[i] == sb[i] by {
                    assert(block(a, c + 1)[i] =~= sb[i]);
                }
            }
            lemma_forward_nonsingular(a, c + 1, c + 1);
        } else if a[row][c] != 0 {
            let scale = fdiv(a[row][c], a[c][c]);
            let b = sub_rows(a, row, c, scale);
            let bl = block(a, c);
            assert(is_matrix(bl)) by {
                assert(bl[0].len() == n - c);
            }
            lemma_row_ops_keep_matrix(a, row, c, scale);
            lemma_block_sub(a, c, row, scale);
            lemma_nonsingular_ops(bl, row - c, 0, scale);
            assert(diagonal_nonzero_before(b, c)) by {
                assert forall|k: int| 0 <= k < c implies #[trigger] b[k][k] != 0 by {
                    assert(b[k] == a[k]);
                }
            }
            lemma_forward_nonsingular(b, c, row + 1);
        } else {
            lemma_forward_nonsingular(a, c, row + 1);
        }
    }
}

/// In a row-echelon form whose diagonal is nonzero, row `i` leads in column `i`.
proof fn lemma_lead_on_diagonal(f: Seq<Seq<int>>, i: int)
    requires
        is_matrix(f),
        f.len() == ncols(f),
        is_row_echelon(f),
        diagonal_nonzero_before(f, f.len() as int),
        0 <= i < f.len(),
    ensures
        lead(f[i]) == i,
    decreases i,
{
    lemma_lead(f[i]);
    if lead(f[i]) > i {
        assert(f[i][i] == 0);
    }
    if i > 0 {
        lemma_lead_on_diagonal(f, i - 1);
        assert(lead(f[i - 1]) < lead(f[i]));
    }
}

/// A square nonsingular matrix reduces to the identity.
pub proof fn lemma_rref_of_invertible_is_identity(a: Seq<Seq<int>>)
    requires
        is_matrix(a),
        is_invertible(a),
    ensures
        rref_of(a) == identity_matrix(a.len()),
{
    let n = a.len() as int;
    lemma_forward_inv_start(a);
    if n > 0 {
        assert(block(a, 0) =~= a) by {
            assert forall|i: int| 0 <= i < n implies #[trigger] block(a, 0)[i] == a[i] by {
                assert(block(a, 0)[i] =~= a[i]);
            }
        }
    }
    lemma_forward_nonsingular(a, 0, 0);
    lemma_forward_result(a);
    let f = forward_result(a);
    assert forall|i: int| 0 <= i < n implies #[trigger] lead(f[i]) == i by {
        lemma_lead_on_diagonal(f, i);
    }
    lemma_back_from(f, n);
    let r = rref_of(a);
    assert forall|i: int| 0 <= i < n implies #[trigger] r[i] == identity_matrix(n as nat)[i] by {
        assert forall|j: int| 0 <= j < n implies #[trigger] r[i][j] == identity_matrix(n as nat)[i][j] by {
            assert(lead(r[j]) == j);
            assert(pivot_cleared(r, j));
        }
        assert(r[i] =~= identity_matrix(n as nat)[i]);
    }
    assert(r =~= identity_matrix(n as nat));
}

} // verus!
