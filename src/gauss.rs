//! Gaussian elimination, one elementary row operation at a time.
//!
//! The forward phase is a state machine over `(matrix, prow, col, row)`:
//! `prow` is the row the next pivot goes to, `col` the column searched for it,
//! and `row` the row being scanned below the pivot (`row == prow` means the
//! pivot has not been looked at yet). A column without a pivot is passed over
//! and `prow` stays where it is. `pull` is one step of the machine: it scans
//! until it performs one swap or one subtraction, or finds that the
//! elimination is over. `run_from` drains it.
//!
//! The forward phase ends in row-echelon form; back-substitution then turns
//! it into the reduced row-echelon form.
use crate::field::{
    fdiv, finv, fmul, fsub, is_inverse, lemma_div_mul_cancel, lemma_div_self, lemma_finv,
    lemma_inverse_unique, lemma_sub_scaled_pivot, modulus, Fp,
};
use crate::mat::{is_matrix, ncols, swap_rows, Mat2d};
use vstd::arithmetic::div_mod::lemma_small_mod;
use crate::vec::{seq_div, seq_scale, seq_sub};
use vstd::prelude::*;

verus! {

/// An elementary row operation performed by the elimination.
#[derive(Clone, Copy, Debug, PartialEq, Eq)]
pub enum Step {
    /// Rows `from` and `to` were exchanged.
    Swap { from: usize, to: usize },
    /// Row `to` was replaced by `row[to] - scale * row[from]`.
    Sub { scale: Fp, from: usize, to: usize },
}

/// What a `Step` stands for, with the scale as a residue.
pub enum StepModel {
    Swap { from: int, to: int },
    Sub { scale: int, from: int, to: int },
}

impl View for Step {
    type V = StepModel;

    open spec fn view(&self) -> StepModel {
        match *self {
            Step::Swap { from, to } => StepModel::Swap { from: from as int, to: to as int },
            Step::Sub { scale, from, to } => StepModel::Sub {
                scale: scale@,
                from: from as int,
                to: to as int,
            },
        }
    }
}

/// Row `to` replaced by `row[to] - scale * row[from]`.
pub open spec fn sub_rows(a: Seq<Seq<int>>, to: int, from: int, scale: int) -> Seq<Seq<int>> {
    a.update(to, seq_sub(a[to], seq_scale(a[from], scale)))
}

/// The matrix after one row operation.
pub open spec fn apply_step(a: Seq<Seq<int>>, st: StepModel) -> Seq<Seq<int>> {
    match st {
        StepModel::Swap { from, to } => swap_rows(a, from, to),
        StepModel::Sub { scale, from, to } => sub_rows(a, to, from, scale),
    }
}

/// The matrix after a sequence of row operations, applied in order.
pub open spec fn replay(a: Seq<Seq<int>>, steps: Seq<StepModel>) -> Seq<Seq<int>>
    decreases steps.len(),
{
    if steps.len() == 0 {
        a
    } else {
        replay(apply_step(a, steps[0]), steps.drop_first())
    }
}

/// The first row at or after `start` whose entry in column `col` is nonzero.
pub open spec fn first_nonzero_from(a: Seq<Seq<int>>, col: int, start: int) -> Option<int>
    decreases a.len() - start,
{
    if start < 0 || start >= a.len() {
        None
    } else if a[start][col] != 0 {
        Some(start)
    } else {
        first_nonzero_from(a, col, start + 1)
    }
}


/// Index of the first nonzero entry at or after `k`, or the length when there is none.
pub open spec fn lead_from(r: Seq<int>, k: int) -> int
    decreases r.len() - k,
{
    if k < 0 || k >= r.len() {
        r.len() as int
    } else if r[k] != 0 {
        k
    } else {
        lead_from(r, k + 1)
    }
}

/// The column of the leading (first nonzero) entry of a row; the row's length
/// when the row is zero.
pub open spec fn lead(r: Seq<int>) -> int {
    lead_from(r, 0)
}

/// Row-echelon form: every nonzero row lies above every zero row, and the
/// leading entry of each nonzero row is strictly right of those above it.
pub open spec fn is_row_echelon(a: Seq<Seq<int>>) -> bool {
    forall|i: int, j: int|
        0 <= i < j < a.len() && #[trigger] lead(a[j]) < ncols(a) ==> #[trigger] lead(a[i]) < lead(
            a[j],
        )
}

/// The leading entry of row `p` is one and is the only nonzero entry of its column.
pub open spec fn pivot_cleared(a: Seq<Seq<int>>, p: int) -> bool {
    &&& a[p][lead(a[p])] == 1
    &&& forall|q: int| 0 <= q < a.len() && q != p ==> #[trigger] a[q][lead(a[p])] == 0
}

/// Reduced row-echelon form: row-echelon form in which every leading entry is
/// one and is the only nonzero entry of its column.
pub open spec fn is_rref(a: Seq<Seq<int>>) -> bool {
    &&& is_row_echelon(a)
    &&& forall|p: int| 0 <= p < a.len() && lead(a[p]) < ncols(a) ==> #[trigger] pivot_cleared(a, p)
}

/// What `lead_from` finds.
pub proof fn lemma_lead_from(r: Seq<int>, k: int)
    requires
        0 <= k,
    ensures
        k <= lead_from(r, k) <= r.len() || k > r.len(),
        lead_from(r, k) < r.len() ==> r[lead_from(r, k)] != 0,
        forall|j: int| k <= j < lead_from(r, k) && j < r.len() ==> #[trigger] r[j] == 0,
    decreases r.len() - k,
{
    if k < r.len() && r[k] == 0 {
        lemma_lead_from(r, k + 1);
    }
}

/// What `lead` finds: a nonzero entry with zeros before it, or a zero row.
pub proof fn lemma_lead(r: Seq<int>)
    ensures
        0 <= lead(r) <= r.len(),
        lead(r) < r.len() ==> r[lead(r)] != 0,
        forall|j: int| 0 <= j < lead(r) ==> #[trigger] r[j] == 0,
{
    lemma_lead_from(r, 0);
}

/// A nonzero entry with only zeros before it is the leading entry.
pub proof fn lemma_lead_is(r: Seq<int>, k: int)
    requires
        0 <= k <= r.len(),
        k < r.len() ==> r[k] != 0,
        forall|j: int| 0 <= j < k ==> #[trigger] r[j] == 0,
    ensures
        lead(r) == k,
{
    lemma_lead(r);
    if lead(r) < k {
        assert(r[lead(r)] == 0);
    }
    if lead(r) > k {
        assert(r[k] == 0);
    }
}

/// Entries before the leading entry are zero, and a zero row is zero everywhere.
pub proof fn lemma_before_lead(r: Seq<int>, k: int)
    requires
        0 <= k < r.len(),
        k < lead(r),
    ensures
        r[k] == 0,
{
    lemma_lead(r);
}

/// What `first_nonzero_from` finds, or that there is nothing to find.
pub proof fn lemma_first_nonzero_from(a: Seq<Seq<int>>, col: int, start: int)
    requires
        0 <= start,
    ensures
        first_nonzero_from(a, col, start) matches Some(idx) ==> start <= idx < a.len() && a[idx][col]
            != 0,
        first_nonzero_from(a, col, start) is None ==> forall|j: int|
            start <= j < a.len() ==> #[trigger] a[j][col] == 0,
    decreases a.len() - start,
{
    if start < a.len() && a[start][col] == 0 {
        lemma_first_nonzero_from(a, col, start + 1);
    }
}

/// A row operation keeps the shape and keeps the entries residues.
pub proof fn lemma_row_ops_keep_matrix(a: Seq<Seq<int>>, i: int, j: int, scale: int)
    requires
        is_matrix(a),
        0 <= i < a.len(),
        0 <= j < a.len(),
    ensures
        is_matrix(swap_rows(a, i, j)),
        ncols(swap_rows(a, i, j)) == ncols(a),
        is_matrix(sub_rows(a, i, j, scale)),
        ncols(sub_rows(a, i, j, scale)) == ncols(a),
{
    let s = swap_rows(a, i, j);
    assert(s[0].len() == ncols(a));
    let b = sub_rows(a, i, j, scale);
    assert(b[0].len() == ncols(a));
    assert forall|r: int, c: int| 0 <= r < b.len() && 0 <= c < b[r].len() implies 0 <= #[trigger] b[r][c]
        < modulus() by {
        if r == i {
            assert(b[r][c] == fsub(a[i][c], fmul(a[j][c], scale)));
        }
    }
}

/// One operation of the forward phase and the state it leaves.
pub struct Pulled {
    pub step: StepModel,
    pub mat: Seq<Seq<int>>,
    pub prow: int,
    pub col: int,
    pub row: int,
}

/// One step of the forward phase from state `(a, r, c, row)` on a matrix of
/// `n` columns: the next operation performed and the state after it, or
/// nothing when the elimination is over.
pub open spec fn pull(a: Seq<Seq<int>>, n: int, r: int, c: int, row: int) -> Option<Pulled>
    decreases n - c, a.len() + 1 - row,
{
    if r < 0 || c < 0 || r >= a.len() || c >= n || row < r || row > a.len() {
        None
    } else if row == r {
        if a[r][c] != 0 {
            pull(a, n, r, c, r + 1)
        } else {
            match first_nonzero_from(a, c, r) {
                Some(idx) => Some(
                    Pulled {
                        step: StepModel::Swap { from: r, to: idx },
                        mat: swap_rows(a, r, idx),
                        prow: r,
                        col: c,
                        row: r + 1,
                    },
                ),
                None => pull(a, n, r, c + 1, r),
            }
        }
    } else if row == a.len() {
        pull(a, n, r + 1, c + 1, r + 1)
    } else if a[row][c] != 0 {
        let scale = fdiv(a[row][c], a[r][c]);
        Some(
            Pulled {
                step: StepModel::Sub { scale, from: r, to: row },
                mat: sub_rows(a, row, r, scale),
                prow: r,
                col: c,
                row: row + 1,
            },
        )
    } else {
        pull(a, n, r, c, row + 1)
    }
}

/// The forward phase drained from state `(a, r, c, row)`: the operations
/// performed, in order, and the final matrix.
pub open spec fn run_from(a: Seq<Seq<int>>, n: int, r: int, c: int, row: int) -> (
    Seq<StepModel>,
    Seq<Seq<int>>,
)
    decreases n - c, a.len() + 1 - row,
{
    if r < 0 || c < 0 || r >= a.len() || c >= n || row < r || row > a.len() {
        (Seq::empty(), a)
    } else if row == r {
        if a[r][c] != 0 {
            run_from(a, n, r, c, r + 1)
        } else {
            match first_nonzero_from(a, c, r) {
                Some(idx) => {
                    let rest = run_from(swap_rows(a, r, idx), n, r, c, r + 1);
                    (seq![StepModel::Swap { from: r, to: idx }] + rest.0, rest.1)
                },
                None => run_from(a, n, r, c + 1, r),
            }
        }
    } else if row == a.len() {
        run_from(a, n, r + 1, c + 1, r + 1)
    } else if a[row][c] != 0 {
        let scale = fdiv(a[row][c], a[r][c]);
        let rest = run_from(sub_rows(a, row, r, scale), n, r, c, row + 1);
        (seq![StepModel::Sub { scale, from: r, to: row }] + rest.0, rest.1)
    } else {
        run_from(a, n, r, c, row + 1)
    }
}

/// The operations of the forward phase on `a`, in order.
pub open spec fn elimination_steps(a: Seq<Seq<int>>) -> Seq<StepModel> {
    run_from(a, ncols(a) as int, 0, 0, 0).0
}

/// The matrix the forward phase ends with on `a` (a row-echelon form of `a`).
pub open spec fn forward_result(a: Seq<Seq<int>>) -> Seq<Seq<int>> {
    run_from(a, ncols(a) as int, 0, 0, 0).1
}

/// What holds of every state the forward phase passes through: the rows above
/// `r` lead strictly left to right, in columns before `c`; the rows from `r`
/// on are zero in the columns before `c`; once the pivot has been looked at
/// (`row > r`) it is nonzero and the rows strictly between it and `row` are
/// zero in column `c`.
pub open spec fn forward_inv(a: Seq<Seq<int>>, n: int, r: int, c: int, row: int) -> bool {
    &&& is_matrix(a)
    &&& ncols(a) == n
    &&& 0 <= r <= a.len()
    &&& 0 <= c <= n
    &&& r < a.len() && c < n ==> r <= row <= a.len()
    &&& forall|i: int| 0 <= i < r ==> #[trigger] lead(a[i]) < c
    &&& forall|i: int, j: int| 0 <= i < j < r ==> #[trigger] lead(a[i]) < #[trigger] lead(a[j])
    &&& forall|j: int, k: int| r <= j < a.len() && 0 <= k < c ==> #[trigger] a[j][k] == 0
    &&& r < a.len() && c < n && row > r ==> {
        &&& a[r][c] != 0
        &&& forall|j: int| r < j < row ==> #[trigger] a[j][c] == 0
    }
}

/// The invariant holds where the forward phase starts.
pub proof fn lemma_forward_inv_start(a: Seq<Seq<int>>)
    requires
        is_matrix(a),
    ensures
        forward_inv(a, ncols(a) as int, 0, 0, 0),
{
}

/// The moves of the forward phase that perform no operation keep its invariant.
pub proof fn lemma_inv_skips(a: Seq<Seq<int>>, n: int, r: int, c: int, row: int)
    requires
        forward_inv(a, n, r, c, row),
        0 <= r < a.len(),
        0 <= c < n,
    ensures
        row == r && a[r][c] != 0 ==> forward_inv(a, n, r, c, r + 1),
        row == r && a[r][c] == 0 && first_nonzero_from(a, c, r) is None ==> forward_inv(
            a,
            n,
            r,
            c + 1,
            r,
        ),
        row == a.len() && row > r ==> lead(a[r]) == c && forward_inv(a, n, r + 1, c + 1, r + 1),
        r < row < a.len() && a[row][c] == 0 ==> forward_inv(a, n, r, c, row + 1),
{
    lemma_first_nonzero_from(a, c, r);
    if row == a.len() && row > r {
        assert forall|j: int| 0 <= j < c implies #[trigger] a[r][j] == 0 by {}
        lemma_lead_is(a[r], c);
        assert(forward_inv(a, n, r + 1, c + 1, r + 1));
    }
}

/// One step of the machine is the head of the drained run, the state it leaves
/// is the one the rest of the run starts from, and its matrix is the old one
/// with the step applied.
pub proof fn lemma_pull_run(a: Seq<Seq<int>>, n: int, r: int, c: int, row: int)
    ensures
        pull(a, n, r, c, row) is None ==> run_from(a, n, r, c, row) == (
            Seq::<StepModel>::empty(),
            a,
        ),
        pull(a, n, r, c, row) matches Some(p) ==> {
            &&& run_from(a, n, r, c, row).0 == seq![p.step] + run_from(
                p.mat,
                n,
                p.prow,
                p.col,
                p.row,
            ).0
            &&& run_from(a, n, r, c, row).1 == run_from(p.mat, n, p.prow, p.col, p.row).1
            &&& p.mat == apply_step(a, p.step)
            &&& p.mat.len() == a.len()
            &&& (p.col > c || (p.col == c && p.row > row))
            &&& p.col <= n
            &&& p.row <= a.len()
        },
    decreases n - c, a.len() + 1 - row,
{
    if r < 0 || c < 0 || r >= a.len() || c >= n || row < r || row > a.len() {
    } else if row == r {
        if a[r][c] != 0 {
            lemma_pull_run(a, n, r, c, r + 1);
        } else {
            match first_nonzero_from(a, c, r) {
                Some(_) => {},
                None => lemma_pull_run(a, n, r, c + 1, r),
            }
        }
    } else if row == a.len() {
        lemma_pull_run(a, n, r + 1, c + 1, r + 1);
    } else if a[row][c] != 0 {
    } else {
        lemma_pull_run(a, n, r, c, row + 1);
    }
}

/// One step of the machine keeps its invariant.
pub proof fn lemma_pull_inv(a: Seq<Seq<int>>, n: int, r: int, c: int, row: int)
    requires
        forward_inv(a, n, r, c, row),
    ensures
        pull(a, n, r, c, row) matches Some(p) ==> {
            &&& forward_inv(p.mat, n, p.prow, p.col, p.row)
            &&& p.mat.len() == a.len()
        },
    decreases n - c, a.len() + 1 - row,
{
    if r < 0 || c < 0 || r >= a.len() || c >= n || row < r || row > a.len() {
    } else {
        lemma_inv_skips(a, n, r, c, row);
        lemma_first_nonzero_from(a, c, r);
        if row == r {
            if a[r][c] != 0 {
                lemma_pull_inv(a, n, r, c, r + 1);
            } else {
                match first_nonzero_from(a, c, r) {
                    Some(idx) => {
                        let b = swap_rows(a, r, idx);
                        lemma_row_ops_keep_matrix(a, r, idx, 0);
                        assert forall|i: int| 0 <= i < r implies #[trigger] b[i] == a[i] by {}
                        assert forall|j: int, k: int| r <= j < b.len() && 0 <= k < c implies #[trigger] b[j][k]
                            == 0 by {
                            if j == r {
                                assert(b[j] == a[idx]);
                            } else if j == idx {
                                assert(b[j] == a[r]);
                            } else {
                                assert(b[j] == a[j]);
                            }
                        }
                        assert(forall|i: int| 0 <= i < r ==> #[trigger] lead(b[i]) == lead(a[i]));
                        assert(forward_inv(b, n, r, c, r + 1));
                    },
                    None => lemma_pull_inv(a, n, r, c + 1, r),
                }
            }
        } else if row == a.len() {
            lemma_pull_inv(a, n, r + 1, c + 1, r + 1);
        } else if a[row][c] != 0 {
            let scale = fdiv(a[row][c], a[r][c]);
            let b = sub_rows(a, row, r, scale);
            lemma_row_ops_keep_matrix(a, row, r, scale);
            assert(b[row][c] == fsub(a[row][c], fmul(a[r][c], scale)));
            assert(fmul(a[r][c], scale) == fmul(scale, a[r][c])) by {
                assert(a[r][c] * scale == scale * a[r][c]) by (nonlinear_arith);
            }
            lemma_sub_scaled_pivot(a[row][c], a[r][c]);
            assert forall|i: int| 0 <= i < r implies #[trigger] b[i] == a[i] by {}
            assert(forall|i: int| 0 <= i < r ==> #[trigger] lead(b[i]) == lead(a[i]));
            assert forall|j: int, k: int| r <= j < b.len() && 0 <= k < c implies #[trigger] b[j][k] == 0 by {
                if j == row {
                    assert(b[j][k] == fsub(a[row][k], fmul(a[r][k], scale)));
                    assert(a[row][k] == 0 && a[r][k] == 0);
                    assert(0 * scale == 0);
                } else {
                    assert(b[j] == a[j]);
                }
            }
            assert forall|j: int| r < j < row + 1 implies #[trigger] b[j][c] == 0 by {
                if j < row {
                    assert(b[j] == a[j]);
                }
            }
            assert(b[r] == a[r]);
            assert(forward_inv(b, n, r, c, row + 1));
        } else {
            lemma_pull_inv(a, n, r, c, row + 1);
        }
    }
}

/// When the machine stops from a state of its invariant, the matrix is in
/// row-echelon form.
proof fn lemma_pull_none_echelon(a: Seq<Seq<int>>, n: int, r: int, c: int, row: int)
    requires
        forward_inv(a, n, r, c, row),
        pull(a, n, r, c, row) is None,
    ensures
        is_row_echelon(a),
    decreases n - c, a.len() + 1 - row,
{
    if r < 0 || c < 0 || r >= a.len() || c >= n || row < r || row > a.len() {
        assert forall|i: int, j: int|
            0 <= i < j < a.len() && #[trigger] lead(a[j]) < ncols(a) implies #[trigger] lead(a[i])
            < lead(a[j]) by {
            if j >= r {
                lemma_lead(a[j]);
                assert(a[j][lead(a[j])] == 0);
            }
        }
    } else {
        lemma_inv_skips(a, n, r, c, row);
        lemma_first_nonzero_from(a, c, r);
        if row == r {
            if a[r][c] != 0 {
                lemma_pull_none_echelon(a, n, r, c, r + 1);
            } else {
                match first_nonzero_from(a, c, r) {
                    Some(_) => {},
                    None => lemma_pull_none_echelon(a, n, r, c + 1, r),
                }
            }
        } else if row == a.len() {
            lemma_pull_none_echelon(a, n, r + 1, c + 1, r + 1);
        } else if a[row][c] != 0 {
        } else {
            lemma_pull_none_echelon(a, n, r, c, row + 1);
        }
    }
}

/// The drained forward phase ends in row-echelon form, with the shape it started with.
pub proof fn lemma_run_echelon(a: Seq<Seq<int>>, n: int, r: int, c: int, row: int)
    requires
        forward_inv(a, n, r, c, row),
    ensures
        is_matrix(run_from(a, n, r, c, row).1),
        is_row_echelon(run_from(a, n, r, c, row).1),
        run_from(a, n, r, c, row).1.len() == a.len(),
        ncols(run_from(a, n, r, c, row).1) == ncols(a),
    decreases n - c, a.len() + 1 - row,
{
    lemma_pull_run(a, n, r, c, row);
    lemma_pull_inv(a, n, r, c, row);
    match pull(a, n, r, c, row) {
        None => {
            lemma_pull_none_echelon(a, n, r, c, row);
        },
        Some(p) => {
            lemma_run_echelon(p.mat, n, p.prow, p.col, p.row);
        },
    }
}

/// The forward phase on `a` ends in row-echelon form with the shape of `a`.
pub proof fn lemma_forward_result(a: Seq<Seq<int>>)
    requires
        is_matrix(a),
    ensures
        is_matrix(forward_result(a)),
        is_row_echelon(forward_result(a)),
        forward_result(a).len() == a.len(),
        ncols(forward_result(a)) == ncols(a),
{
    lemma_run_echelon(a, ncols(a) as int, 0, 0, 0);
}

/// Replaying the operations of a drained run reproduces its final matrix.
pub proof fn lemma_run_replay(a: Seq<Seq<int>>, n: int, r: int, c: int, row: int)
    ensures
        replay(a, run_from(a, n, r, c, row).0) == run_from(a, n, r, c, row).1,
    decreases n - c, a.len() + 1 - row,
{
    lemma_pull_run(a, n, r, c, row);
    match pull(a, n, r, c, row) {
        None => {},
        Some(p) => {
            let rest = run_from(p.mat, n, p.prow, p.col, p.row).0;
            assert((seq![p.step] + rest).drop_first() =~= rest);
            lemma_run_replay(p.mat, n, p.prow, p.col, p.row);
        },
    }
}

/// Replaying, in order, the operations that the elimination of `a` reports
/// reproduces exactly the row-echelon form it returns.
pub proof fn lemma_replay_reproduces_row_reduced(a: Seq<Seq<int>>)
    ensures
        replay(a, elimination_steps(a)) == forward_result(a),
{
    lemma_run_replay(a, ncols(a) as int, 0, 0, 0);
}

/// The matrix after `steps` with one more step applied is the matrix after
/// `steps` with that step applied.
pub proof fn lemma_replay_push(a: Seq<Seq<int>>, steps: Seq<StepModel>, st: StepModel)
    ensures
        replay(a, steps.push(st)) == apply_step(replay(a, steps), st),
    decreases steps.len(),
{
    if steps.len() == 0 {
        assert(steps.push(st).drop_first() =~= Seq::<StepModel>::empty());
        assert(steps.push(st)[0] == st);
        assert(replay(apply_step(a, st), Seq::<StepModel>::empty()) == apply_step(a, st));
    } else {
        assert(steps.push(st).drop_first() =~= steps.drop_first().push(st));
        assert(steps.push(st)[0] == steps[0]);
        lemma_replay_push(apply_step(a, steps[0]), steps.drop_first(), st);
    }
}

/// The forward phase performs no operation on a matrix already in row-echelon form.
pub proof fn lemma_forward_fixes_echelon(a: Seq<Seq<int>>, n: int, r: int, c: int, row: int)
    requires
        forward_inv(a, n, r, c, row),
        is_row_echelon(a),
    ensures
        run_from(a, n, r, c, row) == (Seq::<StepModel>::empty(), a),
    decreases n - c, a.len() + 1 - row,
{
    if r < 0 || c < 0 || r >= a.len() || c >= n || row < r || row > a.len() {
    } else {
        lemma_inv_skips(a, n, r, c, row);
        lemma_first_nonzero_from(a, c, r);
        lemma_lead(a[r]);
        if row == r {
            if a[r][c] != 0 {
                lemma_forward_fixes_echelon(a, n, r, c, r + 1);
            } else {
                if let Some(idx) = first_nonzero_from(a, c, r) {
                    // row r is zero before column c and at it, so every row below leads later
                    assert forall|j: int| 0 <= j <= c implies #[trigger] a[r][j] == 0 by {}
                    assert(lead(a[r]) > c);
                    lemma_lead(a[idx]);
                    if lead(a[idx]) < n {
                        assert(lead(a[r]) < lead(a[idx]));
                        lemma_before_lead(a[idx], c);
                    } else {
                        assert(a[idx][c] == 0);
                    }
                }
                lemma_forward_fixes_echelon(a, n, r, c + 1, r);
            }
        } else if row == a.len() {
            lemma_forward_fixes_echelon(a, n, r + 1, c + 1, r + 1);
        } else {
            if a[row][c] != 0 {
                assert forall|j: int| 0 <= j < c implies #[trigger] a[r][j] == 0 by {}
                lemma_lead_is(a[r], c);
                lemma_lead(a[row]);
                if lead(a[row]) < n {
                    assert(lead(a[r]) < lead(a[row]));
                    lemma_before_lead(a[row], c);
                } else {
                    assert(a[row][c] == 0);
                }
            }
            lemma_forward_fixes_echelon(a, n, r, c, row + 1);
        }
    }
}

/// Row `p` divided by its entry in column `c`.
pub open spec fn normalize_row(a: Seq<Seq<int>>, p: int, c: int) -> Seq<Seq<int>> {
    a.update(p, seq_div(a[p], a[p][c]))
}

/// Every row above `p` with a nonzero entry `e` in column `c` has `e` times
/// row `p` subtracted from it.
pub open spec fn clear_above(a: Seq<Seq<int>>, p: int, c: int) -> Seq<Seq<int>> {
    Seq::new(
        a.len(),
        |j: int|
            if j < p && a[j][c] != 0 {
                seq_sub(a[j], seq_scale(a[p], a[j][c]))
            } else {
                a[j]
            },
    )
}

/// Back-substitution on row `p`: a nonzero row is divided by its leading
/// entry, and that entry's column is cleared in every row above.
pub open spec fn back_row(a: Seq<Seq<int>>, p: int) -> Seq<Seq<int>> {
    if lead(a[p]) < a[p].len() {
        clear_above(normalize_row(a, p, lead(a[p])), p, lead(a[p]))
    } else {
        a
    }
}

/// Back-substitution on rows `i - 1` up to `0`, from the bottom.
pub open spec fn back_from(a: Seq<Seq<int>>, i: int) -> Seq<Seq<int>>
    decreases i,
{
    if i <= 0 {
        a
    } else {
        back_from(back_row(a, i - 1), i - 1)
    }
}

/// The reduced row-echelon form computed from `a`: the forward phase, then
/// back-substitution from the last pivot up to the first.
pub open spec fn rref_of(a: Seq<Seq<int>>) -> Seq<Seq<int>> {
    back_from(forward_result(a), a.len() as int)
}

/// The row has a nonzero entry.
pub open spec fn is_nonzero_row(r: Seq<int>) -> bool {
    exists|j: int| 0 <= j < r.len() && r[j] != 0
}

/// The number of rows with a nonzero entry.
pub open spec fn count_nonzero_rows(a: Seq<Seq<int>>) -> nat
    decreases a.len(),
{
    if a.len() == 0 {
        0
    } else {
        count_nonzero_rows(a.drop_last()) + if is_nonzero_row(a.last()) {
            1nat
        } else {
            0nat
        }
    }
}

/// The rank: the number of pivots, which are the nonzero rows of the reduced
/// row-echelon form.
pub open spec fn rank_of(a: Seq<Seq<int>>) -> nat {
    count_nonzero_rows(rref_of(a))
}

/// What holds while back-substitution works up from the bottom: the matrix
/// is in row-echelon form and every nonzero row from `i` on has been cleared.
pub open spec fn back_inv(a: Seq<Seq<int>>, i: int) -> bool {
    &&& is_matrix(a)
    &&& is_row_echelon(a)
    &&& 0 <= i <= a.len()
    &&& forall|p: int| i <= p < a.len() && lead(a[p]) < ncols(a) ==> #[trigger] pivot_cleared(a, p)
}

/// Quotients of nonzero residues are nonzero, and zero divided by anything is zero.
proof fn lemma_div_zero_nonzero(x: int, y: int)
    requires
        0 <= x < modulus(),
        0 < y < modulus(),
    ensures
        fdiv(x, y) == 0 <==> x == 0,
        0 <= fdiv(x, y) < modulus(),
{
    lemma_div_mul_cancel(x, y);
    lemma_small_mod(x as nat, modulus() as nat);
    lemma_small_mod(0, modulus() as nat);
    if fdiv(x, y) == 0 {
        assert(0 * y == 0);
        assert(fmul(0, y) == 0);
    }
    if x == 0 {
        assert(0 * finv(y) == 0);
    }
}

/// Dividing a residue by one leaves it.
pub proof fn lemma_div_one(x: int)
    requires
        0 <= x < modulus(),
    ensures
        fdiv(x, 1) == x,
{
    lemma_small_mod(1, modulus() as nat);
    assert((1int * 1) % modulus() == 1);
    assert(is_inverse(1, 1));
    lemma_finv(1);
    lemma_inverse_unique(1, 1, finv(1));
    lemma_small_mod(x as nat, modulus() as nat);
}

/// Back-substitution on one row keeps the leading columns of all rows, and
/// extends the cleared rows by that one.
pub proof fn lemma_back_row(a: Seq<Seq<int>>, p: int)
    requires
        back_inv(a, p + 1),
        0 <= p < a.len(),
    ensures
        back_inv(back_row(a, p), p),
        back_row(a, p).len() == a.len(),
        ncols(back_row(a, p)) == ncols(a),
        forall|q: int| 0 <= q < a.len() ==> #[trigger] lead(back_row(a, p)[q]) == lead(a[q]),
{
    let m = modulus();
    let n = ncols(a);
    lemma_lead(a[p]);
    if lead(a[p]) < a[p].len() {
        let c = lead(a[p]);
        let piv = a[p][c];
        let b = normalize_row(a, p, c);
        let d = clear_above(b, p, c);
        assert(d == back_row(a, p));
        lemma_div_self(piv);
        // the normalized row
        assert forall|k: int| 0 <= k < n implies #[trigger] b[p][k] == fdiv(a[p][k], piv) && (
        b[p][k] == 0 <==> a[p][k] == 0) && 0 <= b[p][k] < m by {
            lemma_div_zero_nonzero(a[p][k], piv);
        }
        assert(b[p][c] == 1);
        assert forall|j: int| 0 <= j < c implies #[trigger] b[p][j] == 0 by {}
        lemma_lead_is(b[p], c);
        // rows above keep the columns before c
        assert forall|q: int, k: int| 0 <= q < p && 0 <= k < n implies #[trigger] d[q][k] == (if b[q][c]
            != 0 {
            fsub(a[q][k], fmul(b[p][k], a[q][c]))
        } else {
            a[q][k]
        }) by {
            assert(b[q] == a[q]);
        }
        assert forall|q: int, k: int| 0 <= q < p && 0 <= k < n && b[p][k] == 0 implies #[trigger] d[q][k]
            == a[q][k] by {
            assert(b[q] == a[q]);
            if b[q][c] != 0 {
                assert(fmul(0, a[q][c]) == 0);
                lemma_small_mod(a[q][k] as nat, m as nat);
            }
        }
        assert forall|q: int| 0 <= q < a.len() implies #[trigger] lead(d[q]) == lead(a[q]) by {
            if q < p {
                assert(lead(a[q]) < lead(a[p]));
                lemma_lead(a[q]);
                assert forall|j: int| 0 <= j < lead(a[q]) implies #[trigger] d[q][j] == 0 by {
                    lemma_before_lead(a[p], j);
                }
                assert(d[q][lead(a[q])] == a[q][lead(a[q])]) by {
                    lemma_before_lead(a[p], lead(a[q]));
                }
                lemma_lead_is(d[q], lead(a[q]));
            } else if q == p {
                assert(d[q] == b[p]);
            } else {
                assert(d[q] == a[q]);
            }
        }
        lemma_back_shape(a, b, d, p, c);
        assert forall|q: int| p <= q < d.len() && lead(d[q]) < ncols(d) implies #[trigger] pivot_cleared(
            d,
            q,
        ) by {
            if q == p {
                assert forall|r: int| 0 <= r < d.len() && r != p implies #[trigger] d[r][c] == 0 by {
                    if r < p {
                        assert(b[r] == a[r]);
                        if b[r][c] != 0 {
                            assert(fmul(1, a[r][c]) == a[r][c]) by {
                                lemma_small_mod(a[r][c] as nat, m as nat);
                            }
                        }
                    } else {
                        assert(d[r] == a[r]);
                        lemma_lead(a[r]);
                        if lead(a[r]) < n {
                            assert(lead(a[p]) < lead(a[r]));
                        }
                        lemma_before_lead(a[r], c);
                    }
                }
            } else {
                let c2 = lead(a[q]);
                assert(pivot_cleared(a, q));
                assert(d[q] == a[q]);
                assert(a[p][c2] == 0);
                assert(b[p][c2] == 0);
                assert forall|r: int| 0 <= r < d.len() && r != q implies #[trigger] d[r][c2] == 0 by {
                    if r < p {
                        assert(a[r][c2] == 0);
                    } else if r > p {
                        assert(d[r] == a[r]);
                    }
                }
            }
        }
    }
}

/// The shape and residues of one step of back-substitution.
proof fn lemma_back_shape(a: Seq<Seq<int>>, b: Seq<Seq<int>>, d: Seq<Seq<int>>, p: int, c: int)
    requires
        is_matrix(a),
        0 <= p < a.len(),
        0 <= c < ncols(a),
        is_row_echelon(a),
        b == normalize_row(a, p, c),
        d == clear_above(b, p, c),
        forall|q: int| 0 <= q < a.len() ==> #[trigger] lead(d[q]) == lead(a[q]),
    ensures
        is_matrix(d),
        d.len() == a.len(),
        ncols(d) == ncols(a),
        is_row_echelon(d),
{
    assert(b[0].len() == ncols(a));
    assert(d[0].len() == ncols(a));
    assert forall|r: int, k: int| 0 <= r < d.len() && 0 <= k < d[r].len() implies 0 <= #[trigger] d[r][k]
        < modulus() by {
        if r == p {
            assert(d[r] == b[p]);
        }
    }
    assert forall|i: int, j: int|
        0 <= i < j < d.len() && #[trigger] lead(d[j]) < ncols(d) implies #[trigger] lead(d[i]) < lead(
        d[j],
    ) by {
        assert(lead(d[j]) == lead(a[j]));
        assert(lead(d[i]) == lead(a[i]));
    }
}

/// Back-substitution on rows `i - 1` up to `0` ends in reduced row-echelon
/// form, keeping the shape and the leading column of every row.
pub proof fn lemma_back_from(a: Seq<Seq<int>>, i: int)
    requires
        back_inv(a, i),
    ensures
        is_rref(back_from(a, i)),
        is_matrix(back_from(a, i)),
        back_from(a, i).len() == a.len(),
        ncols(back_from(a, i)) == ncols(a),
        forall|q: int| 0 <= q < a.len() ==> #[trigger] lead(back_from(a, i)[q]) == lead(a[q]),
    decreases i,
{
    if i > 0 {
        lemma_back_row(a, i - 1);
        lemma_back_from(back_row(a, i - 1), i - 1);
    }
}

/// `rref_of(a)` is in reduced row-echelon form, with the shape of `a`.
pub proof fn lemma_rref_of(a: Seq<Seq<int>>)
    requires
        is_matrix(a),
    ensures
        is_rref(rref_of(a)),
        is_matrix(rref_of(a)),
        rref_of(a).len() == a.len(),
        ncols(rref_of(a)) == ncols(a),
{
    lemma_forward_result(a);
    lemma_back_from(forward_result(a), a.len() as int);
}

/// Back-substitution leaves a reduced row-echelon form unchanged.
proof fn lemma_back_fixes_rref(a: Seq<Seq<int>>, i: int)
    requires
        is_matrix(a),
        is_rref(a),
        0 <= i <= a.len(),
    ensures
        back_from(a, i) == a,
    decreases i,
{
    if i > 0 {
        let p = i - 1;
        lemma_lead(a[p]);
        if lead(a[p]) < a[p].len() {
            let c = lead(a[p]);
            assert(pivot_cleared(a, p));
            let b = normalize_row(a, p, c);
            assert(b[p] =~= a[p]) by {
                assert forall|k: int| 0 <= k < a[p].len() implies #[trigger] b[p][k] == a[p][k] by {
                    lemma_div_one(a[p][k]);
                }
            }
            assert(b =~= a);
            assert(clear_above(b, p, c) =~= a);
        }
        lemma_back_fixes_rref(back_row(a, p), p);
    }
}

/// Reducing a matrix twice gives what reducing it once gives.
pub proof fn lemma_rref_idempotent(a: Seq<Seq<int>>)
    requires
        is_matrix(a),
    ensures
        rref_of(rref_of(a)) == rref_of(a),
{
    let r = rref_of(a);
    lemma_rref_of(a);
    lemma_forward_inv_start(r);
    lemma_forward_fixes_echelon(r, ncols(r) as int, 0, 0, 0);
    lemma_back_fixes_rref(r, r.len() as int);
}

/// Column `c` of `a` is zero.
pub open spec fn zero_column(a: Seq<Seq<int>>, c: int) -> bool {
    forall|i: int| 0 <= i < a.len() ==> #[trigger] a[i][c] == 0
}

/// The forward phase keeps a zero column zero.
proof fn lemma_run_keeps_zero_column(a: Seq<Seq<int>>, n: int, r: int, c: int, row: int, z: int)
    requires
        forward_inv(a, n, r, c, row),
        zero_column(a, z),
        0 <= z < n,
    ensures
        zero_column(run_from(a, n, r, c, row).1, z),
    decreases n - c, a.len() + 1 - row,
{
    lemma_pull_run(a, n, r, c, row);
    lemma_pull_inv(a, n, r, c, row);
    if r < 0 || c < 0 || r >= a.len() || c >= n || row < r || row > a.len() {
    } else {
        lemma_first_nonzero_from(a, c, r);
        match pull(a, n, r, c, row) {
            None => {},
            Some(p) => {
                lemma_pull_zero_column(a, n, r, c, row, z);
                lemma_run_keeps_zero_column(p.mat, n, p.prow, p.col, p.row, z);
            },
        }
    }
}

/// One step of the forward phase keeps a zero column zero.
proof fn lemma_pull_zero_column(a: Seq<Seq<int>>, n: int, r: int, c: int, row: int, z: int)
    requires
        forward_inv(a, n, r, c, row),
        zero_column(a, z),
        0 <= z < n,
    ensures
        pull(a, n, r, c, row) matches Some(p) ==> zero_column(p.mat, z),
    decreases n - c, a.len() + 1 - row,
{
    if r < 0 || c < 0 || r >= a.len() || c >= n || row < r || row > a.len() {
    } else {
        lemma_inv_skips(a, n, r, c, row);
        lemma_first_nonzero_from(a, c, r);
        if row == r {
            if a[r][c] != 0 {
                lemma_pull_zero_column(a, n, r, c, r + 1, z);
            } else {
                match first_nonzero_from(a, c, r) {
                    Some(idx) => {
                        let b = swap_rows(a, r, idx);
                        assert forall|i: int| 0 <= i < b.len() implies #[trigger] b[i][z] == 0 by {
                            if i == r {
                                assert(b[i] == a[idx]);
                            } else if i == idx {
                                assert(b[i] == a[r]);
                            } else {
                                assert(b[i] == a[i]);
                            }
                        }
                    },
                    None => lemma_pull_zero_column(a, n, r, c + 1, r, z),
                }
            }
        } else if row == a.len() {
            lemma_pull_zero_column(a, n, r + 1, c + 1, r + 1, z);
        } else if a[row][c] != 0 {
            let scale = fdiv(a[row][c], a[r][c]);
            let b = sub_rows(a, row, r, scale);
            assert forall|i: int| 0 <= i < b.len() implies #[trigger] b[i][z] == 0 by {
                if i == row {
                    assert(b[i][z] == fsub(a[row][z], fmul(a[r][z], scale)));
                    assert(0 * scale == 0);
                } else {
                    assert(b[i] == a[i]);
                }
            }
            assert(b.len() == a.len());
        } else {
            lemma_pull_zero_column(a, n, r, c, row + 1, z);
        }
    }
}

/// Back-substitution keeps a zero column zero.
proof fn lemma_back_keeps_zero_column(a: Seq<Seq<int>>, i: int, z: int)
    requires
        back_inv(a, i),
        zero_column(a, z),
        0 <= z < ncols(a),
    ensures
        zero_column(back_from(a, i), z),
    decreases i,
{
    if i > 0 {
        let p = i - 1;
        lemma_back_row(a, p);
        lemma_lead(a[p]);
        if lead(a[p]) < a[p].len() {
            let c = lead(a[p]);
            let b = normalize_row(a, p, c);
            let d = clear_above(b, p, c);
            assert(b[p][z] == fdiv(0, a[p][c]));
            assert(fdiv(0, a[p][c]) == 0) by {
                assert(0 * finv(a[p][c]) == 0);
            }
            assert forall|q: int| 0 <= q < d.len() implies #[trigger] d[q][z] == 0 by {
                if q < p && b[q][c] != 0 {
                    assert(b[q] == a[q]);
                    assert(d[q][z] == fsub(a[q][z], fmul(b[p][z], b[q][c])));
                    assert(0 * b[q][c] == 0);
                } else if q != p {
                    assert(d[q] == a[q]);
                }
            }
        }
        lemma_back_keeps_zero_column(back_row(a, p), p, z);
    }
}

/// Columns up to `l` other than `z`: a bound on the pivots before a row leading at `l`.
pub open spec fn columns_through_except(l: int, z: int) -> int {
    if l < z {
        l + 1
    } else {
        l
    }
}

/// A nonzero row is one with a leading entry.
proof fn lemma_nonzero_row_lead(r: Seq<int>)
    ensures
        is_nonzero_row(r) <==> lead(r) < r.len(),
{
    lemma_lead(r);
    if lead(r) < r.len() {
        assert(r[lead(r)] != 0);
    }
}

/// In a row-echelon form whose column `z` is zero, the first `i` rows hold
/// fewer pivots than there are columns.
proof fn lemma_count_pivots(a: Seq<Seq<int>>, z: int, i: int)
    requires
        is_matrix(a),
        is_row_echelon(a),
        zero_column(a, z),
        0 <= z < ncols(a),
        0 <= i <= a.len(),
    ensures
        count_nonzero_rows(a.take(i)) <= ncols(a) - 1,
        i > 0 && lead(a[i - 1]) < ncols(a) ==> count_nonzero_rows(a.take(i))
            <= columns_through_except(lead(a[i - 1]), z),
    decreases i,
{
    let n = ncols(a) as int;
    if i > 0 {
        lemma_count_pivots(a, z, i - 1);
        assert(a.take(i).drop_last() =~= a.take(i - 1));
        assert(a.take(i).last() == a[i - 1]);
        lemma_nonzero_row_lead(a[i - 1]);
        lemma_lead(a[i - 1]);
        if lead(a[i - 1]) < n {
            assert(lead(a[i - 1]) != z);
            if i > 1 {
                assert(lead(a[i - 2]) < lead(a[i - 1]));
                lemma_nonzero_row_lead(a[i - 2]);
                assert(lead(a[i - 2]) != z) by {
                    lemma_lead(a[i - 2]);
                }
            }
        }
    }
}

/// A matrix with at least as many rows as columns and a column of zeros:
/// that column stays zero in the reduced row-echelon form, and the rank is
/// below the number of columns (the smaller dimension).
pub proof fn lemma_zero_column_lowers_rank(a: Seq<Seq<int>>, z: int)
    requires
        is_matrix(a),
        a.len() >= ncols(a),
        0 <= z < ncols(a),
        zero_column(a, z),
    ensures
        zero_column(rref_of(a), z),
        rank_of(a) < ncols(a),
{
    lemma_forward_inv_start(a);
    lemma_run_keeps_zero_column(a, ncols(a) as int, 0, 0, 0, z);
    lemma_forward_result(a);
    let f = forward_result(a);
    lemma_back_keeps_zero_column(f, a.len() as int, z);
    lemma_rref_of(a);
    let r = rref_of(a);
    lemma_count_pivots(r, z, r.len() as int);
    assert(r.take(r.len() as int) =~= r);
}

/// The lazy forward phase: each call of `next` performs one row operation and
/// hands it out with the matrix it produced.
pub struct GaussElimIter {
    mat: Mat2d,
    prow: usize,
    col: usize,
    row: usize,
}

impl GaussElimIter {
    /// The current matrix.
    pub closed spec fn matrix(&self) -> Seq<Seq<int>> {
        self.mat@
    }

    /// The row the next pivot goes to.
    pub closed spec fn prow(&self) -> int {
        self.prow as int
    }

    /// The column searched for the next pivot.
    pub closed spec fn col(&self) -> int {
        self.col as int
    }

    /// The row being scanned (equal to `prow` before the pivot is looked at).
    pub closed spec fn row(&self) -> int {
        self.row as int
    }

    /// The state is one the machine passes through.
    pub open spec fn inv(&self) -> bool {
        forward_inv(self.matrix(), ncols(self.matrix()) as int, self.prow(), self.col(), self.row())
    }

    /// One step of the machine from the current state.
    pub open spec fn pulled(&self) -> Option<Pulled> {
        pull(self.matrix(), ncols(self.matrix()) as int, self.prow(), self.col(), self.row())
    }

    /// The operations still to come.
    pub open spec fn remaining(&self) -> Seq<StepModel> {
        run_from(self.matrix(), ncols(self.matrix()) as int, self.prow(), self.col(), self.row()).0
    }

    /// The matrix the elimination will end with.
    pub open spec fn final_matrix(&self) -> Seq<Seq<int>> {
        run_from(self.matrix(), ncols(self.matrix()) as int, self.prow(), self.col(), self.row()).1
    }

    /// Starts the elimination of `mat`.
    pub fn from(mat: Mat2d) -> (r: GaussElimIter)
        requires
            mat.wf(),
        ensures
            r.inv(),
            r.matrix() == mat@,
            r.prow() == 0,
            r.col() == 0,
            r.row() == 0,
    {
        proof {
            lemma_forward_inv_start(mat@);
        }
        GaussElimIter { mat, prow: 0, col: 0, row: 0 }
    }

    /// The current matrix, ending the elimination.
    pub fn into_matrix(self) -> (r: Mat2d)
        ensures
            r@ == self.matrix(),
    {
        self.mat
    }

    /// Performs the next row operation and returns it, or nothing when the
    /// elimination is over.
    pub fn advance(&mut self) -> (r: Option<Step>)
        requires
            old(self).inv(),
        ensures
            final(self).inv(),
            ncols(final(self).matrix()) == ncols(old(self).matrix()),
            final(self).matrix().len() == old(self).matrix().len(),
            match old(self).pulled() {
                None => {
                    &&& r is None
                    &&& final(self).matrix() == old(self).matrix()
                    &&& final(self).remaining().len() == 0
                    &&& final(self).final_matrix() == final(self).matrix()
                },
                Some(p) => {
                    &&& r matches Some(st) && st@ == p.step
                    &&& final(self).matrix() == p.mat
                    &&& final(self).prow() == p.prow
                    &&& final(self).col() == p.col
                    &&& final(self).row() == p.row
                },
            },
    {
        let ghost start = old(self).pulled();
        let ghost a = self.mat@;
        let (m, n) = self.mat.shape();
        proof {
            lemma_pull_inv(a, n as int, self.prow as int, self.col as int, self.row as int);
        }
        loop
            invariant
                self.mat@ == a,
                a == old(self).matrix(),
                start == old(self).pulled(),
                m == a.len(),
                n == ncols(a),
                self.inv(),
                pull(a, n as int, self.prow as int, self.col as int, self.row as int) == start,
                start matches Some(p) ==> forward_inv(p.mat, n as int, p.prow, p.col, p.row)
                    && p.mat.len() == m,
            decreases n - self.col, m + 1 - self.row,
        {
            if self.prow >= m || self.col >= n {
                return None;
            }
            let r = self.prow;
            let c = self.col;
            proof {
                lemma_inv_skips(a, n as int, r as int, c as int, self.row as int);
                lemma_first_nonzero_from(a, c as int, r as int);
            }
            if self.row == r {
                if !self.mat.entry(r, c).is_zero() {
                    self.row = r + 1;
                } else {
                    match self.first_nonzero_below(r, c) {
                        Some(idx) => {
                            self.mat.swap_row(r, idx);
                            self.row = r + 1;
                            return Some(Step::Swap { from: r, to: idx });
                        },
                        None => {
                            self.col = c + 1;
                        },
                    }
                }
            } else if self.row >= m {
                self.prow = r + 1;
                self.col = c + 1;
                self.row = r + 1;
            } else {
                let row = self.row;
                let e = self.mat.entry(row, c);
                if !e.is_zero() {
                    let scale = e.div(self.mat.entry(r, c));
                    let new_row = self.mat.index(row).sub(&self.mat.index(r).mul(scale));
                    proof {
                        lemma_row_ops_keep_matrix(a, row as int, r as int, scale@);
                    }
                    self.mat.set_row(row, new_row);
                    assert(self.mat@ =~= sub_rows(a, row as int, r as int, scale@));
                    self.row = row + 1;
                    return Some(Step::Sub { scale, from: r, to: row });
                }
                self.row = row + 1;
            }
        }
    }

    /// The first row at or below `r` whose entry in column `c` is nonzero.
    fn first_nonzero_below(&self, r: usize, c: usize) -> (res: Option<usize>)
        requires
            self.mat.wf(),
            r < self.mat@.len(),
            c < ncols(self.mat@),
        ensures
            res matches Some(idx) ==> first_nonzero_from(self.mat@, c as int, r as int) == Some(
                idx as int,
            ),
            res is None ==> first_nonzero_from(self.mat@, c as int, r as int) is None,
    {
        let (m, _n) = self.mat.shape();
        let mut i: usize = r;
        while i < m
            invariant
                self.mat.wf(),
                c < ncols(self.mat@),
                m == self.mat@.len(),
                r <= i <= m,
                first_nonzero_from(self.mat@, c as int, r as int) == first_nonzero_from(
                    self.mat@,
                    c as int,
                    i as int,
                ),
            decreases m - i,
        {
            if !self.mat.entry(i, c).is_zero() {
                return Some(i);
            }
            i += 1;
        }
        None
    }

    /// The next row operation, with a copy of the matrix it produced, or
    /// nothing when the elimination is over.
    pub fn next(&mut self) -> (r: Option<(Step, Mat2d)>)
        requires
            old(self).inv(),
        ensures
            final(self).inv(),
            ncols(final(self).matrix()) == ncols(old(self).matrix()),
            final(self).matrix().len() == old(self).matrix().len(),
            match old(self).pulled() {
                None => {
                    &&& r is None
                    &&& final(self).matrix() == old(self).matrix()
                    &&& final(self).remaining().len() == 0
                    &&& final(self).final_matrix() == final(self).matrix()
                },
                Some(p) => {
                    &&& r matches Some(out) && out.0@ == p.step && out.1@ == p.mat
                    &&& final(self).matrix() == p.mat
                    &&& final(self).prow() == p.prow
                    &&& final(self).col() == p.col
                    &&& final(self).row() == p.row
                },
            },
    {
        match self.advance() {
            None => None,
            Some(st) => Some((st, self.mat.copied())),
        }
    }
}

} // verus!
