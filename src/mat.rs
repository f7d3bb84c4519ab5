//! Dense matrices over the field, stored as a sequence of equal-length rows.
use crate::field::{modulus, Fp};
use crate::vec::{seq_fill, Vec};
use vstd::prelude::*;
use vstd::std_specs::iter::IteratorSpec;
use vstd::std_specs::slice::axiom_spec_slice_iter;

pub use crate::gauss::Step;
use crate::gauss::{
    back_from, back_inv, back_row, clear_above, count_nonzero_rows, elimination_steps,
    forward_result, is_row_echelon, is_rref, lemma_back_row, lemma_forward_result,
    lemma_lead, lemma_pull_run, lemma_replay_push, lemma_rref_of, normalize_row, rank_of, replay,
    rref_of, GaussElimIter, StepModel,
};

verus! {

/// The number of columns: the length of the first row, zero without rows.
pub open spec fn ncols(a: Seq<Seq<int>>) -> nat {
    if a.len() == 0 {
        0
    } else {
        a[0].len()
    }
}

/// All rows have the same length and every entry is a residue.
pub open spec fn is_matrix(a: Seq<Seq<int>>) -> bool {
    &&& forall|i: int| 0 <= i < a.len() ==> (#[trigger] a[i]).len() == ncols(a)
    &&& forall|i: int, j: int|
        0 <= i < a.len() && 0 <= j < a[i].len() ==> 0 <= #[trigger] a[i][j] < modulus()
}

/// The smaller of the two dimensions: the number of pivot positions.
pub open spec fn min_dim(a: Seq<Seq<int>>) -> nat {
    if a.len() <= ncols(a) {
        a.len()
    } else {
        ncols(a)
    }
}

/// The matrix with rows `i` and `j` exchanged.
pub open spec fn swap_rows(a: Seq<Seq<int>>, i: int, j: int) -> Seq<Seq<int>> {
    Seq::new(a.len(), |r: int| if r == i { a[j] } else if r == j { a[i] } else { a[r] })
}

/// The `m` by `n` matrix whose entries are all `x`.
pub open spec fn fill_matrix(m: nat, n: nat, x: int) -> Seq<Seq<int>> {
    Seq::new(m, |i: int| seq_fill(n, x))
}

/// The `n` by `n` identity matrix.
pub open spec fn identity_matrix(n: nat) -> Seq<Seq<int>> {
    Seq::new(n, |i: int| Seq::new(n, |j: int| if i == j { 1int } else { 0int }))
}

/// The transpose: entry `(j, i)` of the result is entry `(i, j)` of `a`.
pub open spec fn transposed(a: Seq<Seq<int>>) -> Seq<Seq<int>> {
    Seq::new(ncols(a), |j: int| Seq::new(a.len(), |i: int| a[i][j]))
}

/// A row truncated to `n` entries, or padded with zeros up to `n`.
pub open spec fn resized_row(r: Seq<int>, n: nat) -> Seq<int> {
    Seq::new(n, |j: int| if j < r.len() { r[j] } else { 0int })
}

/// Every row resized to `n` columns, then the rows truncated to `m` or padded
/// with zero rows up to `m`.
pub open spec fn resized(a: Seq<Seq<int>>, m: nat, n: nat) -> Seq<Seq<int>> {
    Seq::new(m, |i: int| if i < a.len() { resized_row(a[i], n) } else { seq_fill(n, 0) })
}

/// A matrix of field elements, stored by rows.
#[derive(Clone, Debug, PartialEq, Eq)]
pub struct Mat2d {
    mat: std::vec::Vec<Vec>,
}

impl View for Mat2d {
    type V = Seq<Seq<int>>;

    /// The residues of the entries, row by row.
    closed spec fn view(&self) -> Seq<Seq<int>> {
        self.mat@.map_values(|r: Vec| r@)
    }
}

impl Mat2d {
    /// Well-formed: all rows have the same length.
    pub open spec fn wf(&self) -> bool {
        is_matrix(self@)
    }

    /// Builds a matrix from rows of equal length.
    fn from_rows_unchecked(rows: std::vec::Vec<Vec>, n: usize) -> (r: Mat2d)
        requires
            forall|i: int| 0 <= i < rows@.len() ==> (#[trigger] rows@[i])@.len() == n,
        ensures
            r.wf(),
            r@ == rows@.map_values(|v: Vec| v@),
    {
        let r = Mat2d { mat: rows };
        proof {
            assert forall|i: int, j: int|
                0 <= i < r@.len() && 0 <= j < r@[i].len() implies 0 <= #[trigger] r@[i][j]
                < modulus() by {
                rows@[i].lemma_residues();
            }
        }
        r
    }

    /// The `m` by `n` matrix of zeros.
    pub fn zeros(m: usize, n: usize) -> (r: Mat2d)
        ensures
            r.wf(),
            r@ == fill_matrix(m as nat, n as nat, 0),
    {
        Mat2d::filled(m, n, Fp::zero())
    }

    /// The `m` by `n` matrix of ones.
    pub fn ones(m: usize, n: usize) -> (r: Mat2d)
        ensures
            r.wf(),
            r@ == fill_matrix(m as nat, n as nat, 1),
    {
        Mat2d::filled(m, n, Fp::one())
    }

    /// The `m` by `n` matrix whose entries are all `x`.
    fn filled(m: usize, n: usize, x: Fp) -> (r: Mat2d)
        ensures
            r.wf(),
            r@ == fill_matrix(m as nat, n as nat, x@),
    {
        let mut rows: std::vec::Vec<Vec> = std::vec::Vec::new();
        let mut i: usize = 0;
        while i < m
            invariant
                i <= m,
                rows@.len() == i,
                forall|k: int| 0 <= k < i ==> (#[trigger] rows@[k])@ == seq_fill(n as nat, x@),
            decreases m - i,
        {
            rows.push(Vec::filled(n, x));
            i += 1;
        }
        let r = Mat2d::from_rows_unchecked(rows, n);
        assert(r@ =~= fill_matrix(m as nat, n as nat, x@));
        r
    }

    /// The identity matrix, which exists only when `m == n`.
    pub fn identity(m: usize, n: usize) -> (r: Option<Mat2d>)
        ensures
            r is None <==> m != n,
            r is Some ==> r->0.wf() && r->0@ == identity_matrix(n as nat),
    {
        if m != n {
            return None;
        }
        let mut rows: std::vec::Vec<Vec> = std::vec::Vec::new();
        let mut i: usize = 0;
        while i < n
            invariant
                i <= n,
                rows@.len() == i,
                forall|k: int| 0 <= k < i ==> (#[trigger] rows@[k])@ == identity_matrix(n as nat)[k],
            decreases n - i,
        {
            let mut row = Vec::zeros(n);
            row.set(i, Fp::one());
            assert(row@ =~= identity_matrix(n as nat)[i as int]);
            rows.push(row);
            i += 1;
        }
        let r = Mat2d::from_rows_unchecked(rows, n);
        assert(r@ =~= identity_matrix(n as nat));
        Some(r)
    }

    /// The matrix with the given rows, when they all have the same length.
    pub fn from_rows(rows: std::vec::Vec<std::vec::Vec<Fp>>) -> (r: Option<Mat2d>)
        ensures
            r is Some <==> forall|i: int|
                0 <= i < rows@.len() ==> (#[trigger] rows@[i])@.len() == rows@[0]@.len(),
            r is Some ==> r->0.wf() && r->0@ == rows@.map_values(
                |v: std::vec::Vec<Fp>| v@.map_values(|x: Fp| x@),
            ),
    {
        let n: usize = if rows.len() == 0 {
            0
        } else {
            rows[0].len()
        };
        let mut out: std::vec::Vec<Vec> = std::vec::Vec::new();
        let mut i: usize = 0;
        while i < rows.len()
            invariant
                n == (if rows@.len() == 0 { 0 } else { rows@[0]@.len() }),
                i <= rows@.len(),
                i == out@.len(),
                forall|k: int| 0 <= k < i ==> (#[trigger] out@[k])@ == rows@[k]@.map_values(|x: Fp| x@),
                forall|k: int| 0 <= k < i ==> (#[trigger] rows@[k])@.len() == n,
            decreases rows@.len() - i,
        {
            if rows[i].len() != n {
                return None;
            }
            out.push(Vec::from_slice(rows[i].as_slice()));
            i += 1;
        }
        let r = Mat2d::from_rows_unchecked(out, n);
        assert(r@ =~= rows@.map_values(|v: std::vec::Vec<Fp>| v@.map_values(|x: Fp| x@)));
        Some(r)
    }

    /// A copy of the matrix.
    pub fn copied(&self) -> (r: Mat2d)
        ensures
            r@ == self@,
    {
        let mut rows: std::vec::Vec<Vec> = std::vec::Vec::new();
        let mut i: usize = 0;
        while i < self.mat.len()
            invariant
                i <= self.mat@.len(),
                rows@.len() == i,
                forall|k: int| 0 <= k < i ==> (#[trigger] rows@[k])@ == self@[k],
            decreases self.mat@.len() - i,
        {
            rows.push(self.mat[i].copied());
            i += 1;
        }
        let r = Mat2d { mat: rows };
        assert(r@ =~= self@);
        r
    }

    /// Exchanges rows `from` and `to`; nothing changes when they are equal.
    pub fn swap_row(&mut self, from: usize, to: usize)
        requires
            from < old(self)@.len(),
            to < old(self)@.len(),
        ensures
            final(self)@ == swap_rows(old(self)@, from as int, to as int),
            old(self).wf() ==> final(self).wf(),
    {
        let ghost before = self@;
        if from != to {
            let mut tmp = Vec::zeros(0);
            std::mem::swap(&mut tmp, &mut self.mat[from]);
            std::mem::swap(&mut tmp, &mut self.mat[to]);
            std::mem::swap(&mut tmp, &mut self.mat[from]);
        }
        assert(self@ =~= swap_rows(before, from as int, to as int));
        proof {
            if before.len() > 0 {
                assert(self@[0].len() == before[0].len() || from == 0 || to == 0);
            }
        }
    }

    /// The shape: the number of rows, then the length of the first row (zero without rows).
    pub fn shape(&self) -> (r: (usize, usize))
        ensures
            r.0 == self@.len(),
            r.1 == ncols(self@),
    {
        let m = self.mat.len();
        let n = if m == 0 {
            0
        } else {
            self.mat[0].len()
        };
        (m, n)
    }

    /// An iterator over the rows.
    pub fn iter(&self) -> (r: std::slice::Iter<'_, Vec>)
        ensures
            r.remaining().len() == self@.len(),
            forall|i: int| 0 <= i < self@.len() ==> (*#[trigger] r.remaining()[i])@ == self@[i],
    {
        let s = self.mat.as_slice();
        let r = s.iter();
        proof {
            axiom_spec_slice_iter(s);
        }
        r
    }

    /// The rows as a mutable slice: what is written there is written in the matrix.
    pub fn iter_mut(&mut self) -> (r: &mut [Vec])
        ensures
            r@.map_values(|v: Vec| v@) == old(self)@,
            final(self)@ == final(r)@.map_values(|v: Vec| v@),
    {
        self.mat.as_mut_slice()
    }

    /// The transpose.
    pub fn transpose(&self) -> (r: Mat2d)
        requires
            self.wf(),
        ensures
            r.wf(),
            r@ == transposed(self@),
    {
        let (m, n) = self.shape();
        let mut rows: std::vec::Vec<Vec> = std::vec::Vec::new();
        let mut j: usize = 0;
        while j < n
            invariant
                self.wf(),
                m == self@.len(),
                n == ncols(self@),
                j <= n,
                rows@.len() == j,
                forall|k: int| 0 <= k < j ==> (#[trigger] rows@[k])@ == transposed(self@)[k],
            decreases n - j,
        {
            let mut col = Vec::zeros(m);
            let mut i: usize = 0;
            while i < m
                invariant
                    self.wf(),
                    m == self@.len(),
                    n == ncols(self@),
                    j < n,
                    i <= m,
                    col@.len() == m,
                    forall|k: int| 0 <= k < i ==> #[trigger] col@[k] == self@[k][j as int],
                decreases m - i,
            {
                assert(self@[i as int] == self.mat@[i as int]@);
                col.set(i, self.mat[i].index(j));
                i += 1;
            }
            assert(col@ =~= transposed(self@)[j as int]);
            rows.push(col);
            j += 1;
        }
        let r = Mat2d::from_rows_unchecked(rows, m);
        assert(r@ =~= transposed(self@));
        r
    }

    /// Resizes every row to `n` columns (truncating or padding with zeros), then
    /// the rows to `m` (truncating or padding with zero rows).
    pub fn resize(&mut self, m: usize, n: usize)
        ensures
            final(self).wf(),
            final(self)@ == resized(old(self)@, m as nat, n as nat),
    {
        let ghost before = self@;
        let mut rows: std::vec::Vec<Vec> = std::vec::Vec::new();
        let mut i: usize = 0;
        while i < m
            invariant
                before == self@,
                i <= m,
                rows@.len() == i,
                forall|k: int| 0 <= k < i ==> (#[trigger] rows@[k])@ == resized(before, m as nat, n as nat)[k],
            decreases m - i,
        {
            if i < self.mat.len() {
                let mut row = self.mat[i].copied();
                row.resize(n, Fp::zero());
                assert(row@ =~= resized_row(before[i as int], n as nat));
                rows.push(row);
            } else {
                rows.push(Vec::zeros(n));
            }
            i += 1;
        }
        *self = Mat2d::from_rows_unchecked(rows, n);
        assert(self@ =~= resized(before, m as nat, n as nat));
    }

    /// Row `i`.
    pub fn index(&self, i: usize) -> (r: &Vec)
        requires
            i < self@.len(),
        ensures
            r@ == self@[i as int],
    {
        &self.mat[i]
    }

    /// The entry in row `i` and column `j`.
    pub fn entry(&self, i: usize, j: usize) -> (r: Fp)
        requires
            self.wf(),
            i < self@.len(),
            j < ncols(self@),
        ensures
            r@ == self@[i as int][j as int],
    {
        assert(self@[i as int] == self.mat@[i as int]@);
        self.mat[i].index(j)
    }

    /// Replaces row `i` with a row of the same length.
    pub fn set_row(&mut self, i: usize, row: Vec)
        requires
            old(self).wf(),
            i < old(self)@.len(),
            row@.len() == ncols(old(self)@),
        ensures
            final(self).wf(),
            final(self)@ == old(self)@.update(i as int, row@),
    {
        let ghost before = self@;
        proof {
            row.lemma_residues();
        }
        self.mat.set(i, row);
        assert(self@ =~= before.update(i as int, row@));
    }

    /// A row-echelon form of the matrix, by forward elimination: for each
    /// column from the left, a zero entry at the next pivot row is swapped with
    /// the first row below holding a nonzero entry in that column (the column is
    /// passed over when there is none), then every row below has the right
    /// multiple of the pivot row subtracted, and the next pivot row is the one
    /// below.
    pub fn row_reduced(&self) -> (r: Mat2d)
        requires
            self.wf(),
        ensures
            r.wf(),
            is_row_echelon(r@),
            r@ == replay(self@, elimination_steps(self@)),
            r@ == forward_result(self@),
            r@.len() == self@.len(),
            ncols(r@) == ncols(self@),
    {
        let mut it = GaussElimIter::from(self.copied());
        proof {
            lemma_forward_result(self@);
            crate::gauss::lemma_replay_reproduces_row_reduced(self@);
        }
        loop
            invariant
                it.inv(),
                ncols(it.matrix()) == ncols(self@),
                it.final_matrix() == forward_result(self@),
            ensures
                it.final_matrix() == it.matrix(),
            decreases it.remaining().len(),
        {
            let ghost pm = it.matrix();
            let ghost pr = it.prow();
            let ghost pc = it.col();
            let ghost pw = it.row();
            proof {
                lemma_pull_run(pm, ncols(pm) as int, pr, pc, pw);
            }
            match it.advance() {
                None => break,
                Some(_) => {},
            }
        }
        it.into_matrix()
    }

    /// The forward elimination of `row_reduced`, returning every intermediate
    /// matrix with the operation that produced it, in order.
    pub fn row_reduced_verbose(&self) -> (r: std::vec::Vec<(Mat2d, Step)>)
        requires
            self.wf(),
        ensures
            r@.len() == elimination_steps(self@).len(),
            forall|i: int| 0 <= i < r@.len() ==> (#[trigger] r@[i]).1@ == elimination_steps(self@)[i],
            forall|i: int|
                0 <= i < r@.len() ==> (#[trigger] r@[i]).0@ == replay(
                    self@,
                    elimination_steps(self@).take(i + 1),
                ),
    {
        let mut steps: std::vec::Vec<(Mat2d, Step)> = std::vec::Vec::new();
        let mut it = GaussElimIter::from(self.copied());
        let ghost mut emitted: Seq<StepModel> = Seq::empty();
        loop
            invariant
                it.inv(),
                ncols(it.matrix()) == ncols(self@),
                elimination_steps(self@) == emitted + it.remaining(),
                it.matrix() == replay(self@, emitted),
                steps@.len() == emitted.len(),
                forall|i: int| 0 <= i < steps@.len() ==> (#[trigger] steps@[i]).1@ == emitted[i],
                forall|i: int|
                    0 <= i < steps@.len() ==> (#[trigger] steps@[i]).0@ == replay(
                        self@,
                        elimination_steps(self@).take(i + 1),
                    ),
            ensures
                it.remaining().len() == 0,
            decreases it.remaining().len(),
        {
            let ghost pm = it.matrix();
            let ghost pr = it.prow();
            let ghost pc = it.col();
            let ghost pw = it.row();
            proof {
                lemma_pull_run(pm, ncols(pm) as int, pr, pc, pw);
            }
            match it.next() {
                None => {
                    break;
                },
                Some((st, snapshot)) => {
                    let ghost old_emitted = emitted;
                    proof {
                        lemma_replay_push(self@, emitted, st@);
                        emitted = emitted.push(st@);
                        assert(old_emitted + (seq![st@] + it.remaining()) =~= emitted + it.remaining());
                        assert(elimination_steps(self@).take(emitted.len() as int) =~= emitted);
                    }
                    steps.push((snapshot, st));
                },
            }
        }
        assert(emitted + it.remaining() =~= emitted);
        assert(emitted =~= elimination_steps(self@));
        steps
    }

    /// The reduced row-echelon form: every leading entry is one and is the
    /// only nonzero entry of its column, leading entries move strictly right
    /// from row to row, and zero rows come last. It is the row-echelon form of
    /// `row_reduced` with each nonzero row, from the bottom up, divided by its
    /// leading entry and that entry's column cleared in every row above.
    pub fn rref(&self) -> (r: Mat2d)
        requires
            self.wf(),
        ensures
            r.wf(),
            is_rref(r@),
            r@ == rref_of(self@),
            r@.len() == self@.len(),
            ncols(r@) == ncols(self@),
    {
        let mut mat = self.row_reduced();
        let (m, n) = self.shape();
        proof {
            lemma_rref_of(self@);
        }
        let mut i: usize = m;
        while i > 0
            invariant
                mat.wf(),
                mat@.len() == m,
                ncols(mat@) == n,
                m == self@.len(),
                n == ncols(self@),
                i <= m,
                back_inv(mat@, i as int),
                back_from(mat@, i as int) == rref_of(self@),
            decreases i,
        {
            let p = i - 1;
            let ghost before = mat@;
            proof {
                lemma_back_row(before, p as int);
                lemma_lead(before[p as int]);
            }
            let c = mat.index(p).first_nonzero();
            if c < n {
                let pivot = mat.entry(p, c);
                let normalized = mat.index(p).div(pivot);
                mat.set_row(p, normalized);
                let ghost norm = mat@;
                assert(norm == normalize_row(before, p as int, c as int));
                let mut j: usize = 0;
                while j < p
                    invariant
                        mat.wf(),
                        mat@.len() == m,
                        ncols(mat@) == n,
                        c < n,
                        p < m,
                        j <= p,
                        norm.len() == m,
                        forall|r: int|
                            0 <= r < m ==> #[trigger] mat@[r] == (if r < j {
                                clear_above(norm, p as int, c as int)[r]
                            } else {
                                norm[r]
                            }),
                    decreases p - j,
                {
                    let e = mat.entry(j, c);
                    if !e.is_zero() {
                        let new_row = mat.index(j).sub(&mat.index(p).mul(e));
                        mat.set_row(j, new_row);
                    }
                    j += 1;
                }
                assert(mat@ =~= clear_above(norm, p as int, c as int));
            }
            assert(mat@ == back_row(before, p as int));
            i = p;
        }
        mat
    }

    /// The rank: the number of pivots, that is the number of nonzero rows of
    /// the reduced row-echelon form.
    pub fn rank(&self) -> (r: usize)
        requires
            self.wf(),
        ensures
            r == rank_of(self@),
    {
        let red = self.rref();
        let ghost rows = red@;
        let mut count: usize = 0;
        let mut i: usize = 0;
        while i < red.mat.len()
            invariant
                rows == red@,
                i <= rows.len(),
                rows.len() == red.mat@.len(),
                count == count_nonzero_rows(rows.take(i as int)),
                count <= i,
            decreases rows.len() - i,
        {
            let nz = red.mat[i].any_nonzero();
            proof {
                assert(rows.take(i + 1).drop_last() =~= rows.take(i as int));
                assert(rows[i as int] == red.mat@[i as int]@);
            }
            if nz {
                count += 1;
            }
            i += 1;
        }
        assert(rows.take(i as int) =~= rows);
        count
    }
}

} // verus!
