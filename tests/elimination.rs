use linear_alg::gauss::{GaussElimIter, Step};
use linear_alg::vec::Vec as FVec;
use linear_alg::{Fp, Mat2d, MODULUS};

fn f(x: i64) -> Fp {
    Fp::from_i64(x)
}

fn frac(a: i64, b: i64) -> Fp {
    f(a).div(f(b))
}

fn mat(rows: &[&[i64]]) -> Mat2d {
    let rows: Vec<Vec<Fp>> = rows.iter().map(|r| r.iter().map(|&x| f(x)).collect()).collect();
    Mat2d::from_rows(rows).expect("rectangular")
}

fn mat_fp(rows: Vec<Vec<Fp>>) -> Mat2d {
    Mat2d::from_rows(rows).expect("rectangular")
}

fn apply(m: &mut Mat2d, step: &Step) {
    match *step {
        Step::Swap { from, to } => m.swap_row(from, to),
        Step::Sub { scale, from, to } => {
            let row = m.index(to).sub(&m.index(from).mul(scale));
            m.set_row(to, row);
        }
    }
}

#[test]
fn field_arithmetic_is_exact() {
    assert_eq!(f(-1).value(), MODULUS - 1);
    assert_eq!(f(7).sub(f(10)), f(-3));
    assert_eq!(f(6).mul(f(-7)), f(-42));
    assert_eq!(frac(1, 3).mul(f(3)), f(1));
    assert_eq!(frac(-4, 13).mul(f(13)), f(-4));
    assert!(f(MODULUS as i64).is_zero());
    assert!(!f(5).is_zero());
    assert_eq!(Fp::from_u64(MODULUS + 2), f(2));
}

#[test]
fn identity_of_square_shape() {
    let id = Mat2d::identity(3, 3).expect("square");
    assert_eq!(id, mat(&[&[1, 0, 0], &[0, 1, 0], &[0, 0, 1]]));
}

#[test]
fn identity_absent_when_not_square() {
    assert!(Mat2d::identity(2, 3).is_none());
    assert!(Mat2d::identity(3, 2).is_none());
}

#[test]
fn zeros_and_ones_have_the_shape_asked() {
    let z = Mat2d::zeros(2, 3);
    assert_eq!(z.shape(), (2, 3));
    assert_eq!(z, mat(&[&[0, 0, 0], &[0, 0, 0]]));
    assert_eq!(Mat2d::ones(1, 2), mat(&[&[1, 1]]));
    assert_eq!(Mat2d::zeros(0, 4).shape(), (0, 0));
}

#[test]
fn ragged_rows_are_refused() {
    assert!(Mat2d::from_rows(vec![vec![f(1), f(2)], vec![f(3)]]).is_none());
}

#[test]
fn swap_row_exchanges_and_keeps_equal_index() {
    let mut m = mat(&[&[1, 2], &[3, 4], &[5, 6]]);
    m.swap_row(0, 2);
    assert_eq!(m, mat(&[&[5, 6], &[3, 4], &[1, 2]]));
    m.swap_row(1, 1);
    assert_eq!(m, mat(&[&[5, 6], &[3, 4], &[1, 2]]));
}

#[test]
fn transpose_exchanges_rows_and_columns() {
    let m = mat(&[&[1, 2, 3], &[4, 5, 6]]);
    assert_eq!(m.transpose(), mat(&[&[1, 4], &[2, 5], &[3, 6]]));
}

#[test]
fn resize_pads_with_zeros_and_truncates() {
    let mut m = mat(&[&[1, 2], &[3, 4]]);
    m.resize(3, 3);
    assert_eq!(m, mat(&[&[1, 2, 0], &[3, 4, 0], &[0, 0, 0]]));
    m.resize(1, 1);
    assert_eq!(m, mat(&[&[1]]));
}

#[test]
fn iterating_rows_and_entries() {
    let m = mat(&[&[1, 2], &[3, 4]]);
    let sums: Vec<u64> = m.iter().map(|r| r.iter().map(|x| x.value()).sum()).collect();
    assert_eq!(sums, vec![3, 7]);
    let mut m = m;
    for row in m.iter_mut() {
        row.set(0, f(9));
    }
    assert_eq!(m, mat(&[&[9, 2], &[9, 4]]));
}

#[test]
fn vector_operations() {
    let a = FVec::from_vec(vec![f(5), f(7), f(9)]);
    let b = FVec::from_vec(vec![f(1), f(2), f(3)]);
    assert_eq!(a.sub(&b), FVec::from_vec(vec![f(4), f(5), f(6)]));
    assert_eq!(b.mul(f(2)), FVec::from_vec(vec![f(2), f(4), f(6)]));
    assert_eq!(a.div(f(2)).mul(f(2)), a);
    assert_eq!(a.len(), 3);
    assert_eq!(a.get(1), Some(&f(7)));
    assert_eq!(a.get(3), None);
    let mut c = b.copied();
    c.resize(5, f(8));
    assert_eq!(c, FVec::from_vec(vec![f(1), f(2), f(3), f(8), f(8)]));
    c.resize(2, f(0));
    assert_eq!(c, FVec::from_vec(vec![f(1), f(2)]));
    assert_eq!(FVec::zeros(2), FVec::from_vec(vec![f(0), f(0)]));
    assert_eq!(FVec::ones(2), FVec::from_vec(vec![f(1), f(1)]));
}

#[test]
fn row_reduced_matches_manual_elimination() {
    let a = mat(&[&[1, 2, 1, 1], &[3, -7, -6, 1], &[0, -1, -1, 1]]);
    let steps = a.row_reduced_verbose();
    assert!(matches!(steps[0].1, Step::Sub { scale, from: 0, to: 1 } if scale == f(3)));
    let expected = mat_fp(vec![
        vec![f(1), f(2), f(1), f(1)],
        vec![f(0), f(-13), f(-9), f(-2)],
        vec![f(0), f(0), frac(-4, 13), frac(15, 13)],
    ]);
    assert_eq!(a.row_reduced(), expected);
    assert_eq!(steps.len(), 2);
    assert!(matches!(steps[1].1, Step::Sub { scale, from: 1, to: 2 } if scale == frac(1, 13)));
}

#[test]
fn zero_pivot_is_swapped_first() {
    let a = mat(&[&[0, 2, 1, 1], &[3, -7, -6, 1], &[0, -1, -1, 1]]);
    let steps = a.row_reduced_verbose();
    assert_eq!(steps[0].1, Step::Swap { from: 0, to: 1 });
    assert_eq!(steps[0].0, mat(&[&[3, -7, -6, 1], &[0, 2, 1, 1], &[0, -1, -1, 1]]));
}

#[test]
fn zero_column_stays_zero_and_lowers_rank() {
    let a = mat(&[&[1, 0, 2], &[3, 0, 4], &[5, 0, 7]]);
    let r = a.rref();
    for row in r.iter() {
        assert!(row.index(1).is_zero());
    }
    assert!(a.rank() < 3);
    assert_eq!(a.rank(), 2);
}

#[test]
fn replaying_steps_reproduces_row_reduced() {
    for rows in [
        vec![vec![1, 2, 1, 1], vec![3, -7, -6, 1], vec![0, -1, -1, 1]],
        vec![vec![0, 2, 1, 1], vec![3, -7, -6, 1], vec![0, -1, -1, 1]],
        vec![vec![0, 0], vec![0, 5], vec![2, 1]],
        vec![vec![2, 4, 6], vec![1, 2, 3]],
    ] {
        let a = mat_fp(rows.iter().map(|r| r.iter().map(|&x| f(x)).collect()).collect());
        let mut m = a.copied();
        for (snapshot, step) in a.row_reduced_verbose() {
            apply(&mut m, &step);
            assert_eq!(m, snapshot);
        }
        assert_eq!(m, a.row_reduced());
    }
}

#[test]
fn lazy_iterator_yields_the_same_steps() {
    let a = mat(&[&[0, 2, 1, 1], &[3, -7, -6, 1], &[0, -1, -1, 1]]);
    let verbose = a.row_reduced_verbose();
    let mut it = GaussElimIter::from(a.copied());
    let mut pulled = Vec::new();
    while let Some((step, snapshot)) = it.next() {
        pulled.push((snapshot, step));
    }
    assert_eq!(pulled, verbose);
    assert!(it.next().is_none());
    assert_eq!(it.into_matrix(), a.row_reduced());
}

#[test]
fn invertible_matrix_reduces_to_identity() {
    let a = mat(&[&[2, 1, 1], &[1, 3, 2], &[1, 0, 0]]);
    assert_eq!(a.rref(), Mat2d::identity(3, 3).unwrap());
    let b = mat(&[&[0, 1], &[1, 0]]);
    assert_eq!(b.rref(), Mat2d::identity(2, 2).unwrap());
    assert_eq!(a.rank(), 3);
}

#[test]
fn rref_is_idempotent() {
    for a in [
        mat(&[&[1, 2, 3], &[2, 4, 6], &[1, 0, 1]]),
        mat(&[&[0, 1, 1], &[0, 1, 2], &[0, 0, 0]]),
        mat(&[&[1, 1, 1], &[0, 0, 1], &[0, 0, 1]]),
        mat(&[&[3, -7, -6, 1], &[0, 2, 1, 1]]),
    ] {
        let r = a.rref();
        assert_eq!(r.rref(), r);
    }
}

#[test]
fn rank_of_transpose_is_the_same() {
    for a in [
        mat(&[&[1, 2, 3], &[2, 4, 6]]),
        mat(&[&[1, 2, 1, 1], &[3, -7, -6, 1], &[0, -1, -1, 1]]),
        mat(&[&[0, 1], &[0, 1], &[0, 0]]),
    ] {
        assert_eq!(a.rank(), a.transpose().rank());
    }
}

#[test]
fn duplicate_rows_leave_a_zero_row() {
    let a = mat(&[&[1, 2, 3], &[4, 5, 6], &[1, 2, 3]]);
    let mut b = a.copied();
    b.swap_row(0, 2);
    let r = b.rref();
    assert!(r.iter().any(|row| !row.any_nonzero()));
    assert_eq!(b.rank(), 2);
    let c = mat(&[&[0, 1], &[0, 1]]);
    assert!(c.rref().iter().any(|row| !row.any_nonzero()));
    assert_eq!(c.rank(), 1);
}

#[test]
fn pivot_row_waits_for_a_column_with_a_pivot() {
    let a = mat(&[&[0, 0, 1, 0], &[0, 0, 0, 1], &[0, 0, 1, 1]]);
    assert_eq!(a.row_reduced(), mat(&[&[0, 0, 1, 0], &[0, 0, 0, 1], &[0, 0, 0, 0]]));
    assert_eq!(a.rref(), mat(&[&[0, 0, 1, 0], &[0, 0, 0, 1], &[0, 0, 0, 0]]));
    assert_eq!(a.rank(), 2);
    assert_eq!(a.transpose().rank(), 2);
}

#[test]
fn equal_rows_give_a_zero_row_whatever_their_order() {
    let a = mat(&[&[0, 0, 1, 0], &[0, 0, 1, 0], &[0, 0, 1, 1]]);
    let r = a.rref();
    assert_eq!(r, mat(&[&[0, 0, 1, 0], &[0, 0, 0, 1], &[0, 0, 0, 0]]));
    assert!(r.iter().any(|row| !row.any_nonzero()));
    assert_eq!(a.rank(), 2);
    assert_eq!(a.transpose().rank(), 2);
    let mut b = a.copied();
    b.swap_row(0, 2);
    assert_eq!(b.rank(), 2);
    let independent = mat(&[&[0, 0, 1, 0], &[0, 0, 1, 1]]);
    assert_eq!(independent.rank(), 2);
}

#[test]
fn rref_leading_entries_are_one_and_alone() {
    let a = mat(&[&[2, 4, 1, 3], &[4, 8, 3, 1], &[6, 12, 4, 4]]);
    let r = a.rref();
    assert_eq!(r, mat_fp(vec![
        vec![f(1), f(2), f(0), f(4)],
        vec![f(0), f(0), f(1), f(-5)],
        vec![f(0), f(0), f(0), f(0)],
    ]));
    assert_eq!(a.rank(), 2);
}

#[test]
fn rank_of_empty_and_zero_matrices() {
    assert_eq!(Mat2d::zeros(0, 0).rank(), 0);
    assert_eq!(Mat2d::zeros(3, 2).rank(), 0);
    assert_eq!(Mat2d::ones(3, 2).rank(), 1);
}
