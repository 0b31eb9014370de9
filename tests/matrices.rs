use osrank::matrix::{MatrixError, SparseMatrix};

fn sample() -> SparseMatrix<i64> {
    let mut m: SparseMatrix<i64> = SparseMatrix::zeros(2, 3);
    m.rows[0].push((0, 1));
    m.rows[0].push((2, -2));
    m.rows[1].push((1, 5));
    m
}

fn same(a: &SparseMatrix<i64>, b: &SparseMatrix<i64>) -> bool {
    a.nrows == b.nrows && a.ncols == b.ncols && a.rows == b.rows
}

#[test]
fn zeros_has_shape_and_no_entries() {
    let m: SparseMatrix<i64> = SparseMatrix::zeros(4, 2);
    assert_eq!(m.nrows, 4);
    assert_eq!(m.ncols, 2);
    assert!(m.rows.iter().all(|r| r.is_empty()));
}

#[test]
fn transpose_moves_entries() {
    let t = sample().transpose();
    assert_eq!(t.nrows, 3);
    assert_eq!(t.ncols, 2);
    assert_eq!(t.rows, vec![vec![(0, 1)], vec![(1, 5)], vec![(0, -2)]]);
}

#[test]
fn transpose_twice_is_identity() {
    let m = sample();
    assert!(same(&m.transpose().transpose(), &m));
}

#[test]
fn hstack_joins_columns() {
    let a = sample();
    let b = sample();
    let h = a.hstack(&b).unwrap();
    assert_eq!(h.nrows, 2);
    assert_eq!(h.ncols, 6);
    assert_eq!(h.rows[0], vec![(0, 1), (2, -2), (3, 1), (5, -2)]);
    assert_eq!(h.rows[1], vec![(1, 5), (4, 5)]);
}

#[test]
fn vstack_joins_rows() {
    let a = sample();
    let b: SparseMatrix<i64> = SparseMatrix::zeros(1, 3);
    let v = a.vstack(&b).unwrap();
    assert_eq!(v.nrows, 3);
    assert_eq!(v.ncols, 3);
    assert_eq!(v.rows[1], vec![(1, 5)]);
    assert!(v.rows[2].is_empty());
}

#[test]
fn stacking_mismatched_shapes_fails() {
    let a = sample();
    let b: SparseMatrix<i64> = SparseMatrix::zeros(3, 3);
    assert_eq!(a.hstack(&b).err(), Some(MatrixError::ShapeMismatch));
    let c: SparseMatrix<i64> = SparseMatrix::zeros(2, 2);
    assert_eq!(a.vstack(&c).err(), Some(MatrixError::ShapeMismatch));
}

#[test]
fn triplets_come_row_by_row() {
    let m = sample();
    assert_eq!(m.triplets(), vec![(1, (0, 0)), (-2, (0, 2)), (5, (1, 1))]);
}

#[test]
fn from_triplets_adds_repeated_positions() {
    let ts = vec![(1usize, 2usize, 3u64), (0, 1, 1), (1, 2, 4), (1, 0, 2)];
    let m = SparseMatrix::from_triplets(2, 3, &ts);
    assert_eq!(m.rows[0], vec![(1, 1)]);
    assert_eq!(m.rows[1], vec![(0, 2), (2, 7)]);
}

#[test]
fn blocks_assemble_into_a_square() {
    let pp: SparseMatrix<i64> = SparseMatrix::zeros(2, 2);
    let mut pa: SparseMatrix<i64> = SparseMatrix::zeros(2, 1);
    pa.rows[1].push((0, 9));
    let mut ap: SparseMatrix<i64> = SparseMatrix::zeros(1, 2);
    ap.rows[0].push((1, 4));
    let aa: SparseMatrix<i64> = SparseMatrix::zeros(1, 1);
    let m = SparseMatrix::assemble_blocks(&pp, &pa, &ap, &aa).unwrap();
    assert_eq!((m.nrows, m.ncols), (3, 3));
    assert_eq!(m.rows, vec![vec![], vec![(2, 9)], vec![(1, 4)]]);
    let wrong: SparseMatrix<i64> = SparseMatrix::zeros(1, 2);
    assert_eq!(SparseMatrix::assemble_blocks(&pp, &pa, &ap, &wrong).err(), Some(MatrixError::ShapeMismatch));
}

#[test]
fn map_entries_scales_stored_values() {
    let m = sample().map_entries(&|v: i64| v * 3);
    assert_eq!(m.rows, vec![vec![(0, 3), (2, -6)], vec![(1, 15)]]);
}

#[test]
fn hadamard_keeps_common_positions() {
    let a = sample();
    let mut b: SparseMatrix<i64> = SparseMatrix::zeros(2, 3);
    b.rows[0].push((2, 10));
    b.rows[1].push((0, 7));
    let h = a.hadamard_with(&b, &|x: i64, y: i64| x * y).unwrap();
    assert_eq!(h.rows, vec![vec![(2, -20)], vec![]]);
    let c: SparseMatrix<i64> = SparseMatrix::zeros(2, 2);
    assert_eq!(a.hadamard_with(&c, &|x: i64, y: i64| x * y).err(), Some(MatrixError::ShapeMismatch));
}

#[test]
fn add_merges_rows() {
    let a = sample();
    let mut b: SparseMatrix<i64> = SparseMatrix::zeros(2, 3);
    b.rows[0].push((1, 4));
    b.rows[0].push((2, 2));
    b.rows[1].push((0, 7));
    let s = a.add_with(&b, &|x: i64, y: i64| x + y).unwrap();
    assert_eq!(s.rows, vec![vec![(0, 1), (1, 4), (2, 0)], vec![(0, 7), (1, 5)]]);
    let c: SparseMatrix<i64> = SparseMatrix::zeros(3, 3);
    assert_eq!(a.add_with(&c, &|x: i64, y: i64| x + y).err(), Some(MatrixError::ShapeMismatch));
}
