use osrank::adjacency::{new_network_matrix, AdjacencyError};
use osrank::matrix::SparseMatrix;
use osrank::types::{HyperParams, Weight};

fn assemble_with(
    d: &SparseMatrix<f64>,
    c: &SparseMatrix<f64>,
    m: &SparseMatrix<f64>,
    h: &HyperParams,
) -> Result<SparseMatrix<f64>, AdjacencyError> {
    new_network_matrix(
        d,
        c,
        m,
        h,
        &|w: Weight| f64::from(w.numer) / f64::from(w.denom),
        0.0,
        &|x: f64, y: f64| x + y,
        &|x: f64, y: f64| x * y,
        &|x: f64, y: f64| x / y,
        &|x: f64| x == 0.0,
    )
}

fn assemble(d: &SparseMatrix<f64>, c: &SparseMatrix<f64>, m: &SparseMatrix<f64>) -> Result<SparseMatrix<f64>, AdjacencyError> {
    assemble_with(d, c, m, &HyperParams::default())
}

/// Three projects `foo, bar, baz` and three contributors `john, tom, alice`.
fn paper_inputs() -> (SparseMatrix<f64>, SparseMatrix<f64>, SparseMatrix<f64>) {
    let mut d: SparseMatrix<f64> = SparseMatrix::zeros(3, 3);
    d.rows[0].push((1, 1.0));
    d.rows[2].push((0, 1.0));
    d.rows[2].push((1, 1.0));
    let mut c: SparseMatrix<f64> = SparseMatrix::zeros(3, 3);
    c.rows[0].push((0, 100.0));
    c.rows[1].push((1, 30.0));
    c.rows[2].push((1, 60.0));
    c.rows[2].push((2, 20.0));
    let m: SparseMatrix<f64> = SparseMatrix::zeros(3, 3);
    (d, c, m)
}

#[test]
fn first_transition_carries_the_expected_weight() {
    let (d, c, m) = paper_inputs();
    let t = assemble(&d, &c, &m).unwrap();
    assert_eq!((t.nrows, t.ncols), (6, 6));
    let triplets = t.triplets();
    assert_eq!(triplets[0].1, (0, 1));
    assert_eq!(triplets[0].0, 0.8);
}

#[test]
fn transition_rows_sum_to_one() {
    let (d, c, m) = paper_inputs();
    let t = assemble(&d, &c, &m).unwrap();
    for row in &t.rows {
        let s: f64 = row.iter().map(|&(_, v)| v).sum();
        assert!(row.is_empty() || (s - 1.0).abs() < 1e-12);
        assert!(row.iter().all(|&(_, v)| v >= 0.0));
    }
    assert!(t.rows[3..].iter().all(|r| r.iter().all(|&(c, _)| c < 3)));
}

#[test]
fn mismatched_inputs_are_refused() {
    let (d, c, _) = paper_inputs();
    let m: SparseMatrix<f64> = SparseMatrix::zeros(3, 2);
    assert_eq!(assemble(&d, &c, &m).err(), Some(AdjacencyError::ShapeMismatch));
    let d2: SparseMatrix<f64> = SparseMatrix::zeros(2, 3);
    let m2: SparseMatrix<f64> = SparseMatrix::zeros(3, 3);
    assert_eq!(assemble(&d2, &c, &m2).err(), Some(AdjacencyError::ShapeMismatch));
}

#[test]
fn invalid_factor_is_refused() {
    let (d, c, m) = paper_inputs();
    let mut h = HyperParams::default();
    h.depend_factor = Weight::new(0, 3);
    assert_eq!(assemble_with(&d, &c, &m, &h).err(), Some(AdjacencyError::InvalidHyperparam));
}
