//! Sparse matrices stored row by row: each row lists its non-zero entries as
//! `(column, value)` pairs in strictly increasing column order.

use vstd::prelude::*;

verus! {

/// The mathematical content of a sparse matrix: its shape and the map from
/// `(row, column)` to each stored value.
pub struct MatrixModel<T> {
    pub nrows: nat,
    pub ncols: nat,
    pub entries: Map<(int, int), T>,
}

/// The value stored for column `j` in a row, if any.
pub open spec fn row_at<T>(row: Seq<(usize, T)>, j: int) -> Option<T>
    decreases row.len(),
{
    if row.len() == 0 {
        None
    } else if row.last().0 as int == j {
        Some(row.last().1)
    } else {
        row_at(row.drop_last(), j)
    }
}

/// Columns of `row` are strictly increasing and below `ncols`.
pub open spec fn row_wf<T>(row: Seq<(usize, T)>, ncols: nat) -> bool {
    &&& forall|k: int| 0 <= k < row.len() ==> (#[trigger] row[k]).0 < ncols
    &&& forall|k1: int, k2: int|
        0 <= k1 < k2 < row.len() ==> (#[trigger] row[k1]).0 < (#[trigger] row[k2]).0
}

/// The row with every column moved right by `shift`.
pub open spec fn shifted<T>(row: Seq<(usize, T)>, shift: nat) -> Seq<(usize, T)> {
    row.map_values(|e: (usize, T)| ((e.0 + shift) as usize, e.1))
}

/// A sparse matrix of `nrows` by `ncols`.
pub struct SparseMatrix<T> {
    pub nrows: usize,
    pub ncols: usize,
    pub rows: Vec<Vec<(usize, T)>>,
}

impl<T> SparseMatrix<T> {
    pub open spec fn wf(&self) -> bool {
        &&& self.rows@.len() == self.nrows
        &&& forall|i: int| 0 <= i < self.rows@.len() ==> row_wf(#[trigger] self.rows@[i]@, self.ncols as nat)
    }

    /// The value at `(i, j)`, if one is stored.
    pub open spec fn at(&self, i: int, j: int) -> Option<T> {
        if 0 <= i < self.rows@.len() {
            row_at(self.rows@[i]@, j)
        } else {
            None
        }
    }

    pub open spec fn model(&self) -> MatrixModel<T> {
        MatrixModel {
            nrows: self.nrows as nat,
            ncols: self.ncols as nat,
            entries: Map::new(
                |p: (int, int)| self.at(p.0, p.1) is Some,
                |p: (int, int)| self.at(p.0, p.1)->Some_0,
            ),
        }
    }
}

/// The transpose of a model.
pub open spec fn transposed<T>(m: MatrixModel<T>) -> MatrixModel<T> {
    MatrixModel {
        nrows: m.ncols,
        ncols: m.nrows,
        entries: Map::new(
            |p: (int, int)| m.entries.contains_key((p.1, p.0)),
            |p: (int, int)| m.entries[(p.1, p.0)],
        ),
    }
}

/// Two matrices side by side: the columns of `b` follow those of `a`.
pub open spec fn hstacked<T>(a: MatrixModel<T>, b: MatrixModel<T>) -> MatrixModel<T> {
    MatrixModel {
        nrows: a.nrows,
        ncols: a.ncols + b.ncols,
        entries: Map::new(
            |p: (int, int)|
                if p.1 < a.ncols {
                    a.entries.contains_key(p)
                } else {
                    b.entries.contains_key((p.0, p.1 - a.ncols))
                },
            |p: (int, int)|
                if p.1 < a.ncols {
                    a.entries[p]
                } else {
                    b.entries[(p.0, p.1 - a.ncols)]
                },
        ),
    }
}

/// One matrix above the other: the rows of `b` follow those of `a`.
pub open spec fn vstacked<T>(a: MatrixModel<T>, b: MatrixModel<T>) -> MatrixModel<T> {
    MatrixModel {
        nrows: a.nrows + b.nrows,
        ncols: a.ncols,
        entries: Map::new(
            |p: (int, int)|
                if p.0 < a.nrows {
                    a.entries.contains_key(p)
                } else {
                    b.entries.contains_key((p.0 - a.nrows, p.1))
                },
            |p: (int, int)|
                if p.0 < a.nrows {
                    a.entries[p]
                } else {
                    b.entries[(p.0 - a.nrows, p.1)]
                },
        ),
    }
}

/// Transposing twice gives back the matrix.
pub proof fn lemma_transpose_involutive<T>(m: MatrixModel<T>)
    ensures
        transposed(transposed(m)) == m,
{
    assert(transposed(transposed(m)).entries =~= m.entries);
}

pub proof fn lemma_row_at_push<T>(row: Seq<(usize, T)>, e: (usize, T), j: int)
    ensures
        row_at(row.push(e), j) == if e.0 as int == j { Some(e.1) } else { row_at(row, j) },
{
    assert(row.push(e).drop_last() =~= row);
}

pub proof fn lemma_row_at_outside<T>(row: Seq<(usize, T)>, j: int)
    requires
        forall|k: int| 0 <= k < row.len() ==> (#[trigger] row[k]).0 as int != j,
    ensures
        row_at(row, j) is None,
    decreases row.len(),
{
    if row.len() > 0 {
        lemma_row_at_outside(row.drop_last(), j);
    }
}

pub proof fn lemma_row_at_append_shifted<T>(s: Seq<(usize, T)>, t: Seq<(usize, T)>, shift: nat, j: int)
    requires
        forall|k: int| 0 <= k < s.len() ==> (#[trigger] s[k]).0 < shift,
        forall|k: int| 0 <= k < t.len() ==> (#[trigger] t[k]).0 + shift <= usize::MAX,
    ensures
        row_at(s + shifted(t, shift), j) == if j < shift {
            row_at(s, j)
        } else {
            row_at(t, j - shift)
        },
    decreases t.len(),
{
    if t.len() == 0 {
        assert(s + shifted(t, shift) =~= s);
        if j >= shift {
            lemma_row_at_outside(s, j);
        }
    } else {
        let e = t.last();
        let t0 = t.drop_last();
        lemma_row_at_append_shifted(s, t0, shift, j);
        assert(s + shifted(t, shift) =~= (s + shifted(t0, shift)).push(((e.0 + shift) as usize, e.1)));
        lemma_row_at_push(s + shifted(t0, shift), ((e.0 + shift) as usize, e.1), j);
        assert(t0.push(e) =~= t);
        lemma_row_at_push(t0, e, j - shift);
    }
}

/// Appends the entries of `row`, each column moved right by `shift`.
fn append_shifted<T: Copy>(out: &mut Vec<(usize, T)>, row: &Vec<(usize, T)>, shift: usize)
    requires
        forall|k: int| 0 <= k < row@.len() ==> (#[trigger] row@[k]).0 + shift <= usize::MAX,
    ensures
        final(out)@ == old(out)@ + shifted(row@, shift as nat),
{
    let mut k: usize = 0;
    while k < row.len()
        invariant
            forall|kk: int| 0 <= kk < row@.len() ==> (#[trigger] row@[kk]).0 + shift <= usize::MAX,
            k <= row@.len(),
            out@ == old(out)@ + shifted(row@.take(k as int), shift as nat),
        decreases row@.len() - k,
    {
        let (c, v) = row[k];
        out.push((c + shift, v));
        assert(shifted(row@.take(k + 1), shift as nat) =~= shifted(row@.take(k as int), shift as nat).push(
            ((c + shift) as usize, v),
        ));
        k += 1;
    }
    assert(row@.take(row@.len() as int) =~= row@);
}

/// Failures of the matrix kernels.
#[derive(Debug, Clone, Copy, PartialEq, Eq, Structural)]
pub enum MatrixError {
    /// The operands do not agree on a shared dimension.
    ShapeMismatch,
}

impl<T: Copy> SparseMatrix<T> {
    /// The matrix of the given shape with no stored entries.
    pub fn zeros(nrows: usize, ncols: usize) -> (r: SparseMatrix<T>)
        ensures
            r.wf(),
            r.nrows == nrows,
            r.ncols == ncols,
            forall|i: int| 0 <= i < nrows ==> (#[trigger] r.rows@[i])@.len() == 0,
            forall|i: int, j: int| r.at(i, j) is None,
    {
        let mut rows: Vec<Vec<(usize, T)>> = Vec::new();
        let mut i: usize = 0;
        while i < nrows
            invariant
                i <= nrows,
                rows@.len() == i,
                forall|k: int| 0 <= k < i ==> (#[trigger] rows@[k])@.len() == 0,
            decreases nrows - i,
        {
            rows.push(Vec::new());
            i += 1;
        }
        SparseMatrix { nrows, ncols, rows }
    }

    /// The transpose: the entry at `(i, j)` moves to `(j, i)`.
    pub fn transpose(&self) -> (r: SparseMatrix<T>)
        requires
            self.wf(),
        ensures
            r.wf(),
            r.nrows == self.ncols,
            r.ncols == self.nrows,
            forall|i: int, j: int| #[trigger] r.at(i, j) == self.at(j, i),
            r.model() == transposed(self.model()),
    {
        let empty = SparseMatrix::<T>::zeros(self.ncols, self.nrows);
        let mut out = empty.rows;
        let mut i: usize = 0;
        while i < self.nrows
            invariant
                self.wf(),
                i <= self.nrows,
                out@.len() == self.ncols,
                forall|j: int| 0 <= j < out@.len() ==> row_wf(#[trigger] out@[j]@, self.nrows as nat),
                forall|j: int, k: int|
                    0 <= j < out@.len() && 0 <= k < out@[j]@.len() ==> (#[trigger] out@[j]@[k]).0 < i,
                forall|j: int, r: int|
                    0 <= j < out@.len() ==> #[trigger] row_at(out@[j]@, r) == if r < i {
                        self.at(r, j)
                    } else {
                        None::<T>
                    },
            decreases self.nrows - i,
        {
            let row = &self.rows[i];
            let mut k: usize = 0;
            while k < row.len()
                invariant
                    self.wf(),
                    i < self.nrows,
                    row == self.rows@[i as int],
                    k <= row@.len(),
                    out@.len() == self.ncols,
                    forall|j: int| 0 <= j < out@.len() ==> row_wf(#[trigger] out@[j]@, self.nrows as nat),
                    forall|j: int, kk: int|
                        0 <= j < out@.len() && 0 <= kk < out@[j]@.len() ==> (#[trigger] out@[j]@[kk]).0 <= i,
                    forall|j: int|
                        0 <= j < out@.len() && out@[j]@.len() > 0 && (#[trigger] out@[j]@).last().0 == i
                            ==> k > 0 && j <= row@[k - 1].0,
                    forall|j: int, r: int|
                        0 <= j < out@.len() ==> #[trigger] row_at(out@[j]@, r) == if r < i {
                            self.at(r, j)
                        } else if r == i {
                            row_at(row@.take(k as int), j)
                        } else {
                            None::<T>
                        },
                decreases row@.len() - k,
            {
                let (c, v) = row[k];
                assert(row_wf(self.rows@[i as int]@, self.ncols as nat));
                assert(row@[k as int].0 < self.ncols);
                let mut target = Vec::new();
                std::mem::swap(&mut target, &mut out[c]);
                proof {
                    let old_t = target@;
                    if old_t.len() > 0 {
                        assert(old_t.last() == old_t[old_t.len() - 1]);
                        if old_t.last().0 == i {
                            assert(row@[k - 1].0 < row@[k as int].0);
                        }
                    }
                    assert forall|kk: int| 0 <= kk < old_t.len() implies old_t[kk].0 < i by {
                        if old_t[kk].0 == i {
                            assert(old_t[kk].0 <= old_t.last().0);
                        }
                    }
                }
                let ghost old_t = target@;
                target.push((i, v));
                proof {
                    assert(row@.take(k + 1) =~= row@.take(k as int).push((c, v)));
                    assert forall|r: int| #[trigger] row_at(target@, r) == if r < i {
                        self.at(r, c as int)
                    } else if r == i {
                        row_at(row@.take(k + 1), c as int)
                    } else {
                        None::<T>
                    } by {
                        lemma_row_at_push(old_t, (i, v), r);
                        lemma_row_at_push(row@.take(k as int), (c, v), c as int);
                        assert(row_at(old_t, r) == if r < i {
                            self.at(r, c as int)
                        } else if r == i {
                            row_at(row@.take(k as int), c as int)
                        } else {
                            None::<T>
                        });
                    }
                    assert forall|j: int, r: int| 0 <= j < out@.len() && j != c implies
                        row_at(out@[j]@, r) == row_at(row@.take(k + 1), j) || r != i by {
                        lemma_row_at_push(row@.take(k as int), (c, v), j);
                    }
                }
                std::mem::swap(&mut target, &mut out[c]);
                k += 1;
            }
            proof {
                assert(row@.take(row@.len() as int) =~= row@);
            }
            i += 1;
        }
        let r = SparseMatrix { nrows: self.ncols, ncols: self.nrows, rows: out };
        assert forall|i: int, j: int| #[trigger] r.at(i, j) == self.at(j, i) by {
            if 0 <= j < self.nrows && !(0 <= i < self.ncols) {
                assert(row_wf(self.rows@[j]@, self.ncols as nat));
                lemma_row_at_outside(self.rows@[j]@, i);
            }
        }
        assert(r.model().entries =~= transposed(self.model()).entries);
        r
    }

    /// The matrix with the columns of `other` to the right of those of
    /// `self`; both must have the same number of rows.
    pub fn hstack(&self, other: &SparseMatrix<T>) -> (r: Result<SparseMatrix<T>, MatrixError>)
        requires
            self.wf(),
            other.wf(),
            self.ncols + other.ncols <= usize::MAX,
        ensures
            r is Err <==> self.nrows != other.nrows,
            r is Ok ==> {
                let m = r->Ok_0;
                &&& m.wf()
                &&& m.nrows == self.nrows
                &&& m.ncols == self.ncols + other.ncols
                &&& m.model() == hstacked(self.model(), other.model())
            },
    {
        if self.nrows != other.nrows {
            return Err(MatrixError::ShapeMismatch);
        }
        let mut rows: Vec<Vec<(usize, T)>> = Vec::new();
        let mut i: usize = 0;
        while i < self.nrows
            invariant
                self.wf(),
                other.wf(),
                self.nrows == other.nrows,
                self.ncols + other.ncols <= usize::MAX,
                i <= self.nrows,
                rows@.len() == i,
                forall|ii: int| 0 <= ii < i ==> row_wf(#[trigger] rows@[ii]@, (self.ncols + other.ncols) as nat),
                forall|ii: int, j: int|
                    0 <= ii < i ==> #[trigger] row_at(rows@[ii]@, j) == if j < self.ncols {
                        self.at(ii, j)
                    } else {
                        other.at(ii, j - self.ncols)
                    },
            decreases self.nrows - i,
        {
            let ghost a = self.rows@[i as int]@;
            let ghost b = other.rows@[i as int]@;
            assert(row_wf(a, self.ncols as nat));
            assert(row_wf(b, other.ncols as nat));
            let mut row: Vec<(usize, T)> = Vec::new();
            append_shifted(&mut row, &self.rows[i], 0);
            assert(row@ =~= a) by {
                assert(Seq::<(usize, T)>::empty() + shifted(a, 0) =~= a);
            }
            append_shifted(&mut row, &other.rows[i], self.ncols);
            proof {
                assert forall|j: int| #[trigger] row_at(row@, j) == if j < self.ncols {
                    self.at(i as int, j)
                } else {
                    other.at(i as int, j - self.ncols)
                } by {
                    lemma_row_at_append_shifted(a, b, self.ncols as nat, j);
                }
                let full = row@;
                assert forall|k1: int, k2: int| 0 <= k1 < k2 < full.len() implies
                    (#[trigger] full[k1]).0 < (#[trigger] full[k2]).0 by {
                    if k2 >= a.len() && k1 < a.len() {
                        assert(full[k2] == shifted(b, self.ncols as nat)[k2 - a.len()]);
                    } else if k1 >= a.len() {
                        assert(full[k2] == shifted(b, self.ncols as nat)[k2 - a.len()]);
                        assert(full[k1] == shifted(b, self.ncols as nat)[k1 - a.len()]);
                    }
                }
                assert forall|k: int| 0 <= k < full.len() implies
                    (#[trigger] full[k]).0 < self.ncols + other.ncols by {
                    if k >= a.len() {
                        assert(full[k] == shifted(b, self.ncols as nat)[k - a.len()]);
                    }
                }
            }
            rows.push(row);
            i += 1;
        }
        let r = SparseMatrix { nrows: self.nrows, ncols: self.ncols + other.ncols, rows };
        proof {
            assert forall|p: (int, int)| #[trigger] r.at(p.0, p.1) == if p.1 < self.ncols {
                self.at(p.0, p.1)
            } else {
                other.at(p.0, p.1 - self.ncols)
            } by {}
            assert(r.model().entries =~= hstacked(self.model(), other.model()).entries);
        }
        Ok(r)
    }

    /// The matrix with the rows of `other` below those of `self`; both must
    /// have the same number of columns.
    pub fn vstack(&self, other: &SparseMatrix<T>) -> (r: Result<SparseMatrix<T>, MatrixError>)
        requires
            self.wf(),
            other.wf(),
            self.nrows + other.nrows <= usize::MAX,
        ensures
            r is Err <==> self.ncols != other.ncols,
            r is Ok ==> {
                let m = r->Ok_0;
                &&& m.wf()
                &&& m.nrows == self.nrows + other.nrows
                &&& m.ncols == self.ncols
                &&& m.model() == vstacked(self.model(), other.model())
            },
    {
        if self.ncols != other.ncols {
            return Err(MatrixError::ShapeMismatch);
        }
        let mut rows: Vec<Vec<(usize, T)>> = Vec::new();
        let mut i: usize = 0;
        while i < self.nrows + other.nrows
            invariant
                self.wf(),
                other.wf(),
                self.ncols == other.ncols,
                self.nrows + other.nrows <= usize::MAX,
                i <= self.nrows + other.nrows,
                rows@.len() == i,
                forall|ii: int| 0 <= ii < i ==> #[trigger] rows@[ii]@ == if ii < self.nrows {
                    self.rows@[ii]@
                } else {
                    other.rows@[ii - self.nrows]@
                },
            decreases self.nrows + other.nrows - i,
        {
            let src = if i < self.nrows {
                &self.rows[i]
            } else {
                &other.rows[i - self.nrows]
            };
            let mut row: Vec<(usize, T)> = Vec::new();
            append_shifted(&mut row, src, 0);
            assert(row@ =~= src@) by {
                assert(Seq::<(usize, T)>::empty() + shifted(src@, 0) =~= src@);
            }
            rows.push(row);
            i += 1;
        }
        let r = SparseMatrix { nrows: self.nrows + other.nrows, ncols: self.ncols, rows };
        proof {
            assert forall|ii: int| 0 <= ii < r.rows@.len() implies row_wf(#[trigger] r.rows@[ii]@, r.ncols as nat) by {
                if ii < self.nrows {
                    assert(row_wf(self.rows@[ii]@, self.ncols as nat));
                } else {
                    assert(row_wf(other.rows@[ii - self.nrows]@, other.ncols as nat));
                }
            }
            assert(r.model().entries =~= vstacked(self.model(), other.model()).entries);
        }
        Ok(r)
    }

    /// Every stored entry as `(value, (row, column))`, row by row and, within
    /// a row, by increasing column.
    pub fn triplets(&self) -> (r: Vec<(T, (usize, usize))>)
        requires
            self.wf(),
        ensures
            r@ == triplets_of(self.rows@.map_values(|row: Vec<(usize, T)>| row@)),
    {
        let ghost rs = self.rows@.map_values(|row: Vec<(usize, T)>| row@);
        let mut out: Vec<(T, (usize, usize))> = Vec::new();
        let mut i: usize = 0;
        while i < self.rows.len()
            invariant
                i <= self.rows@.len(),
                rs == self.rows@.map_values(|row: Vec<(usize, T)>| row@),
                out@ == triplets_of(rs.take(i as int)),
            decreases self.rows@.len() - i,
        {
            let row = &self.rows[i];
            let ghost before = out@;
            let mut k: usize = 0;
            while k < row.len()
                invariant
                    k <= row@.len(),
                    i < self.rows@.len(),
                    row == self.rows@[i as int],
                    out@ == before + row_triplets(row@.take(k as int), i),
                decreases row@.len() - k,
            {
                let (c, v) = row[k];
                out.push((v, (i, c)));
                assert(row@.take(k + 1) =~= row@.take(k as int).push((c, v)));
                assert(row_triplets(row@.take(k + 1), i) =~= row_triplets(row@.take(k as int), i).push((v, (i, c))));
                k += 1;
            }
            assert(row@.take(row@.len() as int) =~= row@);
            assert(rs.take(i + 1).drop_last() =~= rs.take(i as int));
            i += 1;
        }
        assert(rs.take(rs.len() as int) =~= rs);
        out
    }
}

/// The entries of one row as `(value, (i, column))`.
pub open spec fn row_triplets<T>(row: Seq<(usize, T)>, i: usize) -> Seq<(T, (usize, usize))> {
    row.map_values(|e: (usize, T)| (e.1, (i, e.0)))
}

/// The entries of all rows, row after row.
pub open spec fn triplets_of<T>(rows: Seq<Seq<(usize, T)>>) -> Seq<(T, (usize, usize))>
    decreases rows.len(),
{
    if rows.len() == 0 {
        Seq::empty()
    } else {
        triplets_of(rows.drop_last()) + row_triplets(rows.last(), (rows.len() - 1) as usize)
    }
}

impl<T: Copy> SparseMatrix<T> {
    /// The block matrix `[[top_left, top_right], [bottom_left, bottom_right]]`.
    /// Fails unless the blocks of each block row share their number of rows
    /// and the blocks of each block column share their number of columns.
    pub fn assemble_blocks(
        top_left: &SparseMatrix<T>,
        top_right: &SparseMatrix<T>,
        bottom_left: &SparseMatrix<T>,
        bottom_right: &SparseMatrix<T>,
    ) -> (r: Result<SparseMatrix<T>, MatrixError>)
        requires
            top_left.wf(),
            top_right.wf(),
            bottom_left.wf(),
            bottom_right.wf(),
            top_left.ncols + top_right.ncols <= usize::MAX,
            bottom_left.ncols + bottom_right.ncols <= usize::MAX,
            top_left.nrows + bottom_left.nrows <= usize::MAX,
        ensures
            r is Ok <==> top_left.nrows == top_right.nrows && bottom_left.nrows == bottom_right.nrows
                && top_left.ncols == bottom_left.ncols && top_right.ncols == bottom_right.ncols,
            r is Err ==> r == Err::<SparseMatrix<T>, MatrixError>(MatrixError::ShapeMismatch),
            r is Ok ==> {
                let m = r->Ok_0;
                &&& m.wf()
                &&& m.nrows == top_left.nrows + bottom_left.nrows
                &&& m.ncols == top_left.ncols + top_right.ncols
                &&& m.model() == vstacked(
                    hstacked(top_left.model(), top_right.model()),
                    hstacked(bottom_left.model(), bottom_right.model()),
                )
            },
    {
        if top_left.ncols != bottom_left.ncols || top_right.ncols != bottom_right.ncols {
            return Err(MatrixError::ShapeMismatch);
        }
        let top = match top_left.hstack(top_right) {
            Ok(m) => m,
            Err(_) => return Err(MatrixError::ShapeMismatch),
        };
        let bottom = match bottom_left.hstack(bottom_right) {
            Ok(m) => m,
            Err(_) => return Err(MatrixError::ShapeMismatch),
        };
        top.vstack(&bottom)
    }
}

/// A transition matrix assembled from a projects-by-projects block, a
/// projects-by-accounts block, an accounts-by-projects block and an
/// accounts-by-accounts block is square, of side the number of projects plus
/// the number of accounts.
pub proof fn lemma_assembled_square<T>(pp: MatrixModel<T>, pa: MatrixModel<T>, ap: MatrixModel<T>, aa: MatrixModel<T>, p: nat, a: nat)
    requires
        pp.nrows == p && pp.ncols == p,
        pa.nrows == p && pa.ncols == a,
        ap.nrows == a && ap.ncols == p,
        aa.nrows == a && aa.ncols == a,
    ensures
        vstacked(hstacked(pp, pa), hstacked(ap, aa)).nrows == p + a,
        vstacked(hstacked(pp, pa), hstacked(ap, aa)).ncols == p + a,
{
}

/// A row holds an entry for column `j`.
pub open spec fn row_has<T>(row: Seq<(usize, T)>, j: int) -> bool {
    exists|k: int| 0 <= k < row.len() && (#[trigger] row[k]).0 as int == j
}

pub proof fn lemma_row_at_sorted<T>(row: Seq<(usize, T)>, ncols: nat, k: int)
    requires
        row_wf(row, ncols),
        0 <= k < row.len(),
    ensures
        row_at(row, row[k].0 as int) == Some(row[k].1),
    decreases row.len(),
{
    if k < row.len() - 1 {
        assert(row[k].0 < row[row.len() - 1].0);
        assert(row_wf(row.drop_last(), ncols));
        lemma_row_at_sorted(row.drop_last(), ncols, k);
    }
}

/// Sum of the weights of a row.
pub open spec fn row_total(row: Seq<(usize, u64)>) -> int
    decreases row.len(),
{
    if row.len() == 0 {
        0
    } else {
        row_total(row.drop_last()) + row.last().1
    }
}

proof fn lemma_row_total_update(s: Seq<(usize, u64)>, p: int, e: (usize, u64))
    requires
        0 <= p < s.len(),
    ensures
        row_total(s.update(p, e)) == row_total(s) - s[p].1 + e.1,
    decreases s.len(),
{
    let t = s.update(p, e);
    if p < s.len() - 1 {
        assert(t.drop_last() =~= s.drop_last().update(p, e));
        lemma_row_total_update(s.drop_last(), p, e);
    } else {
        assert(t.drop_last() =~= s.drop_last());
    }
}

proof fn lemma_row_total_insert(s: Seq<(usize, u64)>, p: int, e: (usize, u64))
    requires
        0 <= p <= s.len(),
    ensures
        row_total(s.insert(p, e)) == row_total(s) + e.1,
    decreases s.len(),
{
    let t = s.insert(p, e);
    if p == s.len() {
        assert(t =~= s.push(e));
        assert(s.push(e).drop_last() =~= s);
    } else {
        assert(t.drop_last() =~= s.drop_last().insert(p, e));
        lemma_row_total_insert(s.drop_last(), p, e);
    }
}

/// Sum of the values of the triplets of `ts` in row `i`.
pub open spec fn row_sum_of(ts: Seq<(usize, usize, u64)>, i: int) -> int
    decreases ts.len(),
{
    if ts.len() == 0 {
        0
    } else {
        row_sum_of(ts.drop_last(), i) + if ts.last().0 as int == i { ts.last().2 as int } else { 0 }
    }
}

/// The values of one row's triplets add up to at most the values of all.
pub proof fn lemma_row_sum_bound(ts: Seq<(usize, usize, u64)>, i: int)
    ensures
        0 <= row_sum_of(ts, i) <= weight_total(ts),
    decreases ts.len(),
{
    if ts.len() > 0 {
        lemma_row_sum_bound(ts.drop_last(), i);
    }
}

/// Adds `w` to the entry of column `c`, creating it when absent.
fn add_to_row(row: &mut Vec<(usize, u64)>, ncols: Ghost<nat>, c: usize, w: u64)
    requires
        row_wf(old(row)@, ncols@),
        c < ncols@,
        row_at(old(row)@, c as int) is Some ==> row_at(old(row)@, c as int)->Some_0 + w <= u64::MAX,
    ensures
        row_wf(final(row)@, ncols@),
        forall|j: int| #[trigger] row_at(final(row)@, j) == if j == c {
            Some(
                (if row_at(old(row)@, c as int) is Some {
                    row_at(old(row)@, c as int)->Some_0 + w
                } else {
                    w as int
                }) as u64,
            )
        } else {
            row_at(old(row)@, j)
        },
        row_total(final(row)@) == row_total(old(row)@) + w,
{
    let ghost old_row = row@;
    let mut p: usize = 0;
    while p < row.len() && row[p].0 < c
        invariant
            p <= row@.len(),
            row@ == old_row,
            forall|k: int| 0 <= k < p ==> (#[trigger] row@[k]).0 < c,
        decreases row@.len() - p,
    {
        p += 1;
    }
    if p < row.len() && row[p].0 == c {
        let v = row[p].1;
        proof {
            lemma_row_at_sorted(old_row, ncols@, p as int);
        }
        row.set(p, (c, v + w));
        proof {
            let nr = row@;
            lemma_row_total_update(old_row, p as int, (c, (v + w) as u64));
            assert forall|j: int| #[trigger] row_at(nr, j) == if j == c {
                Some((v + w) as u64)
            } else {
                row_at(old_row, j)
            } by {
                if j == c {
                    lemma_row_at_sorted(nr, ncols@, p as int);
                } else if row_has(old_row, j) {
                    let k = choose|k: int| 0 <= k < old_row.len() && (#[trigger] old_row[k]).0 as int == j;
                    lemma_row_at_sorted(old_row, ncols@, k);
                    lemma_row_at_sorted(nr, ncols@, k);
                } else {
                    lemma_row_at_outside(old_row, j);
                    assert forall|k: int| 0 <= k < nr.len() implies (#[trigger] nr[k]).0 as int != j by {
                        assert(old_row[k].0 as int != j);
                    }
                    lemma_row_at_outside(nr, j);
                }
            }
        }
    } else {
        proof {
            assert forall|k: int| 0 <= k < old_row.len() implies (#[trigger] old_row[k]).0 as int != c by {
                if k >= p {
                    if k > p {
                        assert(old_row[p as int].0 < old_row[k].0);
                    }
                }
            }
            lemma_row_at_outside(old_row, c as int);
        }
        row.insert(p, (c, w));
        proof {
            let nr = row@;
            assert(nr == old_row.insert(p as int, (c, w)));
            lemma_row_total_insert(old_row, p as int, (c, w));
            assert forall|k1: int, k2: int| 0 <= k1 < k2 < nr.len() implies (#[trigger] nr[k1]).0 < (#[trigger] nr[k2]).0 by {
                if k2 < p {
                } else if k2 == p {
                } else if k1 < p {
                    assert(old_row[p as int].0 >= c);
                    assert(old_row[p as int].0 <= old_row[k2 - 1].0);
                } else if k1 == p {
                    assert(old_row[p as int].0 <= old_row[k2 - 1].0);
                    assert(old_row[p as int].0 != c);
                } else {
                    assert(old_row[k1 - 1].0 < old_row[k2 - 1].0);
                }
            }
            assert forall|k: int| 0 <= k < nr.len() implies (#[trigger] nr[k]).0 < ncols@ by {
                if k > p {
                    assert(nr[k] == old_row[k - 1]);
                }
            }
            assert forall|j: int| #[trigger] row_at(nr, j) == if j == c {
                Some(w)
            } else {
                row_at(old_row, j)
            } by {
                if j == c {
                    lemma_row_at_sorted(nr, ncols@, p as int);
                } else if row_has(old_row, j) {
                    let k = choose|k: int| 0 <= k < old_row.len() && (#[trigger] old_row[k]).0 as int == j;
                    lemma_row_at_sorted(old_row, ncols@, k);
                    if k < p {
                        lemma_row_at_sorted(nr, ncols@, k);
                    } else {
                        assert(nr[k + 1] == old_row[k]);
                        lemma_row_at_sorted(nr, ncols@, k + 1);
                    }
                } else {
                    lemma_row_at_outside(old_row, j);
                    assert forall|k: int| 0 <= k < nr.len() implies (#[trigger] nr[k]).0 as int != j by {
                        if k < p {
                            assert(old_row[k].0 as int != j);
                        } else if k > p {
                            assert(nr[k] == old_row[k - 1]);
                            assert(old_row[k - 1].0 as int != j);
                        }
                    }
                    lemma_row_at_outside(nr, j);
                }
            }
        }
    }
}

/// The value stored for column `c` in a row, found by a scan.
pub fn row_get<T: Copy>(row: &Vec<(usize, T)>, ncols: Ghost<nat>, c: usize) -> (r: Option<T>)
    requires
        row_wf(row@, ncols@),
    ensures
        r == row_at(row@, c as int),
{
    let mut k: usize = 0;
    while k < row.len()
        invariant
            row_wf(row@, ncols@),
            k <= row@.len(),
            forall|kk: int| 0 <= kk < k ==> (#[trigger] row@[kk]).0 != c,
        decreases row@.len() - k,
    {
        if row[k].0 == c {
            proof {
                lemma_row_at_sorted(row@, ncols@, k as int);
            }
            return Some(row[k].1);
        }
        k += 1;
    }
    proof {
        lemma_row_at_outside(row@, c as int);
    }
    None
}

/// Combines `v` into the entry of column `c` with `f(old, v)`, or stores
/// `v` there when the entry is absent.
fn combine_into_row<T: Copy, F: Fn(T, T) -> T>(row: &mut Vec<(usize, T)>, ncols: Ghost<nat>, c: usize, v: T, f: &F)
    requires
        row_wf(old(row)@, ncols@),
        c < ncols@,
        forall|x: T, y: T| f.requires((x, y)),
    ensures
        row_wf(final(row)@, ncols@),
        forall|j: int| j != c ==> #[trigger] row_at(final(row)@, j) == row_at(old(row)@, j),
        row_at(final(row)@, c as int) is Some,
        row_at(old(row)@, c as int) is None ==> row_at(final(row)@, c as int) == Some(v),
        row_at(old(row)@, c as int) is Some ==> f.ensures(
            (row_at(old(row)@, c as int)->Some_0, v),
            row_at(final(row)@, c as int)->Some_0,
        ),
{
    let ghost old_row = row@;
    let mut p: usize = 0;
    while p < row.len() && row[p].0 < c
        invariant
            p <= row@.len(),
            row@ == old_row,
            forall|k: int| 0 <= k < p ==> (#[trigger] row@[k]).0 < c,
        decreases row@.len() - p,
    {
        p += 1;
    }
    if p < row.len() && row[p].0 == c {
        let x = row[p].1;
        proof {
            lemma_row_at_sorted(old_row, ncols@, p as int);
        }
        let z = f(x, v);
        row.set(p, (c, z));
        proof {
            let nr = row@;
            lemma_row_at_sorted(nr, ncols@, p as int);
            assert forall|j: int| j != c implies #[trigger] row_at(nr, j) == row_at(old_row, j) by {
                if row_has(old_row, j) {
                    let k = choose|k: int| 0 <= k < old_row.len() && (#[trigger] old_row[k]).0 as int == j;
                    lemma_row_at_sorted(old_row, ncols@, k);
                    lemma_row_at_sorted(nr, ncols@, k);
                } else {
                    lemma_row_at_outside(old_row, j);
                    assert forall|k: int| 0 <= k < nr.len() implies (#[trigger] nr[k]).0 as int != j by {
                        assert(old_row[k].0 as int != j);
                    }
                    lemma_row_at_outside(nr, j);
                }
            }
        }
    } else {
        proof {
            assert forall|k: int| 0 <= k < old_row.len() implies (#[trigger] old_row[k]).0 as int != c by {
                if k > p {
                    assert(old_row[p as int].0 < old_row[k].0);
                }
            }
            lemma_row_at_outside(old_row, c as int);
        }
        row.insert(p, (c, v));
        proof {
            let nr = row@;
            assert(nr == old_row.insert(p as int, (c, v)));
            assert forall|k1: int, k2: int| 0 <= k1 < k2 < nr.len() implies (#[trigger] nr[k1]).0 < (#[trigger] nr[k2]).0 by {
                if k2 < p {
                } else if k2 == p {
                } else if k1 < p {
                    assert(old_row[p as int].0 >= c);
                    assert(old_row[p as int].0 <= old_row[k2 - 1].0);
                } else if k1 == p {
                    assert(old_row[p as int].0 <= old_row[k2 - 1].0);
                    assert(old_row[p as int].0 != c);
                } else {
                    assert(old_row[k1 - 1].0 < old_row[k2 - 1].0);
                }
            }
            assert forall|k: int| 0 <= k < nr.len() implies (#[trigger] nr[k]).0 < ncols@ by {
                if k > p {
                    assert(nr[k] == old_row[k - 1]);
                }
            }
            lemma_row_at_sorted(nr, ncols@, p as int);
            assert forall|j: int| j != c implies #[trigger] row_at(nr, j) == row_at(old_row, j) by {
                if row_has(old_row, j) {
                    let k = choose|k: int| 0 <= k < old_row.len() && (#[trigger] old_row[k]).0 as int == j;
                    lemma_row_at_sorted(old_row, ncols@, k);
                    if k < p {
                        lemma_row_at_sorted(nr, ncols@, k);
                    } else {
                        assert(nr[k + 1] == old_row[k]);
                        lemma_row_at_sorted(nr, ncols@, k + 1);
                    }
                } else {
                    lemma_row_at_outside(old_row, j);
                    assert forall|k: int| 0 <= k < nr.len() implies (#[trigger] nr[k]).0 as int != j by {
                        if k < p {
                            assert(old_row[k].0 as int != j);
                        } else if k > p {
                            assert(nr[k] == old_row[k - 1]);
                            assert(old_row[k - 1].0 as int != j);
                        }
                    }
                    lemma_row_at_outside(nr, j);
                }
            }
        }
    }
}

impl<T: Copy> SparseMatrix<T> {
    /// The matrix with `f` applied to every stored entry; positions without
    /// an entry stay empty (a scalar multiple is `f = |v| v * a`).
    pub fn map_entries<F: Fn(T) -> T>(&self, f: &F) -> (r: SparseMatrix<T>)
        requires
            self.wf(),
            forall|x: T| f.requires((x,)),
        ensures
            r.wf(),
            r.nrows == self.nrows,
            r.ncols == self.ncols,
            forall|i: int, j: int| (#[trigger] r.at(i, j) is Some) == (self.at(i, j) is Some),
            forall|i: int, j: int| self.at(i, j) is Some ==> f.ensures((self.at(i, j)->Some_0,), #[trigger] r.at(i, j)->Some_0),
    {
        let mut rows: Vec<Vec<(usize, T)>> = Vec::new();
        let mut i: usize = 0;
        while i < self.rows.len()
            invariant
                self.wf(),
                forall|x: T| f.requires((x,)),
                i <= self.rows@.len(),
                rows@.len() == i,
                forall|ii: int| 0 <= ii < i ==> (#[trigger] rows@[ii])@.len() == self.rows@[ii]@.len(),
                forall|ii: int, k: int| 0 <= ii < i && 0 <= k < rows@[ii]@.len() ==> (#[trigger] rows@[ii]@[k]).0 == self.rows@[ii]@[k].0
                    && f.ensures((self.rows@[ii]@[k].1,), rows@[ii]@[k].1),
            decreases self.rows@.len() - i,
        {
            let row = &self.rows[i];
            let mut out: Vec<(usize, T)> = Vec::new();
            let mut k: usize = 0;
            while k < row.len()
                invariant
                    forall|x: T| f.requires((x,)),
                    k <= row@.len(),
                    out@.len() == k,
                    forall|kk: int| 0 <= kk < k ==> (#[trigger] out@[kk]).0 == row@[kk].0 && f.ensures((row@[kk].1,), out@[kk].1),
                decreases row@.len() - k,
            {
                let (c, x) = row[k];
                let y = f(x);
                out.push((c, y));
                k += 1;
            }
            rows.push(out);
            i += 1;
        }
        let r = SparseMatrix { nrows: self.nrows, ncols: self.ncols, rows };
        proof {
            assert forall|i: int| 0 <= i < r.rows@.len() implies row_wf(#[trigger] r.rows@[i]@, r.ncols as nat) by {
                let a = self.rows@[i]@;
                let b = r.rows@[i]@;
                assert(row_wf(a, self.ncols as nat));
                assert forall|k1: int, k2: int| 0 <= k1 < k2 < b.len() implies (#[trigger] b[k1]).0 < (#[trigger] b[k2]).0 by {
                    assert(a[k1].0 < a[k2].0);
                }
                assert forall|k: int| 0 <= k < b.len() implies (#[trigger] b[k]).0 < r.ncols by {
                    assert(a[k].0 < self.ncols);
                }
            }
            assert forall|i: int, j: int| 0 <= i < r.rows@.len() implies (#[trigger] r.at(i, j) is Some) == (self.at(i, j) is Some)
                && (self.at(i, j) is Some ==> f.ensures((self.at(i, j)->Some_0,), r.at(i, j)->Some_0)) by {
                let a = self.rows@[i]@;
                let b = r.rows@[i]@;
                assert(row_wf(a, self.ncols as nat));
                assert(row_wf(b, r.ncols as nat));
                if row_has(a, j) {
                    let k = choose|k: int| 0 <= k < a.len() && (#[trigger] a[k]).0 as int == j;
                    lemma_row_at_sorted(a, self.ncols as nat, k);
                    lemma_row_at_sorted(b, r.ncols as nat, k);
                } else {
                    lemma_row_at_outside(a, j);
                    assert forall|k: int| 0 <= k < b.len() implies (#[trigger] b[k]).0 as int != j by {
                        assert(a[k].0 as int != j);
                    }
                    lemma_row_at_outside(b, j);
                }
            }
        }
        r
    }

    /// The element-wise product under `f`: an entry wherever both matrices
    /// have one, valued `f(a, b)`; elsewhere none.
    pub fn hadamard_with<F: Fn(T, T) -> T>(&self, other: &SparseMatrix<T>, f: &F) -> (r: Result<SparseMatrix<T>, MatrixError>)
        requires
            self.wf(),
            other.wf(),
            forall|x: T, y: T| f.requires((x, y)),
        ensures
            r is Ok <==> self.nrows == other.nrows && self.ncols == other.ncols,
            r is Err ==> r == Err::<SparseMatrix<T>, MatrixError>(MatrixError::ShapeMismatch),
            r is Ok ==> {
                let m = r->Ok_0;
                &&& m.wf()
                &&& m.nrows == self.nrows
                &&& m.ncols == self.ncols
                &&& forall|i: int, j: int| (#[trigger] m.at(i, j) is Some) == (self.at(i, j) is Some && other.at(i, j) is Some)
                &&& forall|i: int, j: int| #[trigger] m.at(i, j) is Some ==> f.ensures(
                    (self.at(i, j)->Some_0, other.at(i, j)->Some_0),
                    m.at(i, j)->Some_0,
                )
            },
    {
        if self.nrows != other.nrows || self.ncols != other.ncols {
            return Err(MatrixError::ShapeMismatch);
        }
        let mut rows: Vec<Vec<(usize, T)>> = Vec::new();
        let mut i: usize = 0;
        while i < self.rows.len()
            invariant
                self.wf(),
                other.wf(),
                self.nrows == other.nrows,
                self.ncols == other.ncols,
                forall|x: T, y: T| f.requires((x, y)),
                i <= self.rows@.len(),
                rows@.len() == i,
                forall|ii: int| 0 <= ii < i ==> row_wf(#[trigger] rows@[ii]@, self.ncols as nat),
                forall|ii: int, j: int| 0 <= ii < i ==> (#[trigger] row_at(rows@[ii]@, j) is Some)
                    == (row_at(self.rows@[ii]@, j) is Some && row_at(other.rows@[ii]@, j) is Some),
                forall|ii: int, j: int| 0 <= ii < i && (#[trigger] row_at(rows@[ii]@, j) is Some) ==> f.ensures(
                    (row_at(self.rows@[ii]@, j)->Some_0, row_at(other.rows@[ii]@, j)->Some_0),
                    row_at(rows@[ii]@, j)->Some_0,
                ),
            decreases self.rows@.len() - i,
        {
            let row = &self.rows[i];
            let orow = &other.rows[i];
            let ghost a = row@;
            let ghost b = orow@;
            proof {
                assert(row_wf(a, self.ncols as nat));
                assert(row_wf(b, self.ncols as nat));
            }
            let mut out: Vec<(usize, T)> = Vec::new();
            let mut k: usize = 0;
            while k < row.len()
                invariant
                    forall|x: T, y: T| f.requires((x, y)),
                    row_wf(a, self.ncols as nat),
                    row_wf(b, self.ncols as nat),
                    a == row@,
                    b == orow@,
                    k <= a.len(),
                    row_wf(out@, self.ncols as nat),
                    forall|kk: int| 0 <= kk < out@.len() ==> #[trigger] row_has(a.take(k as int), out@[kk].0 as int),
                    forall|j: int| (#[trigger] row_at(out@, j) is Some) == (row_at(a.take(k as int), j) is Some && row_at(b, j) is Some),
                    forall|j: int| #[trigger] row_at(out@, j) is Some ==> f.ensures(
                        (row_at(a.take(k as int), j)->Some_0, row_at(b, j)->Some_0),
                        row_at(out@, j)->Some_0,
                    ),
                decreases a.len() - k,
            {
                let (c, x) = row[k];
                let ghost pre = a.take(k as int);
                proof {
                    assert(a.take(k + 1) =~= pre.push((c, x)));
                    assert forall|j: int| #[trigger] row_at(a.take(k + 1), j) == if j == c { Some(x) } else { row_at(pre, j) } by {
                        lemma_row_at_push(pre, (c, x), j);
                    }
                }
                match row_get(orow, Ghost(self.ncols as nat), c) {
                    Some(y) => {
                        let z = f(x, y);
                        let ghost before = out@;
                        proof {
                            assert forall|kk: int| 0 <= kk < before.len() implies (#[trigger] before[kk]).0 < c by {
                                assert(row_has(pre, before[kk].0 as int));
                                let w = choose|w: int| 0 <= w < pre.len() && (#[trigger] pre[w]).0 as int == before[kk].0 as int;
                                assert(a[w].0 < a[k as int].0);
                            }
                        }
                        out.push((c, z));
                        proof {
                            assert forall|kk: int| 0 <= kk < out@.len() implies #[trigger] row_has(a.take(k + 1), out@[kk].0 as int) by {
                                if kk < before.len() {
                                    assert(row_has(pre, before[kk].0 as int));
                                    let w = choose|w: int| 0 <= w < pre.len() && (#[trigger] pre[w]).0 as int == before[kk].0 as int;
                                    assert(a.take(k + 1)[w] == pre[w]);
                                } else {
                                    assert(a.take(k + 1)[k as int] == (c, x));
                                }
                            }
                            assert forall|j: int| #[trigger] row_at(out@, j) == if j == c { Some(z) } else { row_at(before, j) } by {
                                lemma_row_at_push(before, (c, z), j);
                            }
                        }
                    },
                    None => {
                        proof {
                            assert forall|kk: int| 0 <= kk < out@.len() implies #[trigger] row_has(a.take(k + 1), out@[kk].0 as int) by {
                                assert(row_has(pre, out@[kk].0 as int));
                                let w = choose|w: int| 0 <= w < pre.len() && (#[trigger] pre[w]).0 as int == out@[kk].0 as int;
                                assert(a.take(k + 1)[w] == pre[w]);
                            }
                        }
                    },
                }
                k += 1;
            }
            proof {
                assert(a.take(a.len() as int) =~= a);
            }
            rows.push(out);
            i += 1;
        }
        Ok(SparseMatrix { nrows: self.nrows, ncols: self.ncols, rows })
    }
}

/// The value at a position after combining entries `x` of one matrix and
/// `y` of another with `f`: `f(x, y)` where both are present, the one that
/// is present otherwise.
pub open spec fn combined<T, F: Fn(T, T) -> T>(f: F, x: Option<T>, y: Option<T>, z: Option<T>) -> bool {
    match (x, y) {
        (None, None) => z is None,
        (Some(x), None) => z == Some(x),
        (None, Some(y)) => z == Some(y),
        (Some(x), Some(y)) => z is Some && f.ensures((x, y), z->Some_0),
    }
}

/// Combines the entries of `b` into `row` with `f`.
fn combine_rows<T: Copy, F: Fn(T, T) -> T>(row: &mut Vec<(usize, T)>, b: &Vec<(usize, T)>, ncols: Ghost<nat>, f: &F)
    requires
        row_wf(old(row)@, ncols@),
        row_wf(b@, ncols@),
        forall|x: T, y: T| f.requires((x, y)),
    ensures
        row_wf(final(row)@, ncols@),
        forall|j: int| #[trigger] combined(*f, row_at(old(row)@, j), row_at(b@, j), row_at(final(row)@, j)),
{
    let ghost a = row@;
    let mut k: usize = 0;
    while k < b.len()
        invariant
            row_wf(row@, ncols@),
            row_wf(b@, ncols@),
            forall|x: T, y: T| f.requires((x, y)),
            k <= b@.len(),
            forall|j: int| #[trigger] combined(*f, row_at(a, j), row_at(b@.take(k as int), j), row_at(row@, j)),
        decreases b@.len() - k,
    {
        let (c, y) = b[k];
        let ghost pre = b@.take(k as int);
        let ghost before = row@;
        proof {
            assert forall|kk: int| 0 <= kk < pre.len() implies (#[trigger] pre[kk]).0 as int != c by {
                assert(b@[kk].0 < b@[k as int].0);
            }
            lemma_row_at_outside(pre, c as int);
            assert(b@.take(k + 1) =~= pre.push((c, y)));
            assert(row_at(before, c as int) == row_at(a, c as int)) by {
                assert(combined(*f, row_at(a, c as int), row_at(pre, c as int), row_at(before, c as int)));
            }
        }
        combine_into_row(row, ncols, c, y, f);
        proof {
            assert forall|j: int| #[trigger] combined(*f, row_at(a, j), row_at(b@.take(k + 1), j), row_at(row@, j)) by {
                lemma_row_at_push(pre, (c, y), j);
                assert(combined(*f, row_at(a, j), row_at(pre, j), row_at(before, j)));
            }
        }
        k += 1;
    }
    proof {
        assert(b@.take(b@.len() as int) =~= b@);
    }
}

impl<T: Copy> SparseMatrix<T> {
    /// The entry-wise sum under `f`: `f(a, b)` where both matrices have an
    /// entry, the single entry where one has, none elsewhere.
    pub fn add_with<F: Fn(T, T) -> T>(&self, other: &SparseMatrix<T>, f: &F) -> (r: Result<SparseMatrix<T>, MatrixError>)
        requires
            self.wf(),
            other.wf(),
            forall|x: T, y: T| f.requires((x, y)),
        ensures
            r is Ok <==> self.nrows == other.nrows && self.ncols == other.ncols,
            r is Err ==> r == Err::<SparseMatrix<T>, MatrixError>(MatrixError::ShapeMismatch),
            r is Ok ==> {
                let m = r->Ok_0;
                &&& m.wf()
                &&& m.nrows == self.nrows
                &&& m.ncols == self.ncols
                &&& forall|i: int, j: int| #[trigger] combined(*f, self.at(i, j), other.at(i, j), m.at(i, j))
            },
    {
        if self.nrows != other.nrows || self.ncols != other.ncols {
            return Err(MatrixError::ShapeMismatch);
        }
        let mut rows: Vec<Vec<(usize, T)>> = Vec::new();
        let mut i: usize = 0;
        while i < self.rows.len()
            invariant
                self.wf(),
                other.wf(),
                self.nrows == other.nrows,
                self.ncols == other.ncols,
                forall|x: T, y: T| f.requires((x, y)),
                i <= self.rows@.len(),
                rows@.len() == i,
                forall|ii: int| 0 <= ii < i ==> row_wf(#[trigger] rows@[ii]@, self.ncols as nat),
                forall|ii: int, j: int| 0 <= ii < i ==> #[trigger] combined(*f, row_at(self.rows@[ii]@, j), row_at(other.rows@[ii]@, j), row_at(rows@[ii]@, j)),
            decreases self.rows@.len() - i,
        {
            let mut row: Vec<(usize, T)> = Vec::new();
            append_shifted(&mut row, &self.rows[i], 0);
            proof {
                assert(row@ =~= self.rows@[i as int]@) by {
                    assert(Seq::<(usize, T)>::empty() + shifted(self.rows@[i as int]@, 0) =~= self.rows@[i as int]@);
                }
                assert(row_wf(self.rows@[i as int]@, self.ncols as nat));
                assert(row_wf(other.rows@[i as int]@, other.ncols as nat));
            }
            combine_rows(&mut row, &other.rows[i], Ghost(self.ncols as nat), f);
            rows.push(row);
            i += 1;
        }
        let m = SparseMatrix { nrows: self.nrows, ncols: self.ncols, rows };
        proof {
            assert forall|i: int, j: int| #[trigger] combined(*f, self.at(i, j), other.at(i, j), m.at(i, j)) by {
                if !(0 <= i < self.nrows) {
                }
            }
        }
        Ok(m)
    }
}

/// Entry `k` of `b` stands at the column of entry `k` of `a`.
pub open spec fn same_columns<T>(a: Seq<(usize, T)>, b: Seq<(usize, T)>) -> bool {
    &&& a.len() == b.len()
    &&& forall|k: int| 0 <= k < a.len() ==> (#[trigger] b[k]).0 == a[k].0
}

/// A row with the columns of a well-formed row is well formed, and holds
/// an entry at exactly the same columns.
proof fn lemma_same_columns<T>(a: Seq<(usize, T)>, b: Seq<(usize, T)>, ncols: nat)
    requires
        row_wf(a, ncols),
        same_columns(a, b),
    ensures
        row_wf(b, ncols),
        forall|j: int| (#[trigger] row_at(b, j) is Some) == (row_at(a, j) is Some),
        forall|k: int| 0 <= k < a.len() ==> #[trigger] row_at(b, a[k].0 as int) == Some(b[k].1),
{
    assert forall|k1: int, k2: int| 0 <= k1 < k2 < b.len() implies (#[trigger] b[k1]).0 < (#[trigger] b[k2]).0 by {
        assert(a[k1].0 < a[k2].0);
    }
    assert forall|k: int| 0 <= k < b.len() implies (#[trigger] b[k]).0 < ncols by {
        assert(a[k].0 < ncols);
    }
    assert forall|j: int| (#[trigger] row_at(b, j) is Some) == (row_at(a, j) is Some) by {
        if row_has(a, j) {
            let k = choose|k: int| 0 <= k < a.len() && (#[trigger] a[k]).0 as int == j;
            lemma_row_at_sorted(a, ncols, k);
            lemma_row_at_sorted(b, ncols, k);
        } else {
            lemma_row_at_outside(a, j);
            assert forall|k: int| 0 <= k < b.len() implies (#[trigger] b[k]).0 as int != j by {
                assert(a[k].0 as int != j);
            }
            lemma_row_at_outside(b, j);
        }
    }
    assert forall|k: int| 0 <= k < a.len() implies #[trigger] row_at(b, a[k].0 as int) == Some(b[k].1) by {
        lemma_row_at_sorted(b, ncols, k);
    }
}

impl<T: Copy> SparseMatrix<T> {
    /// The matrix with every stored entry `v` replaced by `times(v, a)`.
    pub fn scale_with<F: Fn(T, T) -> T>(&self, a: T, times: &F) -> (r: SparseMatrix<T>)
        requires
            self.wf(),
            forall|x: T, y: T| times.requires((x, y)),
        ensures
            r.wf(),
            r.nrows == self.nrows,
            r.ncols == self.ncols,
            forall|i: int, j: int| (#[trigger] r.at(i, j) is Some) == (self.at(i, j) is Some),
            forall|i: int, j: int| self.at(i, j) is Some ==> times.ensures((self.at(i, j)->Some_0, a), #[trigger] r.at(i, j)->Some_0),
    {
        let mut rows: Vec<Vec<(usize, T)>> = Vec::new();
        let mut i: usize = 0;
        while i < self.rows.len()
            invariant
                self.wf(),
                forall|x: T, y: T| times.requires((x, y)),
                i <= self.rows@.len(),
                rows@.len() == i,
                forall|ii: int| 0 <= ii < i ==> same_columns(self.rows@[ii]@, #[trigger] rows@[ii]@),
                forall|ii: int, k: int| 0 <= ii < i && 0 <= k < rows@[ii]@.len() ==> times.ensures((self.rows@[ii]@[k].1, a), (#[trigger] rows@[ii]@[k]).1),
            decreases self.rows@.len() - i,
        {
            let row = &self.rows[i];
            let mut out: Vec<(usize, T)> = Vec::new();
            let mut k: usize = 0;
            while k < row.len()
                invariant
                    forall|x: T, y: T| times.requires((x, y)),
                    k <= row@.len(),
                    out@.len() == k,
                    forall|kk: int| 0 <= kk < k ==> (#[trigger] out@[kk]).0 == row@[kk].0 && times.ensures((row@[kk].1, a), out@[kk].1),
                decreases row@.len() - k,
            {
                let (c, x) = row[k];
                let y = times(x, a);
                out.push((c, y));
                k += 1;
            }
            rows.push(out);
            i += 1;
        }
        let r = SparseMatrix { nrows: self.nrows, ncols: self.ncols, rows };
        proof {
            assert forall|i: int| 0 <= i < r.rows@.len() implies row_wf(#[trigger] r.rows@[i]@, r.ncols as nat) by {
                assert(row_wf(self.rows@[i]@, self.ncols as nat));
                lemma_same_columns(self.rows@[i]@, r.rows@[i]@, self.ncols as nat);
            }
            assert forall|i: int, j: int| 0 <= i < r.rows@.len() implies (#[trigger] r.at(i, j) is Some) == (self.at(i, j) is Some)
                && (self.at(i, j) is Some ==> times.ensures((self.at(i, j)->Some_0, a), r.at(i, j)->Some_0)) by {
                let sa = self.rows@[i]@;
                let sb = r.rows@[i]@;
                assert(row_wf(sa, self.ncols as nat));
                lemma_same_columns(sa, sb, self.ncols as nat);
                if row_has(sa, j) {
                    let k = choose|k: int| 0 <= k < sa.len() && (#[trigger] sa[k]).0 as int == j;
                    lemma_row_at_sorted(sa, self.ncols as nat, k);
                    assert(times.ensures((sa[k].1, a), (r.rows@[i]@[k]).1));
                    assert(row_at(sb, sa[k].0 as int) == Some(sb[k].1));
                    assert(self.at(i, j) == Some(sa[k].1));
                    assert(r.at(i, j) == Some(sb[k].1));
                } else {
                    lemma_row_at_outside(sa, j);
                }
            }
        }
        r
    }

    /// Each row divided by its sum under `plus` from `zero`, with `div`; a row
    /// whose sum `is_zero` is kept as it is. Stored positions do not change.
    pub fn normalise_rows_with<A: Fn(T, T) -> T, D: Fn(T, T) -> T, Z: Fn(T) -> bool>(
        &self,
        zero: T,
        plus: &A,
        div: &D,
        is_zero: &Z,
    ) -> (r: SparseMatrix<T>)
        requires
            self.wf(),
            forall|x: T, y: T| plus.requires((x, y)),
            forall|x: T, y: T| div.requires((x, y)),
            forall|x: T| is_zero.requires((x,)),
        ensures
            r.wf(),
            r.nrows == self.nrows,
            r.ncols == self.ncols,
            forall|i: int, j: int| (#[trigger] r.at(i, j) is Some) == (self.at(i, j) is Some),
            forall|i: int| 0 <= i < self.nrows ==> #[trigger] row_normalised(*plus, *div, *is_zero, zero, self.rows@[i]@, r.rows@[i]@),
    {
        let mut rows: Vec<Vec<(usize, T)>> = Vec::new();
        let mut i: usize = 0;
        while i < self.rows.len()
            invariant
                self.wf(),
                forall|x: T, y: T| plus.requires((x, y)),
                forall|x: T, y: T| div.requires((x, y)),
                forall|x: T| is_zero.requires((x,)),
                i <= self.rows@.len(),
                rows@.len() == i,
                forall|ii: int| 0 <= ii < i ==> same_columns(self.rows@[ii]@, #[trigger] rows@[ii]@),
                forall|ii: int| 0 <= ii < i ==> #[trigger] row_normalised(*plus, *div, *is_zero, zero, self.rows@[ii]@, rows@[ii]@),
            decreases self.rows@.len() - i,
        {
            let row = &self.rows[i];
            let mut total = zero;
            let ghost mut sums: Seq<T> = seq![zero];
            let mut k: usize = 0;
            while k < row.len()
                invariant
                    forall|x: T, y: T| plus.requires((x, y)),
                    k <= row@.len(),
                    sums.len() == k + 1,
                    sums[0] == zero,
                    sums.last() == total,
                    forall|kk: int| 0 <= kk < k ==> #[trigger] plus.ensures((sums[kk], row@[kk].1), sums[kk + 1]),
                decreases row@.len() - k,
            {
                let next = plus(total, row[k].1);
                proof {
                    let s0 = sums;
                    sums = sums.push(next);
                    assert forall|kk: int| 0 <= kk < k + 1 implies #[trigger] plus.ensures((sums[kk], row@[kk].1), sums[kk + 1]) by {
                        if kk < k {
                            assert(sums[kk] == s0[kk] && sums[kk + 1] == s0[kk + 1]);
                        }
                    }
                }
                total = next;
                k += 1;
            }
            let keep = is_zero(total);
            let mut out: Vec<(usize, T)> = Vec::new();
            let mut k: usize = 0;
            while k < row.len()
                invariant
                    forall|x: T, y: T| div.requires((x, y)),
                    k <= row@.len(),
                    out@.len() == k,
                    forall|kk: int| 0 <= kk < k ==> (#[trigger] out@[kk]).0 == row@[kk].0 && if keep {
                        out@[kk].1 == row@[kk].1
                    } else {
                        div.ensures((row@[kk].1, total), out@[kk].1)
                    },
                decreases row@.len() - k,
            {
                let (c, x) = row[k];
                let y = if keep { x } else { div(x, total) };
                out.push((c, y));
                k += 1;
            }
            proof {
                assert(row_normalised_by(*plus, *div, *is_zero, zero, row@, out@, sums, keep));
            }
            rows.push(out);
            i += 1;
        }
        let r = SparseMatrix { nrows: self.nrows, ncols: self.ncols, rows };
        proof {
            assert forall|i: int| 0 <= i < r.rows@.len() implies row_wf(#[trigger] r.rows@[i]@, r.ncols as nat) by {
                assert(row_wf(self.rows@[i]@, self.ncols as nat));
                lemma_same_columns(self.rows@[i]@, r.rows@[i]@, self.ncols as nat);
            }
            assert forall|i: int, j: int| 0 <= i < r.rows@.len() implies (#[trigger] r.at(i, j) is Some) == (self.at(i, j) is Some) by {
                assert(row_wf(self.rows@[i]@, self.ncols as nat));
                lemma_same_columns(self.rows@[i]@, r.rows@[i]@, self.ncols as nat);
            }
        }
        r
    }
}

/// Row `b` is row `a` normalised under the given operations.
pub open spec fn row_normalised<T, A: Fn(T, T) -> T, D: Fn(T, T) -> T, Z: Fn(T) -> bool>(
    plus: A,
    div: D,
    is_zero: Z,
    zero: T,
    a: Seq<(usize, T)>,
    b: Seq<(usize, T)>,
) -> bool {
    exists|sums: Seq<T>, keep: bool| #[trigger] row_normalised_by(plus, div, is_zero, zero, a, b, sums, keep)
}

/// Row `b` is row `a` normalised: `sums` are the running sums of `a` under
/// `plus` from `zero`; when `is_zero` says `keep` of the full sum the values
/// stay, otherwise each value `v` becomes `div(v, sum)`.
pub open spec fn row_normalised_by<T, A: Fn(T, T) -> T, D: Fn(T, T) -> T, Z: Fn(T) -> bool>(
    plus: A,
    div: D,
    is_zero: Z,
    zero: T,
    a: Seq<(usize, T)>,
    b: Seq<(usize, T)>,
    sums: Seq<T>,
    keep: bool,
) -> bool {
    &&& sums.len() == a.len() + 1
    &&& sums[0] == zero
    &&& forall|k: int| 0 <= k < a.len() ==> #[trigger] plus.ensures((sums[k], a[k].1), sums[k + 1])
    &&& is_zero.ensures((sums.last(),), keep)
    &&& same_columns(a, b)
    &&& forall|k: int| 0 <= k < a.len() ==> if keep {
        (#[trigger] b[k]).1 == a[k].1
    } else {
        div.ensures((a[k].1, sums.last()), b[k].1)
    }
}

/// Some triplet of `ts` sits at `(i, j)`.
pub open spec fn has_triplet(ts: Seq<(usize, usize, u64)>, i: int, j: int) -> bool {
    exists|k: int| 0 <= k < ts.len() && (#[trigger] ts[k]).0 as int == i && ts[k].1 as int == j
}

/// Sum of the values of the triplets of `ts` at `(i, j)`.
pub open spec fn triplet_sum(ts: Seq<(usize, usize, u64)>, i: int, j: int) -> int
    decreases ts.len(),
{
    if ts.len() == 0 {
        0
    } else {
        let t = ts.last();
        triplet_sum(ts.drop_last(), i, j) + if t.0 as int == i && t.1 as int == j {
            t.2 as int
        } else {
            0
        }
    }
}

/// Sum of the values of all triplets.
pub open spec fn weight_total(ts: Seq<(usize, usize, u64)>) -> int
    decreases ts.len(),
{
    if ts.len() == 0 {
        0
    } else {
        weight_total(ts.drop_last()) + ts.last().2
    }
}

proof fn lemma_triplet_sum_bound(ts: Seq<(usize, usize, u64)>, i: int, j: int)
    ensures
        0 <= triplet_sum(ts, i, j) <= weight_total(ts),
    decreases ts.len(),
{
    if ts.len() > 0 {
        lemma_triplet_sum_bound(ts.drop_last(), i, j);
    }
}

proof fn lemma_triplet_sum_absent(ts: Seq<(usize, usize, u64)>, i: int, j: int)
    requires
        !has_triplet(ts, i, j),
    ensures
        triplet_sum(ts, i, j) == 0,
    decreases ts.len(),
{
    if ts.len() > 0 {
        let t = ts.drop_last();
        assert(!has_triplet(t, i, j)) by {
            if has_triplet(t, i, j) {
                let w = choose|w: int| 0 <= w < t.len() && (#[trigger] t[w]).0 as int == i && t[w].1 as int == j;
                assert(ts[w] == t[w]);
            }
        }
        assert(ts[ts.len() - 1] == ts.last());
        lemma_triplet_sum_absent(t, i, j);
    }
}

pub proof fn lemma_weight_total_prefix(ts: Seq<(usize, usize, u64)>, k: int)
    requires
        0 <= k <= ts.len(),
    ensures
        weight_total(ts.take(k)) <= weight_total(ts),
    decreases ts.len(),
{
    if k < ts.len() {
        lemma_weight_total_prefix(ts.drop_last(), k);
        assert(ts.drop_last().take(k) =~= ts.take(k));
    } else {
        assert(ts.take(k) =~= ts);
    }
}

impl SparseMatrix<u64> {
    /// The matrix whose entry at `(i, j)` is the sum of the values of the
    /// triplets `(i, j, v)` of `ts`; only positions that some triplet names
    /// are stored.
    pub fn from_triplets(nrows: usize, ncols: usize, ts: &Vec<(usize, usize, u64)>) -> (r: SparseMatrix<u64>)
        requires
            forall|k: int| 0 <= k < ts@.len() ==> (#[trigger] ts@[k]).0 < nrows && ts@[k].1 < ncols,
            weight_total(ts@) <= u64::MAX,
        ensures
            r.wf(),
            r.nrows == nrows,
            r.ncols == ncols,
            forall|i: int, j: int| #[trigger] r.at(i, j) == if has_triplet(ts@, i, j) {
                Some(triplet_sum(ts@, i, j) as u64)
            } else {
                None::<u64>
            },
            forall|i: int| 0 <= i < nrows ==> row_total(#[trigger] r.rows@[i]@) == row_sum_of(ts@, i),
    {
        let empty = SparseMatrix::<u64>::zeros(nrows, ncols);
        let mut rows = empty.rows;
        let mut k: usize = 0;
        while k < ts.len()
            invariant
                forall|kk: int| 0 <= kk < ts@.len() ==> (#[trigger] ts@[kk]).0 < nrows && ts@[kk].1 < ncols,
                weight_total(ts@) <= u64::MAX,
                k <= ts@.len(),
                rows@.len() == nrows,
                forall|i: int| 0 <= i < nrows ==> row_wf(#[trigger] rows@[i]@, ncols as nat),
                forall|i: int| 0 <= i < nrows ==> row_total(#[trigger] rows@[i]@) == row_sum_of(ts@.take(k as int), i),
                forall|i: int, j: int| 0 <= i < nrows ==> #[trigger] row_at(rows@[i]@, j) == if has_triplet(ts@.take(k as int), i, j) {
                    Some(triplet_sum(ts@.take(k as int), i, j) as u64)
                } else {
                    None::<u64>
                },
            decreases ts@.len() - k,
        {
            let (ti, tj, tv) = ts[k];
            let ghost pre = ts@.take(k as int);
            let ghost post = ts@.take(k + 1);
            proof {
                assert(post.drop_last() =~= pre);
                lemma_weight_total_prefix(ts@, k + 1);
                lemma_triplet_sum_bound(post, ti as int, tj as int);
                assert(post.last() == (ti, tj, tv));
                assert(forall|i: int, j: int| #[trigger] triplet_sum(post, i, j) == triplet_sum(pre, i, j) + if i == ti && j == tj {
                    tv as int
                } else {
                    0
                });
                lemma_triplet_sum_bound(pre, ti as int, tj as int);
                assert(row_at(rows@[ti as int]@, tj as int) is Some ==> row_at(rows@[ti as int]@, tj as int)->Some_0 == triplet_sum(pre, ti as int, tj as int));
            }
            let mut row = Vec::new();
            std::mem::swap(&mut row, &mut rows[ti]);
            add_to_row(&mut row, Ghost(ncols as nat), tj, tv);
            std::mem::swap(&mut row, &mut rows[ti]);
            proof {
                assert forall|i: int| 0 <= i < nrows implies row_total(#[trigger] rows@[i]@) == row_sum_of(post, i) by {
                    assert(row_sum_of(post, i) == row_sum_of(pre, i) + if ti as int == i { tv as int } else { 0 });
                }
                assert forall|i: int, j: int| 0 <= i < nrows implies #[trigger] row_at(rows@[i]@, j) == if has_triplet(post, i, j) {
                    Some(triplet_sum(post, i, j) as u64)
                } else {
                    None::<u64>
                } by {
                    if !has_triplet(pre, i, j) {
                        lemma_triplet_sum_absent(pre, i, j);
                    }
                    if has_triplet(pre, i, j) {
                        let w = choose|w: int| 0 <= w < pre.len() && (#[trigger] pre[w]).0 as int == i && pre[w].1 as int == j;
                        assert(post[w] == pre[w]);
                    }
                    if i == ti && j == tj {
                        assert(post[k as int] == ts@[k as int]);
                    } else if has_triplet(post, i, j) {
                        let w = choose|w: int| 0 <= w < post.len() && (#[trigger] post[w]).0 as int == i && post[w].1 as int == j;
                        assert(w < k);
                        assert(pre[w] == post[w]);
                    }
                }
            }
            k += 1;
        }
        assert(ts@.take(ts@.len() as int) =~= ts@);
        SparseMatrix { nrows, ncols, rows }
    }
}

} // verus!
