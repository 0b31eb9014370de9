//! Assembly of the transition matrix from the dependency, contribution and
//! maintenance matrices. The arithmetic on the scalar type is handed in, so
//! the same assembly serves any numeric representation.

use crate::matrix::{combined, hstacked, row_normalised, transposed, vstacked, MatrixModel, SparseMatrix};
use crate::types::{HyperParams, Weight};
use vstd::prelude::*;

verus! {

/// The five edge weights, as values of the matrices' scalar type.
struct Factors<T> {
    depend: T,
    maintain: T,
    contribution: T,
    contribution_prime: T,
    maintain_prime: T,
}

/// `r` is `m` with every stored value `v` replaced by `times(v, a)`.
pub open spec fn scaled_by<T, F: Fn(T, T) -> T>(times: F, a: T, m: SparseMatrix<T>, r: SparseMatrix<T>) -> bool {
    &&& r.nrows == m.nrows
    &&& r.ncols == m.ncols
    &&& forall|i: int, j: int| (#[trigger] r.at(i, j) is Some) == (m.at(i, j) is Some)
    &&& forall|i: int, j: int| m.at(i, j) is Some ==> times.ensures((m.at(i, j)->Some_0, a), #[trigger] r.at(i, j)->Some_0)
}

/// `r` is the entry-wise sum of `a` and `b` under `plus`.
pub open spec fn summed_by<T, F: Fn(T, T) -> T>(plus: F, a: SparseMatrix<T>, b: SparseMatrix<T>, r: SparseMatrix<T>) -> bool {
    &&& r.nrows == a.nrows
    &&& r.ncols == a.ncols
    &&& forall|i: int, j: int| #[trigger] combined(plus, a.at(i, j), b.at(i, j), r.at(i, j))
}

/// `r` is the element-wise product of `a` and `b` under `times`.
pub open spec fn multiplied_by<T, F: Fn(T, T) -> T>(times: F, a: SparseMatrix<T>, b: SparseMatrix<T>, r: SparseMatrix<T>) -> bool {
    &&& r.nrows == a.nrows
    &&& r.ncols == a.ncols
    &&& forall|i: int, j: int| (#[trigger] r.at(i, j) is Some) == (a.at(i, j) is Some && b.at(i, j) is Some)
    &&& forall|i: int, j: int| #[trigger] r.at(i, j) is Some ==> times.ensures((a.at(i, j)->Some_0, b.at(i, j)->Some_0), r.at(i, j)->Some_0)
}

/// `r` is `m` with each row normalised under the given operations.
pub open spec fn normalised_by<T, A: Fn(T, T) -> T, D: Fn(T, T) -> T, Z: Fn(T) -> bool>(
    plus: A,
    div: D,
    is_zero: Z,
    zero: T,
    m: SparseMatrix<T>,
    r: SparseMatrix<T>,
) -> bool {
    &&& r.nrows == m.nrows
    &&& r.ncols == m.ncols
    &&& forall|i: int| 0 <= i < m.nrows ==> #[trigger] row_normalised(plus, div, is_zero, zero, m.rows@[i]@, r.rows@[i]@)
}

/// The intermediate values of an assembly: the factors as scalars and the
/// matrices built from the inputs on the way to the transition matrix.
pub struct Assembly<T> {
    pub depend: T,
    pub maintain: T,
    pub contribution: T,
    pub contribution_prime: T,
    pub maintain_prime: T,
    pub dep_norm: SparseMatrix<T>,
    pub project_to_project: SparseMatrix<T>,
    pub maint_norm: SparseMatrix<T>,
    pub maintained: SparseMatrix<T>,
    pub contrib_norm: SparseMatrix<T>,
    pub contributed: SparseMatrix<T>,
    pub project_to_account: SparseMatrix<T>,
    pub contrib_t: SparseMatrix<T>,
    pub contrib_t_norm: SparseMatrix<T>,
    pub maint_t: SparseMatrix<T>,
    pub maintained_t: SparseMatrix<T>,
    pub weighted: SparseMatrix<T>,
    pub contributed_t: SparseMatrix<T>,
    pub account_to_project: SparseMatrix<T>,
    pub joined: SparseMatrix<T>,
}

/// `t` is the transition matrix of the inputs, by the steps recorded in `x`:
/// `t = norm([[d * norm(D), m * norm(M) + c * norm(C)], [(m' * M^T) .* norm(C^T) + c' * norm(C^T), 0]])`.
pub open spec fn assembled<T, F: Fn(Weight) -> T, A: Fn(T, T) -> T, M: Fn(T, T) -> T, D: Fn(T, T) -> T, Z: Fn(T) -> bool>(
    from_weight: F,
    zero: T,
    plus: A,
    times: M,
    div: D,
    is_zero: Z,
    dep: SparseMatrix<T>,
    contribution: SparseMatrix<T>,
    maint: SparseMatrix<T>,
    h: HyperParams,
    t: SparseMatrix<T>,
    x: Assembly<T>,
) -> bool {
    &&& from_weight.ensures((h.depend_factor,), x.depend)
    &&& from_weight.ensures((h.maintain_factor,), x.maintain)
    &&& from_weight.ensures((h.contrib_factor,), x.contribution)
    &&& from_weight.ensures((h.contrib_prime_factor,), x.contribution_prime)
    &&& from_weight.ensures((h.maintain_prime_factor,), x.maintain_prime)
    &&& normalised_by(plus, div, is_zero, zero, dep, x.dep_norm)
    &&& scaled_by(times, x.depend, x.dep_norm, x.project_to_project)
    &&& normalised_by(plus, div, is_zero, zero, maint, x.maint_norm)
    &&& scaled_by(times, x.maintain, x.maint_norm, x.maintained)
    &&& normalised_by(plus, div, is_zero, zero, contribution, x.contrib_norm)
    &&& scaled_by(times, x.contribution, x.contrib_norm, x.contributed)
    &&& summed_by(plus, x.maintained, x.contributed, x.project_to_account)
    &&& x.contrib_t.model() == transposed(contribution.model())
    &&& normalised_by(plus, div, is_zero, zero, x.contrib_t, x.contrib_t_norm)
    &&& x.maint_t.model() == transposed(maint.model())
    &&& scaled_by(times, x.maintain_prime, x.maint_t, x.maintained_t)
    &&& multiplied_by(times, x.maintained_t, x.contrib_t_norm, x.weighted)
    &&& scaled_by(times, x.contribution_prime, x.contrib_t_norm, x.contributed_t)
    &&& summed_by(plus, x.weighted, x.contributed_t, x.account_to_project)
    &&& x.joined.model() == vstacked(
        hstacked(x.project_to_project.model(), x.project_to_account.model()),
        hstacked(
            x.account_to_project.model(),
            MatrixModel { nrows: contribution.ncols as nat, ncols: contribution.ncols as nat, entries: Map::empty() },
        ),
    )
    &&& normalised_by(plus, div, is_zero, zero, x.joined, t)
}

/// Failures of the assembly.
#[derive(Debug, Clone, Copy, PartialEq, Eq, Structural)]
pub enum AdjacencyError {
    /// A hyperparameter lies outside `(0, 1]`.
    InvalidHyperparam,
    /// The input matrices disagree on their dimensions.
    ShapeMismatch,
}

/// Where the transition matrix has an entry, for `p` projects: project to
/// project where a dependency is recorded; project to account where a
/// maintenance or a contribution is; account to project where a contribution
/// is; never account to account.
pub open spec fn transition_support<T>(
    dep: SparseMatrix<T>,
    contribution: SparseMatrix<T>,
    maint: SparseMatrix<T>,
    i: int,
    j: int,
) -> bool {
    let p = dep.nrows as int;
    if i < p && j < p {
        dep.at(i, j) is Some
    } else if i < p {
        maint.at(i, j - p) is Some || contribution.at(i, j - p) is Some
    } else if j < p {
        contribution.at(j, i - p) is Some
    } else {
        false
    }
}

/// Builds the normalised transition matrix over projects then accounts:
/// `[[d * norm(D), m * norm(M) + c * norm(C)], [(m' * M^T) .* norm(C^T) + c' * norm(C^T), 0]]`,
/// normalised by rows, where `norm` divides each row by its sum.
pub fn new_network_matrix<
    T: Copy,
    F: Fn(Weight) -> T,
    A: Fn(T, T) -> T,
    M: Fn(T, T) -> T,
    D: Fn(T, T) -> T,
    Z: Fn(T) -> bool,
>(
    dep_matrix: &SparseMatrix<T>,
    contrib_matrix: &SparseMatrix<T>,
    maintainer_matrix: &SparseMatrix<T>,
    hyperparams: &HyperParams,
    from_weight: &F,
    zero: T,
    plus: &A,
    times: &M,
    div: &D,
    is_zero: &Z,
) -> (r: Result<SparseMatrix<T>, AdjacencyError>)
    requires
        dep_matrix.wf(),
        contrib_matrix.wf(),
        maintainer_matrix.wf(),
        dep_matrix.nrows + contrib_matrix.ncols <= usize::MAX,
        forall|x: T, y: T| plus.requires((x, y)),
        forall|x: T, y: T| times.requires((x, y)),
        forall|x: T, y: T| div.requires((x, y)),
        forall|x: T| is_zero.requires((x,)),
        forall|w: Weight| w.denom > 0 ==> from_weight.requires((w,)),
    ensures
        r == Err::<SparseMatrix<T>, AdjacencyError>(AdjacencyError::InvalidHyperparam) <==> !hyperparams.valid(),
        r is Ok <==> hyperparams.valid() && dep_matrix.nrows == dep_matrix.ncols && contrib_matrix.nrows == dep_matrix.nrows
            && maintainer_matrix.nrows == dep_matrix.nrows && maintainer_matrix.ncols == contrib_matrix.ncols,
        r is Err && hyperparams.valid() ==> r == Err::<SparseMatrix<T>, AdjacencyError>(AdjacencyError::ShapeMismatch),
        r is Ok ==> {
            let t = r->Ok_0;
            &&& t.wf()
            &&& t.nrows == dep_matrix.nrows + contrib_matrix.ncols
            &&& t.ncols == dep_matrix.nrows + contrib_matrix.ncols
            &&& forall|i: int, j: int| 0 <= i < t.nrows && 0 <= j < t.ncols ==> ((#[trigger] t.at(i, j) is Some)
                == transition_support(*dep_matrix, *contrib_matrix, *maintainer_matrix, i, j))
            &&& exists|x: Assembly<T>| #[trigger] assembled(
                *from_weight, zero, *plus, *times, *div, *is_zero, *dep_matrix, *contrib_matrix, *maintainer_matrix, *hyperparams, t, x,
            )
        },
{
    if hyperparams.check().is_err() {
        return Err(AdjacencyError::InvalidHyperparam);
    }
    let factors = Factors {
        depend: from_weight(hyperparams.depend_factor),
        maintain: from_weight(hyperparams.maintain_factor),
        contribution: from_weight(hyperparams.contrib_factor),
        contribution_prime: from_weight(hyperparams.contrib_prime_factor),
        maintain_prime: from_weight(hyperparams.maintain_prime_factor),
    };
    if dep_matrix.nrows != dep_matrix.ncols || contrib_matrix.nrows != dep_matrix.nrows
        || maintainer_matrix.nrows != dep_matrix.nrows || maintainer_matrix.ncols != contrib_matrix.ncols {
        return Err(AdjacencyError::ShapeMismatch);
    }
    let contrib_t = contrib_matrix.transpose();
    let contrib_t_norm = contrib_t.normalise_rows_with(zero, plus, div, is_zero);
    let maintainer_t = maintainer_matrix.transpose();
    let maintainer_norm = maintainer_matrix.normalise_rows_with(zero, plus, div, is_zero);

    let dep_norm = dep_matrix.normalise_rows_with(zero, plus, div, is_zero);
    let project_to_project = dep_norm.scale_with(factors.depend, times);

    let contrib_norm = contrib_matrix.normalise_rows_with(zero, plus, div, is_zero);
    let maintained = maintainer_norm.scale_with(factors.maintain, times);
    let contributed = contrib_norm.scale_with(factors.contribution, times);
    let project_to_account = match maintained.add_with(&contributed, plus) {
        Ok(m) => m,
        Err(_) => return Err(AdjacencyError::ShapeMismatch),
    };

    let a1 = contrib_t_norm.scale_with(factors.contribution_prime, times);
    let maintained_t = maintainer_t.scale_with(factors.maintain_prime, times);
    let weighted = match maintained_t.hadamard_with(&contrib_t_norm, times) {
        Ok(m) => m,
        Err(_) => return Err(AdjacencyError::ShapeMismatch),
    };
    let account_to_project = match weighted.add_with(&a1, plus) {
        Ok(m) => m,
        Err(_) => return Err(AdjacencyError::ShapeMismatch),
    };
    let account_to_account = SparseMatrix::<T>::zeros(contrib_matrix.ncols, contrib_matrix.ncols);

    let joined = match SparseMatrix::assemble_blocks(
        &project_to_project,
        &project_to_account,
        &account_to_project,
        &account_to_account,
    ) {
        Ok(m) => m,
        Err(_) => return Err(AdjacencyError::ShapeMismatch),
    };
    let t = joined.normalise_rows_with(zero, plus, div, is_zero);
    proof {
        assert(account_to_account.model().entries =~= Map::<(int, int), T>::empty());
        let x = Assembly {
            depend: factors.depend,
            maintain: factors.maintain,
            contribution: factors.contribution,
            contribution_prime: factors.contribution_prime,
            maintain_prime: factors.maintain_prime,
            dep_norm,
            project_to_project,
            maint_norm: maintainer_norm,
            maintained,
            contrib_norm,
            contributed,
            project_to_account,
            contrib_t,
            contrib_t_norm,
            maint_t: maintainer_t,
            maintained_t,
            weighted,
            contributed_t: a1,
            account_to_project,
            joined,
        };
        assert(assembled(*from_weight, zero, *plus, *times, *div, *is_zero, *dep_matrix, *contrib_matrix, *maintainer_matrix, *hyperparams, t, x));
    }
    proof {
        let p = dep_matrix.nrows as int;
        let top = crate::matrix::hstacked(project_to_project.model(), project_to_account.model());
        let bottom = crate::matrix::hstacked(account_to_project.model(), account_to_account.model());
        assert(joined.model() == crate::matrix::vstacked(top, bottom));
        assert forall|i: int, j: int| 0 <= i < t.nrows && 0 <= j < t.ncols implies ((#[trigger] t.at(i, j) is Some)
            == transition_support(*dep_matrix, *contrib_matrix, *maintainer_matrix, i, j)) by {
            assert(t.at(i, j) is Some == joined.at(i, j) is Some);
            assert(joined.model().entries.contains_key((i, j)) == (joined.at(i, j) is Some));
            if i < p {
                assert(joined.model().entries.contains_key((i, j)) == top.entries.contains_key((i, j)));
                if j < p {
                    assert(top.entries.contains_key((i, j)) == project_to_project.model().entries.contains_key((i, j)));
                    assert(project_to_project.at(i, j) is Some == dep_matrix.at(i, j) is Some);
                } else {
                    assert(top.entries.contains_key((i, j)) == project_to_account.model().entries.contains_key((i, j - p)));
                    assert(crate::matrix::combined(*plus, maintained.at(i, j - p), contributed.at(i, j - p), project_to_account.at(i, j - p)));
                    assert(maintained.at(i, j - p) is Some == maintainer_norm.at(i, j - p) is Some);
                    assert(contributed.at(i, j - p) is Some == contrib_norm.at(i, j - p) is Some);
                }
            } else {
                assert(joined.model().entries.contains_key((i, j)) == bottom.entries.contains_key((i - p, j)));
                if j < p {
                    assert(bottom.entries.contains_key((i - p, j)) == account_to_project.model().entries.contains_key((i - p, j)));
                    assert(weighted.at(i - p, j) is Some ==> contrib_t_norm.at(i - p, j) is Some);
                    assert(crate::matrix::combined(*plus, weighted.at(i - p, j), a1.at(i - p, j), account_to_project.at(i - p, j)));
                    assert(a1.at(i - p, j) is Some == contrib_t_norm.at(i - p, j) is Some);
                    assert(contrib_t.at(i - p, j) == contrib_matrix.at(j, i - p));
                } else {
                    assert(bottom.entries.contains_key((i - p, j)) == account_to_account.model().entries.contains_key((i - p, j - p)));
                    assert(account_to_account.at(i - p, j - p) is None);
                }
            }
        }
    }
    Ok(t)
}

} // verus!
