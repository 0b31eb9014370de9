//! Damped random walks over a transition matrix with integer weights, and
//! the ranks derived from the visits they make.

use crate::matrix::{has_triplet, lemma_row_at_sorted, lemma_row_sum_bound, lemma_weight_total_prefix, row_total, row_wf, triplet_sum, weight_total, SparseMatrix};
use crate::network::{Network, Osrank};
use rand::Rng;
use rand::SeedableRng;
use rand_xorshift::XorShiftRng;
use vstd::prelude::*;

verus! {

/// rand_xorshift's generator, carried through as an opaque value.
#[verifier::external_type_specification]
#[verifier::external_body]
pub struct ExXorShiftRng(XorShiftRng);

/// Relies on rand_xorshift's `XorShiftRng::from_seed`, which builds the
/// generator from 16 bytes without failing.
#[verifier::external_body]
fn rng_from_seed(seed: [u8; 16]) -> XorShiftRng {
    XorShiftRng::from_seed(seed)
}

/// Relies on rand's `Rng::gen_range(0, n)`: a value in `[0, n)`; it panics
/// when `n` is zero, which `requires` rules out.
#[verifier::external_body]
pub(crate) fn draw_below(rng: &mut XorShiftRng, n: u64) -> (r: u64)
    requires
        n > 0,
    ensures
        r < n,
{
    rng.gen_range(0, n)
}

/// The parameters of a run: `walks_per_seed` walks start at each seed; each
/// step goes on with probability `damping_numer / damping_denom`; a walk
/// stops after at most `max_steps` steps.
#[derive(Debug, Clone, Copy, PartialEq, Eq, Structural)]
pub struct WalkParams {
    pub walks_per_seed: u32,
    pub damping_numer: u64,
    pub damping_denom: u64,
    pub max_steps: u64,
}

/// The visits of each node and their sum.
pub struct WalkResult {
    pub visits: Vec<u64>,
    pub total: u64,
}

/// Sum of a sequence of counts.
pub open spec fn sum(s: Seq<u64>) -> int
    decreases s.len(),
{
    if s.len() == 0 {
        0
    } else {
        sum(s.drop_last()) + s.last()
    }
}

/// An edge of positive weight from `u` to `v`.
pub open spec fn linked(m: SparseMatrix<u64>, u: int, v: int) -> bool {
    m.at(u, v) is Some && m.at(u, v)->Some_0 > 0
}

/// `p` is a path along edges of positive weight.
pub open spec fn is_path(m: SparseMatrix<u64>, p: Seq<int>) -> bool {
    &&& p.len() > 0
    &&& forall|k: int| 0 <= k < p.len() - 1 ==> #[trigger] linked(m, p[k], p[k + 1])
}

/// `v` can be reached from `s` along edges of positive weight.
pub open spec fn reachable(m: SparseMatrix<u64>, s: int, v: int) -> bool {
    exists|p: Seq<int>| #[trigger] is_path(m, p) && p[0] == s && p.last() == v
}

/// Every node with a visit can be reached from one of the seeds.
pub open spec fn visits_reachable(m: SparseMatrix<u64>, seeds: Seq<usize>, visits: Seq<u64>) -> bool {
    forall|v: int|
        0 <= v < visits.len() && #[trigger] visits[v] > 0 ==> exists|k: int|
            0 <= k < seeds.len() && reachable(m, seeds[k] as int, v)
}

/// Every row's total weight fits in a `u64`.
pub open spec fn totals_fit(m: SparseMatrix<u64>) -> bool {
    forall|i: int| 0 <= i < m.rows@.len() ==> row_total(#[trigger] m.rows@[i]@) <= u64::MAX
}

pub proof fn lemma_row_total_take(row: Seq<(usize, u64)>, k: int)
    requires
        0 <= k < row.len(),
    ensures
        row_total(row.take(k + 1)) == row_total(row.take(k)) + row[k].1,
        row_total(row.take(k + 1)) <= row_total(row),
{
    assert(row.take(k + 1).drop_last() =~= row.take(k));
    lemma_row_total_prefix(row, k + 1);
}

pub proof fn lemma_row_total_prefix(row: Seq<(usize, u64)>, k: int)
    requires
        0 <= k <= row.len(),
    ensures
        row_total(row.take(k)) <= row_total(row),
    decreases row.len(),
{
    if k < row.len() {
        lemma_row_total_prefix(row.drop_last(), k);
        assert(row.drop_last().take(k) =~= row.take(k));
    } else {
        assert(row.take(k) =~= row);
    }
}

pub proof fn lemma_sum_increment(s: Seq<u64>, v: int)
    requires
        0 <= v < s.len(),
        s[v] < u64::MAX,
    ensures
        sum(s.update(v, (s[v] + 1) as u64)) == sum(s) + 1,
    decreases s.len(),
{
    let t = s.update(v, (s[v] + 1) as u64);
    if v < s.len() - 1 {
        lemma_sum_increment(s.drop_last(), v);
        assert(t.drop_last() =~= s.drop_last().update(v, (s[v] + 1) as u64));
    } else {
        assert(t.drop_last() =~= s.drop_last());
    }
}

pub proof fn lemma_sum_bound(s: Seq<u64>, v: int)
    requires
        0 <= v < s.len(),
    ensures
        s[v] <= sum(s),
    decreases s.len(),
{
    if v < s.len() - 1 {
        lemma_sum_bound(s.drop_last(), v);
    }
    lemma_sum_nonneg(s.drop_last());
}

pub proof fn lemma_sum_nonneg(s: Seq<u64>)
    ensures
        sum(s) >= 0,
    decreases s.len(),
{
    if s.len() > 0 {
        lemma_sum_nonneg(s.drop_last());
    }
}

/// The total weight of a row.
pub fn row_weight(row: &Vec<(usize, u64)>) -> (r: u64)
    requires
        row_total(row@) <= u64::MAX,
    ensures
        r == row_total(row@),
{
    let mut acc: u64 = 0;
    let mut k: usize = 0;
    while k < row.len()
        invariant
            k <= row@.len(),
            row_total(row@) <= u64::MAX,
            acc == row_total(row@.take(k as int)),
        decreases row@.len() - k,
    {
        proof {
            lemma_row_total_take(row@, k as int);
        }
        acc = acc + row[k].1;
        k += 1;
    }
    assert(row@.take(row@.len() as int) =~= row@);
    acc
}

/// Picks an entry of `row` by inverse CDF: the position `k` whose weight
/// interval `[w_0 + .. + w_(k-1), w_0 + .. + w_k)` holds `draw`.
pub fn weighted_choice(row: &Vec<(usize, u64)>, draw: u64) -> (r: usize)
    requires
        row_total(row@) <= u64::MAX,
        draw < row_total(row@),
    ensures
        r < row@.len(),
        row_total(row@.take(r as int)) <= draw < row_total(row@.take(r + 1)),
        row@[r as int].1 > 0,
{
    let mut acc: u64 = 0;
    let mut k: usize = 0;
    while k < row.len()
        invariant
            k <= row@.len(),
            row_total(row@) <= u64::MAX,
            draw < row_total(row@),
            acc == row_total(row@.take(k as int)),
            acc <= draw,
        decreases row@.len() - k,
    {
        proof {
            lemma_row_total_take(row@, k as int);
        }
        let next = acc + row[k].1;
        if draw < next {
            return k;
        }
        acc = next;
        k += 1;
    }
    assert(row@.take(row@.len() as int) =~= row@);
    k
}

/// Whether a walk goes on after `draw`, a value drawn in `[0, damping_denom)`.
pub fn continues(params: &WalkParams, draw: u64) -> (r: bool)
    ensures
        r == (draw < params.damping_numer),
{
    draw < params.damping_numer
}

/// Adds one visit of `v`.
fn record_visit(visits: &mut Vec<u64>, total: &mut u64, v: usize)
    requires
        v < old(visits)@.len(),
        sum(old(visits)@) == *old(total),
        *old(total) < u64::MAX,
    ensures
        final(visits)@ == old(visits)@.update(v as int, (old(visits)@[v as int] + 1) as u64),
        final(visits)@[v as int] == old(visits)@[v as int] + 1,
        *final(total) == *old(total) + 1,
        sum(final(visits)@) == *final(total),
{
    proof {
        lemma_sum_bound(visits@, v as int);
        lemma_sum_increment(visits@, v as int);
    }
    visits.set(v, visits[v] + 1);
    *total = *total + 1;
}

/// One walk from `seeds[si]`: visits its start, then moves while the damping
/// draw says so and the current node has an edge of positive weight.
fn walk_once(
    m: &SparseMatrix<u64>,
    seeds: &Vec<usize>,
    si: usize,
    params: &WalkParams,
    rng: &mut XorShiftRng,
    visits: &mut Vec<u64>,
    total: &mut u64,
)
    requires
        m.wf(),
        m.nrows == m.ncols,
        totals_fit(*m),
        si < seeds@.len(),
        seeds@[si as int] < m.nrows,
        params.damping_denom > 0,
        old(visits)@.len() == m.nrows,
        sum(old(visits)@) == *old(total),
        *old(total) + params.max_steps + 1 <= u64::MAX,
        visits_reachable(*m, seeds@, old(visits)@),
    ensures
        final(visits)@.len() == m.nrows,
        sum(final(visits)@) == *final(total),
        *old(total) < *final(total) <= *old(total) + params.max_steps + 1,
        visits_reachable(*m, seeds@, final(visits)@),
        forall|v: int| 0 <= v < m.nrows ==> #[trigger] final(visits)@[v] >= old(visits)@[v],
        final(visits)@[seeds@[si as int] as int] >= old(visits)@[seeds@[si as int] as int] + 1,
{
    let s = seeds[si];
    let mut cur = s;
    let ghost mut path: Seq<int> = seq![s as int];
    let ghost old_total = *total;
    let ghost start = visits@;
    proof {
        assert(is_path(*m, path) && path[0] == s && path.last() == cur);
    }
    record_visit(visits, total, cur);
    assert(visits_reachable(*m, seeds@, visits@)) by {
        assert forall|v: int| 0 <= v < visits@.len() && #[trigger] visits@[v] > 0 implies exists|k: int|
            0 <= k < seeds@.len() && reachable(*m, seeds@[k] as int, v) by {
            if v == cur {
                assert(is_path(*m, path));
                assert(reachable(*m, seeds@[si as int] as int, v));
            }
        }
    }
    let mut steps: u64 = 0;
    while steps < params.max_steps
        invariant
            m.wf(),
            m.nrows == m.ncols,
            totals_fit(*m),
            si < seeds@.len(),
            s == seeds@[si as int],
            params.damping_denom > 0,
            cur < m.nrows,
            is_path(*m, path),
            path[0] == s,
            path.last() == cur,
            steps <= params.max_steps,
            visits@.len() == m.nrows,
            sum(visits@) == *total,
            *total == old_total + steps + 1,
            old_total + params.max_steps + 1 <= u64::MAX,
            visits_reachable(*m, seeds@, visits@),
            start == old(visits)@,
            forall|v: int| 0 <= v < m.nrows ==> #[trigger] visits@[v] >= start[v],
            visits@[s as int] >= start[s as int] + 1,
            s < m.nrows,
        decreases params.max_steps - steps,
    {
        let u = draw_below(rng, params.damping_denom);
        if !continues(params, u) {
            break;
        }
        let row = &m.rows[cur];
        proof {
            assert(row_total(m.rows@[cur as int]@) <= u64::MAX);
        }
        let w = row_weight(row);
        if w == 0 {
            break;
        }
        let c = draw_below(rng, w);
        let k = weighted_choice(row, c);
        proof {
            assert(row_wf(m.rows@[cur as int]@, m.ncols as nat));
        }
        let next = row[k].0;
        proof {
            lemma_row_at_sorted(row@, m.ncols as nat, k as int);
            assert(linked(*m, cur as int, next as int));
            let p2 = path.push(next as int);
            assert forall|kk: int| 0 <= kk < p2.len() - 1 implies #[trigger] linked(*m, p2[kk], p2[kk + 1]) by {
                if kk < path.len() - 1 {
                    assert(linked(*m, path[kk], path[kk + 1]));
                }
            }
            path = p2;
        }
        cur = next;
        let ghost pre = visits@;
        record_visit(visits, total, cur);
        assert(visits@[s as int] >= pre[s as int]);
        assert(visits_reachable(*m, seeds@, visits@)) by {
            assert forall|v: int| 0 <= v < visits@.len() && #[trigger] visits@[v] > 0 implies exists|k: int|
                0 <= k < seeds@.len() && reachable(*m, seeds@[k] as int, v) by {
                if v == cur {
                    assert(is_path(*m, path));
                    assert(reachable(*m, seeds@[si as int] as int, v));
                }
            }
        }
        steps += 1;
    }
}

/// Runs `walks_per_seed` walks from each seed, with the generator seeded by
/// `seed`, and counts the visits of every node.
pub fn random_walks(m: &SparseMatrix<u64>, seeds: &Vec<usize>, params: &WalkParams, seed: [u8; 16]) -> (r: WalkResult)
    requires
        m.wf(),
        m.nrows == m.ncols,
        totals_fit(*m),
        forall|k: int| 0 <= k < seeds@.len() ==> #[trigger] seeds@[k] < m.nrows,
        params.damping_denom > 0,
        seeds@.len() * params.walks_per_seed * (params.max_steps + 1) <= u64::MAX,
    ensures
        r.visits@.len() == m.nrows,
        sum(r.visits@) == r.total,
        visits_reachable(*m, seeds@, r.visits@),
        seeds@.len() == 0 || params.walks_per_seed == 0 <==> r.total == 0,
        forall|k: int| 0 <= k < seeds@.len() ==> #[trigger] r.visits@[seeds@[k] as int] >= params.walks_per_seed,
{
    let mut rng = rng_from_seed(seed);
    let mut visits: Vec<u64> = Vec::new();
    let mut i: usize = 0;
    while i < m.nrows
        invariant
            i <= m.nrows,
            visits@.len() == i,
            forall|k: int| 0 <= k < i ==> visits@[k] == 0,
        decreases m.nrows - i,
    {
        visits.push(0);
        i += 1;
    }
    proof {
        assert forall|k: int| 0 <= k <= visits@.len() implies sum(#[trigger] visits@.take(k)) == 0 by {
            lemma_sum_zeros(visits@, k);
        }
        assert(visits@.take(visits@.len() as int) =~= visits@);
    }
    let mut total: u64 = 0;
    let ghost per_walk: int = params.max_steps + 1;
    let mut si: usize = 0;
    while si < seeds.len()
        invariant
            m.wf(),
            m.nrows == m.ncols,
            totals_fit(*m),
            forall|k: int| 0 <= k < seeds@.len() ==> #[trigger] seeds@[k] < m.nrows,
            params.damping_denom > 0,
            seeds@.len() * params.walks_per_seed * (params.max_steps + 1) <= u64::MAX,
            per_walk == params.max_steps + 1,
            si <= seeds@.len(),
            visits@.len() == m.nrows,
            sum(visits@) == total,
            total <= si * params.walks_per_seed * per_walk,
            si > 0 && params.walks_per_seed > 0 ==> total > 0,
            si == 0 || params.walks_per_seed == 0 ==> total == 0,
            visits_reachable(*m, seeds@, visits@),
            forall|k: int| 0 <= k < si ==> #[trigger] visits@[seeds@[k] as int] >= params.walks_per_seed,
        decreases seeds@.len() - si,
    {
        let mut w: u32 = 0;
        while w < params.walks_per_seed
            invariant
                m.wf(),
                m.nrows == m.ncols,
                totals_fit(*m),
                si < seeds@.len(),
                seeds@[si as int] < m.nrows,
                params.damping_denom > 0,
                seeds@.len() * params.walks_per_seed * (params.max_steps + 1) <= u64::MAX,
                per_walk == params.max_steps + 1,
                w <= params.walks_per_seed,
                visits@.len() == m.nrows,
                sum(visits@) == total,
                total <= si * params.walks_per_seed * per_walk + w * per_walk,
                (si > 0 && params.walks_per_seed > 0) || w > 0 ==> total > 0,
                si == 0 && w == 0 || params.walks_per_seed == 0 ==> total == 0,
                visits_reachable(*m, seeds@, visits@),
                forall|k: int| 0 <= k < si ==> #[trigger] visits@[seeds@[k] as int] >= params.walks_per_seed,
                visits@[seeds@[si as int] as int] >= w,
                forall|k: int| 0 <= k < seeds@.len() ==> #[trigger] seeds@[k] < m.nrows,
            decreases params.walks_per_seed - w,
        {
            proof {
                let n = seeds@.len() as int;
                let rr = params.walks_per_seed as int;
                assert(si * rr * per_walk + w * per_walk + per_walk <= n * rr * per_walk) by (nonlinear_arith)
                    requires
                        si + 1 <= n,
                        w + 1 <= rr,
                        per_walk >= 1;
            }
            walk_once(m, seeds, si, params, &mut rng, &mut visits, &mut total);
            proof {
                assert(w * per_walk + per_walk == (w + 1) * per_walk) by (nonlinear_arith);
            }
            w += 1;
        }
        proof {
            let rr = params.walks_per_seed as int;
            assert(si * rr * per_walk + rr * per_walk == (si + 1) * rr * per_walk) by (nonlinear_arith);
        }
        si += 1;
    }
    WalkResult { visits, total }
}

proof fn lemma_sum_zeros(s: Seq<u64>, k: int)
    requires
        0 <= k <= s.len(),
        forall|i: int| 0 <= i < s.len() ==> s[i] == 0,
    ensures
        sum(s.take(k)) == 0,
    decreases k,
{
    if k > 0 {
        assert(s.take(k).drop_last() =~= s.take(k - 1));
        lemma_sum_zeros(s, k - 1);
    }
}

/// The rank of a node from its visits: `visits / total`, or `0` when no
/// visit was made at all.
pub open spec fn rank_of(visits: u64, total: u64) -> Osrank {
    if total == 0 {
        Osrank { numer: 0, denom: 1 }
    } else {
        Osrank { numer: visits, denom: total }
    }
}

impl WalkResult {
    /// The rank of every node, by index.
    pub fn ranks(&self) -> (r: Vec<Osrank>)
        ensures
            r@.len() == self.visits@.len(),
            forall|v: int| 0 <= v < r@.len() ==> #[trigger] r@[v] == rank_of(self.visits@[v], self.total),
    {
        let mut out: Vec<Osrank> = Vec::new();
        let mut i: usize = 0;
        while i < self.visits.len()
            invariant
                i <= self.visits@.len(),
                out@.len() == i,
                forall|v: int| 0 <= v < i ==> #[trigger] out@[v] == rank_of(self.visits@[v], self.total),
            decreases self.visits@.len() - i,
        {
            let rank = if self.total == 0 {
                Osrank { numer: 0, denom: 1 }
            } else {
                Osrank { numer: self.visits[i], denom: self.total }
            };
            out.push(rank);
            i += 1;
        }
        out
    }
}

/// The ranks of a run form a distribution: each lies in `[0, 1]`, they share
/// one denominator and their numerators add up to it, unless no visit was made
/// at all and every rank is `0`; and a node with a positive rank can be
/// reached from one of the seeds.
pub proof fn lemma_ranks_distribution(m: SparseMatrix<u64>, seeds: Seq<usize>, visits: Seq<u64>, total: u64)
    requires
        sum(visits) == total,
        visits_reachable(m, seeds, visits),
    ensures
        forall|v: int|
            0 <= v < visits.len() ==> (#[trigger] rank_of(visits[v], total)).numer <= rank_of(visits[v], total).denom
                && rank_of(visits[v], total).denom > 0,
        total == 0 ==> forall|v: int| 0 <= v < visits.len() ==> (#[trigger] rank_of(visits[v], total)).numer == 0,
        total > 0 ==> sum(visits) == total
            && forall|v: int| 0 <= v < visits.len() ==> (#[trigger] rank_of(visits[v], total)) == (Osrank {
                numer: visits[v],
                denom: total,
            }),
        forall|v: int|
            0 <= v < visits.len() && (#[trigger] rank_of(visits[v], total)).numer > 0 ==> exists|k: int|
                0 <= k < seeds.len() && reachable(m, seeds[k] as int, v),
{
    assert forall|v: int| 0 <= v < visits.len() implies (#[trigger] rank_of(visits[v], total)).numer <= rank_of(visits[v], total).denom by {
        lemma_sum_bound(visits, v);
    }
    assert forall|v: int| 0 <= v < visits.len() && total == 0 implies (#[trigger] rank_of(visits[v], total)).numer == 0 by {
        lemma_sum_bound(visits, v);
    }
    assert forall|v: int| 0 <= v < visits.len() && (#[trigger] rank_of(visits[v], total)).numer > 0 implies exists|k: int|
        0 <= k < seeds.len() && reachable(m, seeds[k] as int, v) by {
        assert(visits[v] > 0);
    }
}

/// A row with every weight divided by the row's total; a row of total `0`
/// holds only zeros and keeps them, as `0 / 1`.
pub open spec fn normalised_row(row: Seq<(usize, u64)>) -> Seq<(usize, Osrank)> {
    let t = row_total(row);
    with_denom(row, if t > 0 { t as u64 } else { 1 })
}

/// A row of weights as fractions over the denominator `d`.
pub open spec fn with_denom(row: Seq<(usize, u64)>, d: u64) -> Seq<(usize, Osrank)> {
    row.map_values(|e: (usize, u64)| (e.0, Osrank { numer: e.1, denom: d }))
}

/// Sum of the numerators of a row of fractions.
pub open spec fn numer_total(row: Seq<(usize, Osrank)>) -> int
    decreases row.len(),
{
    if row.len() == 0 {
        0
    } else {
        numer_total(row.drop_last()) + row.last().1.numer
    }
}

proof fn lemma_numer_total_normalised(row: Seq<(usize, u64)>, d: u64)
    ensures
        numer_total(with_denom(row, d)) == row_total(row),
    decreases row.len(),
{
    if row.len() > 0 {
        lemma_numer_total_normalised(row.drop_last(), d);
        assert(with_denom(row, d).drop_last() =~= with_denom(row.drop_last(), d));
    }
}

proof fn lemma_zero_total(row: Seq<(usize, u64)>, k: int)
    requires
        row_total(row) == 0,
        0 <= k < row.len(),
    ensures
        row[k].1 == 0,
    decreases row.len(),
{
    lemma_row_total_nonneg(row.drop_last());
    if k < row.len() - 1 {
        lemma_zero_total(row.drop_last(), k);
    }
}

proof fn lemma_row_total_nonneg(row: Seq<(usize, u64)>)
    ensures
        row_total(row) >= 0,
    decreases row.len(),
{
    if row.len() > 0 {
        lemma_row_total_nonneg(row.drop_last());
    }
}

/// Each row divided by its total: entry `w` of a row of total `t` becomes
/// `w / t`; a row of total `0` stays a row of zeros.
pub fn normalise_rows(m: &SparseMatrix<u64>) -> (r: SparseMatrix<Osrank>)
    requires
        m.wf(),
        totals_fit(*m),
    ensures
        r.wf(),
        r.nrows == m.nrows,
        r.ncols == m.ncols,
        forall|i: int| 0 <= i < m.nrows ==> (#[trigger] r.rows@[i])@ == normalised_row(m.rows@[i]@),
{
    let mut rows: Vec<Vec<(usize, Osrank)>> = Vec::new();
    let mut i: usize = 0;
    while i < m.rows.len()
        invariant
            m.wf(),
            totals_fit(*m),
            i <= m.rows@.len(),
            rows@.len() == i,
            forall|ii: int| 0 <= ii < i ==> (#[trigger] rows@[ii])@ == normalised_row(m.rows@[ii]@),
        decreases m.rows@.len() - i,
    {
        let row = &m.rows[i];
        proof {
            assert(row_total(m.rows@[i as int]@) <= u64::MAX);
        }
        let t = row_weight(row);
        let d: u64 = if t > 0 { t } else { 1 };
        let mut out: Vec<(usize, Osrank)> = Vec::new();
        let mut k: usize = 0;
        while k < row.len()
            invariant
                k <= row@.len(),
                out@ == with_denom(row@.take(k as int), d),
            decreases row@.len() - k,
        {
            let (c, w) = row[k];
            out.push((c, Osrank { numer: w, denom: d }));
            assert(with_denom(row@.take(k + 1), d) =~= with_denom(row@.take(k as int), d).push((c, Osrank { numer: w, denom: d })));
            k += 1;
        }
        assert(row@.take(row@.len() as int) =~= row@);
        assert(out@ =~= normalised_row(row@));
        rows.push(out);
        i += 1;
    }
    let r = SparseMatrix { nrows: m.nrows, ncols: m.ncols, rows };
    assert forall|i: int| 0 <= i < r.rows@.len() implies crate::matrix::row_wf(#[trigger] r.rows@[i]@, r.ncols as nat) by {
        assert(crate::matrix::row_wf(m.rows@[i]@, m.ncols as nat));
        let a = m.rows@[i]@;
        let b = r.rows@[i]@;
        assert forall|k1: int, k2: int| 0 <= k1 < k2 < b.len() implies (#[trigger] b[k1]).0 < (#[trigger] b[k2]).0 by {
            assert(a[k1].0 < a[k2].0);
        }
        assert forall|k: int| 0 <= k < b.len() implies (#[trigger] b[k]).0 < r.ncols by {
            assert(a[k].0 < m.ncols);
        }
    }
    r
}

/// After normalisation each row adds up to `1` or is a row of zeros: the
/// numerators of a row add up to the denominator that all of its entries
/// share, or the row's entries are all `0`.
pub proof fn lemma_normalised_rows_sum(m: SparseMatrix<u64>, r: SparseMatrix<Osrank>, i: int)
    requires
        m.wf(),
        totals_fit(m),
        0 <= i < m.nrows,
        r.rows@[i]@ == normalised_row(m.rows@[i]@),
    ensures
        ({
            let row = r.rows@[i]@;
            ||| (numer_total(row) > 0 && forall|k: int| 0 <= k < row.len() ==> (#[trigger] row[k]).1.denom == numer_total(row))
            ||| forall|k: int| 0 <= k < row.len() ==> (#[trigger] row[k]).1.numer == 0
        }),
{
    let a = m.rows@[i]@;
    let t = row_total(a);
    assert(t <= u64::MAX);
    lemma_row_total_nonneg(a);
    let d: u64 = if t > 0 { t as u64 } else { 1 };
    lemma_numer_total_normalised(a, d);
    if t == 0 {
        assert forall|k: int| 0 <= k < a.len() implies (#[trigger] normalised_row(a)[k]).1.numer == 0 by {
            lemma_zero_total(a, k);
        }
    }
}

/// Why a run on a graph could not start.
#[derive(Debug, Clone, Copy, PartialEq, Eq, Structural)]
pub enum WalkError {
    /// The damping factor does not lie strictly between `0` and `1`.
    InvalidDamping,
    /// The weights or the number of visits would not fit in a `u64`.
    TooLarge,
}

/// The edges of a graph as `(source, target, weight)` triplets.
pub open spec fn edge_triplets(edges: Seq<crate::network::Dependency<u64>>) -> Seq<(usize, usize, u64)> {
    edges.map_values(|e: crate::network::Dependency<u64>| (e.source, e.target, e.weight))
}

/// The transition weight from `i` to `j`: the weights of all edges from `i`
/// to `j` added up, or nothing when there is no such edge.
pub open spec fn transition_at(edges: Seq<crate::network::Dependency<u64>>, i: int, j: int) -> Option<u64> {
    let ts = edge_triplets(edges);
    if has_triplet(ts, i, j) {
        Some(triplet_sum(ts, i, j) as u64)
    } else {
        None
    }
}

/// `m` holds the transition weights of a graph of `n` nodes with edges
/// `edges`, and every node with a visit can be reached from some node.
pub open spec fn walked_on(edges: Seq<crate::network::Dependency<u64>>, n: nat, m: SparseMatrix<u64>, visits: Seq<u64>) -> bool {
    &&& m.wf()
    &&& m.nrows == n
    &&& forall|i: int, j: int| #[trigger] m.at(i, j) == transition_at(edges, i, j)
    &&& visits_reachable(m, Seq::new(n, |k: int| k as usize), visits)
}

/// Runs `walks_per_seed` walks from every node of `network`, moving along
/// its edges with odds proportional to their weights, and counts the visits.
#[verifier::rlimit(40)]
pub fn osrank_naive(network: &Network<u64>, params: &WalkParams, seed: [u8; 16]) -> (r: Result<WalkResult, WalkError>)
    requires
        network.wf(),
    ensures
        r == Err::<WalkResult, WalkError>(WalkError::InvalidDamping) <==> !(0 < params.damping_numer < params.damping_denom),
        r == Err::<WalkResult, WalkError>(WalkError::TooLarge) <==> 0 < params.damping_numer < params.damping_denom && (
            weight_total(edge_triplets(network.edges@)) > u64::MAX
            || network.nodes@.len() * params.walks_per_seed * (params.max_steps + 1) > u64::MAX),
        r is Ok ==> {
            let res = r->Ok_0;
            &&& res.visits@.len() == network.nodes@.len()
            &&& sum(res.visits@) == res.total
            &&& (network.nodes@.len() == 0 || params.walks_per_seed == 0 <==> res.total == 0)
            &&& exists|m: SparseMatrix<u64>| #[trigger] walked_on(network.edges@, network.nodes@.len(), m, res.visits@)
            &&& forall|v: int| 0 <= v < res.visits@.len() ==> #[trigger] res.visits@[v] >= params.walks_per_seed
        },
{
    if !(0 < params.damping_numer && params.damping_numer < params.damping_denom) {
        return Err(WalkError::InvalidDamping);
    }
    let n = network.nodes.len();
    let mut ts: Vec<(usize, usize, u64)> = Vec::new();
    let mut total: u64 = 0;
    let mut k: usize = 0;
    while k < network.edges.len()
        invariant
            network.wf(),
            0 < params.damping_numer < params.damping_denom,
            n == network.nodes@.len(),
            k <= network.edges@.len(),
            ts@ == edge_triplets(network.edges@.take(k as int)),
            total == weight_total(ts@),
            forall|kk: int| 0 <= kk < ts@.len() ==> (#[trigger] ts@[kk]).0 < n && ts@[kk].1 < n,
        decreases network.edges@.len() - k,
    {
        let e = &network.edges[k];
        match total.checked_add(e.weight) {
            Some(t) => total = t,
            None => {
                proof {
                    let all = edge_triplets(network.edges@);
                    assert(edge_triplets(network.edges@.take(k + 1)) =~= all.take(k + 1));
                    assert(all.take(k + 1).drop_last() =~= ts@);
                    lemma_weight_total_prefix(all, k + 1);
                }
                return Err(WalkError::TooLarge);
            },
        }
        let ghost before = ts@;
        ts.push((e.source, e.target, e.weight));
        proof {
            assert(ts@.drop_last() =~= before);
            assert(edge_triplets(network.edges@.take(k + 1)) =~= edge_triplets(network.edges@.take(k as int)).push(
                (e.source, e.target, e.weight),
            ));
        }
        k += 1;
    }
    assert(network.edges@.take(network.edges@.len() as int) =~= network.edges@);
    let m = SparseMatrix::from_triplets(n, n, &ts);
    proof {
        assert forall|i: int| 0 <= i < m.rows@.len() implies row_total(#[trigger] m.rows@[i]@) <= u64::MAX by {
            lemma_row_sum_bound(ts@, i);
        }
    }
    let nn = n as u128;
    let rr = params.walks_per_seed as u128;
    proof {
        assert(nn * rr <= 0xffff_ffff_ffff_ffff * 0xffff_ffff) by (nonlinear_arith)
            requires
                nn <= 0xffff_ffff_ffff_ffff,
                rr <= 0xffff_ffff;
    }
    let walks: u128 = nn * rr;
    let per_walk: u128 = params.max_steps as u128 + 1;
    match walks.checked_mul(per_walk) {
        Some(run) => {
            if run > u64::MAX as u128 {
                return Err(WalkError::TooLarge);
            }
        },
        None => return Err(WalkError::TooLarge),
    }
    let mut seeds: Vec<usize> = Vec::new();
    let mut v: usize = 0;
    while v < n
        invariant
            v <= n,
            seeds@.len() == v,
            forall|k: int| 0 <= k < v ==> #[trigger] seeds@[k] == k,
        decreases n - v,
    {
        seeds.push(v);
        v += 1;
    }
    let res = random_walks(&m, &seeds, params, seed);
    proof {
        assert(forall|i: int, j: int| #[trigger] m.at(i, j) == transition_at(network.edges@, i, j));
        assert(seeds@ =~= Seq::new(n as nat, |k: int| k as usize));
        assert(walked_on(network.edges@, network.nodes@.len(), m, res.visits@));
        assert forall|v: int| 0 <= v < res.visits@.len() implies #[trigger] res.visits@[v] >= params.walks_per_seed by {
            assert(res.visits@[seeds@[v] as int] >= params.walks_per_seed);
        }
    }
    Ok(res)
}

} // verus!
