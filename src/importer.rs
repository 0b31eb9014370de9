//! Indexing of imported relation records: projects and contributors get
//! consecutive matrix indices in order of first appearance, and the
//! dependency and contribution records become matrix triplets.

use crate::matrix::{has_triplet, triplet_sum, weight_total, SparseMatrix};
use crate::network::{ArtifactType, GraphError, Network, Osrank};
use std::collections::HashMap;
use vstd::prelude::*;

verus! {

broadcast use vstd::std_specs::hash::group_hash_axioms;

/// A project record: its numeric id, name and platform.
pub struct DepMetaRow {
    pub id: u32,
    pub name: String,
    pub platform: String,
}

/// A contribution record.
pub struct ContribRow {
    pub project_id: u32,
    pub contributor: String,
    pub repo: String,
    pub contributions: u32,
    pub project_name: String,
}

/// A dependency record: project `from` depends on project `to`.
#[derive(Debug, Clone, Copy, PartialEq, Eq, Structural)]
pub struct DepRow {
    pub from: u32,
    pub to: u32,
}

/// Failures while importing records.
#[derive(Debug, PartialEq, Eq)]
pub enum CsvImportError {
    /// Reading or writing a file failed.
    IOError(String),
    /// A record could not be decoded.
    CsvDeserialisationError(String),
}

/// The projects seen so far: their names by index, and the index of each id.
pub struct DependenciesMetadata {
    pub labels: Vec<String>,
    pub project2index: HashMap<u32, usize>,
}

impl DependenciesMetadata {
    /// Every id maps to the index of one of the labels.
    pub open spec fn wf(&self) -> bool {
        forall|id: u32| #[trigger] self.project2index@.contains_key(id) ==> self.project2index@[id] < self.labels@.len()
    }

    pub fn new() -> (r: DependenciesMetadata)
        ensures
            r.wf(),
            r.labels@.len() == 0,
            r.project2index@ == Map::<u32, usize>::empty(),
    {
        DependenciesMetadata { labels: Vec::new(), project2index: HashMap::new() }
    }

    /// The number of projects.
    pub fn len(&self) -> (r: usize)
        ensures
            r == self.labels@.len(),
    {
        self.labels.len()
    }

    /// The index of project `id`.
    pub fn index_of(&self, id: u32) -> (r: Option<usize>)
        requires
            self.wf(),
        ensures
            r is Some <==> self.project2index@.contains_key(id),
            r is Some ==> r->Some_0 == self.project2index@[id] && r->Some_0 < self.labels@.len(),
    {
        match self.project2index.get(&id) {
            Some(i) => Some(*i),
            None => None,
        }
    }

    /// Records a project under the next index; a project whose id was seen
    /// before is left out and `None` is returned.
    pub fn add_project(&mut self, id: u32, name: String) -> (r: Option<usize>)
        requires
            old(self).wf(),
        ensures
            final(self).wf(),
            old(self).project2index@.contains_key(id) ==> r is None && final(self).labels@ == old(self).labels@
                && final(self).project2index@ == old(self).project2index@,
            !old(self).project2index@.contains_key(id) ==> r == Some(old(self).labels@.len() as usize)
                && final(self).labels@ == old(self).labels@.push(name)
                && final(self).project2index@ == old(self).project2index@.insert(id, old(self).labels@.len() as usize),
    {
        if self.project2index.contains_key(&id) {
            return None;
        }
        let index = self.labels.len();
        self.labels.push(name);
        self.project2index.insert(id, index);
        Some(index)
    }
}

/// The contribution records seen so far, and the contributors in order of
/// first appearance.
pub struct ContributionsMetadata {
    pub rows: Vec<ContribRow>,
    pub contributors: Vec<String>,
}

/// The names in `names` are pairwise different.
pub open spec fn distinct_names(names: Seq<String>) -> bool {
    forall|i: int, j: int| 0 <= i < j < names.len() ==> (#[trigger] names[i])@ != (#[trigger] names[j])@
}

impl ContributionsMetadata {
    pub open spec fn wf(&self) -> bool {
        distinct_names(self.contributors@)
    }

    pub fn new() -> (r: ContributionsMetadata)
        ensures
            r.wf(),
            r.rows@.len() == 0,
            r.contributors@.len() == 0,
    {
        ContributionsMetadata { rows: Vec::new(), contributors: Vec::new() }
    }

    /// The index of contributor `name`.
    pub fn index_of(&self, name: &String) -> (r: Option<usize>)
        requires
            self.wf(),
        ensures
            r is None <==> forall|k: int| 0 <= k < self.contributors@.len() ==> (#[trigger] self.contributors@[k])@ != name@,
            r is Some ==> r->Some_0 < self.contributors@.len() && self.contributors@[r->Some_0 as int]@ == name@,
    {
        let mut i: usize = 0;
        while i < self.contributors.len()
            invariant
                i <= self.contributors@.len(),
                forall|k: int| 0 <= k < i ==> (#[trigger] self.contributors@[k])@ != name@,
            decreases self.contributors@.len() - i,
        {
            if self.contributors[i] == *name {
                return Some(i);
            }
            i += 1;
        }
        None
    }

    /// Keeps a record; its contributor gets the next index when it is new,
    /// and that index is returned.
    pub fn add_row(&mut self, row: ContribRow) -> (r: Option<usize>)
        requires
            old(self).wf(),
        ensures
            final(self).wf(),
            final(self).rows@ == old(self).rows@.push(row),
            (exists|k: int| 0 <= k < old(self).contributors@.len() && (#[trigger] old(self).contributors@[k])@ == row.contributor@)
                ==> r is None && final(self).contributors@ == old(self).contributors@,
            (forall|k: int| 0 <= k < old(self).contributors@.len() ==> (#[trigger] old(self).contributors@[k])@ != row.contributor@)
                ==> r == Some(old(self).contributors@.len() as usize) && final(self).contributors@.len() == old(self).contributors@.len() + 1
                && final(self).contributors@.last()@ == row.contributor@
                && final(self).contributors@.drop_last() == old(self).contributors@,
    {
        let r = match self.index_of(&row.contributor) {
            Some(_) => None,
            None => {
                let index = self.contributors.len();
                let name = row.contributor.clone();
                let ghost before = self.contributors@;
                self.contributors.push(name);
                assert(self.contributors@.drop_last() =~= before);
                Some(index)
            },
        };
        self.rows.push(row);
        r
    }
}

/// The triplets of the dependency records whose two projects are known, in
/// record order, each of value 1.
pub open spec fn dependency_triplets_of(p2i: Map<u32, usize>, deps: Seq<DepRow>) -> Seq<(usize, usize, u64)>
    decreases deps.len(),
{
    if deps.len() == 0 {
        Seq::empty()
    } else {
        let rest = dependency_triplets_of(p2i, deps.drop_last());
        let d = deps.last();
        if p2i.contains_key(d.from) && p2i.contains_key(d.to) {
            rest.push((p2i[d.from], p2i[d.to], 1u64))
        } else {
            rest
        }
    }
}

/// The triplets of the contribution records whose project is known, in
/// record order, each valued by its number of contributions.
pub open spec fn contribution_triplets_of(p2i: Map<u32, usize>, names: Seq<String>, rows: Seq<ContribRow>) -> Seq<(usize, usize, u64)>
    decreases rows.len(),
{
    if rows.len() == 0 {
        Seq::empty()
    } else {
        let rest = contribution_triplets_of(p2i, names, rows.drop_last());
        let c = rows.last();
        if p2i.contains_key(c.project_id) && exists|k: int| 0 <= k < names.len() && (#[trigger] names[k])@ == c.contributor@ {
            let k = choose|k: int| 0 <= k < names.len() && (#[trigger] names[k])@ == c.contributor@;
            rest.push((p2i[c.project_id], k as usize, c.contributions as u64))
        } else {
            rest
        }
    }
}

proof fn lemma_weight_total_push(ts: Seq<(usize, usize, u64)>, t: (usize, usize, u64))
    ensures
        weight_total(ts.push(t)) == weight_total(ts) + t.2,
{
    assert(ts.push(t).drop_last() =~= ts);
}

/// The dependency triplets of `deps`.
pub fn dependency_triplets(meta: &DependenciesMetadata, deps: &Vec<DepRow>) -> (r: Vec<(usize, usize, u64)>)
    requires
        meta.wf(),
    ensures
        r@ == dependency_triplets_of(meta.project2index@, deps@),
        r@.len() <= deps@.len(),
        weight_total(r@) == r@.len(),
        forall|k: int| 0 <= k < r@.len() ==> (#[trigger] r@[k]).0 < meta.labels@.len() && r@[k].1 < meta.labels@.len(),
{
    let mut out: Vec<(usize, usize, u64)> = Vec::new();
    let mut i: usize = 0;
    while i < deps.len()
        invariant
            meta.wf(),
            i <= deps@.len(),
            out@ == dependency_triplets_of(meta.project2index@, deps@.take(i as int)),
            out@.len() <= i,
            weight_total(out@) == out@.len(),
            forall|k: int| 0 <= k < out@.len() ==> (#[trigger] out@[k]).0 < meta.labels@.len() && out@[k].1 < meta.labels@.len(),
        decreases deps@.len() - i,
    {
        let d = deps[i];
        proof {
            assert(deps@.take(i + 1).drop_last() =~= deps@.take(i as int));
        }
        match (meta.index_of(d.from), meta.index_of(d.to)) {
            (Some(f), Some(t)) => {
                proof {
                    lemma_weight_total_push(out@, (f, t, 1u64));
                }
                out.push((f, t, 1));
            },
            _ => {},
        }
        i += 1;
    }
    assert(deps@.take(deps@.len() as int) =~= deps@);
    out
}

/// The project by project matrix of dependencies: the entry at `(i, j)` is
/// the number of records in which project `i` depends on project `j`.
pub fn new_dependency_adjacency_matrix(meta: &DependenciesMetadata, deps: &Vec<DepRow>) -> (r: SparseMatrix<u64>)
    requires
        meta.wf(),
    ensures
        r.wf(),
        r.nrows == meta.labels@.len(),
        r.ncols == meta.labels@.len(),
        forall|i: int, j: int| #[trigger] r.at(i, j) == {
            let ts = dependency_triplets_of(meta.project2index@, deps@);
            if has_triplet(ts, i, j) {
                Some(triplet_sum(ts, i, j) as u64)
            } else {
                None::<u64>
            }
        },
{
    let ts = dependency_triplets(meta, deps);
    let count = ts.len();
    assert(weight_total(ts@) <= u64::MAX) by {
        assert(count as int == ts@.len());
    }
    SparseMatrix::from_triplets(meta.len(), meta.len(), &ts)
}

/// The contribution triplets of the records of `contribs`.
pub fn contribution_triplets(meta: &DependenciesMetadata, contribs: &ContributionsMetadata) -> (r: Vec<(usize, usize, u64)>)
    requires
        meta.wf(),
        contribs.wf(),
        contribs.rows@.len() <= u32::MAX,
    ensures
        r@ == contribution_triplets_of(meta.project2index@, contribs.contributors@, contribs.rows@),
        weight_total(r@) <= u64::MAX,
        forall|k: int| 0 <= k < r@.len() ==> (#[trigger] r@[k]).0 < meta.labels@.len() && r@[k].1 < contribs.contributors@.len(),
{
    let ghost names = contribs.contributors@;
    let ghost p2i = meta.project2index@;
    let mut out: Vec<(usize, usize, u64)> = Vec::new();
    let mut i: usize = 0;
    while i < contribs.rows.len()
        invariant
            meta.wf(),
            contribs.wf(),
            names == contribs.contributors@,
            p2i == meta.project2index@,
            contribs.rows@.len() <= u32::MAX,
            i <= contribs.rows@.len(),
            out@ == contribution_triplets_of(p2i, names, contribs.rows@.take(i as int)),
            weight_total(out@) <= i * (u32::MAX as int),
            forall|k: int| 0 <= k < out@.len() ==> (#[trigger] out@[k]).0 < meta.labels@.len() && out@[k].1 < names.len(),
        decreases contribs.rows@.len() - i,
    {
        let row = &contribs.rows[i];
        proof {
            assert(contribs.rows@.take(i + 1).drop_last() =~= contribs.rows@.take(i as int));
            assert(contribs.rows@.take(i + 1).last() == *row);
        }
        match meta.index_of(row.project_id) {
            Some(p) => {
                match contribs.index_of(&row.contributor) {
                    Some(c) => {
                        proof {
                            let kc = choose|k: int| 0 <= k < names.len() && (#[trigger] names[k])@ == row.contributor@;
                            if kc != c {
                                assert(names[kc]@ != names[c as int]@);
                            }
                            lemma_weight_total_push(out@, (p, c, row.contributions as u64));
                        }
                        out.push((p, c, row.contributions as u64));
                    },
                    None => {},
                }
            },
            None => {},
        }
        i += 1;
    }
    proof {
        assert(contribs.rows@.take(contribs.rows@.len() as int) =~= contribs.rows@);
        assert(i * (u32::MAX as int) <= u64::MAX) by (nonlinear_arith)
            requires
                i <= u32::MAX;
    }
    out
}

/// The project by contributor matrix of contributions: the entry at
/// `(i, j)` adds up the contributions recorded for contributor `j` on
/// project `i`.
pub fn new_contribution_adjacency_matrix(meta: &DependenciesMetadata, contribs: &ContributionsMetadata) -> (r: SparseMatrix<u64>)
    requires
        meta.wf(),
        contribs.wf(),
        contribs.rows@.len() <= u32::MAX,
    ensures
        r.wf(),
        r.nrows == meta.labels@.len(),
        r.ncols == contribs.contributors@.len(),
        forall|i: int, j: int| #[trigger] r.at(i, j) == {
            let ts = contribution_triplets_of(meta.project2index@, contribs.contributors@, contribs.rows@);
            if has_triplet(ts, i, j) {
                Some(triplet_sum(ts, i, j) as u64)
            } else {
                None::<u64>
            }
        },
{
    let ts = contribution_triplets(meta, contribs);
    SparseMatrix::from_triplets(meta.len(), contribs.contributors.len(), &ts)
}

/// The characters of each name.
pub open spec fn names_of(names: Seq<String>) -> Seq<Seq<char>> {
    names.map_values(|n: String| n@)
}

/// The nodes of an import: projects and contributors in the index order of
/// their metadata, projects first.
pub open spec fn nodes_match<W>(g: Network<W>, meta: DependenciesMetadata, contribs: ContributionsMetadata) -> bool {
    let np = meta.labels@.len();
    &&& g.ids() == names_of(meta.labels@) + names_of(contribs.contributors@)
    &&& forall|k: int| 0 <= k < np ==> (#[trigger] g.nodes@[k]).data == (ArtifactType::Project { osrank: Osrank { numer: 0, denom: 1 } })
    &&& forall|k: int| np <= k < g.nodes@.len() ==> (#[trigger] g.nodes@[k]).data == (ArtifactType::Account { osrank: Osrank { numer: 0, denom: 1 } })
}

/// The first record of each distinct project id, in order.
pub open spec fn first_projects(rows: Seq<DepMetaRow>) -> Seq<DepMetaRow>
    decreases rows.len(),
{
    if rows.len() == 0 {
        Seq::empty()
    } else {
        let pre = first_projects(rows.drop_last());
        if exists|k: int| 0 <= k < pre.len() && (#[trigger] pre[k]).id == rows.last().id {
            pre
        } else {
            pre.push(rows.last())
        }
    }
}

/// The distinct contributor names, in order of first appearance.
pub open spec fn first_contributors(rows: Seq<ContribRow>) -> Seq<Seq<char>>
    decreases rows.len(),
{
    if rows.len() == 0 {
        Seq::empty()
    } else {
        let pre = first_contributors(rows.drop_last());
        if pre.contains(rows.last().contributor@) {
            pre
        } else {
            pre.push(rows.last().contributor@)
        }
    }
}

/// The names of project records.
pub open spec fn project_names(rows: Seq<DepMetaRow>) -> Seq<Seq<char>> {
    rows.map_values(|r: DepMetaRow| r.name@)
}

/// The node names an import makes: projects first, then contributors.
pub open spec fn imported_names(projects: Seq<DepMetaRow>, contributions: Seq<ContribRow>) -> Seq<Seq<char>> {
    project_names(first_projects(projects)) + first_contributors(contributions)
}

/// `meta` indexes exactly the projects of `fp`, each by its position.
pub open spec fn indexes(meta: DependenciesMetadata, fp: Seq<DepMetaRow>) -> bool {
    &&& names_of(meta.labels@) == project_names(fp)
    &&& forall|j: int| 0 <= j < fp.len() ==> meta.project2index@.contains_key(#[trigger] fp[j].id)
        && meta.project2index@[fp[j].id] == j
    &&& forall|id: u32| #[trigger] meta.project2index@.contains_key(id) ==> exists|j: int| 0 <= j < fp.len() && (#[trigger] fp[j]).id == id
}

proof fn lemma_first_projects_prefix(s: Seq<DepMetaRow>, k: int)
    requires
        0 <= k <= s.len(),
    ensures
        first_projects(s.take(k)).len() <= first_projects(s).len(),
        forall|i: int| 0 <= i < first_projects(s.take(k)).len() ==> first_projects(s.take(k))[i] == first_projects(s)[i],
    decreases s.len(),
{
    if k == s.len() {
        assert(s.take(k) =~= s);
    } else {
        lemma_first_projects_prefix(s.drop_last(), k);
        assert(s.drop_last().take(k) =~= s.take(k));
    }
}

proof fn lemma_first_contributors_prefix(s: Seq<ContribRow>, k: int)
    requires
        0 <= k <= s.len(),
    ensures
        first_contributors(s.take(k)).len() <= first_contributors(s).len(),
        forall|i: int| 0 <= i < first_contributors(s.take(k)).len() ==> first_contributors(s.take(k))[i] == first_contributors(s)[i],
    decreases s.len(),
{
    if k == s.len() {
        assert(s.take(k) =~= s);
    } else {
        lemma_first_contributors_prefix(s.drop_last(), k);
        assert(s.drop_last().take(k) =~= s.take(k));
    }
}

/// A name repeated in a prefix is repeated in the whole.
proof fn lemma_repeat_in_prefix(full: Seq<Seq<char>>, pre: Seq<Seq<char>>, j: int, x: int)
    requires
        pre.len() <= full.len(),
        forall|i: int| 0 <= i < pre.len() ==> pre[i] == full[i],
        0 <= j < x < pre.len(),
        pre[j] == pre[x],
    ensures
        !crate::network::distinct_ids(full),
{
    assert(full[j] == full[x]);
}

/// Indexes the projects, then the contributors, and adds a node for each
/// project and each new contributor, in that order, so that node indices and
/// matrix indices agree. Fails exactly when two of those nodes share a name.
pub fn build_nodes<W>(projects: Vec<DepMetaRow>, contributions: Vec<ContribRow>) -> (r: Result<(DependenciesMetadata, ContributionsMetadata, Network<W>), GraphError>)
    ensures
        r is Ok <==> crate::network::distinct_ids(imported_names(projects@, contributions@)),
        r is Err ==> r == Err::<(DependenciesMetadata, ContributionsMetadata, Network<W>), GraphError>(GraphError::DuplicateId),
        r is Ok ==> {
            let (meta, contribs, g) = r->Ok_0;
            &&& meta.wf()
            &&& contribs.wf()
            &&& g.wf()
            &&& g.edges@.len() == 0
            &&& indexes(meta, first_projects(projects@))
            &&& names_of(contribs.contributors@) == first_contributors(contributions@)
            &&& contribs.rows@ == contributions@
            &&& g.ids() == imported_names(projects@, contributions@)
            &&& nodes_match(g, meta, contribs)
        },
{
    let mut meta = DependenciesMetadata::new();
    let mut contribs = ContributionsMetadata::new();
    let mut g: Network<W> = Network::new();
    let ghost all_p = projects@;
    let ghost all_c = contributions@;
    let ghost full = imported_names(all_p, all_c);
    proof {
        assert(g.ids() =~= names_of(meta.labels@) + names_of(contribs.contributors@));
        assert(names_of(meta.labels@) =~= project_names(first_projects(all_p.take(0))));
        assert(full.take(full.len() as int) =~= full);
    }
    let mut k: usize = 0;
    while k < projects.len()
        invariant
            all_p == projects@,
            all_c == contributions@,
            full == imported_names(all_p, all_c),
            k <= projects@.len(),
            meta.wf(),
            contribs.wf(),
            g.wf(),
            g.edges@.len() == 0,
            contribs.rows@.len() == 0,
            contribs.contributors@.len() == 0,
            g.nodes@.len() == meta.labels@.len(),
            indexes(meta, first_projects(all_p.take(k as int))),
            nodes_match(g, meta, contribs),
        decreases projects@.len() - k,
    {
        let row = &projects[k];
        let ghost fp = first_projects(all_p.take(k as int));
        let ghost fp2 = first_projects(all_p.take(k + 1));
        let ghost old_labels = meta.labels@;
        proof {
            assert(all_p.take(k + 1).drop_last() =~= all_p.take(k as int));
            assert(all_p.take(k + 1).last() == *row);
            lemma_first_projects_prefix(all_p, k + 1);
        }
        match meta.add_project(row.id, row.name.clone()) {
            Some(_) => {
                proof {
                    assert(!exists|j: int| 0 <= j < fp.len() && (#[trigger] fp[j]).id == row.id);
                    assert(fp2 == fp.push(*row));
                    assert(names_of(meta.labels@) =~= names_of(old_labels).push(row.name@));
                    assert(project_names(fp2) =~= project_names(fp).push(row.name@));
                }
                let ghost old_ids = g.ids();
                match g.add_node(row.name.clone(), ArtifactType::Project { osrank: Osrank::zero() }) {
                    Ok(()) => {},
                    Err(e) => {
                        proof {
                            let pre = project_names(fp2);
                            let j = choose|j: int| 0 <= j < old_ids.len() && old_ids[j] == row.name@;
                            assert(old_ids == names_of(old_labels) + names_of(contribs.contributors@));
                            assert(old_ids =~= project_names(fp));
                            assert(pre[j] == pre[fp.len() as int]);
                            assert forall|i: int| 0 <= i < pre.len() implies pre[i] == full[i] by {
                                assert(full[i] == project_names(first_projects(all_p))[i]);
                            }
                            lemma_repeat_in_prefix(full, pre, j, fp.len() as int);
                        }
                        return Err(e);
                    },
                }
                proof {
                    assert(g.ids() =~= names_of(meta.labels@) + names_of(contribs.contributors@));
                    assert forall|id: u32| #[trigger] meta.project2index@.contains_key(id) implies exists|j: int|
                        0 <= j < fp2.len() && (#[trigger] fp2[j]).id == id by {
                        if id != row.id {
                            let j = choose|j: int| 0 <= j < fp.len() && (#[trigger] fp[j]).id == id;
                            assert(fp2[j] == fp[j]);
                        } else {
                            assert(fp2[fp.len() as int] == *row);
                        }
                    }
                    assert forall|j: int| 0 <= j < fp2.len() implies meta.project2index@.contains_key(#[trigger] fp2[j].id)
                        && meta.project2index@[fp2[j].id] == j by {
                        if j < fp.len() {
                            assert(fp2[j] == fp[j]);
                        }
                    }
                }
            },
            None => {
                proof {
                    let j = choose|j: int| 0 <= j < fp.len() && (#[trigger] fp[j]).id == row.id;
                    assert(fp2 == fp);
                }
            },
        }
        k += 1;
    }
    proof {
        assert(all_p.take(all_p.len() as int) =~= all_p);
        assert(names_of(contribs.contributors@) =~= first_contributors(all_c.take(0)));
        assert(contribs.rows@ =~= all_c.take(0));
    }
    let mut rest = contributions;
    let ghost mut c: int = 0;
    while rest.len() > 0
        invariant
            all_c.skip(c) == rest@,
            all_c == contributions@,
            all_p == projects@,
            0 <= c <= all_c.len(),
            full == imported_names(all_p, all_c),
            meta.wf(),
            contribs.wf(),
            g.wf(),
            g.edges@.len() == 0,
            indexes(meta, first_projects(all_p)),
            contribs.rows@ == all_c.take(c),
            names_of(contribs.contributors@) == first_contributors(all_c.take(c)),
            nodes_match(g, meta, contribs),
        decreases rest@.len(),
    {
        proof {
            assert(all_c.skip(c)[0] == all_c[c]);
        }
        let row = rest.remove(0);
        let name = row.contributor.clone();
        let ghost fc = first_contributors(all_c.take(c));
        let ghost fc2 = first_contributors(all_c.take(c + 1));
        let ghost old_contributors = contribs.contributors@;
        let ghost old_ids = g.ids();
        proof {
            assert(all_c.take(c + 1).drop_last() =~= all_c.take(c));
            assert(all_c.take(c + 1).last() == row);
            lemma_first_contributors_prefix(all_c, c + 1);
            assert(names_of(old_contributors) == fc);
        }
        match contribs.add_row(row) {
            Some(_) => {
                proof {
                    assert(!fc.contains(name@)) by {
                        if fc.contains(name@) {
                            let j = choose|j: int| 0 <= j < fc.len() && fc[j] == name@;
                            assert(names_of(old_contributors)[j] == old_contributors[j]@);
                        }
                    }
                    assert(fc2 == fc.push(name@));
                    assert(contribs.contributors@ =~= old_contributors.push(contribs.contributors@.last()));
                    assert(names_of(contribs.contributors@) =~= names_of(old_contributors).push(name@));
                }
                match g.add_node(name, ArtifactType::Account { osrank: Osrank::zero() }) {
                    Ok(()) => {},
                    Err(e) => {
                        proof {
                            let pn = project_names(first_projects(all_p));
                            let pre = pn + fc2;
                            assert(old_ids == pn + fc);
                            let j = choose|j: int| 0 <= j < old_ids.len() && old_ids[j] == name@;
                            assert(pre[j] == pre[(pn.len() + fc.len()) as int]);
                            assert forall|i: int| 0 <= i < pre.len() implies pre[i] == full[i] by {
                                if i >= pn.len() {
                                    assert(full[i] == first_contributors(all_c)[i - pn.len()]);
                                }
                            }
                            lemma_repeat_in_prefix(full, pre, j, (pn.len() + fc.len()) as int);
                        }
                        return Err(e);
                    },
                }
                proof {
                    assert(g.ids() =~= names_of(meta.labels@) + names_of(contribs.contributors@));
                }
            },
            None => {
                proof {
                    let j = choose|j: int| 0 <= j < old_contributors.len() && (#[trigger] old_contributors[j])@ == name@;
                    assert(fc[j] == names_of(old_contributors)[j]);
                    assert(fc.contains(name@));
                    assert(fc2 == fc);
                }
            },
        }
        proof {
            assert(all_c.skip(c + 1) =~= rest@);
            c = c + 1;
        }
    }
    proof {
        assert(c == all_c.len());
        assert(all_c.take(c) =~= all_c);
        assert(g.ids() == full);
        crate::network::lemma_ids_distinct(g);
    }
    Ok((meta, contribs, g))
}

} // verus!
