//! A directed multigraph over project and account nodes, with weighted and
//! typed edges. Nodes and edges keep their insertion order; the position of
//! a node in that order is its index.

use crate::matrix::{row_triplets, row_wf, triplets_of, SparseMatrix};
use vstd::prelude::*;

verus! {

/// A rank as the fraction `numer / denom`.
#[derive(Debug, Clone, Copy, PartialEq, Eq, Structural)]
pub struct Osrank {
    pub numer: u64,
    pub denom: u64,
}

impl Osrank {
    /// The rank `0`.
    pub fn zero() -> (r: Osrank)
        ensures
            r.numer == 0,
            r.denom == 1,
    {
        Osrank { numer: 0, denom: 1 }
    }

    pub fn is_zero(&self) -> (r: bool)
        ensures
            r == (self.numer == 0),
    {
        self.numer == 0
    }
}

/// What a node is, with its current rank.
#[derive(Debug, Clone, Copy, PartialEq, Eq, Structural)]
pub enum ArtifactType {
    Project { osrank: Osrank },
    Account { osrank: Osrank },
}

/// The kind of relation an edge stands for, with its weight.
#[derive(Debug, Clone, Copy, PartialEq, Eq)]
pub enum DependencyType<W> {
    Contrib(W),
    ContribPrime(W),
    Maintain(W),
    MaintainPrime(W),
    Depend(W),
    Influence(W),
}

/// A node: its identifier and its data.
pub struct Artifact {
    pub id: String,
    pub data: ArtifactType,
}

/// An edge between two nodes, given by their indices.
pub struct Dependency<W> {
    pub id: usize,
    pub source: usize,
    pub target: usize,
    pub weight: W,
    pub data: DependencyType<W>,
}

/// Failures of graph updates.
#[derive(Debug, Clone, Copy, PartialEq, Eq, Structural)]
pub enum GraphError {
    /// A node with this identifier is already in the graph.
    DuplicateId,
    /// An edge names a node that is not in the graph.
    UnknownEndpoint,
}

/// The graph of projects and accounts.
pub struct Network<W> {
    pub nodes: Vec<Artifact>,
    pub edges: Vec<Dependency<W>>,
}

/// The identifiers of the nodes, in insertion order.
pub open spec fn ids_of(nodes: Seq<Artifact>) -> Seq<Seq<char>> {
    nodes.map_values(|n: Artifact| n.id@)
}

/// The outgoing edges of node `src` as `(edge id, target, weight)`, in
/// insertion order.
pub open spec fn out_edges<W>(edges: Seq<Dependency<W>>, src: usize) -> Seq<(usize, usize, W)>
    decreases edges.len(),
{
    if edges.len() == 0 {
        Seq::empty()
    } else {
        let e = edges.last();
        let rest = out_edges(edges.drop_last(), src);
        if e.source == src {
            rest.push((e.id, e.target, e.weight))
        } else {
            rest
        }
    }
}

impl<W> Network<W> {
    /// Identifiers are unique and every edge joins two nodes of the graph.
    pub open spec fn wf(&self) -> bool {
        &&& forall|i: int, j: int|
            0 <= i < j < self.nodes@.len() ==> (#[trigger] self.nodes@[i]).id@ != (#[trigger] self.nodes@[j]).id@
        &&& forall|k: int|
            0 <= k < self.edges@.len() ==> (#[trigger] self.edges@[k]).source < self.nodes@.len()
                && self.edges@[k].target < self.nodes@.len()
    }

    pub open spec fn ids(&self) -> Seq<Seq<char>> {
        ids_of(self.nodes@)
    }

    pub open spec fn has_id(&self, id: Seq<char>) -> bool {
        self.ids().contains(id)
    }

    /// The empty graph.
    pub fn new() -> (r: Network<W>)
        ensures
            r.wf(),
            r.nodes@.len() == 0,
            r.edges@.len() == 0,
    {
        Network { nodes: Vec::new(), edges: Vec::new() }
    }

    pub fn node_count(&self) -> (r: usize)
        ensures
            r == self.nodes@.len(),
    {
        self.nodes.len()
    }

    pub fn edge_count(&self) -> (r: usize)
        ensures
            r == self.edges@.len(),
    {
        self.edges.len()
    }

    /// The index of the node with identifier `id`, if there is one.
    pub fn node_index(&self, id: &String) -> (r: Option<usize>)
        requires
            self.wf(),
        ensures
            r is None <==> !self.has_id(id@),
            r is Some ==> r->Some_0 < self.nodes@.len() && self.nodes@[r->Some_0 as int].id@ == id@,
    {
        let mut i: usize = 0;
        while i < self.nodes.len()
            invariant
                i <= self.nodes@.len(),
                forall|k: int| 0 <= k < i ==> (#[trigger] self.nodes@[k]).id@ != id@,
            decreases self.nodes@.len() - i,
        {
            if self.nodes[i].id == *id {
                assert(self.ids()[i as int] == id@);
                return Some(i);
            }
            i += 1;
        }
        proof {
            if self.has_id(id@) {
                let k = choose|k: int| 0 <= k < self.ids().len() && self.ids()[k] == id@;
                assert(self.nodes@[k].id@ == id@);
            }
        }
        None
    }

    /// Adds a node; fails when its identifier is already taken.
    pub fn add_node(&mut self, id: String, data: ArtifactType) -> (r: Result<(), GraphError>)
        requires
            old(self).wf(),
        ensures
            final(self).wf(),
            r is Err <==> old(self).has_id(id@),
            r is Err ==> r == Err::<(), GraphError>(GraphError::DuplicateId) && *final(self) == *old(self),
            r is Ok ==> final(self).nodes@.len() == old(self).nodes@.len() + 1
                && final(self).ids() == old(self).ids().push(id@)
                && final(self).nodes@.last().data == data
                && forall|k: int| 0 <= k < old(self).nodes@.len() ==> final(self).nodes@[k] == old(self).nodes@[k],
            final(self).edges == old(self).edges,
    {
        match self.node_index(&id) {
            Some(_) => Err(GraphError::DuplicateId),
            None => {
                let ghost before = self.nodes@;
                self.nodes.push(Artifact { id, data });
                assert(self.ids() =~= ids_of(before).push(id@));
                assert forall|i: int, j: int|
                    0 <= i < j < self.nodes@.len() implies (#[trigger] self.nodes@[i]).id@ != (#[trigger] self.nodes@[j]).id@ by {
                    if j == before.len() {
                        assert(ids_of(before)[i] == before[i].id@);
                    }
                }
                Ok(())
            },
        }
    }

    /// Adds an edge from the node `source` to the node `target`; fails when
    /// either is not in the graph.
    pub fn add_edge(&mut self, edge_id: usize, source: &String, target: &String, weight: W, data: DependencyType<W>) -> (r: Result<(), GraphError>)
        requires
            old(self).wf(),
        ensures
            final(self).wf(),
            r is Err <==> !old(self).has_id(source@) || !old(self).has_id(target@),
            r is Err ==> r == Err::<(), GraphError>(GraphError::UnknownEndpoint) && *final(self) == *old(self),
            r is Ok ==> final(self).edges@.len() == old(self).edges@.len() + 1
                && forall|k: int| 0 <= k < old(self).edges@.len() ==> final(self).edges@[k] == old(self).edges@[k],
            r is Ok ==> {
                let e = final(self).edges@.last();
                &&& e.id == edge_id
                &&& old(self).nodes@[e.source as int].id@ == source@
                &&& old(self).nodes@[e.target as int].id@ == target@
                &&& e.weight == weight
                &&& e.data == data
            },
            final(self).nodes == old(self).nodes,
    {
        let s = self.node_index(source);
        let t = self.node_index(target);
        match (s, t) {
            (Some(s), Some(t)) => {
                self.edges.push(Dependency { id: edge_id, source: s, target: t, weight, data });
                Ok(())
            },
            _ => Err(GraphError::UnknownEndpoint),
        }
    }

    /// The data of the node with identifier `id`.
    pub fn lookup_node_metadata(&self, id: &String) -> (r: Option<&ArtifactType>)
        requires
            self.wf(),
        ensures
            r is None <==> !self.has_id(id@),
            r is Some ==> exists|k: int|
                0 <= k < self.nodes@.len() && self.nodes@[k].id@ == id@ && *r->Some_0 == self.nodes@[k].data,
    {
        match self.node_index(id) {
            Some(i) => Some(&self.nodes[i].data),
            None => None,
        }
    }

    /// The position of the first edge with identifier `edge_id`.
    pub fn edge_position(&self, edge_id: usize) -> (r: Option<usize>)
        ensures
            r is None <==> forall|k: int| 0 <= k < self.edges@.len() ==> (#[trigger] self.edges@[k]).id != edge_id,
            r is Some ==> r->Some_0 < self.edges@.len() && self.edges@[r->Some_0 as int].id == edge_id
                && forall|k: int| 0 <= k < r->Some_0 ==> (#[trigger] self.edges@[k]).id != edge_id,
    {
        let mut i: usize = 0;
        while i < self.edges.len()
            invariant
                i <= self.edges@.len(),
                forall|k: int| 0 <= k < i ==> (#[trigger] self.edges@[k]).id != edge_id,
            decreases self.edges@.len() - i,
        {
            if self.edges[i].id == edge_id {
                return Some(i);
            }
            i += 1;
        }
        None
    }

    /// The data of the first edge with identifier `edge_id`.
    pub fn lookup_edge_metadata(&self, edge_id: usize) -> (r: Option<&DependencyType<W>>)
        ensures
            r is None <==> forall|k: int| 0 <= k < self.edges@.len() ==> (#[trigger] self.edges@[k]).id != edge_id,
            r is Some ==> exists|k: int|
                0 <= k < self.edges@.len() && self.edges@[k].id == edge_id && *r->Some_0 == self.edges@[k].data
                && forall|kk: int| 0 <= kk < k ==> (#[trigger] self.edges@[kk]).id != edge_id,
    {
        match self.edge_position(edge_id) {
            Some(i) => Some(&self.edges[i].data),
            None => None,
        }
    }
}

impl<W: Copy> Network<W> {
    /// The edges leaving node `id` as `(edge id, target index, weight)`, in
    /// insertion order; `None` when there is no such node.
    pub fn neighbours(&self, id: &String) -> (r: Option<Vec<(usize, usize, W)>>)
        requires
            self.wf(),
        ensures
            r is None <==> !self.has_id(id@),
            r is Some ==> exists|s: usize|
                s < self.nodes@.len() && self.nodes@[s as int].id@ == id@
                && r->Some_0@ == out_edges(self.edges@, s),
    {
        match self.node_index(id) {
            None => None,
            Some(s) => Some(self.out_edges_of(s)),
        }
    }

    /// The edges leaving the node of index `src`, in insertion order.
    pub fn out_edges_of(&self, src: usize) -> (r: Vec<(usize, usize, W)>)
        ensures
            r@ == out_edges(self.edges@, src),
    {
        let mut out: Vec<(usize, usize, W)> = Vec::new();
        let mut i: usize = 0;
        while i < self.edges.len()
            invariant
                i <= self.edges@.len(),
                out@ == out_edges(self.edges@.take(i as int), src),
            decreases self.edges@.len() - i,
        {
            let e = &self.edges[i];
            if e.source == src {
                out.push((e.id, e.target, e.weight));
            }
            assert(self.edges@.take(i + 1).drop_last() =~= self.edges@.take(i as int));
            i += 1;
        }
        assert(self.edges@.take(self.edges@.len() as int) =~= self.edges@);
        out
    }
}

impl<W> Network<W> {
    /// Adds a node given whole; fails when its identifier is already taken.
    pub fn add_artifact(&mut self, artifact: Artifact) -> (r: Result<(), GraphError>)
        requires
            old(self).wf(),
        ensures
            final(self).wf(),
            r is Err <==> old(self).has_id(artifact.id@),
            r is Ok ==> final(self).ids() == old(self).ids().push(artifact.id@)
                && final(self).nodes@.last().data == artifact.data,
            r is Err ==> *final(self) == *old(self),
            final(self).edges == old(self).edges,
    {
        self.add_node(artifact.id, artifact.data)
    }

    /// Adds an edge between the nodes of index `source` and `target`, which
    /// the caller guarantees to be in the graph.
    pub fn unsafe_add_dependency(&mut self, edge_id: usize, source: usize, target: usize, weight: W, data: DependencyType<W>)
        requires
            old(self).wf(),
            source < old(self).nodes@.len(),
            target < old(self).nodes@.len(),
        ensures
            final(self).wf(),
            final(self).nodes == old(self).nodes,
            final(self).edges@ == old(self).edges@.push(Dependency { id: edge_id, source, target, weight, data }),
    {
        self.edges.push(Dependency { id: edge_id, source, target, weight, data });
    }
}

/// No identifier occurs twice.
pub open spec fn distinct_ids(ids: Seq<Seq<char>>) -> bool {
    forall|i: int, j: int| 0 <= i < j < ids.len() ==> ids[i] != ids[j]
}

/// The characters of each identifier.
pub open spec fn strings_of(ns: Seq<String>) -> Seq<Seq<char>> {
    ns.map_values(|n: String| n@)
}

pub proof fn lemma_ids_distinct<W>(g: Network<W>)
    requires
        g.wf(),
    ensures
        distinct_ids(g.ids()),
{
    assert forall|i: int, j: int| 0 <= i < j < g.ids().len() implies g.ids()[i] != g.ids()[j] by {
        assert(g.nodes@[i].id@ != g.nodes@[j].id@);
    }
}

/// Adds one node per identifier of `ns`, all of kind `data`, in order; stops
/// at the first identifier already taken.
fn add_all<W>(graph: &mut Network<W>, ns: Vec<String>, data: ArtifactType) -> (r: Result<(), GraphError>)
    requires
        old(graph).wf(),
    ensures
        final(graph).wf(),
        final(graph).edges == old(graph).edges,
        r is Ok <==> distinct_ids(old(graph).ids() + strings_of(ns@)),
        r is Err ==> r == Err::<(), GraphError>(GraphError::DuplicateId),
        r is Ok ==> final(graph).ids() == old(graph).ids() + strings_of(ns@)
            && forall|k: int| 0 <= k < old(graph).nodes@.len() ==> final(graph).nodes@[k] == old(graph).nodes@[k],
        r is Ok ==> forall|k: int| old(graph).nodes@.len() <= k < final(graph).nodes@.len() ==> (#[trigger] final(graph).nodes@[k]).data == data,
{
    let ghost start = graph.ids();
    let ghost start_nodes = graph.nodes@;
    let ghost all = strings_of(ns@);
    let mut k: usize = 0;
    while k < ns.len()
        invariant
            graph.wf(),
            graph.edges == old(graph).edges,
            start == old(graph).ids(),
            start_nodes == old(graph).nodes@,
            all == strings_of(ns@),
            k <= ns@.len(),
            graph.ids() == start + all.take(k as int),
            forall|kk: int| 0 <= kk < start_nodes.len() ==> graph.nodes@[kk] == start_nodes[kk],
            forall|kk: int| start_nodes.len() <= kk < graph.nodes@.len() ==> (#[trigger] graph.nodes@[kk]).data == data,
        decreases ns@.len() - k,
    {
        let id = ns[k].clone();
        match graph.add_node(id, data) {
            Ok(()) => {},
            Err(e) => {
                proof {
                    let ids = start + all;
                    let j = choose|j: int| 0 <= j < graph.ids().len() && graph.ids()[j] == ns@[k as int]@;
                    assert(ids[j] == graph.ids()[j]);
                    assert(ids[start.len() + k] == ns@[k as int]@);
                }
                return Err(e);
            },
        }
        proof {
            assert(start + all.take(k + 1) =~= (start + all.take(k as int)).push(ns@[k as int]@));
        }
        k += 1;
    }
    proof {
        assert(all.take(ns@.len() as int) =~= all);
        lemma_ids_distinct(*graph);
    }
    Ok(())
}

/// Adds a project node for each identifier of `ns`, in order.
pub fn add_projects<W>(graph: &mut Network<W>, ns: Vec<String>) -> (r: Result<(), GraphError>)
    requires
        old(graph).wf(),
    ensures
        final(graph).wf(),
        final(graph).edges == old(graph).edges,
        r is Ok <==> distinct_ids(old(graph).ids() + strings_of(ns@)),
        r is Err ==> r == Err::<(), GraphError>(GraphError::DuplicateId),
        r is Ok ==> final(graph).ids() == old(graph).ids() + strings_of(ns@),
        r is Ok ==> forall|k: int| old(graph).nodes@.len() <= k < final(graph).nodes@.len()
            ==> (#[trigger] final(graph).nodes@[k]).data == (ArtifactType::Project { osrank: Osrank { numer: 0, denom: 1 } }),
{
    add_all(graph, ns, ArtifactType::Project { osrank: Osrank::zero() })
}

/// Adds an account node for each identifier of `ns`, in order.
pub fn add_users<W>(graph: &mut Network<W>, ns: Vec<String>) -> (r: Result<(), GraphError>)
    requires
        old(graph).wf(),
    ensures
        final(graph).wf(),
        final(graph).edges == old(graph).edges,
        r is Ok <==> distinct_ids(old(graph).ids() + strings_of(ns@)),
        r is Err ==> r == Err::<(), GraphError>(GraphError::DuplicateId),
        r is Ok ==> final(graph).ids() == old(graph).ids() + strings_of(ns@),
        r is Ok ==> forall|k: int| old(graph).nodes@.len() <= k < final(graph).nodes@.len()
            ==> (#[trigger] final(graph).nodes@[k]).data == (ArtifactType::Account { osrank: Osrank { numer: 0, denom: 1 } }),
{
    add_all(graph, ns, ArtifactType::Account { osrank: Osrank::zero() })
}

/// Adds the edges `(id, source, target, data)` in order, each weighted by
/// the weight its data carries; stops at the first that names a node not in
/// the graph.
pub fn add_edges<W: Copy>(graph: &mut Network<W>, es: Vec<(usize, String, String, DependencyType<W>)>) -> (r: Result<(), GraphError>)
    requires
        old(graph).wf(),
    ensures
        final(graph).wf(),
        final(graph).nodes == old(graph).nodes,
        r is Ok <==> forall|k: int| 0 <= k < es@.len() ==> old(graph).has_id((#[trigger] es@[k]).1@) && old(graph).has_id(es@[k].2@),
        r is Err ==> r == Err::<(), GraphError>(GraphError::UnknownEndpoint),
        r is Ok ==> final(graph).edges@.len() == old(graph).edges@.len() + es@.len(),
        r is Ok ==> forall|k: int| 0 <= k < es@.len() ==> (#[trigger] final(graph).edges@[old(graph).edges@.len() + k]).id == es@[k].0
            && final(graph).edges@[old(graph).edges@.len() + k].data == es@[k].3
            && final(graph).edges@[old(graph).edges@.len() + k].weight == weight_of(es@[k].3),
{
    let ghost n0 = graph.edges@.len();
    let mut k: usize = 0;
    while k < es.len()
        invariant
            graph.wf(),
            graph.nodes == old(graph).nodes,
            n0 == old(graph).edges@.len(),
            k <= es@.len(),
            graph.edges@.len() == n0 + k,
            forall|kk: int| 0 <= kk < k ==> old(graph).has_id((#[trigger] es@[kk]).1@) && old(graph).has_id(es@[kk].2@),
            forall|kk: int| 0 <= kk < k ==> (#[trigger] graph.edges@[n0 + kk]).id == es@[kk].0
                && graph.edges@[n0 + kk].data == es@[kk].3
                && graph.edges@[n0 + kk].weight == weight_of(es@[kk].3),
        decreases es@.len() - k,
    {
        let e = &es[k];
        let w = e.3.weight();
        let ghost before = graph.edges@;
        match graph.add_edge(e.0, &e.1, &e.2, w, e.3) {
            Ok(()) => {},
            Err(err) => return Err(err),
        }
        proof {
            assert forall|kk: int| 0 <= kk < k + 1 implies (#[trigger] graph.edges@[n0 + kk]).id == es@[kk].0
                && graph.edges@[n0 + kk].data == es@[kk].3
                && graph.edges@[n0 + kk].weight == weight_of(es@[kk].3) by {
                if kk < k {
                    assert(graph.edges@[n0 + kk] == before[n0 + kk]);
                }
            }
        }
        k += 1;
    }
    Ok(())
}

/// The weight carried by an edge's data.
pub open spec fn weight_of<W>(d: DependencyType<W>) -> W {
    match d {
        DependencyType::Contrib(w) => w,
        DependencyType::ContribPrime(w) => w,
        DependencyType::Maintain(w) => w,
        DependencyType::MaintainPrime(w) => w,
        DependencyType::Depend(w) => w,
        DependencyType::Influence(w) => w,
    }
}

impl<W: Copy> DependencyType<W> {
    /// The weight this data carries.
    pub fn weight(&self) -> (r: W)
        ensures
            r == weight_of(*self),
    {
        match self {
            DependencyType::Contrib(w) => *w,
            DependencyType::ContribPrime(w) => *w,
            DependencyType::Maintain(w) => *w,
            DependencyType::MaintainPrime(w) => *w,
            DependencyType::Depend(w) => *w,
            DependencyType::Influence(w) => *w,
        }
    }
}

/// The edges made from a matrix's triplets: edge `k` comes from the `k`-th
/// triplet `(w, (i, j))`, goes from node `i` to node `j` and carries `w` as
/// an influence.
pub open spec fn matrix_edges<W>(ts: Seq<(W, (usize, usize))>) -> Seq<Dependency<W>> {
    Seq::new(
        ts.len(),
        |k: int| Dependency { id: k as usize, source: ts[k].1.0, target: ts[k].1.1, weight: ts[k].0, data: DependencyType::Influence(ts[k].0) },
    )
}

proof fn lemma_triplets_in_range<W>(rows: Seq<Seq<(usize, W)>>, ncols: nat)
    requires
        forall|i: int| 0 <= i < rows.len() ==> row_wf(#[trigger] rows[i], ncols),
    ensures
        forall|k: int| 0 <= k < triplets_of(rows).len() ==> (#[trigger] triplets_of(rows)[k]).1.0 < rows.len()
            && triplets_of(rows)[k].1.1 < ncols,
    decreases rows.len(),
{
    if rows.len() > 0 {
        let pre = rows.drop_last();
        lemma_triplets_in_range(pre, ncols);
        let last = row_triplets(rows.last(), (rows.len() - 1) as usize);
        assert(row_wf(rows[rows.len() - 1], ncols));
        assert forall|k: int| 0 <= k < triplets_of(rows).len() implies (#[trigger] triplets_of(rows)[k]).1.0 < rows.len()
            && triplets_of(rows)[k].1.1 < ncols by {
            if k >= triplets_of(pre).len() {
                let kk = k - triplets_of(pre).len();
                assert(triplets_of(rows)[k] == last[kk]);
                assert(rows.last()[kk].0 < ncols);
            } else {
                assert(triplets_of(rows)[k] == triplets_of(pre)[k]);
            }
        }
    }
}

/// Adds one edge per stored entry of `m`, in the order of its triplets:
/// edge `k` joins the nodes of index `i` and `j` of the `k`-th entry and
/// carries its value as an influence.
pub fn add_matrix_edges<W: Copy>(g: &mut Network<W>, m: &SparseMatrix<W>)
    requires
        old(g).wf(),
        m.wf(),
        m.nrows <= old(g).nodes@.len(),
        m.ncols <= old(g).nodes@.len(),
    ensures
        final(g).wf(),
        final(g).nodes == old(g).nodes,
        final(g).edges@ == old(g).edges@ + matrix_edges(triplets_of(m.rows@.map_values(|row: Vec<(usize, W)>| row@))),
{
    let ts = m.triplets();
    let ghost rows = m.rows@.map_values(|row: Vec<(usize, W)>| row@);
    proof {
        assert forall|i: int| 0 <= i < rows.len() implies row_wf(#[trigger] rows[i], m.ncols as nat) by {
            assert(rows[i] == m.rows@[i]@);
        }
        lemma_triplets_in_range(rows, m.ncols as nat);
    }
    let ghost start = g.edges@;
    let mut k: usize = 0;
    while k < ts.len()
        invariant
            g.wf(),
            g.nodes == old(g).nodes,
            start == old(g).edges@,
            m.nrows <= g.nodes@.len(),
            m.ncols <= g.nodes@.len(),
            rows.len() == m.nrows,
            ts@ == triplets_of(rows),
            forall|kk: int| 0 <= kk < ts@.len() ==> (#[trigger] ts@[kk]).1.0 < rows.len() && ts@[kk].1.1 < m.ncols,
            k <= ts@.len(),
            g.edges@ == start + matrix_edges(ts@.take(k as int)),
        decreases ts@.len() - k,
    {
        let (w, (i, j)) = ts[k];
        assert(ts@[k as int] == (w, (i, j)));
        g.unsafe_add_dependency(k, i, j, w, DependencyType::Influence(w));
        assert(matrix_edges(ts@.take(k + 1)) =~= matrix_edges(ts@.take(k as int)).push(
            Dependency { id: k, source: i, target: j, weight: w, data: DependencyType::Influence(w) },
        ));
        k += 1;
    }
    assert(ts@.take(ts@.len() as int) =~= ts@);
}

} // verus!
