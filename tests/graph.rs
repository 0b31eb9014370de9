use osrank::network::{add_edges, add_projects, add_users, Artifact, ArtifactType, DependencyType, GraphError, Network, Osrank};

fn project() -> ArtifactType {
    ArtifactType::Project { osrank: Osrank::zero() }
}

fn account() -> ArtifactType {
    ArtifactType::Account { osrank: Osrank::zero() }
}

fn sample() -> Network<f64> {
    let mut g: Network<f64> = Network::new();
    g.add_node("foo".to_string(), project()).unwrap();
    g.add_node("bar".to_string(), project()).unwrap();
    g.add_node("john".to_string(), account()).unwrap();
    g.add_edge(0, &"foo".to_string(), &"bar".to_string(), 0.5, DependencyType::Depend(0.5)).unwrap();
    g.add_edge(1, &"bar".to_string(), &"john".to_string(), 1.0, DependencyType::Contrib(1.0)).unwrap();
    g.add_edge(2, &"foo".to_string(), &"john".to_string(), 0.5, DependencyType::Influence(0.5)).unwrap();
    g
}

#[test]
fn duplicate_node_is_rejected() {
    let mut g = sample();
    assert_eq!(g.add_node("foo".to_string(), account()), Err(GraphError::DuplicateId));
    assert_eq!(g.node_count(), 3);
}

#[test]
fn edge_to_unknown_node_is_rejected() {
    let mut g = sample();
    let r = g.add_edge(3, &"foo".to_string(), &"nobody".to_string(), 1.0, DependencyType::Depend(1.0));
    assert_eq!(r, Err(GraphError::UnknownEndpoint));
    let r = g.add_edge(3, &"nobody".to_string(), &"foo".to_string(), 1.0, DependencyType::Depend(1.0));
    assert_eq!(r, Err(GraphError::UnknownEndpoint));
    assert_eq!(g.edge_count(), 3);
}

#[test]
fn lookups_find_nodes_and_edges() {
    let g = sample();
    assert_eq!(g.lookup_node_metadata(&"foo".to_string()), Some(&project()));
    assert_eq!(g.lookup_node_metadata(&"john".to_string()), Some(&account()));
    assert_eq!(g.lookup_node_metadata(&"nobody".to_string()), None);
    assert_eq!(g.lookup_edge_metadata(1), Some(&DependencyType::Contrib(1.0)));
    assert_eq!(g.lookup_edge_metadata(9), None);
    assert_eq!(g.node_index(&"john".to_string()), Some(2));
}

#[test]
fn neighbours_follow_insertion_order() {
    let g = sample();
    assert_eq!(g.neighbours(&"foo".to_string()), Some(vec![(0, 1, 0.5), (2, 2, 0.5)]));
    assert_eq!(g.neighbours(&"john".to_string()), Some(vec![]));
    assert_eq!(g.neighbours(&"nobody".to_string()), None);
}

#[test]
fn empty_network_has_nothing() {
    let g: Network<f64> = Network::new();
    assert_eq!(g.node_count(), 0);
    assert_eq!(g.edge_count(), 0);
}

#[test]
fn zero_rank_is_zero() {
    assert!(Osrank::zero().is_zero());
    assert!(!Osrank { numer: 1, denom: 2 }.is_zero());
}

#[test]
fn helpers_add_nodes_and_edges_in_order() {
    let mut g: Network<f64> = Network::new();
    add_projects(&mut g, vec!["p1".to_string(), "p2".to_string()]).unwrap();
    add_users(&mut g, vec!["a1".to_string()]).unwrap();
    assert_eq!(g.node_count(), 3);
    assert_eq!(g.lookup_node_metadata(&"a1".to_string()), Some(&account()));
    assert_eq!(g.lookup_node_metadata(&"p2".to_string()), Some(&project()));
    add_edges(
        &mut g,
        vec![
            (0, "p1".to_string(), "a1".to_string(), DependencyType::Contrib(0.25)),
            (1, "a1".to_string(), "p2".to_string(), DependencyType::ContribPrime(0.75)),
        ],
    )
    .unwrap();
    assert_eq!(g.edges[1].weight, 0.75);
    assert_eq!(g.edges[1].source, 2);
    assert_eq!(g.edges[1].target, 1);
}

#[test]
fn helpers_report_failures() {
    let mut g: Network<f64> = Network::new();
    assert_eq!(add_projects(&mut g, vec!["p".to_string(), "p".to_string()]), Err(GraphError::DuplicateId));
    assert_eq!(g.node_count(), 1);
    let r = add_edges(&mut g, vec![(0, "p".to_string(), "q".to_string(), DependencyType::Depend(1.0))]);
    assert_eq!(r, Err(GraphError::UnknownEndpoint));
    assert_eq!(g.edge_count(), 0);
}

#[test]
fn artifacts_and_indexed_edges() {
    let mut g: Network<u64> = Network::new();
    g.add_artifact(Artifact { id: "x".to_string(), data: project() }).unwrap();
    assert_eq!(g.add_artifact(Artifact { id: "x".to_string(), data: account() }), Err(GraphError::DuplicateId));
    g.add_artifact(Artifact { id: "y".to_string(), data: account() }).unwrap();
    g.unsafe_add_dependency(4, 1, 0, 3, DependencyType::Maintain(3));
    assert_eq!(g.neighbours(&"y".to_string()), Some(vec![(4, 0, 3)]));
    assert_eq!(DependencyType::MaintainPrime(9u64).weight(), 9);
}

#[test]
fn matrix_entries_become_numbered_edges() {
    let mut g: Network<f64> = Network::new();
    add_projects(&mut g, vec!["p".to_string(), "q".to_string()]).unwrap();
    let mut m: osrank::matrix::SparseMatrix<f64> = osrank::matrix::SparseMatrix::zeros(2, 2);
    m.rows[0].push((1, 0.8));
    m.rows[1].push((0, 1.0));
    osrank::network::add_matrix_edges(&mut g, &m);
    assert_eq!(g.edge_count(), 2);
    assert_eq!(g.lookup_edge_metadata(0), Some(&DependencyType::Influence(0.8)));
    assert_eq!(g.neighbours(&"q".to_string()), Some(vec![(1, 0, 1.0)]));
}
