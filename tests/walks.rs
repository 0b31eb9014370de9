use osrank::network::{ArtifactType, DependencyType, Network, Osrank};
use osrank::walk::{continues, normalise_rows, osrank_naive, random_walks, row_weight, weighted_choice, WalkError, WalkParams};
use osrank::matrix::SparseMatrix;

fn project() -> ArtifactType {
    ArtifactType::Project { osrank: Osrank::zero() }
}

fn account() -> ArtifactType {
    ArtifactType::Account { osrank: Osrank::zero() }
}

fn params(walks: u32) -> WalkParams {
    WalkParams { walks_per_seed: walks, damping_numer: 85, damping_denom: 100, max_steps: 1_000_000 }
}

/// The toy graph of the paper, with weights over the denominator 84.
fn toy_graph() -> Network<u64> {
    let mut g: Network<u64> = Network::new();
    for id in ["p1", "p2", "p3"] {
        g.add_node(id.to_string(), project()).unwrap();
    }
    for id in ["a1", "a2", "a3"] {
        g.add_node(id.to_string(), account()).unwrap();
    }
    let edges: [(&str, &str, u64); 11] = [
        ("p1", "a1", 36),
        ("a1", "p1", 84),
        ("p1", "p2", 48),
        ("p2", "a2", 84),
        ("a2", "p2", 28),
        ("a2", "p3", 56),
        ("p3", "a2", 33),
        ("p3", "a3", 3),
        ("p3", "p1", 24),
        ("p3", "p2", 24),
        ("a3", "p3", 84),
    ];
    for (k, (s, t, w)) in edges.iter().enumerate() {
        g.add_edge(k, &s.to_string(), &t.to_string(), *w, DependencyType::Influence(*w)).unwrap();
    }
    g
}

#[test]
fn toy_graph_ranks_sum_to_one() {
    let g = toy_graph();
    let res = osrank_naive(&g, &params(10), [0; 16]).unwrap();
    assert_eq!(res.visits.len(), 6);
    assert_eq!(res.visits.iter().sum::<u64>(), res.total);
    let ranks = res.ranks();
    let sum: f64 = ranks.iter().map(|r| r.numer as f64 / r.denom as f64).sum();
    assert!((sum - 1.0).abs() < 1e-9);
    assert!(ranks.iter().all(|r| r.numer <= r.denom));
}

#[test]
fn empty_graph_has_no_ranks() {
    let g: Network<u64> = Network::new();
    let res = osrank_naive(&g, &params(10), [0; 16]).unwrap();
    assert!(res.visits.is_empty());
    assert_eq!(res.total, 0);
    assert!(res.ranks().is_empty());
}

#[test]
fn single_dangling_node_has_rank_one() {
    let mut g: Network<u64> = Network::new();
    g.add_node("n".to_string(), project()).unwrap();
    let res = osrank_naive(&g, &params(100), [0; 16]).unwrap();
    assert_eq!(res.visits, vec![100]);
    assert_eq!(res.total, 100);
    assert_eq!(res.ranks(), vec![Osrank { numer: 100, denom: 100 }]);
}

#[test]
fn two_node_cycle_splits_evenly() {
    let mut g: Network<u64> = Network::new();
    g.add_node("x".to_string(), project()).unwrap();
    g.add_node("y".to_string(), project()).unwrap();
    g.add_edge(0, &"x".to_string(), &"y".to_string(), 1, DependencyType::Influence(1)).unwrap();
    g.add_edge(1, &"y".to_string(), &"x".to_string(), 1, DependencyType::Influence(1)).unwrap();
    let res = osrank_naive(&g, &params(1000), [0; 16]).unwrap();
    for r in res.ranks() {
        let v = r.numer as f64 / r.denom as f64;
        assert!((v - 0.5).abs() <= 0.05, "rank {}", v);
    }
}

#[test]
fn same_seed_gives_same_visits() {
    let g = toy_graph();
    let a = osrank_naive(&g, &params(10), [0; 16]).unwrap();
    let b = osrank_naive(&g, &params(10), [0; 16]).unwrap();
    assert_eq!(a.visits, b.visits);
    assert_eq!(a.total, b.total);
}

#[test]
fn unreachable_node_gets_no_visit() {
    let mut m: SparseMatrix<u64> = SparseMatrix::zeros(3, 3);
    m.rows[0].push((1, 5));
    m.rows[1].push((0, 5));
    let res = random_walks(&m, &vec![0], &params(200), [7; 16]);
    assert_eq!(res.visits[2], 0);
    assert!(res.visits[0] >= 200);
    assert_eq!(res.visits.iter().sum::<u64>(), res.total);
}

#[test]
fn invalid_damping_is_refused() {
    let g = toy_graph();
    let p = WalkParams { walks_per_seed: 1, damping_numer: 100, damping_denom: 100, max_steps: 10 };
    assert!(matches!(osrank_naive(&g, &p, [0; 16]), Err(WalkError::InvalidDamping)));
    let p = WalkParams { walks_per_seed: 1, damping_numer: 0, damping_denom: 100, max_steps: 10 };
    assert!(matches!(osrank_naive(&g, &p, [0; 16]), Err(WalkError::InvalidDamping)));
}

#[test]
fn oversized_run_is_refused() {
    let g = toy_graph();
    let p = WalkParams { walks_per_seed: u32::MAX, damping_numer: 1, damping_denom: 2, max_steps: u64::MAX - 1 };
    assert!(matches!(osrank_naive(&g, &p, [0; 16]), Err(WalkError::TooLarge)));
}

#[test]
fn zero_visits_give_zero_ranks() {
    let g = toy_graph();
    let res = osrank_naive(&g, &params(0), [0; 16]).unwrap();
    assert_eq!(res.total, 0);
    assert!(res.ranks().iter().all(|r| *r == Osrank { numer: 0, denom: 1 }));
}

#[test]
fn weighted_choice_uses_the_cumulative_weights() {
    let row = vec![(0usize, 2u64), (3, 0), (5, 3)];
    assert_eq!(row_weight(&row), 5);
    assert_eq!(weighted_choice(&row, 0), 0);
    assert_eq!(weighted_choice(&row, 1), 0);
    assert_eq!(weighted_choice(&row, 2), 2);
    assert_eq!(weighted_choice(&row, 4), 2);
}

#[test]
fn damping_draw_decides_continuation() {
    let p = params(1);
    assert!(continues(&p, 84));
    assert!(!continues(&p, 85));
}

#[test]
fn normalised_rows_sum_to_one_or_zero() {
    let mut m: SparseMatrix<u64> = SparseMatrix::zeros(3, 3);
    m.rows[0].push((0, 1));
    m.rows[0].push((2, 3));
    m.rows[1].push((1, 0));
    let n = normalise_rows(&m);
    assert_eq!(n.rows[0], vec![(0, Osrank { numer: 1, denom: 4 }), (2, Osrank { numer: 3, denom: 4 })]);
    assert_eq!(n.rows[1], vec![(1, Osrank { numer: 0, denom: 1 })]);
    assert!(n.rows[2].is_empty());
}
