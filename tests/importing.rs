use rand::SeedableRng;
use rand_xorshift::XorShiftRng;
use osrank::importer::build_nodes;
use osrank::network::{ArtifactType, GraphError, Osrank};
use osrank::importer::{
    new_contribution_adjacency_matrix, new_dependency_adjacency_matrix, ContribRow, ContributionsMetadata,
    DepRow, DependenciesMetadata,
};
use osrank::types::{frequency, pick, HyperParamError, HyperParams, MockLedger, Weight, KeyValueAnnotator};

fn contrib(project_id: u32, who: &str, n: u32) -> ContribRow {
    ContribRow {
        project_id,
        contributor: who.to_string(),
        repo: String::new(),
        contributions: n,
        project_name: String::new(),
    }
}

fn paper_metadata() -> (DependenciesMetadata, ContributionsMetadata) {
    let mut deps = DependenciesMetadata::new();
    assert_eq!(deps.add_project(0, "foo".to_string()), Some(0));
    assert_eq!(deps.add_project(1, "bar".to_string()), Some(1));
    assert_eq!(deps.add_project(2, "baz".to_string()), Some(2));
    let mut contribs = ContributionsMetadata::new();
    assert_eq!(contribs.add_row(contrib(0, "github@john", 100)), Some(0));
    assert_eq!(contribs.add_row(contrib(1, "github@tom", 30)), Some(1));
    assert_eq!(contribs.add_row(contrib(2, "github@tom", 60)), None);
    assert_eq!(contribs.add_row(contrib(2, "github@alice", 20)), Some(2));
    (deps, contribs)
}

#[test]
fn repeated_contributor_collapses() {
    let (deps, contribs) = paper_metadata();
    assert_eq!(deps.len(), 3);
    assert_eq!(contribs.contributors, vec!["github@john", "github@tom", "github@alice"]);
    assert_eq!(contribs.rows.len(), 4);
}

#[test]
fn repeated_project_is_left_out() {
    let mut deps = DependenciesMetadata::new();
    deps.add_project(7, "a".to_string());
    assert_eq!(deps.add_project(7, "b".to_string()), None);
    assert_eq!(deps.labels, vec!["a".to_string()]);
    assert_eq!(deps.index_of(7), Some(0));
    assert_eq!(deps.index_of(8), None);
}

#[test]
fn dependency_matrix_drops_unknown_projects() {
    let (deps, _) = paper_metadata();
    let rows = vec![DepRow { from: 0, to: 1 }, DepRow { from: 2, to: 0 }, DepRow { from: 2, to: 1 }, DepRow { from: 2, to: 99 }];
    let m = new_dependency_adjacency_matrix(&deps, &rows);
    assert_eq!((m.nrows, m.ncols), (3, 3));
    assert_eq!(m.rows, vec![vec![(1, 1)], vec![], vec![(0, 1), (1, 1)]]);
}

#[test]
fn contribution_matrix_counts_contributions() {
    let (deps, contribs) = paper_metadata();
    let m = new_contribution_adjacency_matrix(&deps, &contribs);
    assert_eq!((m.nrows, m.ncols), (3, 3));
    assert_eq!(m.rows, vec![vec![(0, 100)], vec![(1, 30)], vec![(1, 60), (2, 20)]]);
}

#[test]
fn ledger_gives_paper_defaults() {
    let h = MockLedger::new().get_hyperparams();
    assert_eq!(h, HyperParams::default());
    assert_eq!(h.contrib_factor, Weight::new(1, 7));
    assert_eq!(h.depend_factor, Weight::new(4, 7));
    assert_eq!(h.maintain_prime_factor, Weight::new(3, 5));
    assert_eq!(h.check(), Ok(()));
}

#[test]
fn out_of_range_factor_is_refused() {
    let mut h = HyperParams::default();
    h.maintain_factor = Weight::new(0, 7);
    assert_eq!(h.check(), Err(HyperParamError::InvalidHyperparam));
    h.maintain_factor = Weight::new(8, 7);
    assert_eq!(h.check(), Err(HyperParamError::InvalidHyperparam));
}

#[test]
fn pick_follows_running_totals() {
    let xs = || vec![(80u32, 'u'), (20u32, 's')];
    assert_eq!(pick(1, xs()), 'u');
    assert_eq!(pick(80, xs()), 'u');
    assert_eq!(pick(81, xs()), 's');
    assert_eq!(pick(100, xs()), 's');
}

#[test]
fn annotator_keeps_last_value() {
    let mut a: KeyValueAnnotator<String, u32> = KeyValueAnnotator::new();
    a.annotate_graph(("p".to_string(), 1));
    a.annotate_graph(("p".to_string(), 2));
    a.annotate_graph(("q".to_string(), 3));
    assert_eq!(a.annotator.len(), 2);
    assert_eq!(a.annotator.get("p"), Some(&2));
}

fn meta_row(id: u32, name: &str) -> osrank::importer::DepMetaRow {
    osrank::importer::DepMetaRow { id, name: name.to_string(), platform: "Cargo".to_string() }
}

#[test]
fn build_nodes_puts_projects_before_accounts() {
    let projects = vec![meta_row(0, "foo"), meta_row(1, "bar"), meta_row(2, "baz")];
    let contributions = vec![
        contrib(0, "github@john", 100),
        contrib(1, "github@tom", 30),
        contrib(2, "github@tom", 60),
        contrib(2, "github@alice", 20),
    ];
    let (meta, contribs, g) = build_nodes::<f64>(projects, contributions).unwrap();
    assert_eq!(meta.len(), 3);
    assert_eq!(contribs.contributors.len(), 3);
    let ids: Vec<&str> = g.nodes.iter().map(|n| n.id.as_str()).collect();
    assert_eq!(ids, vec!["foo", "bar", "baz", "github@john", "github@tom", "github@alice"]);
    assert_eq!(
        g.lookup_node_metadata(&"foo".to_string()),
        Some(&ArtifactType::Project { osrank: Osrank::zero() })
    );
    assert_eq!(
        g.lookup_node_metadata(&"github@tom".to_string()),
        Some(&ArtifactType::Account { osrank: Osrank::zero() })
    );
}

#[test]
fn build_nodes_refuses_shared_names() {
    let projects = vec![meta_row(0, "foo")];
    let contributions = vec![contrib(0, "foo", 1)];
    assert!(matches!(build_nodes::<f64>(projects, contributions), Err(GraphError::DuplicateId)));
}

#[test]
fn frequency_draws_within_the_running_totals() {
    let mut rng = XorShiftRng::from_seed([0; 16]);
    assert_eq!(frequency(&mut rng, vec![(1u32, 'a'), (1u32, 'b')]), 'a');
    for _ in 0..50 {
        let x = frequency(&mut rng, vec![(80u32, 'u'), (20u32, 's'), (0u32, 'z')]);
        assert!(x == 'u' || x == 's');
    }
}

#[test]
fn weights_are_kept_in_lowest_terms() {
    assert_eq!(Weight::new(2, 4), Weight::new(1, 2));
    assert_eq!(Weight::new(6, 4), Weight { numer: 3, denom: 2 });
    assert_eq!(Weight::new(0, 5), Weight { numer: 0, denom: 1 });
    assert_eq!(Weight::new(0, 0), Weight { numer: 0, denom: 0 });
    assert_ne!(Weight::new(1, 3), Weight::new(1, 2));
}

#[test]
fn build_nodes_on_empty_input_gives_empty_graph() {
    let (meta, contribs, g) = build_nodes::<f64>(vec![], vec![]).unwrap();
    assert_eq!(meta.len(), 0);
    assert!(contribs.contributors.is_empty());
    assert_eq!(g.node_count(), 0);
    assert_eq!(g.edge_count(), 0);
}
