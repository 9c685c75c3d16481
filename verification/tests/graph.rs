use iv_compat::graph::ConflictGraph;
use iv_compat::graph::in_conflict;
use iv_compat::infusion::Compatibility;
use iv_compat::infusion::CompatibilityData;
use iv_compat::infusion::Infusion;
use iv_compat::infusion::InfusionType;
use std::collections::HashMap;
use std::rc::Rc;

fn catalog() -> HashMap<u32, Infusion> {
    let mut infusions = HashMap::new();
    for id in [4u32, 2, 7, 1] {
        infusions.insert(id, Infusion::new(id, format!("n{}", id), InfusionType::Solution));
    }
    let good = Rc::new(CompatibilityData::new(1, 0, 0));
    let bad = Rc::new(CompatibilityData::new(5, 0, 1));
    for (a, b, data) in [(1u32, 2u32, &good), (1, 4, &bad), (2, 4, &good), (4, 7, &good), (2, 7, &bad)] {
        infusions.get_mut(&a).unwrap().add_compatibility_data(b, data);
        infusions.get_mut(&b).unwrap().add_compatibility_data(a, data);
    }
    infusions
}

#[test]
fn graph_lists_nodes_and_neighbors_in_ascending_order() {
    let graph = ConflictGraph::new(&catalog(), &vec![7, 1, 4, 2]);
    assert_eq!(graph.nodes(), vec![1, 2, 4, 7]);
    assert_eq!(graph.neighbors(1), vec![4, 7]);
    assert_eq!(graph.neighbors(2), vec![7]);
    assert_eq!(graph.neighbors(4), vec![1]);
    assert_eq!(graph.neighbors(7), vec![1, 2]);
    assert_eq!(graph.degree(7), 2);
    assert_eq!(graph.degree(4), 1);
}

#[test]
fn graph_ignores_what_the_universe_does_not_name() {
    let graph = ConflictGraph::new(&catalog(), &vec![2, 7, 2, 2]);
    assert_eq!(graph.nodes(), vec![2, 7]);
    assert_eq!(graph.neighbors(2), vec![7]);
    assert_eq!(graph.neighbors(1), Vec::<u32>::new());
    assert_eq!(graph.degree(1), 0);
}

#[test]
fn unknown_infusion_conflicts_with_all() {
    let graph = ConflictGraph::new(&catalog(), &vec![2, 4, 9]);
    assert_eq!(graph.nodes(), vec![2, 4, 9]);
    assert_eq!(graph.neighbors(9), vec![2, 4]);
    assert_eq!(graph.neighbors(2), vec![9]);
}

#[test]
fn empty_universe_gives_empty_graph() {
    let graph = ConflictGraph::new(&catalog(), &vec![]);
    assert_eq!(graph.nodes(), Vec::<u32>::new());
}

#[test]
fn conflict_needs_both_sides_compatible() {
    let mut infusions = catalog();
    assert!(!in_conflict(&infusions, 1, 2));
    assert!(in_conflict(&infusions, 1, 4));
    assert!(in_conflict(&infusions, 1, 7));
    assert!(!in_conflict(&infusions, 1, 1));
    assert!(in_conflict(&infusions, 1, 99));
    let bad = Rc::new(CompatibilityData::new(0, 0, 0));
    infusions.get_mut(&1).unwrap().add_compatibility_data(2, &bad);
    assert!(in_conflict(&infusions, 1, 2));
    assert!(in_conflict(&infusions, 2, 1));
    assert_eq!(infusions[&2].verdict_with(1), Compatibility::Compatible);
}
