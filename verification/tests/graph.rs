use include_pruner::includes::IncludeGraph;
use std::collections::HashSet;
use std::iter::{self, FromIterator};

#[test]
fn test_use_shortest_paths() {
    let mut graph = IncludeGraph::new();
    graph.insert((0, 0, 0), (1, 0, 0));
    graph.insert((1, 0, 0), (2, 0, 0));
    graph.insert((2, 0, 0), (3, 0, 0)); // used, costs 3

    graph.insert((0, 0, 0), (0, 1, 0)); // used

    graph.insert((0, 0, 0), (0, 0, 1));
    graph.insert((0, 0, 1), (0, 0, 2));
    graph.insert((0, 0, 1), (3, 0, 0)); // used, costs 2

    graph.mark_used(&(0, 1, 0));
    graph.mark_used(&(3, 0, 0));

    println!("graph {:?}", graph);

    graph.shortest_paths(&(0, 0, 0));

    println!("short graph:");
    println!("- {:?}", graph);

    let unused: HashSet<(u64, u64, u64)> = HashSet::from_iter(graph.unused(&(0, 0, 0)));
    assert_eq!(&HashSet::from_iter(iter::once((1, 0, 0))), &unused);
}

#[test]
fn shortest_paths_give_costs_and_predecessors() {
    let mut graph = IncludeGraph::new();
    graph.insert((0, 0, 0), (1, 0, 0));
    graph.insert((1, 0, 0), (2, 0, 0));
    graph.insert((2, 0, 0), (3, 0, 0));
    graph.insert((0, 0, 0), (0, 0, 1));
    graph.insert((0, 0, 1), (3, 0, 0));
    graph.insert((9, 9, 9), (0, 0, 0));
    graph.shortest_paths(&(0, 0, 0));

    assert_eq!(graph.len(), 6);
    assert_eq!(graph.cost(&(0, 0, 0)), Some(0));
    assert_eq!(graph.cost(&(1, 0, 0)), Some(1));
    assert_eq!(graph.cost(&(2, 0, 0)), Some(2));
    assert_eq!(graph.cost(&(3, 0, 0)), Some(2));
    assert_eq!(graph.cost(&(0, 0, 1)), Some(1));
    assert_eq!(graph.cost(&(9, 9, 9)), None);
    assert_eq!(graph.cost(&(7, 7, 7)), None);

    assert_eq!(graph.pred(&(0, 0, 0)), Some((0, 0, 0)));
    assert_eq!(graph.pred(&(1, 0, 0)), Some((1, 0, 0)));
    assert_eq!(graph.pred(&(2, 0, 0)), Some((1, 0, 0)));
    assert_eq!(graph.pred(&(3, 0, 0)), Some((0, 0, 1)));
    assert_eq!(graph.pred(&(9, 9, 9)), None);
}

#[test]
fn insert_creates_both_nodes_once() {
    let mut graph = IncludeGraph::new();
    assert_eq!(graph.len(), 0);
    graph.insert((1, 0, 0), (2, 0, 0));
    assert_eq!(graph.len(), 2);
    graph.insert((1, 0, 0), (2, 0, 0));
    assert_eq!(graph.len(), 2);
    assert_eq!(graph.edges(), vec![((1, 0, 0), (2, 0, 0))]);
    graph.insert((2, 0, 0), (1, 0, 0));
    assert_eq!(graph.len(), 2);
    assert_eq!(
        graph.edges(),
        vec![((1, 0, 0), (2, 0, 0)), ((2, 0, 0), (1, 0, 0))]
    );
    graph.mark_used(&(3, 0, 0));
    assert_eq!(graph.len(), 3);
    assert!(graph.is_used(&(3, 0, 0)));
    assert!(!graph.is_used(&(1, 0, 0)));
    assert!(!graph.is_used(&(4, 0, 0)));
}

#[test]
fn a_new_source_comes_with_its_first_successor() {
    let mut graph = IncludeGraph::new();
    graph.insert((1, 0, 0), (1, 0, 0));
    assert_eq!(graph.len(), 1);
    assert_eq!(graph.edges(), vec![((1, 0, 0), (1, 0, 0))]);
    graph.insert((2, 0, 0), (1, 0, 0));
    assert_eq!(graph.len(), 2);
    graph.insert((3, 0, 0), (4, 0, 0));
    assert_eq!(graph.len(), 4);
    assert_eq!(
        graph.edges(),
        vec![
            ((1, 0, 0), (1, 0, 0)),
            ((2, 0, 0), (1, 0, 0)),
            ((3, 0, 0), (4, 0, 0)),
        ]
    );
    // The nodes stand in the order in which they were made: the source first.
    graph.mark_used(&(4, 0, 0));
    graph.shortest_paths(&(3, 0, 0));
    assert_eq!(graph.cost(&(4, 0, 0)), Some(1));
}

#[test]
fn unused_of_a_root_without_node_is_empty() {
    let mut graph = IncludeGraph::new();
    graph.insert((1, 0, 0), (2, 0, 0));
    assert_eq!(graph.unused(&(5, 0, 0)), Vec::<(u64, u64, u64)>::new());
    assert_eq!(graph.len(), 3);
}

#[test]
fn a_single_include_without_references_is_unused() {
    let mut graph = IncludeGraph::new();
    graph.insert((1, 0, 0), (2, 0, 0));
    assert_eq!(graph.unused(&(1, 0, 0)), vec![(2, 0, 0)]);
}

#[test]
fn a_diamond_keeps_the_first_direct_include() {
    // Both direct includes reach the used file at the same distance: the one
    // that was inserted first is the one that stays.
    let mut graph = IncludeGraph::new();
    graph.insert((0, 0, 0), (1, 0, 0));
    graph.insert((0, 0, 0), (2, 0, 0));
    graph.insert((1, 0, 0), (3, 0, 0));
    graph.insert((2, 0, 0), (3, 0, 0));
    graph.mark_used(&(3, 0, 0));
    assert_eq!(graph.unused(&(0, 0, 0)), vec![(2, 0, 0)]);
    assert_eq!(graph.pred(&(3, 0, 0)), Some((1, 0, 0)));
}

#[test]
fn cycles_do_not_disturb_the_shortest_paths() {
    let mut graph = IncludeGraph::new();
    graph.insert((0, 0, 0), (1, 0, 0));
    graph.insert((1, 0, 0), (2, 0, 0));
    graph.insert((2, 0, 0), (1, 0, 0));
    graph.insert((2, 0, 0), (0, 0, 0));
    graph.insert((0, 0, 0), (4, 0, 0));
    graph.mark_used(&(2, 0, 0));
    assert_eq!(graph.unused(&(0, 0, 0)), vec![(4, 0, 0)]);
    assert_eq!(graph.cost(&(0, 0, 0)), Some(0));
    assert_eq!(graph.cost(&(2, 0, 0)), Some(2));
}

#[test]
fn every_unused_file_is_a_direct_successor_and_no_predecessor_of_a_used_one() {
    let mut graph = IncludeGraph::new();
    let root = (0, 0, 0);
    for k in 1..6u64 {
        graph.insert(root, (k, 0, 0));
        graph.insert((k, 0, 0), (k, 1, 0));
        graph.insert((k, 1, 0), (k % 3, 2, 0));
    }
    graph.mark_used(&(1, 2, 0));
    graph.mark_used(&(4, 1, 0));
    let unused = graph.unused(&root);
    let direct: Vec<(u64, u64, u64)> = graph
        .edges()
        .into_iter()
        .filter(|e| e.0 == root)
        .map(|e| e.1)
        .collect();
    for file in &unused {
        assert!(direct.contains(file));
        assert!(!graph.is_justified(file));
    }
    assert_eq!(unused, vec![(2, 0, 0), (3, 0, 0), (5, 0, 0)]);
}
