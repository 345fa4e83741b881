//! The dependency digraph and its walker: post-order sorting and cycle
//! detection.

use gecko::{Graph, GraphWalker};

fn chain_graph() -> Graph {
    // 0 -> 1 -> 2
    let mut g = Graph::new();
    g.add_node(0);
    g.add_node(1);
    g.add_node(2);
    g.add_directed_edge(0, 1);
    g.add_directed_edge(1, 2);
    g
}

#[test]
fn nodes_and_edges_are_recorded() {
    let g = chain_graph();
    assert_eq!(g.nodes_count(), 3);
    assert_eq!(g.get_node_descendants(0), vec![1]);
    assert_eq!(g.get_node_descendants(1), vec![2]);
    assert_eq!(g.get_node_descendants(2), Vec::<usize>::new());
    assert!(g.has_node_descendants(0));
    assert!(!g.has_node_descendants(2));
}

#[test]
fn sort_emits_dependencies_first() {
    let g = chain_graph();
    let mut w = GraphWalker::new();
    let order = w.get_sorted_dependencies(&g);
    assert_eq!(order, vec![2, 1, 0]);
}

#[test]
fn acyclic_graph_has_no_cycling_dependencies() {
    let g = chain_graph();
    let mut w = GraphWalker::new();
    let order = w.get_sorted_dependencies(&g);
    let mut w2 = GraphWalker::new();
    assert!(w2.get_cycling_dependencies(&g, &order).is_none());
}

#[test]
fn a_cycle_is_reported_with_its_members() {
    // 0 -> 1 -> 0, and 2 on its own
    let mut g = Graph::new();
    g.add_node(0);
    g.add_node(1);
    g.add_node(2);
    g.add_directed_edge(0, 1);
    g.add_directed_edge(1, 0);
    let mut w = GraphWalker::new();
    let order = w.get_sorted_dependencies(&g);
    let mut w2 = GraphWalker::new();
    let cyc = w2.get_cycling_dependencies(&g, &order).expect("cycle expected");
    let mut members = cyc.clone();
    members.sort();
    assert_eq!(members, vec![0, 1]);
}

#[test]
fn diamond_sort_covers_every_node_once() {
    // 0 -> 1, 0 -> 2, 1 -> 3, 2 -> 3
    let mut g = Graph::new();
    g.add_node(0);
    g.add_node(1);
    g.add_node(2);
    g.add_node(3);
    g.add_directed_edge(0, 1);
    g.add_directed_edge(0, 2);
    g.add_directed_edge(1, 3);
    g.add_directed_edge(2, 3);
    let mut w = GraphWalker::new();
    let order = w.get_sorted_dependencies(&g);
    let mut sorted = order.clone();
    sorted.sort();
    assert_eq!(sorted, vec![0, 1, 2, 3]);
    // node 3 (the shared dependency) comes before both its dependents
    let pos = |x: usize| order.iter().position(|&y| y == x).unwrap();
    assert!(pos(3) < pos(1));
    assert!(pos(3) < pos(2));
    assert!(pos(1) < pos(0));
    assert!(pos(2) < pos(0));
    let mut w2 = GraphWalker::new();
    assert!(w2.get_cycling_dependencies(&g, &order).is_none());
}

#[test]
fn cycle_verdict_does_not_depend_on_the_order() {
    // 0 -> 1, acyclic: the verdict is None whichever way the nodes are listed
    let mut g = Graph::new();
    g.add_node(0);
    g.add_node(1);
    g.add_directed_edge(0, 1);
    let mut w = GraphWalker::new();
    assert!(w.get_cycling_dependencies(&g, &vec![0, 1]).is_none());
    let mut w2 = GraphWalker::new();
    assert!(w2.get_cycling_dependencies(&g, &vec![1, 0]).is_none());
}

#[test]
fn nodes_reaching_a_cycle_are_reported() {
    // 2 -> 0 -> 1 -> 0: node 2 is not on the cycle but walks into it
    let mut g = Graph::new();
    g.add_node(0);
    g.add_node(1);
    g.add_node(2);
    g.add_directed_edge(0, 1);
    g.add_directed_edge(1, 0);
    g.add_directed_edge(2, 0);
    let mut w = GraphWalker::new();
    let cyc = w
        .get_cycling_dependencies(&g, &vec![0, 1, 2])
        .expect("cycle expected");
    let mut members = cyc.clone();
    members.sort();
    assert_eq!(members, vec![0, 1, 2]);
}

#[test]
fn a_cycle_outside_the_node_list_is_not_reported() {
    // 0 -> 1 -> 0 cycle, but only node 2 is under consideration
    let mut g = Graph::new();
    g.add_node(0);
    g.add_node(1);
    g.add_node(2);
    g.add_directed_edge(0, 1);
    g.add_directed_edge(1, 0);
    let mut w = GraphWalker::new();
    assert!(w.get_cycling_dependencies(&g, &vec![2]).is_none());
}
