//! Tests for the directed graph: node and edge bookkeeping, cycle
//! rejection, and the cached orderings.

use audio_engine::directed_graph::DirectedGraph;
use audio_engine::directed_graph::GraphError;

#[test]
fn test_add_node() {
    let mut graph = DirectedGraph::new();

    assert!(graph.add_node(1));
    assert!(graph.add_node(2));
    assert!(!graph.add_node(1));

    assert_eq!(graph.node_count(), 2);
}

#[test]
fn test_add_edge() {
    let mut graph = DirectedGraph::new();

    graph.add_node(1);
    graph.add_node(2);

    assert!(graph.add_edge(1, 2).is_ok());
    assert!(graph.add_edge(1, 3).is_err());
}

#[test]
fn test_cycle_detection() {
    let mut graph = DirectedGraph::new();

    graph.add_node(1);
    graph.add_node(2);
    graph.add_node(3);

    assert!(graph.add_edge(1, 2).is_ok());
    assert!(graph.add_edge(2, 3).is_ok());

    assert!(graph.add_edge(3, 1).is_err());
}

#[test]
fn test_remove_node() {
    let mut graph = DirectedGraph::new();

    graph.add_node(1);
    graph.add_node(2);
    graph.add_edge(1, 2).unwrap();

    assert!(graph.remove_node(1));
    assert_eq!(graph.node_count(), 1);
    assert!(!graph.contains_node(1));
}

#[test]
fn test_topological_sort() {
    let mut graph = DirectedGraph::new();

    graph.add_node(1);
    graph.add_node(2);
    graph.add_node(3);

    graph.add_edge(1, 2).unwrap();
    graph.add_edge(2, 3).unwrap();

    // For every edge u -> v, u comes before v.
    let order = graph.get_topological_order();
    assert_eq!(*order, vec![1, 2, 3]);

    let reverse_order = graph.get_reverse_topological_order();
    assert_eq!(*reverse_order, vec![3, 2, 1]);
}

#[test]
fn test_error_kinds() {
    let mut graph = DirectedGraph::new();

    graph.add_node(1);
    graph.add_node(2);

    assert_eq!(graph.add_edge(1, 7), Err(GraphError::NodeNotFound));
    assert_eq!(graph.add_edge(7, 1), Err(GraphError::NodeNotFound));
    assert_eq!(graph.add_edge(1, 1), Err(GraphError::CycleWouldForm));
    assert!(graph.add_edge(1, 2).is_ok());
    assert_eq!(graph.add_edge(2, 1), Err(GraphError::CycleWouldForm));
}

#[test]
fn test_duplicate_edge_is_noop() {
    let mut graph = DirectedGraph::new();

    graph.add_node(1);
    graph.add_node(2);

    assert!(graph.add_edge(1, 2).is_ok());
    assert!(graph.add_edge(1, 2).is_ok());
    assert_eq!(*graph.get_input_node_ids(2), vec![1]);
    assert!(graph.remove_edge(1, 2));
    assert!(!graph.remove_edge(1, 2));
    assert!(graph.get_input_node_ids(2).is_empty());
}

#[test]
fn test_cycle_rejection_leaves_graph_unchanged() {
    // Add three nodes in a chain, then try to close the cycle: the
    // attempt must fail, the cached order must still put the chain's
    // head before its tail, and the predecessor index must be as
    // before the attempt.
    let mut graph = DirectedGraph::new();

    graph.add_node(1);
    graph.add_node(2);
    graph.add_node(3);

    assert!(graph.add_edge(1, 2).is_ok());
    assert!(graph.add_edge(2, 3).is_ok());

    let order_before = graph.get_topological_order().clone();

    assert_eq!(graph.add_edge(3, 1), Err(GraphError::CycleWouldForm));

    let order = graph.get_topological_order();
    assert_eq!(*order, order_before);
    let pos_1 = order.iter().position(|&n| n == 1).unwrap();
    let pos_3 = order.iter().position(|&n| n == 3).unwrap();
    assert!(pos_1 < pos_3);
    assert_eq!(*graph.get_input_node_ids(1), Vec::<usize>::new());
    assert_eq!(*graph.get_input_node_ids(2), vec![1]);
    assert_eq!(*graph.get_input_node_ids(3), vec![2]);
}

#[test]
fn test_predecessor_index_follows_mutations() {
    let mut graph = DirectedGraph::new();

    graph.add_node(10);
    graph.add_node(20);
    graph.add_node(30);

    assert!(graph.add_edge(10, 30).is_ok());
    assert!(graph.add_edge(20, 30).is_ok());
    assert_eq!(*graph.get_input_node_ids(30), vec![10, 20]);

    assert!(graph.remove_node(10));
    assert_eq!(*graph.get_input_node_ids(30), vec![20]);
    assert_eq!(*graph.node_ids(), vec![20, 30]);
}

#[test]
fn test_reordering_keeps_edges_respected() {
    // Insert an edge against the current cached order and check that
    // every edge still runs forward in the rebuilt order.
    let mut graph = DirectedGraph::new();

    for id in 1..=5 {
        graph.add_node(id);
    }
    assert!(graph.add_edge(4, 2).is_ok());
    assert!(graph.add_edge(2, 1).is_ok());
    assert!(graph.add_edge(5, 3).is_ok());
    assert!(graph.add_edge(3, 4).is_ok());

    let order = graph.get_topological_order();
    assert_eq!(order.len(), 5);
    let pos = |x: usize| order.iter().position(|&n| n == x).unwrap();
    assert!(pos(4) < pos(2));
    assert!(pos(2) < pos(1));
    assert!(pos(5) < pos(3));
    assert!(pos(3) < pos(4));
}

#[test]
fn test_real_time_safe_interface() {
    let mut graph = DirectedGraph::new();

    graph.add_node(1);
    graph.add_node(2);
    graph.add_edge(1, 2).unwrap();

    let rt = graph.get_real_time_safe_interface();
    assert_eq!(rt.node_count(), 2);
    assert!(rt.contains_node(1));
    assert!(!rt.contains_node(3));
    assert_eq!(*rt.get_topological_order(), vec![1, 2]);
    assert_eq!(*rt.get_reverse_topological_order(), vec![2, 1]);
    assert_eq!(*rt.get_input_node_ids(2), vec![1]);
    assert_eq!(*rt.node_ids(), vec![1, 2]);
}
