//! Tests for the engine's control-thread core: identifier allocation,
//! topology mutation, and the prepared block shape.

use audio_engine::audio_graph::AudioGraph;
use audio_engine::directed_graph::GraphError;

#[test]
fn audio_graph_test_add_node() {
    let mut graph = AudioGraph::new();
    assert_eq!(graph.node_count(), 0);

    let node_id = graph.add_node();

    assert_eq!(graph.node_count(), 1);
    assert!(graph.contains_node(node_id));
}

#[test]
fn audio_graph_test_add_edge() {
    let mut graph = AudioGraph::new();
    let node1_id = graph.add_node();
    let node2_id = graph.add_node();

    let result = graph.add_edge(node1_id, node2_id);
    assert!(result.is_ok());
}

#[test]
fn audio_graph_test_cycle_detection() {
    let mut graph = AudioGraph::new();
    let node1_id = graph.add_node();
    let node2_id = graph.add_node();
    let node3_id = graph.add_node();

    assert!(graph.add_edge(node1_id, node2_id).is_ok());
    assert!(graph.add_edge(node2_id, node3_id).is_ok());

    let result = graph.add_edge(node3_id, node1_id);
    assert_eq!(result, Err(GraphError::CycleWouldForm));
}

#[test]
fn test_engine_identifiers_never_reused() {
    let mut graph = AudioGraph::new();
    let a = graph.add_node();
    let b = graph.add_node();
    assert_ne!(a, b);

    assert!(graph.remove_node(a));
    assert!(!graph.contains_node(a));
    assert!(!graph.remove_node(a));

    let c = graph.add_node();
    assert_ne!(c, a);
    assert_ne!(c, b);
}

#[test]
fn test_engine_prepare_shapes_blocks() {
    let mut graph = AudioGraph::new();
    assert_eq!(graph.channels(), 2);
    assert_eq!(graph.max_frames(), 0);

    graph.prepare(512);
    assert_eq!(graph.max_frames(), 512);
    assert_eq!(graph.buffer_samples(), 1024);

    assert!(graph.block_shape_ok(2, 512));
    assert!(graph.block_shape_ok(2, 4));
    assert!(!graph.block_shape_ok(2, 513));
    assert!(!graph.block_shape_ok(1, 4));
}

#[test]
fn test_engine_remove_edge() {
    let mut graph = AudioGraph::new();
    let a = graph.add_node();
    let b = graph.add_node();
    assert!(graph.add_edge(a, b).is_ok());
    assert!(graph.remove_edge(a, b));
    assert!(!graph.remove_edge(a, b));
    // With the edge gone the former cycle is no cycle any more.
    assert!(graph.add_edge(b, a).is_ok());
}
