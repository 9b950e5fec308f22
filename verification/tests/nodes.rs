//! Tests for the node state kernels.

use audio_engine::nodes::ImpulseGenerator;
use audio_engine::nodes::InputNode;
use audio_engine::nodes::OutputNode;

#[test]
fn test_impulse_pending_lifecycle() {
    let mut gen = ImpulseGenerator::new();
    assert!(gen.is_pending());

    // An empty block leaves the impulse armed.
    assert!(!gen.begin_block(0));
    assert!(gen.is_pending());

    // The first non-empty block carries it, later ones do not.
    assert!(gen.begin_block(4));
    assert!(!gen.is_pending());
    assert!(!gen.begin_block(4));

    gen.reset();
    assert!(gen.is_pending());
    assert!(gen.begin_block(1));
}

#[test]
fn test_impulse_reset_idempotent() {
    let mut once = ImpulseGenerator::new();
    once.begin_block(4);
    once.reset();

    let mut twice = ImpulseGenerator::new();
    twice.begin_block(4);
    twice.reset();
    twice.reset();

    // Resetting twice leaves the same observable state as once, and
    // both match a freshly constructed generator.
    assert_eq!(once.is_pending(), twice.is_pending());
    assert_eq!(once.is_pending(), ImpulseGenerator::new().is_pending());
    assert_eq!(once.begin_block(4), twice.begin_block(4));
}

#[test]
fn test_markers_construct() {
    let _input = InputNode::new();
    let _output = OutputNode::new();
}
