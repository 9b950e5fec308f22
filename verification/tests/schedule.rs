//! Tests that run whole blocks by interpreting the verified schedule
//! over `f32` buffers, the way the engine's executor does.

use std::collections::HashMap;

use audio_engine::audio_graph::AudioGraph;
use audio_engine::nodes::ImpulseGenerator;
use audio_engine::schedule::block_schedule;
use audio_engine::schedule::BlockStep;

type NodeFn = Box<dyn FnMut(&mut [f32])>;

/// Runs one block: interprets the schedule over per-node output
/// buffers and one scratch buffer, then copies the output node's
/// buffer back to the host.  Nodes without a processing closure (the
/// markers) leave scratch as it is.
fn process_block(
    engine: &AudioGraph,
    nodes: &mut HashMap<usize, NodeFn>,
    outputs: &mut HashMap<usize, Vec<f32>>,
    input_id: usize,
    output_id: usize,
    host: &mut [f32],
) {
    let samples = host.len();
    let mut scratch = vec![0.0_f32; samples];
    for step in block_schedule(engine.graph(), input_id) {
        match step {
            BlockStep::ClearScratch => {
                for s in scratch.iter_mut() {
                    *s = 0.0;
                }
            }
            BlockStep::MixOutput(p) => {
                let src = &outputs[&p];
                for i in 0..samples {
                    scratch[i] += src[i];
                }
            }
            BlockStep::CopyHostInput => scratch.copy_from_slice(host),
            BlockStep::RunNode(n) => {
                if let Some(f) = nodes.get_mut(&n) {
                    f(&mut scratch);
                }
            }
            BlockStep::StoreOutput(n) => {
                outputs.get_mut(&n).unwrap().copy_from_slice(&scratch);
            }
        }
    }
    host.copy_from_slice(&outputs[&output_id]);
}

fn fresh_outputs(engine: &AudioGraph, samples: usize) -> HashMap<usize, Vec<f32>> {
    let mut outputs = HashMap::new();
    for &id in engine.graph().node_ids() {
        outputs.insert(id, vec![0.0_f32; samples]);
    }
    outputs
}

fn constant_node(value: f32) -> NodeFn {
    Box::new(move |buffer: &mut [f32]| {
        for s in buffer.iter_mut() {
            *s = value;
        }
    })
}

#[test]
fn test_serial_process() {
    // Input -> A (always 0.5) -> B (always 0.3) -> Output: the last
    // node in the chain overwrites, so every sample is 0.3.
    let mut engine = AudioGraph::new();
    let input_id = engine.add_node();
    let output_id = engine.add_node();
    let a = engine.add_node();
    let b = engine.add_node();

    assert!(engine.add_edge(input_id, a).is_ok());
    assert!(engine.add_edge(a, b).is_ok());
    assert!(engine.add_edge(b, output_id).is_ok());

    engine.prepare(4);
    assert!(engine.block_shape_ok(2, 4));

    let mut nodes: HashMap<usize, NodeFn> = HashMap::new();
    nodes.insert(a, constant_node(0.5));
    nodes.insert(b, constant_node(0.3));
    let mut outputs = fresh_outputs(&engine, 8);

    let mut host = vec![0.0_f32; 8];
    process_block(&engine, &mut nodes, &mut outputs, input_id, output_id, &mut host);

    for &sample in host.iter() {
        assert_eq!(sample, 0.3);
    }
}

#[test]
fn test_parallel_process() {
    // Input -> A (0.5) and Input -> B (0.3), both into Output: the
    // fan-in sums, so every sample is 0.8.
    let mut engine = AudioGraph::new();
    let input_id = engine.add_node();
    let a = engine.add_node();
    let b = engine.add_node();
    let output_id = engine.add_node();

    assert!(engine.add_edge(input_id, a).is_ok());
    assert!(engine.add_edge(input_id, b).is_ok());
    assert!(engine.add_edge(a, output_id).is_ok());
    assert!(engine.add_edge(b, output_id).is_ok());

    engine.prepare(4);

    let mut nodes: HashMap<usize, NodeFn> = HashMap::new();
    nodes.insert(a, constant_node(0.5));
    nodes.insert(b, constant_node(0.3));
    let mut outputs = fresh_outputs(&engine, 8);

    let mut host = vec![0.0_f32; 8];
    process_block(&engine, &mut nodes, &mut outputs, input_id, output_id, &mut host);

    for &sample in host.iter() {
        assert_eq!(sample, 0.8);
    }
}

#[test]
fn test_gain_applies_to_host_input() {
    // The input marker hands the host buffer on; a gain node halves it.
    let mut engine = AudioGraph::new();
    let input_id = engine.add_node();
    let gain_id = engine.add_node();
    let output_id = engine.add_node();

    assert!(engine.add_edge(input_id, gain_id).is_ok());
    assert!(engine.add_edge(gain_id, output_id).is_ok());
    engine.prepare(4);

    let mut nodes: HashMap<usize, NodeFn> = HashMap::new();
    nodes.insert(
        gain_id,
        Box::new(|buffer: &mut [f32]| {
            for s in buffer.iter_mut() {
                *s *= 0.5;
            }
        }),
    );
    let mut outputs = fresh_outputs(&engine, 8);

    let mut host = vec![1.0, -1.0, 0.5, -0.5, 0.25, -0.25, 0.0, 2.0];
    process_block(&engine, &mut nodes, &mut outputs, input_id, output_id, &mut host);

    assert_eq!(host, vec![0.5, -0.5, 0.25, -0.25, 0.125, -0.125, 0.0, 1.0]);
}

#[test]
fn test_impulse_generator_block() {
    // The impulse generator writes 1.0 at the first frame of its first
    // non-empty block and zeros afterwards, via its verified kernel.
    let mut engine = AudioGraph::new();
    let input_id = engine.add_node();
    let impulse_id = engine.add_node();
    let output_id = engine.add_node();

    assert!(engine.add_edge(impulse_id, output_id).is_ok());
    engine.prepare(4);

    let channels = 2;
    let mut kernel = ImpulseGenerator::new();
    let mut nodes: HashMap<usize, NodeFn> = HashMap::new();
    nodes.insert(
        impulse_id,
        Box::new(move |buffer: &mut [f32]| {
            let frames = buffer.len() / channels;
            let emit = kernel.begin_block(frames);
            for (i, s) in buffer.iter_mut().enumerate() {
                *s = if emit && i < channels { 1.0 } else { 0.0 };
            }
        }),
    );
    let mut outputs = fresh_outputs(&engine, 8);

    let mut host = vec![0.0_f32; 8];
    process_block(&engine, &mut nodes, &mut outputs, input_id, output_id, &mut host);
    assert_eq!(host, vec![1.0, 1.0, 0.0, 0.0, 0.0, 0.0, 0.0, 0.0]);

    process_block(&engine, &mut nodes, &mut outputs, input_id, output_id, &mut host);
    assert_eq!(host, vec![0.0; 8]);
}

#[test]
fn test_empty_graph_schedule() {
    let engine = AudioGraph::new();
    let schedule = block_schedule(engine.graph(), 0);
    assert!(schedule.is_empty());
}

#[test]
fn test_schedule_shape_for_chain() {
    // Two nodes in a chain: each node contributes clear, mixes, an
    // optional host copy, run, store — in processing order.
    let mut engine = AudioGraph::new();
    let a = engine.add_node();
    let b = engine.add_node();
    assert!(engine.add_edge(a, b).is_ok());

    let schedule = block_schedule(engine.graph(), a);
    assert_eq!(
        schedule,
        vec![
            BlockStep::ClearScratch,
            BlockStep::CopyHostInput,
            BlockStep::RunNode(a),
            BlockStep::StoreOutput(a),
            BlockStep::ClearScratch,
            BlockStep::MixOutput(a),
            BlockStep::RunNode(b),
            BlockStep::StoreOutput(b),
        ]
    );
}
