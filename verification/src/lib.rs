//! Core of a real-time audio processing engine organised as a directed
//! acyclic graph of processing nodes.
//!
//! The library holds the control-thread logic of the engine: the DAG with
//! cycle-free edge insertion and its cached orderings (`directed_graph`),
//! the node registry and identifier allocation (`audio_graph`), the
//! per-block processing schedule derived from the cached orderings
//! (`schedule`), and the sample-independent state kernels of the concrete
//! nodes (`nodes`, `tap`).  The sample data path itself works on `f32`
//! buffers and lives with the host-facing code that drives this library.

pub mod audio_graph;
pub mod directed_graph;
pub mod nodes;
pub mod schedule;
pub mod tap;
