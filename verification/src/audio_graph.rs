//! Control-thread core of the audio engine: the topology of processing
//! nodes and the bookkeeping that the real-time block walk relies on.
//!
//! The engine owns one node object per identifier; the node objects
//! process `f32` samples and live with the host-facing code, keyed by
//! the identifiers this core hands out.  Everything the walk decides —
//! which nodes run, in which order, whose outputs are mixed — comes
//! from here and from the block schedule built over it.

use vstd::prelude::*;
use crate::directed_graph::DirectedGraph;
use crate::directed_graph::GraphError;
use crate::directed_graph::GraphView;

verus! {

/// Mathematical model of an `AudioGraph`: the topology, the identifier
/// allocator, and the prepared block shape.
pub struct AudioGraphView {
    pub graph: GraphView,
    pub next_id: int,
    pub max_frames: int,
    pub channels: int,
}

/// The audio graph's control-thread state: a DAG of node identifiers,
/// a never-reused identifier allocator, and the block shape fixed by
/// `prepare`.
pub struct AudioGraph {
    /// The node topology with its cached orders.
    graph: DirectedGraph,
    /// Next identifier to hand out; identifiers are never reused.
    next_node_id: usize,
    /// Upper bound on frames per block, set by `prepare`.
    max_buffer_size: usize,
    /// Channel count of every buffer; stereo in this release.
    num_channels: usize,
}

impl View for AudioGraph {
    type V = AudioGraphView;

    closed spec fn view(&self) -> AudioGraphView {
        AudioGraphView {
            graph: self.graph@,
            next_id: self.next_node_id as int,
            max_frames: self.max_buffer_size as int,
            channels: self.num_channels as int,
        }
    }
}

impl AudioGraph {
    /// The engine invariant: the topology is well formed and every
    /// identifier in it was handed out by the allocator.
    pub closed spec fn wf(&self) -> bool {
        &&& self.graph.wf()
        &&& forall|id: usize| #[trigger] self@.graph.has_node(id) ==> id < self@.next_id
    }

    /// Creates an empty engine: no nodes, stereo, nothing prepared.
    pub fn new() -> (r: AudioGraph)
        ensures
            r.wf(),
            r@.graph.nodes == Seq::<usize>::empty(),
            r@.next_id == 0,
            r@.max_frames == 0,
            r@.channels == 2,
    {
        AudioGraph {
            graph: DirectedGraph::new(),
            next_node_id: 0,
            max_buffer_size: 0,
            num_channels: 2,
        }
    }

    /// Stores the block shape for the next run of blocks.  The caller
    /// re-prepares every node object and re-sizes the per-node output
    /// buffers beside it, to `channels() * max_frames()` samples each.
    pub fn prepare(&mut self, max_buffer_size: usize)
        requires
            old(self).wf(),
            max_buffer_size <= usize::MAX / 2,
        ensures
            final (self).wf(),
            final (self)@.graph == old(self)@.graph,
            final (self)@.next_id == old(self)@.next_id,
            final (self)@.channels == old(self)@.channels,
            final (self)@.max_frames == max_buffer_size,
    {
        self.max_buffer_size = max_buffer_size;
        proof {
            assert(self@.graph == old(self)@.graph);
            assert(self.wf());
        }
    }

    /// Registers a new node and returns its identifier, which is fresh:
    /// it has never been in the graph before.
    pub fn add_node(&mut self) -> (id: usize)
        requires
            old(self).wf(),
            old(self)@.next_id < usize::MAX,
        ensures
            final (self).wf(),
            id == old(self)@.next_id,
            !old(self)@.graph.has_node(id),
            final (self)@.graph.nodes == old(self)@.graph.nodes.push(id),
            final (self)@.graph.topo == old(self)@.graph.topo.push(id),
            forall|u: usize, v: usize|
                #[trigger] final (self)@.graph.has_edge(u, v) <==> old(self)@.graph.has_edge(u, v),
            final (self)@.next_id == old(self)@.next_id + 1,
            final (self)@.max_frames == old(self)@.max_frames,
            final (self)@.channels == old(self)@.channels,
    {
        let id = self.next_node_id;
        self.next_node_id = self.next_node_id + 1;
        let ghost g0 = self.graph@;
        proof {
            old(self).graph.lemma_view_wf();
            assert(old(self)@.graph == g0);
            if g0.has_node(id) {
                assert(old(self)@.graph.has_node(id));
                assert(id < old(self)@.next_id);
            }
        }
        let added = self.graph.add_node(id);
        proof {
            assert(added);
            self.graph.lemma_view_wf();
            let g1 = self.graph@;
            assert(g0.succs.len() == g0.nodes.len());
            assert forall|u: usize, v: usize| #[trigger] g1.has_edge(u, v) implies g0.has_edge(
                u,
                v,
            ) by {
                let i = choose|i: int|
                    0 <= i < g1.nodes.len() && g1.nodes[i] == u && (
                    #[trigger] g1.succs[i]).contains(v);
                assert(i < g0.nodes.len());
                assert(g0.nodes[i] == u && g0.succs[i].contains(v));
            }
            assert forall|u: usize, v: usize| #[trigger] g0.has_edge(u, v) implies g1.has_edge(
                u,
                v,
            ) by {
                let i = choose|i: int|
                    0 <= i < g0.nodes.len() && g0.nodes[i] == u && (
                    #[trigger] g0.succs[i]).contains(v);
                assert(g1.nodes[i] == u && g1.succs[i].contains(v));
            }
            assert forall|x: usize| self@.graph.has_node(x) implies x < self@.next_id by {
                let i = choose|i: int| 0 <= i < g1.nodes.len() && g1.nodes[i] == x;
                if i < g0.nodes.len() {
                    assert(g0.nodes.contains(x));
                    assert(old(self)@.graph.has_node(x));
                }
            }
        }
        id
    }

    /// Removes a node and every edge at it.  Returns whether the node
    /// existed; the caller drops the node object and its output buffer
    /// beside it.
    pub fn remove_node(&mut self, node_id: usize) -> (r: bool)
        requires
            old(self).wf(),
        ensures
            final (self).wf(),
            r == old(self)@.graph.has_node(node_id),
            !r ==> final (self)@ == old(self)@,
            forall|u: usize|
                #[trigger] final (self)@.graph.has_node(u) <==> (old(self)@.graph.has_node(u) && u
                    != node_id),
            forall|u: usize, v: usize|
                #[trigger] final (self)@.graph.has_edge(u, v) <==> (old(self)@.graph.has_edge(u, v)
                    && u != node_id && v != node_id),
            final (self)@.next_id == old(self)@.next_id,
            final (self)@.max_frames == old(self)@.max_frames,
            final (self)@.channels == old(self)@.channels,
    {
        let r = self.graph.remove_node(node_id);
        proof {
            assert forall|x: usize| #[trigger] self@.graph.has_node(x) implies x < self@.next_id by {
                assert(old(self)@.graph.has_node(x));
            }
        }
        r
    }

    /// Adds the edge `from_id -> to_id`; the semantics, including
    /// rejection of cycles, are those of `DirectedGraph::add_edge`.
    pub fn add_edge(&mut self, from_id: usize, to_id: usize) -> (r: Result<(), GraphError>)
        requires
            old(self).wf(),
        ensures
            final (self).wf(),
            (r == Err::<(), GraphError>(GraphError::NodeNotFound)) <==> !(old(
                self,
            )@.graph.has_node(from_id) && old(self)@.graph.has_node(to_id)),
            (r == Err::<(), GraphError>(GraphError::CycleWouldForm)) <==> (old(
                self,
            )@.graph.has_node(from_id) && old(self)@.graph.has_node(to_id) && old(
                self,
            )@.graph.reaches(to_id, from_id)),
            r is Err ==> final (self)@ == old(self)@,
            r is Ok ==> forall|u: usize, v: usize|
                #[trigger] final (self)@.graph.has_edge(u, v) <==> (old(self)@.graph.has_edge(u, v)
                    || (u == from_id && v == to_id)),
            final (self)@.graph.nodes == old(self)@.graph.nodes,
            final (self)@.next_id == old(self)@.next_id,
            final (self)@.max_frames == old(self)@.max_frames,
            final (self)@.channels == old(self)@.channels,
    {
        let r = self.graph.add_edge(from_id, to_id);
        proof {
            assert forall|x: usize| #[trigger] self@.graph.has_node(x) implies x < self@.next_id by {
                assert(old(self)@.graph.has_node(x));
            }
        }
        r
    }

    /// Removes the edge `from_id -> to_id`; returns whether it existed.
    pub fn remove_edge(&mut self, from_id: usize, to_id: usize) -> (r: bool)
        requires
            old(self).wf(),
        ensures
            final (self).wf(),
            r == old(self)@.graph.has_edge(from_id, to_id),
            !r ==> final (self)@ == old(self)@,
            forall|u: usize, v: usize|
                #[trigger] final (self)@.graph.has_edge(u, v) <==> (old(self)@.graph.has_edge(u, v)
                    && !(u == from_id && v == to_id)),
            final (self)@.graph.nodes == old(self)@.graph.nodes,
            final (self)@.next_id == old(self)@.next_id,
            final (self)@.max_frames == old(self)@.max_frames,
            final (self)@.channels == old(self)@.channels,
    {
        let r = self.graph.remove_edge(from_id, to_id);
        proof {
            assert forall|x: usize| #[trigger] self@.graph.has_node(x) implies x < self@.next_id by {
                assert(old(self)@.graph.has_node(x));
            }
            if !r {
                assert forall|u: usize, v: usize|
                    #[trigger] self@.graph.has_edge(u, v) <==> (old(self)@.graph.has_edge(u, v)
                        && !(u == from_id && v == to_id)) by {}
            }
        }
        r
    }

    /// The topology, for the cached orders and the predecessor index.
    pub fn graph(&self) -> (r: &DirectedGraph)
        requires
            self.wf(),
        ensures
            r.wf(),
            r@ == self@.graph,
    {
        &self.graph
    }

    /// Number of registered nodes.
    pub fn node_count(&self) -> (r: usize)
        ensures
            r == self@.graph.nodes.len(),
    {
        self.graph.node_count()
    }

    /// Whether `node_id` is a registered node.
    pub fn contains_node(&self, node_id: usize) -> (r: bool)
        ensures
            r == self@.graph.has_node(node_id),
    {
        self.graph.contains_node(node_id)
    }

    /// The prepared upper bound on frames per block.
    pub fn max_frames(&self) -> (r: usize)
        ensures
            r == self@.max_frames,
    {
        self.max_buffer_size
    }

    /// The channel count of every buffer.
    pub fn channels(&self) -> (r: usize)
        ensures
            r == self@.channels,
    {
        self.num_channels
    }

    /// Number of samples of every per-node output buffer and of the
    /// scratch buffer after `prepare`: one block of `max_frames()`
    /// interleaved frames.
    pub fn buffer_samples(&self) -> (r: usize)
        requires
            self.wf(),
            self@.channels == 2,
            self@.max_frames <= usize::MAX / 2,
        ensures
            r == self@.channels * self@.max_frames,
    {
        self.num_channels * self.max_buffer_size
    }

    /// The real-time preconditions on a host buffer: its channel count
    /// must equal the prepared one and its frame count must not exceed
    /// the prepared bound.
    pub fn block_shape_ok(&self, channels: usize, frames: usize) -> (r: bool)
        ensures
            r == (channels == self@.channels && frames <= self@.max_frames),
    {
        channels == self.num_channels && frames <= self.max_buffer_size
    }
}

} // verus!
