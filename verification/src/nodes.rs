//! Sample-independent state kernels of the concrete nodes.
//!
//! The marker nodes and the impulse generator's trigger flag carry no
//! sample data, so their whole behaviour lives here.  The generators and
//! the gain stage work on `f32` samples; their processing loops live with
//! the host-facing code, which consults these kernels for every decision.

use vstd::prelude::*;

verus! {

/// Marker node for the engine's input point.  The engine copies the host
/// buffer into the scratch buffer when it reaches this node; the node
/// itself does nothing.
pub struct InputNode {}

impl InputNode {
    /// Creates the marker.
    pub fn new() -> (r: InputNode) {
        InputNode {  }
    }
}

/// Marker node for the engine's output point.  The engine copies this
/// node's cached output to the host buffer after the walk; the node
/// itself does nothing.
pub struct OutputNode {}

impl OutputNode {
    /// Creates the marker.
    pub fn new() -> (r: OutputNode) {
        OutputNode {  }
    }
}

/// State of the impulse generator: whether the next non-empty block
/// starts with the unit impulse.
pub struct ImpulseGenerator {
    impulse_pending: bool,
}

impl ImpulseGenerator {
    /// Whether the next non-empty block will carry the impulse.
    pub closed spec fn pending(self) -> bool {
        self.impulse_pending
    }

    /// Creates the generator with the impulse armed.
    pub fn new() -> (r: ImpulseGenerator)
        ensures
            r.pending(),
    {
        ImpulseGenerator { impulse_pending: true }
    }

    /// Whether the next non-empty block will carry the impulse.
    pub fn is_pending(&self) -> (r: bool)
        ensures
            r == self.pending(),
    {
        self.impulse_pending
    }

    /// Decides one block of `frames` frames: returns whether the block's
    /// first frame is the unit impulse (all other samples of the block
    /// are zero either way).  An empty block leaves the state untouched;
    /// a non-empty block consumes the pending flag.
    pub fn begin_block(&mut self, frames: usize) -> (emit: bool)
        ensures
            frames == 0 ==> !emit && final (self).pending() == old(self).pending(),
            frames > 0 ==> emit == old(self).pending() && !final (self).pending(),
    {
        if frames == 0 {
            return false;
        }
        let emit = self.impulse_pending;
        self.impulse_pending = false;
        emit
    }

    /// Re-arms the impulse for the next block.
    pub fn reset(&mut self)
        ensures
            final (self).pending(),
    {
        self.impulse_pending = true;
    }

    /// Law: idempotence of reset.  `reset` pins the whole state, so
    /// resetting twice leaves the same state as resetting once, and a
    /// reset generator is in the state of a freshly constructed one:
    /// any two generators with the impulse armed are equal.
    pub proof fn lemma_reset_state_unique(a: ImpulseGenerator, b: ImpulseGenerator)
        requires
            a.pending(),
            b.pending(),
        ensures
            a == b,
    {
    }
}

} // verus!
