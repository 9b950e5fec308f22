//! Index logic of the shared ring buffer behind the tap-in / tap-out
//! delay pair.
//!
//! A tap-in writes each incoming interleaved sample at the ring's write
//! position and advances it modulo the ring length; a tap-out reads one
//! block starting a fixed number of samples behind the write position.
//! The ring's `f32` storage lives with the host-facing code; every index
//! decision comes from here.

use vstd::prelude::*;
use vstd::arithmetic::div_mod::{
    lemma_add_mod_noop,
    lemma_mod_add_multiples_vanish,
    lemma_small_mod,
};

verus! {

/// Because the tap-out of a pair is processed before its tap-in within
/// one block walk, the freshest sample a tap-out can read is one block
/// old, so a configured delay shorter than the block is raised to the
/// block length.
pub fn effective_delay_frames(delay_frames: usize, block_frames: usize) -> (r: usize)
    ensures
        r >= delay_frames,
        r >= block_frames,
        r == delay_frames || r == block_frames,
{
    if delay_frames < block_frames {
        block_frames
    } else {
        delay_frames
    }
}

/// Interleaved length of a ring that holds `max_delay_frames` of delay
/// plus one block of `block_frames`, at `channels` channels per frame.
pub fn ring_capacity_samples(max_delay_frames: usize, block_frames: usize, channels: usize) -> (r:
    usize)
    requires
        channels > 0,
        max_delay_frames + block_frames <= usize::MAX as int / channels as int,
    ensures
        r == (max_delay_frames + block_frames) * channels,
{
    proof {
        assert((max_delay_frames + block_frames) * channels <= (usize::MAX as int
            / channels as int) * channels <= usize::MAX as int) by (nonlinear_arith)
            requires
                channels > 0,
                max_delay_frames + block_frames <= usize::MAX as int / channels as int,
        ;
    }
    (max_delay_frames + block_frames) * channels
}

/// Write-position state of a shared ring of fixed capacity.  Positions
/// are indices of interleaved samples.
pub struct RingCursor {
    /// Ring capacity in interleaved samples.
    len: usize,
    /// Next interleaved sample index to write.
    write_pos: usize,
}

impl RingCursor {
    /// Ring capacity in interleaved samples.
    pub closed spec fn capacity(self) -> int {
        self.len as int
    }

    /// Next interleaved sample index to write.
    pub closed spec fn write_pos(self) -> int {
        self.write_pos as int
    }

    /// The cursor's invariant: a non-empty ring and an in-range write
    /// position.
    pub open spec fn wf(self) -> bool {
        0 < self.capacity() && 0 <= self.write_pos() < self.capacity()
    }

    /// Creates a cursor over a ring of `len` interleaved samples, with
    /// the write position at the start.
    pub fn new(len: usize) -> (r: RingCursor)
        requires
            len > 0,
        ensures
            r.wf(),
            r.capacity() == len,
            r.write_pos() == 0,
    {
        RingCursor { len, write_pos: 0 }
    }

    /// The next interleaved sample index to write.
    pub fn get_write_pos(&self) -> (r: usize)
        ensures
            r == self.write_pos(),
    {
        self.write_pos
    }

    /// Advances the write position by `count` interleaved samples,
    /// wrapping at the ring's capacity.
    pub fn advance(&mut self, count: usize)
        requires
            old(self).wf(),
        ensures
            final (self).wf(),
            final (self).capacity() == old(self).capacity(),
            final (self).write_pos() == (old(self).write_pos() + count) % old(self).capacity(),
    {
        let c = count % self.len;
        let wp = self.write_pos;
        let new_pos = if wp >= self.len - c {
            wp - (self.len - c)
        } else {
            wp + c
        };
        proof {
            let l = self.len as int;
            lemma_add_mod_noop(wp as int, count as int, l);
            lemma_small_mod(wp as nat, self.len as nat);
            assert((wp + c) % l == (wp + count) % l);
            if wp + c < l {
                lemma_small_mod((wp + c) as nat, self.len as nat);
            } else {
                lemma_mod_add_multiples_vanish(new_pos as int, l);
                lemma_small_mod(new_pos as nat, self.len as nat);
                assert(wp + c == new_pos + l);
            }
        }
        self.write_pos = new_pos;
    }

    /// Index of the first sample of a block that is read `delay_samples`
    /// interleaved samples behind the write position.
    pub fn read_start(&self, delay_samples: usize) -> (r: usize)
        requires
            self.wf(),
            delay_samples <= self.capacity(),
        ensures
            0 <= r < self.capacity(),
            r == (self.write_pos() + self.capacity() - delay_samples) % self.capacity(),
    {
        let r = if self.write_pos >= delay_samples {
            self.write_pos - delay_samples
        } else {
            (self.len - delay_samples) + self.write_pos
        };
        proof {
            let l = self.len as int;
            if self.write_pos >= delay_samples {
                lemma_mod_add_multiples_vanish(r as int, l);
                lemma_small_mod(r as nat, self.len as nat);
                assert(self.write_pos() + l - delay_samples == r + l);
            } else {
                lemma_small_mod(r as nat, self.len as nat);
            }
        }
        r
    }

    /// The interleaved index after `i`, wrapping at the capacity.
    pub fn next_index(&self, i: usize) -> (r: usize)
        requires
            self.wf(),
            i < self.capacity(),
        ensures
            r == (i + 1) % self.capacity(),
    {
        proof {
            let l = self.len as int;
            if i + 1 < l {
                lemma_small_mod((i + 1) as nat, self.len as nat);
            } else {
                lemma_mod_add_multiples_vanish(0, l);
                lemma_small_mod(0, self.len as nat);
            }
        }
        if i + 1 == self.len {
            0
        } else {
            i + 1
        }
    }

    /// Moves the write position back to the start of the ring; the ring
    /// contents are zeroed beside it.
    pub fn reset(&mut self)
        requires
            old(self).wf(),
        ensures
            final (self).wf(),
            final (self).capacity() == old(self).capacity(),
            final (self).write_pos() == 0,
    {
        self.write_pos = 0;
    }

    /// Law: idempotence of reset.  Over one ring, `reset` pins the
    /// whole cursor state, so resetting twice leaves the same state as
    /// resetting once, and a reset cursor is in the state of a freshly
    /// created one.
    pub proof fn lemma_reset_state_unique(a: RingCursor, b: RingCursor)
        requires
            a.capacity() == b.capacity(),
            a.write_pos() == 0,
            b.write_pos() == 0,
        ensures
            a == b,
    {
    }
}

} // verus!
