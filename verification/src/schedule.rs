//! The per-block processing schedule.
//!
//! One block of the engine walks the nodes in the cached topological
//! order (sources before sinks) and, for each node: clears the scratch
//! buffer, mixes the cached outputs of the node's predecessors into it,
//! overwrites it with the host buffer at the input marker, runs the
//! node in place, and stores the result as the node's cached output.
//! `block_schedule` lays that walk out as data; the executor that moves
//! the `f32` samples follows it step by step.  The lemmas at the end
//! prove the walk correct: when a node runs, the scratch buffer holds
//! exactly the mix of its predecessors' outputs from this very block.

use vstd::prelude::*;
use crate::directed_graph::DirectedGraph;
use crate::directed_graph::GraphView;

verus! {

/// One primitive operation of the block walk.  Buffers hold one block
/// of interleaved samples; every step works samplewise on whole
/// buffers.
#[derive(Clone, Copy, Debug, PartialEq, Eq, Structural)]
pub enum BlockStep {
    /// Zero the scratch buffer.
    ClearScratch,
    /// Mix (samplewise sum) the cached output of this node into scratch.
    MixOutput(usize),
    /// Overwrite scratch with the host's buffer.
    CopyHostInput,
    /// Run this node's processing in place on scratch.
    RunNode(usize),
    /// Copy scratch into this node's cached output buffer.
    StoreOutput(usize),
}

/// The mix steps for a predecessor list, in list order.
pub open spec fn mix_steps(preds: Seq<usize>) -> Seq<BlockStep> {
    preds.map_values(|p: usize| BlockStep::MixOutput(p))
}

/// The steps that assemble the buffer a node processes: clear, mix all
/// predecessors, and at the input marker overwrite with the host
/// buffer.
pub open spec fn input_stage_steps(g: GraphView, input_id: usize, n: usize) -> Seq<BlockStep> {
    seq![BlockStep::ClearScratch] + mix_steps(g.preds_of(n)) + if n == input_id {
        seq![BlockStep::CopyHostInput]
    } else {
        Seq::<BlockStep>::empty()
    }
}

/// All steps for one node of the walk.
pub open spec fn node_steps(g: GraphView, input_id: usize, n: usize) -> Seq<BlockStep> {
    input_stage_steps(g, input_id, n) + seq![BlockStep::RunNode(n), BlockStep::StoreOutput(n)]
}

/// The schedule for the first `k` nodes of the processing order.
pub open spec fn schedule_upto(g: GraphView, input_id: usize, k: int) -> Seq<BlockStep>
    decreases k,
{
    if k <= 0 {
        Seq::<BlockStep>::empty()
    } else {
        schedule_upto(g, input_id, k - 1) + node_steps(g, input_id, g.topo[k - 1])
    }
}

/// The whole block's schedule.
pub open spec fn block_schedule_spec(g: GraphView, input_id: usize) -> Seq<BlockStep> {
    schedule_upto(g, input_id, g.topo.len() as int)
}

/// Builds the block schedule from the cached orders: for each node in
/// the cached topological order — sources first, so every predecessor
/// is processed in the same block before its successors — the clear,
/// mix, host-copy, run and store steps in engine order.
pub fn block_schedule(g: &DirectedGraph, input_id: usize) -> (r: Vec<BlockStep>)
    requires
        g.wf(),
    ensures
        r@ == block_schedule_spec(g@, input_id),
{
    let mut out: Vec<BlockStep> = Vec::new();
    let order = g.get_topological_order();
    let n = order.len();
    let mut k: usize = 0;
    while k < n
        invariant
            g.wf(),
            order@ == g@.topo,
            n == g@.topo.len(),
            k <= n,
            out@ == schedule_upto(g@, input_id, k as int),
        decreases n - k,
    {
        let node = order[k];
        proof {
            g.lemma_view_wf();
            assert(g@.topo.contains(node));
            assert(g@.has_node(node));
        }
        let ghost chunk_base = out@;
        out.push(BlockStep::ClearScratch);
        let preds = g.get_input_node_ids(node);
        let m = preds.len();
        let mut j: usize = 0;
        while j < m
            invariant
                g.wf(),
                g@.has_node(node),
                preds@ == g@.preds_of(node),
                m == preds@.len(),
                j <= m,
                out@ == chunk_base + seq![BlockStep::ClearScratch] + mix_steps(
                    g@.preds_of(node).take(j as int),
                ),
            decreases m - j,
        {
            out.push(BlockStep::MixOutput(preds[j]));
            proof {
                assert(g@.preds_of(node).take(j + 1) =~= g@.preds_of(node).take(j as int).push(
                    preds@[j as int],
                ));
                assert(mix_steps(g@.preds_of(node).take(j + 1)) =~= mix_steps(
                    g@.preds_of(node).take(j as int),
                ).push(BlockStep::MixOutput(preds@[j as int])));
                assert(out@ =~= chunk_base + seq![BlockStep::ClearScratch] + mix_steps(
                    g@.preds_of(node).take(j + 1),
                ));
            }
            j += 1;
        }
        if node == input_id {
            out.push(BlockStep::CopyHostInput);
        }
        out.push(BlockStep::RunNode(node));
        out.push(BlockStep::StoreOutput(node));
        proof {
            assert(g@.preds_of(node).take(m as int) =~= g@.preds_of(node));
            assert(out@ =~= schedule_upto(g@, input_id, k as int) + node_steps(
                g@,
                input_id,
                node,
            ));
            assert(out@ == schedule_upto(g@, input_id, k + 1));
        }
        k += 1;
    }
    out
}

/// All-zero block of `len` samples.
pub open spec fn zero_samples(len: nat) -> Seq<int> {
    Seq::new(len, |i: int| 0)
}

/// Samplewise sum of two blocks.
pub open spec fn mix_samples(a: Seq<int>, b: Seq<int>) -> Seq<int> {
    Seq::new(a.len(), |i: int| a[i] + b[i])
}

/// The mix of the listed nodes' cached outputs, accumulated in list
/// order on top of `acc`.
pub open spec fn mix_outputs_from(
    acc: Seq<int>,
    ps: Seq<usize>,
    outs: Map<usize, Seq<int>>,
) -> Seq<int>
    decreases ps.len(),
{
    if ps.len() == 0 {
        acc
    } else {
        mix_outputs_from(mix_samples(acc, outs[ps[0]]), ps.subrange(1, ps.len() as int), outs)
    }
}

/// The buffer a node is meant to process: the host buffer at the input
/// marker, else the mix of its predecessors' cached outputs.
pub open spec fn mixed_input(
    g: GraphView,
    input_id: usize,
    n: usize,
    outs: Map<usize, Seq<int>>,
    host: Seq<int>,
    len: nat,
) -> Seq<int> {
    if n == input_id {
        host
    } else {
        mix_outputs_from(zero_samples(len), g.preds_of(n), outs)
    }
}

/// State of the walk: the cached output of each node and the scratch
/// buffer.
pub struct WalkState {
    pub outs: Map<usize, Seq<int>>,
    pub scratch: Seq<int>,
}

/// The effect of one step.  `f` gives each node's processing as a
/// function from the buffer it is handed to the buffer it leaves.
pub open spec fn step_effect(
    st: WalkState,
    f: spec_fn(usize, Seq<int>) -> Seq<int>,
    host: Seq<int>,
    len: nat,
    s: BlockStep,
) -> WalkState {
    match s {
        BlockStep::ClearScratch => WalkState { outs: st.outs, scratch: zero_samples(len) },
        BlockStep::MixOutput(p) => WalkState {
            outs: st.outs,
            scratch: mix_samples(st.scratch, st.outs[p]),
        },
        BlockStep::CopyHostInput => WalkState { outs: st.outs, scratch: host },
        BlockStep::RunNode(n) => WalkState { outs: st.outs, scratch: f(n, st.scratch) },
        BlockStep::StoreOutput(n) => WalkState { outs: st.outs.insert(n, st.scratch), scratch: st.scratch },
    }
}

/// Runs a sequence of steps in order.
pub open spec fn run_steps(
    steps: Seq<BlockStep>,
    f: spec_fn(usize, Seq<int>) -> Seq<int>,
    host: Seq<int>,
    len: nat,
    st: WalkState,
) -> WalkState
    decreases steps.len(),
{
    if steps.len() == 0 {
        st
    } else {
        run_steps(
            steps.subrange(1, steps.len() as int),
            f,
            host,
            len,
            step_effect(st, f, host, len, steps[0]),
        )
    }
}

/// The outputs after the first `k` nodes of the reference walk: each
/// processed node's output is its processing applied to its mixed
/// input, computed from the outputs as they stood when it ran.
pub open spec fn walk_upto(
    g: GraphView,
    input_id: usize,
    f: spec_fn(usize, Seq<int>) -> Seq<int>,
    host: Seq<int>,
    len: nat,
    k: int,
    outs0: Map<usize, Seq<int>>,
) -> Map<usize, Seq<int>>
    decreases k,
{
    if k <= 0 {
        outs0
    } else {
        let m = walk_upto(g, input_id, f, host, len, k - 1, outs0);
        let n = g.topo[k - 1];
        m.insert(n, f(n, mixed_input(g, input_id, n, m, host, len)))
    }
}

/// Running a single step is applying its effect.
proof fn lemma_run_one(
    s: BlockStep,
    f: spec_fn(usize, Seq<int>) -> Seq<int>,
    host: Seq<int>,
    len: nat,
    st: WalkState,
)
    ensures
        run_steps(seq![s], f, host, len, st) == step_effect(st, f, host, len, s),
{
    reveal_with_fuel(run_steps, 2);
    assert(seq![s].subrange(1, 1) =~= Seq::<BlockStep>::empty());
}

/// Running concatenated step sequences is running them one after the
/// other.
proof fn lemma_run_concat(
    s1: Seq<BlockStep>,
    s2: Seq<BlockStep>,
    f: spec_fn(usize, Seq<int>) -> Seq<int>,
    host: Seq<int>,
    len: nat,
    st: WalkState,
)
    ensures
        run_steps(s1 + s2, f, host, len, st) == run_steps(s2, f, host, len, run_steps(s1, f, host, len, st)),
    decreases s1.len(),
{
    if s1.len() == 0 {
        assert(s1 + s2 =~= s2);
    } else {
        let st1 = step_effect(st, f, host, len, s1[0]);
        assert((s1 + s2)[0] == s1[0]);
        assert((s1 + s2).subrange(1, (s1 + s2).len() as int) =~= s1.subrange(1, s1.len() as int)
            + s2);
        lemma_run_concat(s1.subrange(1, s1.len() as int), s2, f, host, len, st1);
    }
}

/// Running the mix steps for a list accumulates the listed outputs
/// into scratch and touches nothing else.
proof fn lemma_run_mix_steps(
    ps: Seq<usize>,
    f: spec_fn(usize, Seq<int>) -> Seq<int>,
    host: Seq<int>,
    len: nat,
    st: WalkState,
)
    ensures
        run_steps(mix_steps(ps), f, host, len, st) == (WalkState {
            outs: st.outs,
            scratch: mix_outputs_from(st.scratch, ps, st.outs),
        }),
    decreases ps.len(),
{
    if ps.len() == 0 {
        assert(run_steps(mix_steps(ps), f, host, len, st) == st);
        assert(st == (WalkState { outs: st.outs, scratch: st.scratch }));
    } else {
        let st1 = WalkState { outs: st.outs, scratch: mix_samples(st.scratch, st.outs[ps[0]]) };
        assert(mix_steps(ps)[0] == BlockStep::MixOutput(ps[0]));
        assert(step_effect(st, f, host, len, mix_steps(ps)[0]) == st1);
        assert(mix_steps(ps).subrange(1, ps.len() as int) =~= mix_steps(
            ps.subrange(1, ps.len() as int),
        ));
        lemma_run_mix_steps(ps.subrange(1, ps.len() as int), f, host, len, st1);
    }
}

/// Running one node's chunk computes the node's output from its mixed
/// input and stores it; the outputs of all other nodes are untouched.
proof fn lemma_run_node_chunk(
    g: GraphView,
    input_id: usize,
    n: usize,
    f: spec_fn(usize, Seq<int>) -> Seq<int>,
    host: Seq<int>,
    len: nat,
    st: WalkState,
)
    ensures
        ({
            let produced = f(n, mixed_input(g, input_id, n, st.outs, host, len));
            run_steps(node_steps(g, input_id, n), f, host, len, st) == (WalkState {
                outs: st.outs.insert(n, produced),
                scratch: produced,
            })
        }),
{
    let cleared = WalkState { outs: st.outs, scratch: zero_samples(len) };
    let mixed = WalkState {
        outs: st.outs,
        scratch: mix_outputs_from(zero_samples(len), g.preds_of(n), st.outs),
    };
    lemma_run_one(BlockStep::ClearScratch, f, host, len, st);
    assert(run_steps(seq![BlockStep::ClearScratch], f, host, len, st) == cleared);
    lemma_run_concat(seq![BlockStep::ClearScratch], mix_steps(g.preds_of(n)), f, host, len, st);
    lemma_run_mix_steps(g.preds_of(n), f, host, len, cleared);
    let stage1 = seq![BlockStep::ClearScratch] + mix_steps(g.preds_of(n));
    assert(run_steps(stage1, f, host, len, st) == mixed);
    let ready = WalkState { outs: st.outs, scratch: mixed_input(g, input_id, n, st.outs, host, len) };
    lemma_run_concat(
        stage1,
        if n == input_id {
            seq![BlockStep::CopyHostInput]
        } else {
            Seq::<BlockStep>::empty()
        },
        f,
        host,
        len,
        st,
    );
    if n == input_id {
        lemma_run_one(BlockStep::CopyHostInput, f, host, len, mixed);
    }
    assert(run_steps(input_stage_steps(g, input_id, n), f, host, len, st) == ready);
    lemma_run_concat(
        input_stage_steps(g, input_id, n),
        seq![BlockStep::RunNode(n), BlockStep::StoreOutput(n)],
        f,
        host,
        len,
        st,
    );
    let produced = f(n, ready.scratch);
    assert(run_steps(
        seq![BlockStep::RunNode(n), BlockStep::StoreOutput(n)],
        f,
        host,
        len,
        ready,
    ) == (WalkState { outs: st.outs.insert(n, produced), scratch: produced })) by {
        let two = seq![BlockStep::RunNode(n), BlockStep::StoreOutput(n)];
        let ran = WalkState { outs: st.outs, scratch: produced };
        assert(two =~= seq![BlockStep::RunNode(n)] + seq![BlockStep::StoreOutput(n)]);
        lemma_run_concat(
            seq![BlockStep::RunNode(n)],
            seq![BlockStep::StoreOutput(n)],
            f,
            host,
            len,
            ready,
        );
        lemma_run_one(BlockStep::RunNode(n), f, host, len, ready);
        lemma_run_one(BlockStep::StoreOutput(n), f, host, len, ran);
    }
}

/// Law: running the schedule realises the reference walk.  After the
/// first `k` chunks the cached outputs are exactly `walk_upto`'s: each
/// processed node holds its processing applied to the mix of its
/// predecessors' outputs (or to the host buffer at the input marker),
/// as those outputs stood when it ran.
pub proof fn lemma_schedule_runs_walk(
    g: GraphView,
    input_id: usize,
    f: spec_fn(usize, Seq<int>) -> Seq<int>,
    host: Seq<int>,
    len: nat,
    st0: WalkState,
    k: int,
)
    requires
        0 <= k <= g.topo.len(),
    ensures
        run_steps(schedule_upto(g, input_id, k), f, host, len, st0).outs == walk_upto(
            g,
            input_id,
            f,
            host,
            len,
            k,
            st0.outs,
        ),
    decreases k,
{
    if k > 0 {
        lemma_schedule_runs_walk(g, input_id, f, host, len, st0, k - 1);
        let st1 = run_steps(schedule_upto(g, input_id, k - 1), f, host, len, st0);
        lemma_run_concat(
            schedule_upto(g, input_id, k - 1),
            node_steps(g, input_id, g.topo[k - 1]),
            f,
            host,
            len,
            st0,
        );
        lemma_run_node_chunk(g, input_id, g.topo[k - 1], f, host, len, st1);
    }
}

/// A node's cached output does not change after the chunk that ran the
/// node: later chunks store under other identifiers.
proof fn lemma_walk_output_stable(
    g: GraphView,
    input_id: usize,
    f: spec_fn(usize, Seq<int>) -> Seq<int>,
    host: Seq<int>,
    len: nat,
    outs0: Map<usize, Seq<int>>,
    i: int,
    k: int,
)
    requires
        g.topo.no_duplicates(),
        0 <= i < k <= g.topo.len(),
    ensures
        walk_upto(g, input_id, f, host, len, k, outs0)[g.topo[i]] == walk_upto(
            g,
            input_id,
            f,
            host,
            len,
            i + 1,
            outs0,
        )[g.topo[i]],
    decreases k,
{
    if k > i + 1 {
        lemma_walk_output_stable(g, input_id, f, host, len, outs0, i, k - 1);
        assert(g.topo[k - 1] != g.topo[i]);
    }
}

/// Law: ordering correctness.  When the schedule reaches node `n` at
/// position `k` of the processing order, the buffer handed to `n`'s
/// processing is the samplewise mix of the cached outputs of exactly
/// `n`'s predecessors — and each predecessor's cached output is
/// already its final output for this block, because every predecessor
/// stands earlier in the processing order.  At the input marker the
/// buffer is the host buffer instead.
pub proof fn lemma_scratch_when_node_runs(
    g: GraphView,
    input_id: usize,
    f: spec_fn(usize, Seq<int>) -> Seq<int>,
    host: Seq<int>,
    len: nat,
    st0: WalkState,
    k: int,
)
    requires
        g.wf(),
        0 <= k < g.topo.len(),
    ensures
        ({
            let n = g.topo[k];
            let before = run_steps(schedule_upto(g, input_id, k), f, host, len, st0);
            let handed = run_steps(
                schedule_upto(g, input_id, k) + input_stage_steps(g, input_id, n),
                f,
                host,
                len,
                st0,
            ).scratch;
            handed == mixed_input(g, input_id, n, before.outs, host, len) && forall|j: int|
                0 <= j < g.preds_of(n).len() ==> before.outs[#[trigger] g.preds_of(n)[j]]
                    == run_steps(
                    block_schedule_spec(g, input_id),
                    f,
                    host,
                    len,
                    st0,
                ).outs[g.preds_of(n)[j]]
        }),
{
    let n = g.topo[k];
    let before = run_steps(schedule_upto(g, input_id, k), f, host, len, st0);
    lemma_run_concat(schedule_upto(g, input_id, k), input_stage_steps(g, input_id, n), f, host, len, st0);
    let cleared = WalkState { outs: before.outs, scratch: zero_samples(len) };
    lemma_run_one(BlockStep::ClearScratch, f, host, len, before);
    lemma_run_concat(
        seq![BlockStep::ClearScratch],
        mix_steps(g.preds_of(n)),
        f,
        host,
        len,
        before,
    );
    lemma_run_mix_steps(g.preds_of(n), f, host, len, cleared);
    let stage1 = seq![BlockStep::ClearScratch] + mix_steps(g.preds_of(n));
    lemma_run_concat(
        stage1,
        if n == input_id {
            seq![BlockStep::CopyHostInput]
        } else {
            Seq::<BlockStep>::empty()
        },
        f,
        host,
        len,
        before,
    );
    if n == input_id {
        let mixed = run_steps(stage1, f, host, len, before);
        lemma_run_one(BlockStep::CopyHostInput, f, host, len, mixed);
    }
    // Each predecessor was processed at an earlier position and its
    // output is stable from then on.
    lemma_schedule_runs_walk(g, input_id, f, host, len, st0, k);
    lemma_schedule_runs_walk(g, input_id, f, host, len, st0, g.topo.len() as int);
    assert forall|j: int| 0 <= j < g.preds_of(n).len() implies before.outs[#[trigger] g.preds_of(
        n,
    )[j]] == run_steps(block_schedule_spec(g, input_id), f, host, len, st0).outs[g.preds_of(n)[j]] by {
        let p = g.preds_of(n)[j];
        assert(g.has_node(n)) by {
            assert(g.topo.contains(n));
        }
        let pn = choose|pn: int| 0 <= pn < g.nodes.len() && g.nodes[pn] == n;
        crate::directed_graph::lemma_index_of_unique(g.nodes, n, pn);
        assert(g.has_edge(p, g.nodes[pn]));
        assert(g.has_edge(p, n));
        // positions in the order
        crate::directed_graph::lemma_index_of_unique(g.topo, n, k);
        assert(g.topo.contains(p)) by {
            let ip = choose|ip: int| 0 <= ip < g.nodes.len() && g.nodes[ip] == p && (
            #[trigger] g.succs[ip]).contains(n);
            assert(g.nodes.contains(p));
        }
        let i = choose|i: int| 0 <= i < g.topo.len() && g.topo[i] == p;
        assert(g.has_edge(g.topo[i], g.topo[k]));
        assert(i < k);
        lemma_walk_output_stable(g, input_id, f, host, len, st0.outs, i, k);
        lemma_walk_output_stable(g, input_id, f, host, len, st0.outs, i, g.topo.len() as int);
    }
}

} // verus!
