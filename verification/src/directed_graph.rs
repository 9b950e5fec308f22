//! A directed acyclic graph over `usize` node identifiers.
//!
//! The graph stores an insertion-ordered adjacency list and, beside it,
//! three caches that are rebuilt on every topology mutation: a topological
//! order of all nodes (for every edge `u -> v`, `u` precedes `v`), its
//! reverse, and a predecessor index.  Mutations run on a control thread;
//! the readers return the caches without allocating, so a real-time thread
//! may call them between mutations.

use vstd::prelude::*;
use vstd::seq_lib::*;
use vstd::set_lib::lemma_len_subset;

verus! {

/// Error returned by topology mutations.
#[derive(Clone, Copy, Debug, PartialEq, Eq, Structural)]
pub enum GraphError {
    /// An endpoint of the requested edge is not a node of this graph.
    NodeNotFound,
    /// Inserting the requested edge would create a directed cycle.
    CycleWouldForm,
}

/// Mathematical model of a `DirectedGraph`: the node list in insertion
/// order, the successor and predecessor lists in the same order, and the
/// cached topological order.
pub struct GraphView {
    pub nodes: Seq<usize>,
    pub succs: Seq<Seq<usize>>,
    pub preds: Seq<Seq<usize>>,
    pub topo: Seq<usize>,
}

impl GraphView {
    /// `id` is a node of the graph.
    pub open spec fn has_node(self, id: usize) -> bool {
        self.nodes.contains(id)
    }

    /// Successor list of `id` (meaningful when `has_node(id)` and the
    /// node list has no duplicates).
    pub open spec fn succs_of(self, id: usize) -> Seq<usize> {
        self.succs[self.nodes.index_of(id)]
    }

    /// Predecessor list of `id`.
    pub open spec fn preds_of(self, id: usize) -> Seq<usize> {
        self.preds[self.nodes.index_of(id)]
    }

    /// The graph has the edge `u -> v`.
    pub open spec fn has_edge(self, u: usize, v: usize) -> bool {
        exists|i: int|
            0 <= i < self.nodes.len() && self.nodes[i] == u && (#[trigger] self.succs[i]).contains(
                v,
            )
    }

    /// `t` is a topological order of the graph: it lists every node
    /// exactly once, and for every edge `u -> v`, `u` comes before `v`.
    pub open spec fn topo_valid(self, t: Seq<usize>) -> bool {
        &&& t.no_duplicates()
        &&& forall|x: usize| #[trigger] t.contains(x) <==> self.has_node(x)
        &&& forall|i: int, j: int|
            0 <= i < t.len() && 0 <= j < t.len() && #[trigger] self.has_edge(t[i], t[j]) ==> i < j
    }

    /// The predecessor index agrees with the adjacency: `u` is listed as
    /// a predecessor of `v` exactly when the edge `u -> v` exists.
    pub open spec fn preds_consistent(self) -> bool {
        &&& forall|i: int| 0 <= i < self.nodes.len() ==> (#[trigger] self.preds[i]).no_duplicates()
        &&& forall|i: int, k: int|
            0 <= i < self.nodes.len() && 0 <= k < self.preds[i].len() ==> self.has_edge(
                #[trigger] self.preds[i][k],
                self.nodes[i],
            )
        &&& forall|u: usize, i: int|
            0 <= i < self.nodes.len() && #[trigger] self.has_edge(u, self.nodes[i])
                ==> (#[trigger] self.preds[i]).contains(u)
    }

    /// Structural invariant: parallel lists, no duplicate nodes, no
    /// duplicate successors, every successor is a node, the cached
    /// topological order is valid (which entails acyclicity), and the
    /// predecessor index is consistent.
    pub open spec fn wf(self) -> bool {
        &&& self.succs.len() == self.nodes.len()
        &&& self.preds.len() == self.nodes.len()
        &&& self.nodes.no_duplicates()
        &&& forall|i: int| 0 <= i < self.nodes.len() ==> (#[trigger] self.succs[i]).no_duplicates()
        &&& forall|i: int, k: int|
            0 <= i < self.nodes.len() && 0 <= k < self.succs[i].len() ==> self.nodes.contains(
                #[trigger] self.succs[i][k],
            )
        &&& self.topo_valid(self.topo)
        &&& self.preds_consistent()
    }

    /// A walk through the graph: at least one node, and an edge between
    /// each pair of consecutive entries.
    pub open spec fn is_path(self, p: Seq<usize>) -> bool {
        &&& p.len() >= 1
        &&& forall|i: int| 0 <= i < p.len() - 1 ==> self.has_edge(#[trigger] p[i], p[i + 1])
    }

    /// `b` can be reached from `a` by following zero or more edges.
    pub open spec fn reaches(self, a: usize, b: usize) -> bool {
        exists|p: Seq<usize>| #[trigger] self.is_path(p) && p.first() == a && p.last() == b
    }
}

/// A directed acyclic graph keyed by `usize` node identifiers, with
/// cached topological orderings and a cached predecessor index.
pub struct DirectedGraph {
    /// Node identifiers in insertion order.
    nodes: Vec<usize>,
    /// Successor lists, parallel to `nodes`.
    succs: Vec<Vec<usize>>,
    /// Predecessor lists, parallel to `nodes`.
    preds: Vec<Vec<usize>>,
    /// Cached topological order: for every edge `u -> v`, `u` precedes `v`.
    topo: Vec<usize>,
    /// Cached reverse of `topo`.
    rev_topo: Vec<usize>,
    /// Kept empty; handed out for identifiers that are not in the graph.
    no_preds: Vec<usize>,
}

impl View for DirectedGraph {
    type V = GraphView;

    closed spec fn view(&self) -> GraphView {
        GraphView {
            nodes: self.nodes@,
            succs: self.succs.deep_view(),
            preds: self.preds.deep_view(),
            topo: self.topo@,
        }
    }
}

impl DirectedGraph {
    /// The graph invariant; every operation preserves it.
    pub closed spec fn wf(&self) -> bool {
        &&& self@.wf()
        &&& self.rev_topo@ == self@.topo.reverse()
        &&& self.no_preds@ == Seq::<usize>::empty()
    }

    /// The invariant seen through the model: a well-formed graph has a
    /// well-formed view.
    pub proof fn lemma_view_wf(&self)
        requires
            self.wf(),
        ensures
            self@.wf(),
    {
    }

    /// Creates an empty graph.
    pub fn new() -> (r: DirectedGraph)
        ensures
            r.wf(),
            r@.nodes == Seq::<usize>::empty(),
            r@.succs == Seq::<Seq<usize>>::empty(),
            r@.preds == Seq::<Seq<usize>>::empty(),
            r@.topo == Seq::<usize>::empty(),
    {
        let r = DirectedGraph {
            nodes: Vec::new(),
            succs: Vec::new(),
            preds: Vec::new(),
            topo: Vec::new(),
            rev_topo: Vec::new(),
            no_preds: Vec::new(),
        };
        proof {
            assert(r@.succs =~= Seq::<Seq<usize>>::empty());
            assert(r@.preds =~= Seq::<Seq<usize>>::empty());
            assert(r.rev_topo@ =~= r@.topo.reverse());
        }
        r
    }

    /// Adds `node_id` with an empty successor list and rebuilds the
    /// caches.  Returns `false` and changes nothing when the node is
    /// already present.
    pub fn add_node(&mut self, node_id: usize) -> (r: bool)
        requires
            old(self).wf(),
        ensures
            final (self).wf(),
            r == !old(self)@.has_node(node_id),
            !r ==> final (self)@ == old(self)@,
            r ==> final (self)@.nodes == old(self)@.nodes.push(node_id),
            r ==> final (self)@.succs == old(self)@.succs.push(Seq::<usize>::empty()),
            r ==> final (self)@.preds == old(self)@.preds.push(Seq::<usize>::empty()),
            r ==> final (self)@.topo == old(self)@.topo.push(node_id),
    {
        if self.contains_node(node_id) {
            return false;
        }
        let ghost g0 = self@;
        self.nodes.push(node_id);
        self.succs.push(Vec::new());
        self.preds.push(Vec::new());
        self.topo.push(node_id);
        let rev = reverse_of(&self.topo);
        self.rev_topo = rev;
        proof {
            let g1 = self@;
            let n = g0.nodes.len() as int;
            assert(g1.succs =~~= g0.succs.push(Seq::<usize>::empty()));
            assert(g1.preds =~~= g0.preds.push(Seq::<usize>::empty()));
            // Edges are untouched: the new row is empty, the old rows kept.
            assert forall|u: usize, v: usize| #[trigger] g1.has_edge(u, v) implies g0.has_edge(
                u,
                v,
            ) by {
                let i = choose|i: int|
                    0 <= i < g1.nodes.len() && g1.nodes[i] == u && (
                    #[trigger] g1.succs[i]).contains(v);
                assert(i < n);
                assert(g0.nodes[i] == u && g0.succs[i].contains(v));
            }
            assert forall|u: usize, v: usize| #[trigger] g0.has_edge(u, v) implies g1.has_edge(
                u,
                v,
            ) by {
                let i = choose|i: int|
                    0 <= i < g0.nodes.len() && g0.nodes[i] == u && (
                    #[trigger] g0.succs[i]).contains(v);
                assert(g1.nodes[i] == u && g1.succs[i].contains(v));
            }
            assert forall|u: usize, v: usize| #[trigger] g1.has_edge(u, v) implies g0.has_node(u)
                && g0.has_node(v) by {
                g0.lemma_edge_endpoints(u, v);
            }
            // The grown node list stays duplicate free.
            assert forall|i: int, j: int|
                0 <= i < g1.nodes.len() && 0 <= j < g1.nodes.len() && i != j implies g1.nodes[i]
                != g1.nodes[j] by {
                if i < n && j < n {
                    assert(g0.nodes[i] != g0.nodes[j]);
                } else if j == n && i < n {
                    if g1.nodes[i] == node_id {
                        assert(g0.nodes.contains(node_id));
                    }
                } else if i == n && j < n {
                    if g1.nodes[j] == node_id {
                        assert(g0.nodes.contains(node_id));
                    }
                }
            }
            assert forall|i: int, j: int|
                0 <= i < g1.topo.len() && 0 <= j < g1.topo.len() && i != j implies g1.topo[i]
                != g1.topo[j] by {
                let m = g0.topo.len() as int;
                if i < m && j < m {
                    assert(g0.topo[i] != g0.topo[j]);
                } else if j == m && i < m {
                    if g1.topo[i] == node_id {
                        assert(g0.topo.contains(node_id));
                    }
                } else if i == m && j < m {
                    if g1.topo[j] == node_id {
                        assert(g0.topo.contains(node_id));
                    }
                }
            }
            // Coverage of the new topological order.
            assert forall|x: usize| #[trigger] g1.topo.contains(x) implies g1.has_node(x) by {
                lemma_push_contains(g0.topo, node_id, x);
                lemma_push_contains(g0.nodes, node_id, x);
            }
            assert forall|x: usize| #[trigger] g1.has_node(x) implies g1.topo.contains(x) by {
                lemma_push_contains(g0.topo, node_id, x);
                lemma_push_contains(g0.nodes, node_id, x);
            }
            // Ordering: all edges are among the old nodes, whose relative
            // positions are unchanged.
            assert forall|i: int, j: int|
                0 <= i < g1.topo.len() && 0 <= j < g1.topo.len() && #[trigger] g1.has_edge(
                    g1.topo[i],
                    g1.topo[j],
                ) implies i < j by {
                let m = g0.topo.len() as int;
                assert(g0.has_edge(g1.topo[i], g1.topo[j]));
                g0.lemma_edge_endpoints(g1.topo[i], g1.topo[j]);
                if i == m {
                    assert(g0.has_node(node_id));
                }
                if j == m {
                    assert(g0.has_node(node_id));
                }
                assert(g0.has_edge(g0.topo[i], g0.topo[j]));
            }
            // Predecessor index: the new row is empty and the node has no
            // incident edges.
            assert forall|u: usize, i: int|
                0 <= i < g1.nodes.len() && #[trigger] g1.has_edge(u, g1.nodes[i]) implies (
            #[trigger] g1.preds[i]).contains(u) by {
                assert(g0.has_edge(u, g1.nodes[i]));
                g0.lemma_edge_endpoints(u, g1.nodes[i]);
                if i == n {
                    assert(g0.has_node(node_id));
                }
                assert(g0.has_edge(u, g0.nodes[i]));
                assert(g0.preds[i].contains(u));
            }
            assert forall|i: int, k: int|
                0 <= i < g1.nodes.len() && 0 <= k < g1.preds[i].len() implies g1.has_edge(
                #[trigger] g1.preds[i][k],
                g1.nodes[i],
            ) by {
                assert(i < n);
                assert(g0.has_edge(g0.preds[i][k], g0.nodes[i]));
            }
            assert forall|i: int, k: int|
                0 <= i < g1.nodes.len() && 0 <= k < g1.succs[i].len() implies g1.nodes.contains(
                #[trigger] g1.succs[i][k],
            ) by {
                assert(i < n);
                assert(g0.nodes.contains(g0.succs[i][k]));
                lemma_push_contains(g0.nodes, node_id, g0.succs[i][k]);
            }
        }
        true
    }

    /// Position of a node that is known to be present.
    fn index_of_node(&self, node_id: usize) -> (r: usize)
        requires
            self@.has_node(node_id),
        ensures
            r < self@.nodes.len(),
            self@.nodes[r as int] == node_id,
    {
        match self.position_of(node_id) {
            Some(i) => i,
            None => {
                proof {
                    assert(false);
                }
                0
            },
        }
    }

    /// Depth-first search over the current edges.  Returns whether
    /// `target` is reachable from `start` and, when it is not, the set of
    /// nodes that the search visited: it holds `start`, not `target`, and
    /// is closed under successors.
    fn reach_set(&self, start: usize, target: usize) -> (r: (bool, Vec<usize>))
        requires
            self.wf(),
            self@.has_node(start),
        ensures
            r.0 == self@.reaches(start, target),
            !r.0 ==> r.1@.contains(start),
            !r.0 ==> !r.1@.contains(target),
            !r.0 ==> forall|x: usize, v: usize|
                r.1@.contains(x) && #[trigger] self@.has_edge(x, v) ==> r.1@.contains(v),
            !r.0 ==> r.1@.no_duplicates(),
            !r.0 ==> forall|x: usize| #[trigger] r.1@.contains(x) ==> self@.has_node(x),
    {
        let ghost g = self@;
        let mut visited: Vec<usize> = Vec::new();
        let mut stack: Vec<usize> = Vec::new();
        stack.push(start);
        proof {
            g.lemma_reaches_refl(start);
            assert(stack@[0] == start);
        }
        while stack.len() > 0
            invariant
                self.wf(),
                g == self@,
                g.has_node(start),
                forall|k: int|
                    0 <= k < stack@.len() ==> g.has_node(#[trigger] stack@[k]) && g.reaches(
                        start,
                        stack@[k],
                    ),
                forall|k: int| 0 <= k < visited@.len() ==> g.has_node(#[trigger] visited@[k]),
                visited@.no_duplicates(),
                !visited@.contains(target),
                forall|x: usize, v: usize|
                    visited@.contains(x) && #[trigger] g.has_edge(x, v) ==> visited@.contains(v)
                        || stack@.contains(v),
                visited@.contains(start) || stack@.contains(start),
            decreases g.nodes.len() - visited@.len(), stack@.len(),
        {
            let ghost pre = stack@;
            let cur = match stack.pop() {
                Some(c) => c,
                None => {
                    proof {
                        assert(false);
                    }
                    0
                },
            };
            proof {
                assert(cur == pre.last());
                assert(g.reaches(start, cur));
            }
            if cur == target {
                return (true, visited);
            }
            if !contains_in(&visited, cur) {
                let pos = self.index_of_node(cur);
                let ghost base = stack@;
                let row_len = self.succs[pos].len();
                proof {
                    assert(self@.succs[pos as int] =~= self.succs@[pos as int]@);
                }
                let mut k: usize = 0;
                while k < row_len
                    invariant
                        self.wf(),
                        g == self@,
                        g.has_node(start),
                        pos < g.nodes.len(),
                        g.nodes[pos as int] == cur,
                        row_len == g.succs[pos as int].len(),
                        g.reaches(start, cur),
                        k <= row_len,
                        stack@.len() == base.len() + k,
                        forall|m: int| 0 <= m < base.len() ==> stack@[m] == base[m],
                        forall|j: int|
                            0 <= j < k ==> stack@[base.len() + j] == g.succs[pos as int][j],
                        forall|m: int|
                            0 <= m < stack@.len() ==> g.has_node(#[trigger] stack@[m])
                                && g.reaches(start, stack@[m]),
                    decreases row_len - k,
                {
                    let s = self.succs[pos][k];
                    proof {
                        assert(g.succs[pos as int][k as int] == s);
                        assert(g.succs[pos as int].contains(s));
                        assert(g.has_edge(cur, s));
                        g.lemma_reaches_step(start, cur, s);
                    }
                    stack.push(s);
                    k += 1;
                }
                let ghost vis0 = visited@;
                visited.push(cur);
                proof {
                    let vis1 = visited@;
                    assert(vis1 == vis0.push(cur));
                    // The new visited list stays duplicate free and inside
                    // the node set, so the termination measure stays
                    // non-negative and drops.
                    assert forall|i: int, j: int|
                        0 <= i < vis1.len() && 0 <= j < vis1.len() && i != j implies vis1[i]
                        != vis1[j] by {
                        if i < vis0.len() && j < vis0.len() {
                            assert(vis0[i] != vis0[j]);
                        } else if j == vis0.len() && i < vis0.len() {
                            if vis1[i] == cur {
                                assert(vis0.contains(cur));
                            }
                        } else if i == vis0.len() && j < vis0.len() {
                            if vis1[j] == cur {
                                assert(vis0.contains(cur));
                            }
                        }
                    }
                    assert forall|x: usize| #[trigger] vis1.contains(x) implies g.has_node(x) by {
                        lemma_push_contains(vis0, cur, x);
                    }
                    assert forall|x: usize| vis1.contains(x) implies g.nodes.contains(x) by {}
                    lemma_distinct_sub_len(vis1, g.nodes);
                    // Closure modulo the stack: the popped node's
                    // successors were all pushed, and everything that was
                    // on the stack beside it is still there.
                    assert forall|x: usize, v: usize|
                        vis1.contains(x) && #[trigger] g.has_edge(x, v) implies vis1.contains(v)
                        || stack@.contains(v) by {
                        lemma_push_contains(vis0, cur, x);
                        if vis0.contains(x) {
                            if vis0.contains(v) {
                                lemma_push_contains(vis0, cur, v);
                            } else {
                                assert(pre.contains(v));
                                let m = choose|m: int| 0 <= m < pre.len() && pre[m] == v;
                                if m < pre.len() - 1 {
                                    assert(base[m] == v);
                                    assert(stack@[m] == v);
                                    assert(stack@.contains(v));
                                } else {
                                    assert(v == cur);
                                    lemma_push_contains(vis0, cur, v);
                                }
                            }
                        } else {
                            assert(x == cur);
                            let i = choose|i: int|
                                0 <= i < g.nodes.len() && g.nodes[i] == x && (
                                #[trigger] g.succs[i]).contains(v);
                            assert(g.nodes[i] == g.nodes[pos as int]);
                            assert(i == pos);
                            let j = choose|j: int|
                                0 <= j < g.succs[pos as int].len() && g.succs[pos as int][j] == v;
                            assert(stack@[base.len() + j] == v);
                            assert(stack@.contains(v));
                        }
                    }
                    assert(vis1.contains(start) || stack@.contains(start)) by {
                        if vis0.contains(start) {
                            lemma_push_contains(vis0, cur, start);
                        } else {
                            assert(pre.contains(start));
                            let m = choose|m: int| 0 <= m < pre.len() && pre[m] == start;
                            if m < pre.len() - 1 {
                                assert(base[m] == start);
                                assert(stack@[m] == start);
                                assert(stack@.contains(start));
                            } else {
                                lemma_push_contains(vis0, cur, start);
                            }
                        }
                    }
                }
            } else {
                proof {
                    // The stack shrank; everything that closure pointed at
                    // in the stack is still there or is the visited node.
                    assert forall|x: usize, v: usize|
                        visited@.contains(x) && #[trigger] g.has_edge(x, v) implies
                        visited@.contains(v) || stack@.contains(v) by {
                        if !visited@.contains(v) {
                            assert(pre.contains(v));
                            let m = choose|m: int| 0 <= m < pre.len() && pre[m] == v;
                            if m < pre.len() - 1 {
                                assert(stack@[m] == v);
                                assert(stack@.contains(v));
                            } else {
                                assert(v == cur);
                                assert(visited@.contains(cur));
                            }
                        }
                    }
                    assert(visited@.contains(start) || stack@.contains(start)) by {
                        if !visited@.contains(start) {
                            let m = choose|m: int| 0 <= m < pre.len() && pre[m] == start;
                            if m < pre.len() - 1 {
                                assert(stack@[m] == start);
                                assert(stack@.contains(start));
                            } else {
                                assert(visited@.contains(cur));
                            }
                        }
                    }
                }
            }
        }
        proof {
            g.lemma_closed_set_unreachable(visited@, start, target);
        }
        (false, visited)
    }

    /// Adds the edge `from_id -> to_id` and rebuilds the caches.
    ///
    /// Fails with `NodeNotFound` when either endpoint is absent and with
    /// `CycleWouldForm` exactly when `to_id` transitively reaches
    /// `from_id` (so the edge would close a directed cycle); a failed
    /// call leaves the graph unchanged.  Adding an edge that is already
    /// present succeeds and changes nothing; otherwise `to_id` is
    /// appended to `from_id`'s successor list.
    pub fn add_edge(&mut self, from_id: usize, to_id: usize) -> (r: Result<(), GraphError>)
        requires
            old(self).wf(),
        ensures
            final (self).wf(),
            final (self)@.nodes == old(self)@.nodes,
            (r == Err::<(), GraphError>(GraphError::NodeNotFound)) <==> !(old(self)@.has_node(
                from_id,
            ) && old(self)@.has_node(to_id)),
            (r == Err::<(), GraphError>(GraphError::CycleWouldForm)) <==> (old(self)@.has_node(
                from_id,
            ) && old(self)@.has_node(to_id) && old(self)@.reaches(to_id, from_id)),
            r is Err ==> final (self)@ == old(self)@,
            r is Ok ==> forall|u: usize, v: usize|
                #[trigger] final (self)@.has_edge(u, v) <==> (old(self)@.has_edge(u, v) || (u
                    == from_id && v == to_id)),
            r is Ok && old(self)@.has_edge(from_id, to_id) ==> final (self)@ == old(self)@,
            r is Ok && !old(self)@.has_edge(from_id, to_id) ==> final (self)@.succs_of(from_id)
                == old(self)@.succs_of(from_id).push(to_id),
            r is Ok && !old(self)@.has_edge(from_id, to_id) ==> forall|w: usize|
                old(self)@.has_node(w) && w != from_id ==> final (self)@.succs_of(w) == old(
                    self,
                )@.succs_of(w),
            r is Ok && !old(self)@.has_edge(from_id, to_id) ==> final (self)@.preds_of(to_id)
                == old(self)@.preds_of(to_id).push(from_id),
            r is Ok && !old(self)@.has_edge(from_id, to_id) ==> forall|w: usize|
                old(self)@.has_node(w) && w != to_id ==> final (self)@.preds_of(w) == old(
                    self,
                )@.preds_of(w),
    {
        let ghost g0 = self@;
        let pos_from = match self.position_of(from_id) {
            Some(i) => i,
            None => {
                return Err(GraphError::NodeNotFound);
            },
        };
        let pos_to = match self.position_of(to_id) {
            Some(i) => i,
            None => {
                return Err(GraphError::NodeNotFound);
            },
        };
        proof {
            lemma_index_of_unique(g0.nodes, from_id, pos_from as int);
            lemma_index_of_unique(g0.nodes, to_id, pos_to as int);
            assert(g0.succs[pos_from as int] =~= self.succs@[pos_from as int]@);
        }
        if contains_in(&self.succs[pos_from], to_id) {
            proof {
                assert(g0.has_edge(from_id, to_id));
                g0.lemma_edge_excludes_back_path(from_id, to_id);
                assert forall|u: usize, v: usize| #[trigger] self@.has_edge(u, v) implies (
                g0.has_edge(u, v) || (u == from_id && v == to_id)) by {}
            }
            return Ok(());
        }
        let (found, vis) = self.reach_set(to_id, from_id);
        if found {
            return Err(GraphError::CycleWouldForm);
        }
        // Insert the edge into the adjacency and the predecessor index.
        let succ_row = &mut self.succs[pos_from];
        succ_row.push(to_id);
        let pred_row = &mut self.preds[pos_to];
        pred_row.push(from_id);
        proof {
            assert(self@.succs =~~= g0.succs.update(
                pos_from as int,
                g0.succs[pos_from as int].push(to_id),
            ));
            assert(self@.preds =~~= g0.preds.update(
                pos_to as int,
                g0.preds[pos_to as int].push(from_id),
            ));
        }
        let ghost gm = self@;
        proof {
            // The edge set grew by exactly the one pair.
            assert forall|u: usize, v: usize| #[trigger] gm.has_edge(u, v) implies (g0.has_edge(
                u,
                v,
            ) || (u == from_id && v == to_id)) by {
                let i = choose|i: int|
                    0 <= i < gm.nodes.len() && gm.nodes[i] == u && (
                    #[trigger] gm.succs[i]).contains(v);
                if i == pos_from {
                    lemma_push_contains(g0.succs[pos_from as int], to_id, v);
                    if g0.succs[pos_from as int].contains(v) {
                        assert(g0.has_edge(u, v));
                    }
                } else {
                    assert(g0.succs[i] == gm.succs[i]);
                    assert(g0.has_edge(u, v));
                }
            }
            assert forall|u: usize, v: usize| #[trigger] g0.has_edge(u, v) implies gm.has_edge(
                u,
                v,
            ) by {
                let i = choose|i: int|
                    0 <= i < g0.nodes.len() && g0.nodes[i] == u && (
                    #[trigger] g0.succs[i]).contains(v);
                lemma_push_contains(g0.succs[pos_from as int], to_id, v);
                assert(gm.succs[i].contains(v));
            }
            assert(gm.succs[pos_from as int].last() == to_id);
            assert(gm.has_edge(from_id, to_id));
        }
        // Rebuild the topological order: the nodes that cannot reach
        // back to `from_id`'s region keep their relative order in front,
        // then everything the search visited from `to_id` follows, again
        // in its old relative order.
        let ghost t0 = g0.topo;
        let n_t = self.topo.len();
        let mut nt: Vec<usize> = Vec::new();
        let mut i: usize = 0;
        while i < n_t
            invariant
                g0.wf(),
                gm == self@,
                n_t == t0.len(),
                self.topo@ == t0,
                i <= n_t,
                g0.topo_valid(t0),
                gm.nodes == g0.nodes,
                forall|u: usize, v: usize|
                    #[trigger] gm.has_edge(u, v) <==> (g0.has_edge(u, v) || (u == from_id && v
                        == to_id)),
                !vis@.contains(from_id),
                vis@.contains(to_id),
                forall|x: usize, v: usize|
                    vis@.contains(x) && #[trigger] g0.has_edge(x, v) ==> vis@.contains(v),
                forall|x: usize| #[trigger] nt@.contains(x) ==> !vis@.contains(x) && exists|k: int|
                    0 <= k < i && t0[k] == x,
                forall|k: int|
                    0 <= k < i && !vis@.contains(#[trigger] t0[k]) ==> nt@.contains(t0[k]),
                nt@.no_duplicates(),
                forall|a: int, b: int|
                    0 <= a < nt@.len() && 0 <= b < nt@.len() && #[trigger] gm.has_edge(
                        nt@[a],
                        nt@[b],
                    ) ==> a < b,
            decreases n_t - i,
        {
            let x = self.topo[i];
            if !contains_in(&vis, x) {
                let ghost nt0 = nt@;
                nt.push(x);
                proof {
                    assert forall|y: usize| #[trigger] nt@.contains(y) implies !vis@.contains(y)
                        && exists|k: int| 0 <= k < i + 1 && t0[k] == y by {
                        lemma_push_contains(nt0, x, y);
                        if nt0.contains(y) {
                        } else {
                            assert(t0[i as int] == y);
                        }
                    }
                    assert forall|k: int|
                        0 <= k < i + 1 && !vis@.contains(#[trigger] t0[k]) implies nt@.contains(
                        t0[k],
                    ) by {
                        lemma_push_contains(nt0, x, t0[k]);
                        if k < i {
                            assert(nt0.contains(t0[k]));
                        } else {
                            assert(t0[k] == x);
                        }
                    }
                    assert forall|a: int, b: int|
                        0 <= a < nt@.len() && 0 <= b < nt@.len() && #[trigger] gm.has_edge(
                            nt@[a],
                            nt@[b],
                        ) implies a < b by {
                        if b == nt@.len() - 1 && a < nt@.len() - 1 {
                        } else if a == nt@.len() - 1 {
                            let y = nt@[b];
                            if b < nt@.len() - 1 {
                                assert(nt0.contains(y));
                                let k = choose|k: int| 0 <= k < i && t0[k] == y;
                                if g0.has_edge(x, y) {
                                    assert(g0.has_edge(t0[i as int], t0[k]));
                                } else {
                                    assert(x == from_id && y == to_id);
                                    assert(vis@.contains(y));
                                }
                                assert(false);
                            } else {
                                if g0.has_edge(x, x) {
                                    g0.lemma_no_self_edge(x);
                                } else {
                                    assert(x == from_id && x == to_id);
                                    g0.lemma_reaches_refl(to_id);
                                    assert(vis@.contains(x));
                                }
                                assert(false);
                            }
                        } else {
                            assert(nt0[a] == nt@[a] && nt0[b] == nt@[b]);
                        }
                    }
                    // The pushed element was not seen yet.
                    assert(nt@.no_duplicates()) by {
                        if nt0.contains(x) {
                            let k = choose|k: int| 0 <= k < i && t0[k] == x;
                            assert(t0[k] == t0[i as int]);
                            assert(false);
                        }
                        assert forall|a: int, b: int|
                            0 <= a < nt@.len() && 0 <= b < nt@.len() && a != b implies nt@[a]
                            != nt@[b] by {
                            if a < nt0.len() && b < nt0.len() {
                                assert(nt0[a] != nt0[b]);
                            } else if a == nt0.len() && b < nt0.len() {
                                if nt@[b] == x {
                                    assert(nt0.contains(x));
                                }
                            } else if b == nt0.len() && a < nt0.len() {
                                if nt@[a] == x {
                                    assert(nt0.contains(x));
                                }
                            }
                        }
                    }
                }
            }
            i += 1;
        }
        proof {
            assert forall|x: usize|
                !vis@.contains(x) && #[trigger] t0.contains(x) implies nt@.contains(x) by {
                let k = choose|k: int| 0 <= k < t0.len() && t0[k] == x;
            }
        }
        let mut i2: usize = 0;
        while i2 < n_t
            invariant
                g0.wf(),
                gm == self@,
                n_t == t0.len(),
                self.topo@ == t0,
                i2 <= n_t,
                g0.topo_valid(t0),
                gm.nodes == g0.nodes,
                forall|u: usize, v: usize|
                    #[trigger] gm.has_edge(u, v) <==> (g0.has_edge(u, v) || (u == from_id && v
                        == to_id)),
                !vis@.contains(from_id),
                vis@.contains(to_id),
                forall|x: usize, v: usize|
                    vis@.contains(x) && #[trigger] g0.has_edge(x, v) ==> vis@.contains(v),
                forall|x: usize| #[trigger] nt@.contains(x) ==> (!vis@.contains(x) && t0.contains(
                    x,
                )) || (vis@.contains(x) && exists|k: int| 0 <= k < i2 && t0[k] == x),
                forall|x: usize|
                    !vis@.contains(x) && #[trigger] t0.contains(x) ==> nt@.contains(x),
                forall|k: int| 0 <= k < i2 && vis@.contains(#[trigger] t0[k]) ==> nt@.contains(
                    t0[k],
                ),
                nt@.no_duplicates(),
                forall|a: int, b: int|
                    0 <= a < nt@.len() && 0 <= b < nt@.len() && #[trigger] gm.has_edge(
                        nt@[a],
                        nt@[b],
                    ) ==> a < b,
            decreases n_t - i2,
        {
            let x = self.topo[i2];
            if contains_in(&vis, x) {
                let ghost nt0 = nt@;
                nt.push(x);
                proof {
                    assert forall|y: usize| #[trigger] nt@.contains(y) implies (!vis@.contains(y)
                        && t0.contains(y)) || (vis@.contains(y) && exists|k: int|
                        0 <= k < i2 + 1 && t0[k] == y) by {
                        lemma_push_contains(nt0, x, y);
                        if nt0.contains(y) {
                        } else {
                            assert(t0[i2 as int] == y);
                        }
                    }
                    assert forall|y: usize|
                        !vis@.contains(y) && #[trigger] t0.contains(y) implies nt@.contains(y) by {
                        lemma_push_contains(nt0, x, y);
                    }
                    assert forall|k: int|
                        0 <= k < i2 + 1 && vis@.contains(#[trigger] t0[k]) implies nt@.contains(
                        t0[k],
                    ) by {
                        lemma_push_contains(nt0, x, t0[k]);
                        if k < i2 {
                            assert(nt0.contains(t0[k]));
                        } else {
                            assert(t0[k] == x);
                        }
                    }
                    assert forall|a: int, b: int|
                        0 <= a < nt@.len() && 0 <= b < nt@.len() && #[trigger] gm.has_edge(
                            nt@[a],
                            nt@[b],
                        ) implies a < b by {
                        if b == nt@.len() - 1 && a < nt@.len() - 1 {
                        } else if a == nt@.len() - 1 {
                            let y = nt@[b];
                            if b < nt@.len() - 1 {
                                assert(nt0.contains(y));
                                if g0.has_edge(x, y) {
                                    if vis@.contains(y) {
                                        let k = choose|k: int| 0 <= k < i2 && t0[k] == y;
                                        assert(g0.has_edge(t0[i2 as int], t0[k]));
                                    }
                                    assert(vis@.contains(y));
                                } else {
                                    assert(x == from_id);
                                    assert(!vis@.contains(from_id));
                                }
                                assert(false);
                            } else {
                                if g0.has_edge(x, x) {
                                    g0.lemma_no_self_edge(x);
                                } else {
                                    assert(x == from_id);
                                    assert(!vis@.contains(from_id));
                                }
                                assert(false);
                            }
                        } else {
                            assert(nt0[a] == nt@[a] && nt0[b] == nt@[b]);
                        }
                    }
                    assert(nt@.no_duplicates()) by {
                        if nt0.contains(x) {
                            assert(vis@.contains(x));
                            let k = choose|k: int| 0 <= k < i2 && t0[k] == x;
                            assert(t0[k] == t0[i2 as int]);
                            assert(false);
                        }
                        assert forall|a: int, b: int|
                            0 <= a < nt@.len() && 0 <= b < nt@.len() && a != b implies nt@[a]
                            != nt@[b] by {
                            if a < nt0.len() && b < nt0.len() {
                                assert(nt0[a] != nt0[b]);
                            } else if a == nt0.len() && b < nt0.len() {
                                if nt@[b] == x {
                                    assert(nt0.contains(x));
                                }
                            } else if b == nt0.len() && a < nt0.len() {
                                if nt@[a] == x {
                                    assert(nt0.contains(x));
                                }
                            }
                        }
                    }
                }
            }
            i2 += 1;
        }
        self.topo = nt;
        let rev = reverse_of(&self.topo);
        self.rev_topo = rev;
        proof {
            let g2 = self@;
            assert(g2.nodes == g0.nodes && g2.succs == gm.succs && g2.preds == gm.preds);
            // Coverage of the rebuilt order.
            assert forall|x: usize| #[trigger] g2.topo.contains(x) implies g2.has_node(x) by {}
            assert forall|x: usize| #[trigger] g2.has_node(x) implies g2.topo.contains(x) by {
                assert(t0.contains(x));
                let k = choose|k: int| 0 <= k < t0.len() && t0[k] == x;
            }
            // Edges ignore the cached order, so they agree between the
            // intermediate and the final view.
            assert forall|u: usize, v: usize| #[trigger] g2.has_edge(u, v) <==> gm.has_edge(
                u,
                v,
            ) by {
                if g2.has_edge(u, v) {
                    let i = choose|i: int|
                        0 <= i < g2.nodes.len() && g2.nodes[i] == u && (
                        #[trigger] g2.succs[i]).contains(v);
                    assert(gm.nodes[i] == u && gm.succs[i].contains(v));
                }
                if gm.has_edge(u, v) {
                    let i = choose|i: int|
                        0 <= i < gm.nodes.len() && gm.nodes[i] == u && (
                        #[trigger] gm.succs[i]).contains(v);
                    assert(g2.nodes[i] == u && g2.succs[i].contains(v));
                }
            }
            assert forall|i: int, j: int|
                0 <= i < g2.topo.len() && 0 <= j < g2.topo.len() && #[trigger] g2.has_edge(
                    g2.topo[i],
                    g2.topo[j],
                ) implies i < j by {
                assert(gm.has_edge(g2.topo[i], g2.topo[j]));
            }
            // Successor lists: the one grown row stays duplicate free and
            // holds nodes.
            assert forall|i: int|
                0 <= i < g2.nodes.len() implies (#[trigger] g2.succs[i]).no_duplicates() by {
                if i == pos_from {
                    let row0 = g0.succs[pos_from as int];
                    assert(!row0.contains(to_id));
                    assert forall|a: int, b: int|
                        0 <= a < row0.push(to_id).len() && 0 <= b < row0.push(to_id).len() && a
                        != b implies row0.push(to_id)[a] != row0.push(to_id)[b] by {
                        if a < row0.len() && b < row0.len() {
                            assert(row0[a] != row0[b]);
                        } else if a == row0.len() && b < row0.len() {
                            if row0.push(to_id)[b] == to_id {
                                assert(row0.contains(to_id));
                            }
                        } else if b == row0.len() && a < row0.len() {
                            if row0.push(to_id)[a] == to_id {
                                assert(row0.contains(to_id));
                            }
                        }
                    }
                } else {
                    assert(g2.succs[i] == g0.succs[i]);
                }
            }
            assert forall|i: int, k: int|
                0 <= i < g2.nodes.len() && 0 <= k < g2.succs[i].len() implies g2.nodes.contains(
                #[trigger] g2.succs[i][k],
            ) by {
                if i == pos_from {
                    let row0 = g0.succs[pos_from as int];
                    if k < row0.len() {
                        assert(g0.nodes.contains(row0[k]));
                    } else {
                        assert(g2.succs[i][k] == to_id);
                    }
                } else {
                    assert(g0.nodes.contains(g0.succs[i][k]));
                }
            }
            // Predecessor index consistency.
            assert forall|i: int|
                0 <= i < g2.nodes.len() implies (#[trigger] g2.preds[i]).no_duplicates() by {
                if i == pos_to {
                    let row0 = g0.preds[pos_to as int];
                    assert(!row0.contains(from_id)) by {
                        if row0.contains(from_id) {
                            let k = choose|k: int| 0 <= k < row0.len() && row0[k] == from_id;
                            assert(g0.has_edge(row0[k], g0.nodes[pos_to as int]));
                            let ii = choose|ii: int|
                                0 <= ii < g0.nodes.len() && g0.nodes[ii] == from_id && (
                                #[trigger] g0.succs[ii]).contains(to_id);
                            assert(ii == pos_from);
                        }
                    }
                    assert forall|a: int, b: int|
                        0 <= a < row0.push(from_id).len() && 0 <= b < row0.push(from_id).len()
                        && a != b implies row0.push(from_id)[a] != row0.push(from_id)[b] by {
                        if a < row0.len() && b < row0.len() {
                            assert(row0[a] != row0[b]);
                        } else if a == row0.len() && b < row0.len() {
                            if row0.push(from_id)[b] == from_id {
                                assert(row0.contains(from_id));
                            }
                        } else if b == row0.len() && a < row0.len() {
                            if row0.push(from_id)[a] == from_id {
                                assert(row0.contains(from_id));
                            }
                        }
                    }
                } else {
                    assert(g2.preds[i] == g0.preds[i]);
                }
            }
            assert forall|i: int, k: int|
                0 <= i < g2.nodes.len() && 0 <= k < g2.preds[i].len() implies g2.has_edge(
                #[trigger] g2.preds[i][k],
                g2.nodes[i],
            ) by {
                if i == pos_to {
                    let row0 = g0.preds[pos_to as int];
                    if k < row0.len() {
                        assert(g0.has_edge(row0[k], g0.nodes[i]));
                        assert(gm.has_edge(row0[k], g0.nodes[i]));
                    } else {
                        assert(g2.preds[i][k] == from_id && g2.nodes[i] == to_id);
                        assert(gm.has_edge(from_id, to_id));
                    }
                } else {
                    assert(g0.has_edge(g0.preds[i][k], g0.nodes[i]));
                    assert(gm.has_edge(g0.preds[i][k], g0.nodes[i]));
                }
            }
            assert forall|u: usize, i: int|
                0 <= i < g2.nodes.len() && #[trigger] g2.has_edge(u, g2.nodes[i]) implies (
            #[trigger] g2.preds[i]).contains(u) by {
                assert(gm.has_edge(u, g2.nodes[i]));
                lemma_push_contains(g0.preds[pos_to as int], from_id, u);
                if g0.has_edge(u, g0.nodes[i]) {
                    assert(g0.preds[i].contains(u));
                    if i == pos_to {
                        assert(g2.preds[i].contains(u));
                    }
                } else {
                    assert(u == from_id && g2.nodes[i] == to_id);
                    assert(i == pos_to);
                }
            }
            assert(g2.wf());
            assert(self.wf());
            // The contract speaks through `succs_of` / `preds_of`.
            lemma_index_of_unique(g2.nodes, from_id, pos_from as int);
            lemma_index_of_unique(g2.nodes, to_id, pos_to as int);
            assert(g2.succs_of(from_id) == g0.succs_of(from_id).push(to_id));
            assert(g2.preds_of(to_id) == g0.preds_of(to_id).push(from_id));
            assert forall|w: usize| g0.has_node(w) && w != from_id implies g2.succs_of(w)
                == g0.succs_of(w) by {
                let iw = choose|k: int| 0 <= k < g0.nodes.len() && g0.nodes[k] == w;
                lemma_index_of_unique(g0.nodes, w, iw);
                assert(iw != pos_from);
            }
            assert forall|w: usize| g0.has_node(w) && w != to_id implies g2.preds_of(w)
                == g0.preds_of(w) by {
                let iw = choose|k: int| 0 <= k < g0.nodes.len() && g0.nodes[k] == w;
                lemma_index_of_unique(g0.nodes, w, iw);
                assert(iw != pos_to);
            }
        }
        Ok(())
    }

    /// Removes the edge `from_id -> to_id` and rebuilds the caches.
    /// Returns whether the edge existed; removing an absent edge changes
    /// nothing.
    pub fn remove_edge(&mut self, from_id: usize, to_id: usize) -> (r: bool)
        requires
            old(self).wf(),
        ensures
            final (self).wf(),
            r == old(self)@.has_edge(from_id, to_id),
            !r ==> final (self)@ == old(self)@,
            r ==> final (self)@.nodes == old(self)@.nodes,
            r ==> final (self)@.topo == old(self)@.topo,
            r ==> forall|u: usize, v: usize|
                #[trigger] final (self)@.has_edge(u, v) <==> (old(self)@.has_edge(u, v) && !(u
                    == from_id && v == to_id)),
            r ==> final (self)@.succs_of(from_id) == seq_without(
                old(self)@.succs_of(from_id),
                to_id,
            ),
            r ==> forall|w: usize|
                old(self)@.has_node(w) && w != from_id ==> final (self)@.succs_of(w) == old(
                    self,
                )@.succs_of(w),
            r ==> final (self)@.preds_of(to_id) == seq_without(
                old(self)@.preds_of(to_id),
                from_id,
            ),
            r ==> forall|w: usize|
                old(self)@.has_node(w) && w != to_id ==> final (self)@.preds_of(w) == old(
                    self,
                )@.preds_of(w),
    {
        let ghost g0 = self@;
        let pos_from = match self.position_of(from_id) {
            Some(i) => i,
            None => {
                proof {
                    assert forall|u: usize, v: usize| !g0.has_node(u) implies !g0.has_edge(
                        u,
                        v,
                    ) by {
                        if g0.has_edge(u, v) {
                            g0.lemma_edge_endpoints(u, v);
                        }
                    }
                }
                return false;
            },
        };
        proof {
            lemma_index_of_unique(g0.nodes, from_id, pos_from as int);
            assert(g0.succs[pos_from as int] =~= self.succs@[pos_from as int]@);
        }
        let idx = match find_in(&self.succs[pos_from], to_id) {
            Some(k) => k,
            None => {
                proof {
                    if g0.has_edge(from_id, to_id) {
                        let i = choose|i: int|
                            0 <= i < g0.nodes.len() && g0.nodes[i] == from_id && (
                            #[trigger] g0.succs[i]).contains(to_id);
                        assert(i == pos_from);
                    }
                }
                return false;
            },
        };
        proof {
            assert(g0.succs[pos_from as int].contains(to_id));
            assert(g0.has_edge(from_id, to_id));
            g0.lemma_edge_endpoints(from_id, to_id);
        }
        let succ_row = &mut self.succs[pos_from];
        let ghost row0 = g0.succs[pos_from as int];
        succ_row.remove(idx);
        proof {
            assert(self@.succs =~~= g0.succs.update(pos_from as int, row0.remove(idx as int)));
            lemma_index_of_unique(row0, to_id, idx as int);
            lemma_remove_keeps_distinct(row0, idx as int);
            assert(row0.remove(idx as int) == seq_without(row0, to_id));
        }
        let pos_to = self.index_of_node(to_id);
        proof {
            lemma_index_of_unique(g0.nodes, to_id, pos_to as int);
            assert(g0.preds[pos_to as int] =~= self.preds@[pos_to as int]@);
            assert(g0.preds[pos_to as int].contains(from_id)) by {
                assert(g0.has_edge(from_id, g0.nodes[pos_to as int]));
            }
        }
        let pidx = match find_in(&self.preds[pos_to], from_id) {
            Some(k) => k,
            None => {
                proof {
                    assert(false);
                }
                0
            },
        };
        let pred_row = &mut self.preds[pos_to];
        let ghost prow0 = g0.preds[pos_to as int];
        pred_row.remove(pidx);
        proof {
            let g2 = self@;
            assert(g2.preds =~~= g0.preds.update(pos_to as int, prow0.remove(pidx as int)));
            lemma_index_of_unique(prow0, from_id, pidx as int);
            lemma_remove_keeps_distinct(prow0, pidx as int);
            assert(prow0.remove(pidx as int) == seq_without(prow0, from_id));
            // The edge set shrank by exactly the one pair.
            assert forall|u: usize, v: usize| #[trigger] g2.has_edge(u, v) implies (g0.has_edge(
                u,
                v,
            ) && !(u == from_id && v == to_id)) by {
                let i = choose|i: int|
                    0 <= i < g2.nodes.len() && g2.nodes[i] == u && (
                    #[trigger] g2.succs[i]).contains(v);
                if i == pos_from {
                    assert(row0.remove(idx as int).contains(v));
                    assert(row0.contains(v) && v != to_id);
                    assert(g0.has_edge(u, v));
                } else {
                    assert(g0.succs[i].contains(v));
                    assert(g0.has_edge(u, v));
                    if u == from_id {
                        assert(g0.nodes[i] == g0.nodes[pos_from as int]);
                        assert(false);
                    }
                }
            }
            assert forall|u: usize, v: usize|
                g0.has_edge(u, v) && !(u == from_id && v == to_id) implies #[trigger] g2.has_edge(
                u,
                v,
            ) by {
                let i = choose|i: int|
                    0 <= i < g0.nodes.len() && g0.nodes[i] == u && (
                    #[trigger] g0.succs[i]).contains(v);
                if i == pos_from {
                    assert(u == from_id);
                    assert(row0.remove(idx as int).contains(v));
                    assert(g2.succs[i].contains(v));
                } else {
                    assert(g2.succs[i].contains(v));
                }
            }
            // The old order stays valid for the smaller edge set.
            assert forall|i: int, j: int|
                0 <= i < g2.topo.len() && 0 <= j < g2.topo.len() && #[trigger] g2.has_edge(
                    g2.topo[i],
                    g2.topo[j],
                ) implies i < j by {
                assert(g0.has_edge(g0.topo[i], g0.topo[j]));
            }
            // Row properties.
            assert forall|i: int|
                0 <= i < g2.nodes.len() implies (#[trigger] g2.succs[i]).no_duplicates() by {
                if i != pos_from {
                    assert(g2.succs[i] == g0.succs[i]);
                }
            }
            assert forall|i: int, k: int|
                0 <= i < g2.nodes.len() && 0 <= k < g2.succs[i].len() implies g2.nodes.contains(
                #[trigger] g2.succs[i][k],
            ) by {
                if i == pos_from {
                    assert(row0.remove(idx as int).contains(g2.succs[i][k]));
                    assert(row0.contains(g2.succs[i][k]));
                } else {
                    assert(g2.succs[i] == g0.succs[i]);
                }
            }
            assert forall|i: int|
                0 <= i < g2.nodes.len() implies (#[trigger] g2.preds[i]).no_duplicates() by {
                if i != pos_to {
                    assert(g2.preds[i] == g0.preds[i]);
                }
            }
            assert forall|i: int, k: int|
                0 <= i < g2.nodes.len() && 0 <= k < g2.preds[i].len() implies g2.has_edge(
                #[trigger] g2.preds[i][k],
                g2.nodes[i],
            ) by {
                let u = g2.preds[i][k];
                if i == pos_to {
                    assert(prow0.remove(pidx as int).contains(u));
                    assert(prow0.contains(u) && u != from_id);
                    assert(g0.has_edge(u, g0.nodes[i]));
                } else {
                    assert(g2.preds[i] == g0.preds[i]);
                    assert(g0.has_edge(u, g0.nodes[i]));
                    if u == from_id && g0.nodes[i] == to_id {
                        assert(g0.nodes[i] == g0.nodes[pos_to as int]);
                        assert(false);
                    }
                }
            }
            assert forall|u: usize, i: int|
                0 <= i < g2.nodes.len() && #[trigger] g2.has_edge(u, g2.nodes[i]) implies (
            #[trigger] g2.preds[i]).contains(u) by {
                assert(g0.has_edge(u, g0.nodes[i]) && !(u == from_id && g0.nodes[i] == to_id));
                assert(g0.preds[i].contains(u));
                if i == pos_to {
                    assert(u != from_id);
                    assert(prow0.remove(pidx as int).contains(u));
                }
            }
            assert(self.wf());
            // The contract speaks through `succs_of` / `preds_of`.
            assert(g2.succs_of(from_id) == seq_without(g0.succs_of(from_id), to_id));
            assert(g2.preds_of(to_id) == seq_without(g0.preds_of(to_id), from_id));
            assert forall|w: usize| g0.has_node(w) && w != from_id implies g2.succs_of(w)
                == g0.succs_of(w) by {
                let iw = choose|k: int| 0 <= k < g0.nodes.len() && g0.nodes[k] == w;
                lemma_index_of_unique(g0.nodes, w, iw);
                assert(iw != pos_from);
            }
            assert forall|w: usize| g0.has_node(w) && w != to_id implies g2.preds_of(w)
                == g0.preds_of(w) by {
                let iw = choose|k: int| 0 <= k < g0.nodes.len() && g0.nodes[k] == w;
                lemma_index_of_unique(g0.nodes, w, iw);
                assert(iw != pos_to);
            }
        }
        true
    }

    /// Removes `node_id` together with every edge at it and rebuilds the
    /// caches.  Returns whether the node existed; removing an absent
    /// node changes nothing.
    pub fn remove_node(&mut self, node_id: usize) -> (r: bool)
        requires
            old(self).wf(),
        ensures
            final (self).wf(),
            r == old(self)@.has_node(node_id),
            !r ==> final (self)@ == old(self)@,
            r ==> final (self)@.nodes == seq_without(old(self)@.nodes, node_id),
            forall|u: usize|
                #[trigger] final (self)@.has_node(u) <==> (old(self)@.has_node(u) && u
                    != node_id),
            forall|u: usize, v: usize|
                #[trigger] final (self)@.has_edge(u, v) <==> (old(self)@.has_edge(u, v) && u
                    != node_id && v != node_id),
            r ==> final (self)@.topo == seq_without(old(self)@.topo, node_id),
            r ==> forall|w: usize|
                old(self)@.has_node(w) && w != node_id ==> final (self)@.succs_of(w)
                    == seq_without(old(self)@.succs_of(w), node_id),
            r ==> forall|w: usize|
                old(self)@.has_node(w) && w != node_id ==> final (self)@.preds_of(w)
                    == seq_without(old(self)@.preds_of(w), node_id),
    {
        let ghost g0 = self@;
        let pos = match self.position_of(node_id) {
            Some(i) => i,
            None => {
                proof {
                    assert forall|u: usize, v: usize| #[trigger] g0.has_edge(u, v) implies (
                    g0.has_edge(u, v) && u != node_id && v != node_id) by {
                        g0.lemma_edge_endpoints(u, v);
                    }
                }
                return false;
            },
        };
        proof {
            lemma_index_of_unique(g0.nodes, node_id, pos as int);
        }
        self.nodes.remove(pos);
        self.succs.remove(pos);
        self.preds.remove(pos);
        let ghost gs = self@;
        proof {
            assert(gs.nodes == g0.nodes.remove(pos as int));
            assert(gs.succs =~~= g0.succs.remove(pos as int));
            assert(gs.preds =~~= g0.preds.remove(pos as int));
            lemma_remove_keeps_distinct(g0.nodes, pos as int);
            g0.nodes.remove_ensures(pos as int);
            g0.succs.remove_ensures(pos as int);
            g0.preds.remove_ensures(pos as int);
            assert forall|j: int| 0 <= j < gs.nodes.len() implies (
            #[trigger] gs.succs[j]).no_duplicates() && gs.preds[j].no_duplicates()
                && gs.succs[j] == g0.succs[if j < pos {
                j
            } else {
                j + 1
            }] && gs.preds[j] == g0.preds[if j < pos {
                j
            } else {
                j + 1
            }] && gs.nodes[j] == g0.nodes[if j < pos {
                j
            } else {
                j + 1
            }] by {}
        }
        // Scrub the removed identifier out of every remaining successor
        // and predecessor list.
        let n = self.nodes.len();
        let mut i: usize = 0;
        while i < n
            invariant
                n == gs.nodes.len(),
                self@.nodes == gs.nodes,
                self@.topo == gs.topo,
                self.no_preds@ == Seq::<usize>::empty(),
                self@.succs.len() == n,
                self@.preds.len() == n,
                gs.succs.len() == n,
                gs.preds.len() == n,
                i <= n,
                forall|j: int| i <= j < n ==> #[trigger] self@.succs[j] == gs.succs[j],
                forall|j: int| i <= j < n ==> #[trigger] self@.preds[j] == gs.preds[j],
                forall|j: int|
                    0 <= j < i ==> #[trigger] self@.succs[j] == seq_without(
                        gs.succs[j],
                        node_id,
                    ),
                forall|j: int|
                    0 <= j < i ==> #[trigger] self@.preds[j] == seq_without(gs.preds[j], node_id),
                forall|j: int|
                    0 <= j < n ==> (#[trigger] gs.succs[j]).no_duplicates()
                        && gs.preds[j].no_duplicates(),
            decreases n - i,
        {
            let ghost before = self@;
            proof {
                assert(self@.succs[i as int] == gs.succs[i as int]);
                assert(self@.preds[i as int] == gs.preds[i as int]);
                assert(self.succs@[i as int]@ =~= gs.succs[i as int]);
                assert(self.preds@[i as int]@ =~= gs.preds[i as int]);
            }
            match find_in(&self.succs[i], node_id) {
                Some(k) => {
                    let row = &mut self.succs[i];
                    row.remove(k);
                    proof {
                        assert(self@.succs =~~= before.succs.update(
                            i as int,
                            gs.succs[i as int].remove(k as int),
                        ));
                        lemma_index_of_unique(gs.succs[i as int], node_id, k as int);
                        assert(self@.succs[i as int] == seq_without(gs.succs[i as int], node_id));
                    }
                },
                None => {
                    proof {
                        assert(self@.succs[i as int] == seq_without(gs.succs[i as int], node_id));
                    }
                },
            }
            let ghost mid = self@;
            match find_in(&self.preds[i], node_id) {
                Some(k) => {
                    let row = &mut self.preds[i];
                    row.remove(k);
                    proof {
                        assert(self@.preds =~~= mid.preds.update(
                            i as int,
                            gs.preds[i as int].remove(k as int),
                        ));
                        lemma_index_of_unique(gs.preds[i as int], node_id, k as int);
                        assert(self@.preds[i as int] == seq_without(gs.preds[i as int], node_id));
                    }
                },
                None => {
                    proof {
                        assert(self@.preds[i as int] == seq_without(gs.preds[i as int], node_id));
                    }
                },
            }
            i += 1;
        }
        let ghost g1 = self@;
        proof {
            // The edge set lost exactly the edges at the removed node.
            assert forall|j: int| 0 <= j < g1.nodes.len() implies #[trigger] g1.succs[j]
                == seq_without(gs.succs[j], node_id) by {}
            assert forall|j: int| 0 <= j < g1.nodes.len() implies #[trigger] g1.preds[j]
                == seq_without(gs.preds[j], node_id) by {}
            assert forall|u: usize, v: usize| #[trigger] g1.has_edge(u, v) implies (g0.has_edge(
                u,
                v,
            ) && u != node_id && v != node_id) by {
                let j = choose|j: int|
                    0 <= j < g1.nodes.len() && g1.nodes[j] == u && (
                    #[trigger] g1.succs[j]).contains(v);
                let oj: int = if j < pos {
                    j
                } else {
                    j + 1
                };
                lemma_seq_without(gs.succs[j], node_id);
                assert(gs.succs[j].contains(v) && v != node_id);
                assert(g0.nodes[oj] == u && g0.succs[oj].contains(v));
                assert(u != node_id) by {
                    if u == node_id {
                        assert(g0.nodes[oj] == g0.nodes[pos as int]);
                    }
                }
            }
            assert forall|u: usize, v: usize|
                g0.has_edge(u, v) && u != node_id && v != node_id implies #[trigger] g1.has_edge(
                u,
                v,
            ) by {
                let oj = choose|oj: int|
                    0 <= oj < g0.nodes.len() && g0.nodes[oj] == u && (
                    #[trigger] g0.succs[oj]).contains(v);
                assert(oj != pos);
                let j: int = if oj < pos {
                    oj
                } else {
                    oj - 1
                };
                assert(g1.nodes[j] == u && gs.succs[j] == g0.succs[oj]);
                lemma_seq_without(gs.succs[j], node_id);
                assert(g1.succs[j].contains(v));
            }
        }
        // Rebuild the topological order without the removed node.
        let ghost t0 = g0.topo;
        let ghost pt = t0.index_of(node_id);
        proof {
            assert(t0.contains(node_id));
            assert(0 <= pt < t0.len() && t0[pt] == node_id);
        }
        let n_t = self.topo.len();
        let mut nt: Vec<usize> = Vec::new();
        let mut k: usize = 0;
        while k < n_t
            invariant
                g0.wf(),
                t0 == g0.topo,
                self@ == g1,
                self.topo@ == t0,
                n_t == t0.len(),
                k <= n_t,
                0 <= pt < t0.len() && t0[pt] == node_id,
                nt@.len() == (if k <= pt {
                    k as int
                } else {
                    k - 1
                }),
                forall|a: int|
                    0 <= a < nt@.len() ==> #[trigger] nt@[a] == t0[if a < pt {
                        a
                    } else {
                        a + 1
                    }],
                forall|u: usize, v: usize|
                    #[trigger] g1.has_edge(u, v) <==> (g0.has_edge(u, v) && u != node_id && v
                        != node_id),
                forall|x: usize| #[trigger] nt@.contains(x) ==> x != node_id && exists|m: int|
                    0 <= m < k && t0[m] == x,
                forall|m: int| 0 <= m < k && #[trigger] t0[m] != node_id ==> nt@.contains(t0[m]),
                nt@.no_duplicates(),
                forall|a: int, b: int|
                    0 <= a < nt@.len() && 0 <= b < nt@.len() && #[trigger] g1.has_edge(
                        nt@[a],
                        nt@[b],
                    ) ==> a < b,
            decreases n_t - k,
        {
            let x = self.topo[k];
            if x != node_id {
                let ghost nt0 = nt@;
                nt.push(x);
                proof {
                    assert(k != pt);
                    assert forall|y: usize| #[trigger] nt@.contains(y) implies y != node_id
                        && exists|m: int| 0 <= m < k + 1 && t0[m] == y by {
                        lemma_push_contains(nt0, x, y);
                        if nt0.contains(y) {
                        } else {
                            assert(t0[k as int] == y);
                        }
                    }
                    assert forall|m: int|
                        0 <= m < k + 1 && #[trigger] t0[m] != node_id implies nt@.contains(
                        t0[m],
                    ) by {
                        lemma_push_contains(nt0, x, t0[m]);
                        if m < k {
                            assert(nt0.contains(t0[m]));
                        } else {
                            assert(t0[m] == x);
                        }
                    }
                    assert forall|a: int, b: int|
                        0 <= a < nt@.len() && 0 <= b < nt@.len() && #[trigger] g1.has_edge(
                            nt@[a],
                            nt@[b],
                        ) implies a < b by {
                        if b == nt@.len() - 1 && a < nt@.len() - 1 {
                        } else if a == nt@.len() - 1 {
                            let y = nt@[b];
                            assert(g0.has_edge(x, y));
                            if b < nt@.len() - 1 {
                                assert(nt0.contains(y));
                                let m = choose|m: int| 0 <= m < k && t0[m] == y;
                                assert(g0.has_edge(t0[k as int], t0[m]));
                                assert(false);
                            } else {
                                g0.lemma_no_self_edge(x);
                                assert(false);
                            }
                        } else {
                            assert(nt0[a] == nt@[a] && nt0[b] == nt@[b]);
                        }
                    }
                    assert(nt@.no_duplicates()) by {
                        if nt0.contains(x) {
                            let m = choose|m: int| 0 <= m < k && t0[m] == x;
                            assert(t0[m] == t0[k as int]);
                            assert(false);
                        }
                        assert forall|a: int, b: int|
                            0 <= a < nt@.len() && 0 <= b < nt@.len() && a != b implies nt@[a]
                            != nt@[b] by {
                            if a < nt0.len() && b < nt0.len() {
                                assert(nt0[a] != nt0[b]);
                            } else if a == nt0.len() && b < nt0.len() {
                                if nt@[b] == x {
                                    assert(nt0.contains(x));
                                }
                            } else if b == nt0.len() && a < nt0.len() {
                                if nt@[a] == x {
                                    assert(nt0.contains(x));
                                }
                            }
                        }
                    }
                }
            } else {
                proof {
                    assert(t0[k as int] == t0[pt]);
                    assert(k == pt);
                }
            }
            k += 1;
        }
        self.topo = nt;
        let rev = reverse_of(&self.topo);
        self.rev_topo = rev;
        proof {
            let g2 = self@;
            assert(g2.nodes == g1.nodes && g2.succs == g1.succs && g2.preds == g1.preds);
            assert forall|u: usize, v: usize| #[trigger] g2.has_edge(u, v) <==> g1.has_edge(
                u,
                v,
            ) by {
                if g2.has_edge(u, v) {
                    let i2 = choose|i2: int|
                        0 <= i2 < g2.nodes.len() && g2.nodes[i2] == u && (
                        #[trigger] g2.succs[i2]).contains(v);
                    assert(g1.nodes[i2] == u && g1.succs[i2].contains(v));
                }
                if g1.has_edge(u, v) {
                    let i2 = choose|i2: int|
                        0 <= i2 < g1.nodes.len() && g1.nodes[i2] == u && (
                        #[trigger] g1.succs[i2]).contains(v);
                    assert(g2.nodes[i2] == u && g2.succs[i2].contains(v));
                }
            }
            // Coverage of the rebuilt order.
            lemma_seq_without(g0.nodes, node_id);
            assert forall|x: usize| #[trigger] g2.topo.contains(x) implies g2.has_node(x) by {
                let m = choose|m: int| 0 <= m < t0.len() && t0[m] == x;
                assert(t0.contains(x));
                assert(g0.has_node(x));
            }
            assert forall|x: usize| #[trigger] g2.has_node(x) implies g2.topo.contains(x) by {
                assert(g0.has_node(x) && x != node_id);
                assert(t0.contains(x));
                let m = choose|m: int| 0 <= m < t0.len() && t0[m] == x;
            }
            assert forall|i2: int, j: int|
                0 <= i2 < g2.topo.len() && 0 <= j < g2.topo.len() && #[trigger] g2.has_edge(
                    g2.topo[i2],
                    g2.topo[j],
                ) implies i2 < j by {
                assert(g1.has_edge(g2.topo[i2], g2.topo[j]));
            }
            // Row properties of the final state.
            assert forall|j: int|
                0 <= j < g2.nodes.len() implies (#[trigger] g2.succs[j]).no_duplicates() && (
            #[trigger] g2.preds[j]).no_duplicates() by {
                lemma_seq_without(gs.succs[j], node_id);
                lemma_seq_without(gs.preds[j], node_id);
            }
            assert forall|j: int, m: int|
                0 <= j < g2.nodes.len() && 0 <= m < g2.succs[j].len() implies g2.nodes.contains(
                #[trigger] g2.succs[j][m],
            ) by {
                let y = g2.succs[j][m];
                lemma_seq_without(gs.succs[j], node_id);
                assert(g2.succs[j].contains(y));
                assert(gs.succs[j].contains(y) && y != node_id);
                let oj: int = if j < pos {
                    j
                } else {
                    j + 1
                };
                assert(g0.succs[oj].contains(y));
                assert(g0.nodes.contains(y));
                assert(gs.nodes.contains(y));
            }
            assert forall|j: int, m: int|
                0 <= j < g2.nodes.len() && 0 <= m < g2.preds[j].len() implies g2.has_edge(
                #[trigger] g2.preds[j][m],
                g2.nodes[j],
            ) by {
                let u = g2.preds[j][m];
                lemma_seq_without(gs.preds[j], node_id);
                assert(g2.preds[j].contains(u));
                assert(gs.preds[j].contains(u) && u != node_id);
                let oj: int = if j < pos {
                    j
                } else {
                    j + 1
                };
                assert(g0.has_edge(u, g0.nodes[oj])) by {
                    let mm = choose|mm: int|
                        0 <= mm < g0.preds[oj].len() && g0.preds[oj][mm] == u;
                    assert(g0.has_edge(g0.preds[oj][mm], g0.nodes[oj]));
                }
                assert(g2.nodes[j] == g0.nodes[oj]);
                assert(g2.nodes[j] != node_id) by {
                    if g0.nodes[oj] == node_id {
                        assert(g0.nodes[oj] == g0.nodes[pos as int]);
                    }
                }
                assert(g1.has_edge(u, g2.nodes[j]));
            }
            assert forall|u: usize, j: int|
                0 <= j < g2.nodes.len() && #[trigger] g2.has_edge(u, g2.nodes[j]) implies (
            #[trigger] g2.preds[j]).contains(u) by {
                assert(g1.has_edge(u, g2.nodes[j]));
                assert(g0.has_edge(u, g2.nodes[j]) && u != node_id);
                let oj: int = if j < pos {
                    j
                } else {
                    j + 1
                };
                assert(g0.nodes[oj] == g2.nodes[j]);
                assert(g0.has_edge(u, g0.nodes[oj]));
                assert(g0.preds[oj].contains(u));
                assert(gs.preds[j].contains(u));
                lemma_seq_without(gs.preds[j], node_id);
            }
            assert(g2.wf());
            assert(self.wf());
            // Per-node list shapes for the contract.
            assert(g2.nodes == seq_without(g0.nodes, node_id));
            assert(g2.topo == seq_without(t0, node_id)) by {
                assert(t0.contains(node_id));
                t0.remove_ensures(pt);
                assert(g2.topo =~= t0.remove(pt));
            }
            assert forall|w: usize| g0.has_node(w) && w != node_id implies g2.succs_of(w)
                == seq_without(g0.succs_of(w), node_id) && g2.preds_of(w) == seq_without(
                g0.preds_of(w),
                node_id,
            ) by {
                let ow = choose|ow: int| 0 <= ow < g0.nodes.len() && g0.nodes[ow] == w;
                lemma_index_of_unique(g0.nodes, w, ow);
                assert(ow != pos);
                let jw: int = if ow < pos {
                    ow
                } else {
                    ow - 1
                };
                assert(g2.nodes[jw] == w);
                lemma_index_of_unique(g2.nodes, w, jw);
                assert(gs.succs[jw] == g0.succs[ow] && gs.preds[jw] == g0.preds[ow]);
            }
        }
        true
    }

    /// Number of nodes in the graph.
    pub fn node_count(&self) -> (r: usize)
        ensures
            r == self@.nodes.len(),
    {
        self.nodes.len()
    }

    /// Position of `node_id` in the node list, if present.
    fn position_of(&self, node_id: usize) -> (r: Option<usize>)
        ensures
            match r {
                Some(i) => i < self@.nodes.len() && self@.nodes[i as int] == node_id,
                None => !self@.has_node(node_id),
            },
    {
        find_in(&self.nodes, node_id)
    }

    /// Whether `node_id` is a node of this graph.
    pub fn contains_node(&self, node_id: usize) -> (r: bool)
        ensures
            r == self@.has_node(node_id),
    {
        self.position_of(node_id).is_some()
    }

    /// All node identifiers, in insertion order.
    pub fn node_ids(&self) -> (r: &Vec<usize>)
        ensures
            r@ == self@.nodes,
    {
        &self.nodes
    }

    /// The cached topological order: for every edge `u -> v`, `u`
    /// precedes `v`.  Allocation-free reader.
    pub fn get_topological_order(&self) -> (r: &Vec<usize>)
        ensures
            r@ == self@.topo,
    {
        &self.topo
    }

    /// The cached reverse of the topological order.  Allocation-free
    /// reader.
    pub fn get_reverse_topological_order(&self) -> (r: &Vec<usize>)
        requires
            self.wf(),
        ensures
            r@ == self@.topo.reverse(),
    {
        &self.rev_topo
    }

    /// A borrowed interface that exposes only the allocation-free
    /// readers, for use from the real-time thread.
    pub fn get_real_time_safe_interface(&self) -> (r: RealTimeSafeDirectedGraph<'_>)
        requires
            self.wf(),
        ensures
            r.wf(),
            r@ == self@,
    {
        RealTimeSafeDirectedGraph::new(self)
    }

    /// The cached predecessor list of `node_id`: the nodes with an edge
    /// into `node_id`.  Empty for an identifier that is not in the
    /// graph.  Allocation-free reader.
    pub fn get_input_node_ids(&self, node_id: usize) -> (r: &Vec<usize>)
        requires
            self.wf(),
        ensures
            r@ == if self@.has_node(node_id) {
                self@.preds_of(node_id)
            } else {
                Seq::<usize>::empty()
            },
    {
        match self.position_of(node_id) {
            Some(i) => {
                proof {
                    lemma_index_of_unique(self@.nodes, node_id, i as int);
                }
                &self.preds[i]
            },
            None => &self.no_preds,
        }
    }
}

/// Whether `x` occurs in `v`.
fn contains_in(v: &Vec<usize>, x: usize) -> (r: bool)
    ensures
        r == v@.contains(x),
{
    find_in(v, x).is_some()
}

/// Position of the first occurrence of `x` in `v`.
fn find_in(v: &Vec<usize>, x: usize) -> (r: Option<usize>)
    ensures
        match r {
            Some(i) => i < v@.len() && v@[i as int] == x,
            None => !v@.contains(x),
        },
{
    let n = v.len();
    let mut i: usize = 0;
    while i < n
        invariant
            n == v@.len(),
            i <= n,
            forall|k: int| 0 <= k < i ==> v@[k] != x,
        decreases n - i,
    {
        if v[i] == x {
            return Some(i);
        }
        i += 1;
    }
    None
}

/// A fresh vector holding `v` in reverse order.
fn reverse_of(v: &Vec<usize>) -> (r: Vec<usize>)
    ensures
        r@ == v@.reverse(),
{
    let n = v.len();
    let mut r: Vec<usize> = Vec::new();
    let mut i: usize = 0;
    while i < n
        invariant
            n == v@.len(),
            i <= n,
            r@.len() == i,
            forall|j: int| 0 <= j < i ==> r@[j] == v@[n - 1 - j],
        decreases n - i,
    {
        r.push(v[n - 1 - i]);
        i += 1;
    }
    proof {
        assert(r@ =~= v@.reverse());
    }
    r
}

/// Membership in a sequence extended by one element.
proof fn lemma_push_contains(s: Seq<usize>, e: usize, x: usize)
    ensures
        s.push(e).contains(x) <==> (s.contains(x) || x == e),
{
    if s.push(e).contains(x) {
        let i = choose|i: int| 0 <= i < s.push(e).len() && s.push(e)[i] == x;
        if i < s.len() {
            assert(s[i] == x);
        }
    }
    if s.contains(x) {
        let i = choose|i: int| 0 <= i < s.len() && s[i] == x;
        assert(s.push(e)[i] == x);
    }
    if x == e {
        assert(s.push(e)[s.len() as int] == x);
    }
}

/// A duplicate-free sequence whose elements all occur in a second
/// duplicate-free sequence is no longer than it.
proof fn lemma_distinct_sub_len(a: Seq<usize>, b: Seq<usize>)
    requires
        a.no_duplicates(),
        b.no_duplicates(),
        forall|x: usize| a.contains(x) ==> b.contains(x),
    ensures
        a.len() <= b.len(),
{
    a.unique_seq_to_set();
    b.unique_seq_to_set();
    assert(a.to_set().subset_of(b.to_set()));
    lemma_len_subset(a.to_set(), b.to_set());
}

/// `s` with its occurrence of `x` taken out, or `s` itself when `x`
/// does not occur (meaningful for duplicate-free sequences).
pub open spec fn seq_without(s: Seq<usize>, x: usize) -> Seq<usize> {
    if s.contains(x) {
        s.remove(s.index_of(x))
    } else {
        s
    }
}

/// Removing one position from a duplicate-free sequence keeps it
/// duplicate free and drops exactly that element.
proof fn lemma_remove_keeps_distinct(s: Seq<usize>, i: int)
    requires
        s.no_duplicates(),
        0 <= i < s.len(),
    ensures
        s.remove(i).no_duplicates(),
        forall|x: usize| #[trigger] s.remove(i).contains(x) <==> (s.contains(x) && x != s[i]),
{
    s.remove_ensures(i);
    let r = s.remove(i);
    assert forall|a: int, b: int|
        0 <= a < r.len() && 0 <= b < r.len() && a != b implies r[a] != r[b] by {
        let oa: int = if a < i {
            a
        } else {
            a + 1
        };
        let ob: int = if b < i {
            b
        } else {
            b + 1
        };
        assert(r[a] == s[oa] && r[b] == s[ob]);
    }
    assert forall|x: usize| #[trigger] r.contains(x) implies (s.contains(x) && x != s[i]) by {
        let a = choose|a: int| 0 <= a < r.len() && r[a] == x;
        let oa: int = if a < i {
            a
        } else {
            a + 1
        };
        assert(s[oa] == x);
    }
    assert forall|x: usize| s.contains(x) && x != s[i] implies #[trigger] r.contains(x) by {
        let oa = choose|a: int| 0 <= a < s.len() && s[a] == x;
        if oa < i {
            assert(r[oa] == x);
        } else {
            assert(r[oa - 1] == x);
        }
    }
}

/// The same, phrased through `seq_without`.
proof fn lemma_seq_without(s: Seq<usize>, x: usize)
    requires
        s.no_duplicates(),
    ensures
        seq_without(s, x).no_duplicates(),
        forall|y: usize| #[trigger] seq_without(s, x).contains(y) <==> (s.contains(y) && y != x),
{
    if s.contains(x) {
        let i = s.index_of(x);
        assert(0 <= i < s.len() && s[i] == x);
        lemma_remove_keeps_distinct(s, i);
    } else {
        assert forall|y: usize| #[trigger] seq_without(s, x).contains(y) implies (s.contains(y)
            && y != x) by {
            if y == x {
                assert(s.contains(x));
            }
        }
    }
}

/// `a` occurs somewhere before `b` in the sequence `t`.
pub open spec fn comes_before(t: Seq<usize>, a: usize, b: usize) -> bool {
    exists|i: int, j: int| 0 <= i < j < t.len() && t[i] == a && t[j] == b
}

/// In a duplicate-free sequence, `comes_before` is transitive.
proof fn lemma_comes_before_trans(t: Seq<usize>, a: usize, b: usize, c: usize)
    requires
        t.no_duplicates(),
        comes_before(t, a, b),
        comes_before(t, b, c),
    ensures
        comes_before(t, a, c),
{
    let (i1, j1) = choose|i: int, j: int| 0 <= i < j < t.len() && t[i] == a && t[j] == b;
    let (i2, j2) = choose|i: int, j: int| 0 <= i < j < t.len() && t[i] == b && t[j] == c;
    assert(j1 == i2);
    assert(0 <= i1 < j2 < t.len() && t[i1] == a && t[j2] == c);
}

/// In a duplicate-free sequence, nothing comes before itself.
proof fn lemma_comes_before_irrefl(t: Seq<usize>, a: usize)
    requires
        t.no_duplicates(),
    ensures
        !comes_before(t, a, a),
{
    if comes_before(t, a, a) {
        let (i, j) = choose|i: int, j: int| 0 <= i < j < t.len() && t[i] == a && t[j] == a;
        assert(t[i] == t[j]);
    }
}

impl GraphView {
    /// Every node reaches itself by the trivial path.
    pub proof fn lemma_reaches_refl(self, a: usize)
        ensures
            self.reaches(a, a),
    {
        let p = seq![a];
        assert(self.is_path(p) && p.first() == a && p.last() == a);
    }

    /// Reachability extends along an edge.
    pub proof fn lemma_reaches_step(self, a: usize, b: usize, c: usize)
        requires
            self.reaches(a, b),
            self.has_edge(b, c),
        ensures
            self.reaches(a, c),
    {
        let p = choose|p: Seq<usize>| self.is_path(p) && p.first() == a && p.last() == b;
        let p2 = p.push(c);
        assert forall|i: int| 0 <= i < p2.len() - 1 implies #[trigger] self.has_edge(
            p2[i],
            p2[i + 1],
        ) by {
            if i < p.len() - 1 {
                assert(p2[i] == p[i] && p2[i + 1] == p[i + 1]);
            } else {
                assert(p2[i] == p.last() && p2[i + 1] == c);
            }
        }
        assert(self.is_path(p2) && p2.first() == a && p2.last() == c);
    }

    /// A path that starts inside a successor-closed element set ends
    /// inside it.
    proof fn lemma_path_stays(self, s: Seq<usize>, p: Seq<usize>)
        requires
            forall|x: usize, v: usize|
                s.contains(x) && #[trigger] self.has_edge(x, v) ==> s.contains(v),
            self.is_path(p),
            s.contains(p.first()),
        ensures
            s.contains(p.last()),
        decreases p.len(),
    {
        if p.len() > 1 {
            assert(self.has_edge(p[0], p[1]));
            let q = p.subrange(1, p.len() as int);
            assert forall|i: int| 0 <= i < q.len() - 1 implies #[trigger] self.has_edge(
                q[i],
                q[i + 1],
            ) by {
                assert(q[i] == p[i + 1] && q[i + 1] == p[i + 2]);
                assert(self.has_edge(p[i + 1], p[i + 2]));
            }
            assert(s.contains(q.first()));
            self.lemma_path_stays(s, q);
            assert(q.last() == p.last());
        }
    }

    /// Nothing outside a successor-closed element set is reachable from
    /// inside it.
    pub proof fn lemma_closed_set_unreachable(self, s: Seq<usize>, a: usize, b: usize)
        requires
            forall|x: usize, v: usize|
                s.contains(x) && #[trigger] self.has_edge(x, v) ==> s.contains(v),
            s.contains(a),
            !s.contains(b),
        ensures
            !self.reaches(a, b),
    {
        if self.reaches(a, b) {
            let p = choose|p: Seq<usize>| self.is_path(p) && p.first() == a && p.last() == b;
            self.lemma_path_stays(s, p);
        }
    }

    /// Under the invariant there are no self edges.
    proof fn lemma_no_self_edge(self, x: usize)
        requires
            self.wf(),
        ensures
            !self.has_edge(x, x),
    {
        if self.has_edge(x, x) {
            let i = choose|i: int|
                0 <= i < self.nodes.len() && self.nodes[i] == x && (
                #[trigger] self.succs[i]).contains(x);
            assert(self.has_node(x));
            assert(self.topo.contains(x));
            let k = choose|k: int| 0 <= k < self.topo.len() && self.topo[k] == x;
            assert(self.has_edge(self.topo[k], self.topo[k]));
        }
    }

    /// Both endpoints of an edge are nodes.
    proof fn lemma_edge_endpoints(self, u: usize, v: usize)
        requires
            self.wf(),
            self.has_edge(u, v),
        ensures
            self.has_node(u),
            self.has_node(v),
    {
        let i = choose|i: int|
            0 <= i < self.nodes.len() && self.nodes[i] == u && (#[trigger] self.succs[i]).contains(
                v,
            );
        let k = choose|k: int| 0 <= k < self.succs[i].len() && self.succs[i][k] == v;
        assert(self.nodes.contains(self.succs[i][k]));
    }

    /// A non-trivial path runs forward along the cached topological
    /// order.
    proof fn lemma_path_comes_before(self, p: Seq<usize>)
        requires
            self.wf(),
            self.is_path(p),
            p.first() != p.last(),
        ensures
            comes_before(self.topo, p.first(), p.last()),
        decreases p.len(),
    {
        let t = self.topo;
        assert(self.has_edge(p[0], p[1]));
        self.lemma_edge_endpoints(p[0], p[1]);
        assert(t.contains(p[0]) && t.contains(p[1]));
        let i0 = choose|i: int| 0 <= i < t.len() && t[i] == p[0];
        let i1 = choose|i: int| 0 <= i < t.len() && t[i] == p[1];
        assert(self.has_edge(t[i0], t[i1]));
        assert(i0 < i1);
        assert(comes_before(t, p[0], p[1]));
        if p[1] == p.last() {
        } else {
            let q = p.subrange(1, p.len() as int);
            assert forall|i: int| 0 <= i < q.len() - 1 implies #[trigger] self.has_edge(
                q[i],
                q[i + 1],
            ) by {
                assert(q[i] == p[i + 1] && q[i + 1] == p[i + 2]);
                assert(self.has_edge(p[i + 1], p[i + 2]));
            }
            assert(q.first() == p[1] && q.last() == p.last());
            self.lemma_path_comes_before(q);
            lemma_comes_before_trans(t, p[0], p[1], p.last());
        }
    }

    /// Under the invariant, nothing reaches back across an existing
    /// edge: `u -> v` rules out any path from `v` to `u`.
    pub proof fn lemma_edge_excludes_back_path(self, u: usize, v: usize)
        requires
            self.wf(),
            self.has_edge(u, v),
        ensures
            !self.reaches(v, u),
    {
        if self.reaches(v, u) {
            if u == v {
                self.lemma_no_self_edge(u);
            } else {
                let p = choose|p: Seq<usize>| self.is_path(p) && p.first() == v && p.last() == u;
                self.lemma_path_comes_before(p);
                self.lemma_edge_endpoints(u, v);
                let t = self.topo;
                assert(t.contains(u) && t.contains(v));
                let iu = choose|i: int| 0 <= i < t.len() && t[i] == u;
                let iv = choose|i: int| 0 <= i < t.len() && t[i] == v;
                assert(self.has_edge(t[iu], t[iv]));
                assert(comes_before(t, u, v));
                lemma_comes_before_trans(t, u, v, u);
                lemma_comes_before_irrefl(t, u);
            }
        }
    }

}

/// A wrapper around a borrowed graph that exposes only the methods
/// that neither allocate nor mutate, so that the real-time thread can
/// hold it between topology mutations.
pub struct RealTimeSafeDirectedGraph<'a> {
    graph: &'a DirectedGraph,
}

impl<'a> View for RealTimeSafeDirectedGraph<'a> {
    type V = GraphView;

    closed spec fn view(&self) -> GraphView {
        self.graph@
    }
}

impl<'a> RealTimeSafeDirectedGraph<'a> {
    /// The wrapped graph's invariant.
    pub closed spec fn wf(&self) -> bool {
        self.graph.wf()
    }

    /// Wraps a graph.
    pub fn new(graph: &'a DirectedGraph) -> (r: RealTimeSafeDirectedGraph<'a>)
        requires
            graph.wf(),
        ensures
            r.wf(),
            r@ == graph@,
    {
        RealTimeSafeDirectedGraph { graph }
    }

    /// The cached topological order.
    pub fn get_topological_order(&self) -> (r: &Vec<usize>)
        ensures
            r@ == self@.topo,
    {
        self.graph.get_topological_order()
    }

    /// The cached reverse of the topological order.
    pub fn get_reverse_topological_order(&self) -> (r: &Vec<usize>)
        requires
            self.wf(),
        ensures
            r@ == self@.topo.reverse(),
    {
        self.graph.get_reverse_topological_order()
    }

    /// Number of nodes in the graph.
    pub fn node_count(&self) -> (r: usize)
        ensures
            r == self@.nodes.len(),
    {
        self.graph.node_count()
    }

    /// Whether `node_id` is a node of the graph.
    pub fn contains_node(&self, node_id: usize) -> (r: bool)
        ensures
            r == self@.has_node(node_id),
    {
        self.graph.contains_node(node_id)
    }

    /// All node identifiers, in insertion order.
    pub fn node_ids(&self) -> (r: &Vec<usize>)
        ensures
            r@ == self@.nodes,
    {
        self.graph.node_ids()
    }

    /// The cached predecessor list of `node_id`.
    pub fn get_input_node_ids(&self, node_id: usize) -> (r: &Vec<usize>)
        requires
            self.wf(),
        ensures
            r@ == if self@.has_node(node_id) {
                self@.preds_of(node_id)
            } else {
                Seq::<usize>::empty()
            },
    {
        self.graph.get_input_node_ids(node_id)
    }
}

/// Law: the cached topological order of a well-formed graph — and every
/// operation of `DirectedGraph` keeps the graph well formed — is a
/// valid topological sort of the current adjacency: it lists every node
/// exactly once and puts `u` before `v` for every edge `u -> v`.
pub proof fn lemma_cached_topological_order_valid(g: &DirectedGraph)
    requires
        g.wf(),
    ensures
        g@.topo_valid(g@.topo),
{
}

/// Law: acyclicity.  In a well-formed graph no walk of two or more
/// nodes returns to its starting node.
pub proof fn lemma_acyclic(g: &DirectedGraph, p: Seq<usize>)
    requires
        g.wf(),
        g@.is_path(p),
        p.len() >= 2,
    ensures
        p.first() != p.last(),
{
    if p.first() == p.last() {
        assert(g@.has_edge(p[0], p[1]));
        if p.len() == 2 {
            g@.lemma_no_self_edge(p[0]);
        } else {
            let q = p.subrange(1, p.len() as int);
            assert forall|i: int| 0 <= i < q.len() - 1 implies g@.has_edge(
                #[trigger] q[i],
                q[i + 1],
            ) by {
                assert(q[i] == p[i + 1] && q[i + 1] == p[i + 2]);
                assert(g@.has_edge(p[i + 1], p[i + 2]));
            }
            assert(g@.is_path(q) && q.first() == p[1] && q.last() == p.first());
            assert(g@.reaches(p[1], p.first()));
            g@.lemma_edge_excludes_back_path(p.first(), p[1]);
        }
    }
}

/// Law: cache consistency.  After every topology mutation, each edge
/// `u -> v` of the adjacency is reflected in all three caches: `u`
/// precedes `v` in the cached topological order, `u` is in the cached
/// predecessor list of `v`, and `v` is in `u`'s successor list.
pub proof fn lemma_cache_consistency(g: &DirectedGraph, u: usize, v: usize)
    requires
        g.wf(),
        g@.has_edge(u, v),
    ensures
        comes_before(g@.topo, u, v),
        g@.preds_of(v).contains(u),
        g@.succs_of(u).contains(v),
{
    g@.lemma_edge_endpoints(u, v);
    let t = g@.topo;
    assert(t.contains(u) && t.contains(v));
    let iu = choose|i: int| 0 <= i < t.len() && t[i] == u;
    let iv = choose|i: int| 0 <= i < t.len() && t[i] == v;
    assert(g@.has_edge(t[iu], t[iv]));
    assert(comes_before(t, u, v));
    let i = choose|i: int| 0 <= i < g@.nodes.len() && g@.nodes[i] == v;
    lemma_index_of_unique(g@.nodes, v, i);
    assert(g@.has_edge(u, g@.nodes[i]));
    assert(g@.preds_of(v).contains(u));
    let j = choose|j: int|
        0 <= j < g@.nodes.len() && g@.nodes[j] == u && (#[trigger] g@.succs[j]).contains(v);
    lemma_index_of_unique(g@.nodes, u, j);
    assert(g@.succs_of(u).contains(v));
}

/// In a duplicate-free sequence, `index_of` returns the one position
/// that holds the element.
pub proof fn lemma_index_of_unique(s: Seq<usize>, x: usize, i: int)
    requires
        s.no_duplicates(),
        0 <= i < s.len(),
        s[i] == x,
    ensures
        s.index_of(x) == i,
{
    assert(exists|k: int| 0 <= k < s.len() && s[k] == x);
    let j = s.index_of(x);
    assert(0 <= j < s.len() && s[j] == x);
}

} // verus!
