//! The input graph, and what it means for one node to reach another.
//!
//! Nodes are the dense indices `0..n`. The reducer walks the graph against
//! the direction of its edges, so the graph is kept as one list per node of
//! the nodes that have an edge *into* it: the node's inputs, in the order
//! in which they are enumerated.

use vstd::prelude::*;

verus! {

/// The model of a graph: for each node the sequence of its inputs.
pub type Inputs = Seq<Seq<usize>>;

/// Every input of every node is a node, and the number of nodes and of
/// each node's inputs fit a `usize`.
pub open spec fn graph_wf(g: Inputs) -> bool {
    &&& g.len() <= usize::MAX
    &&& forall|n: int| 0 <= n < g.len() ==> (#[trigger] g[n]).len() <= usize::MAX
    &&& forall|n: int, k: int|
        0 <= n < g.len() && 0 <= k < g[n].len() ==> (#[trigger] g[n][k]) < g.len()
}

/// `v` is an input of `u`: the walk can step from `u` to `v`.
pub open spec fn has_input(g: Inputs, u: int, v: int) -> bool {
    &&& 0 <= u < g.len()
    &&& exists|k: int| 0 <= k < g[u].len() && #[trigger] g[u][k] == v
}

/// `p` is a walk through the graph: a non-empty sequence of nodes, each
/// an input of the one before.
pub open spec fn is_path(g: Inputs, p: Seq<int>) -> bool {
    &&& p.len() > 0
    &&& 0 <= p[0] < g.len()
    &&& forall|i: int| 0 <= i < p.len() - 1 ==> has_input(g, #[trigger] p[i], p[i + 1])
}

/// The walk can get from `u` to `v` in zero or more steps.
pub open spec fn reaches(g: Inputs, u: int, v: int) -> bool {
    exists|p: Seq<int>| is_path(g, p) && p.first() == u && #[trigger] p.last() == v
}

/// Each of `u` and `v` can be reached from the other.
pub open spec fn mutually_reachable(g: Inputs, u: int, v: int) -> bool {
    reaches(g, u, v) && reaches(g, v, u)
}

/// `r` lies on a cycle through at least one other node.
pub open spec fn on_cycle(g: Inputs, r: int) -> bool {
    exists|u: int| u != r && reaches(g, r, u) && #[trigger] has_input(g, u, r)
}

/// Every node reaches itself.
pub proof fn lemma_reaches_self(g: Inputs, u: int)
    requires
        0 <= u < g.len(),
    ensures
        reaches(g, u, u),
{
    let p = seq![u];
    assert(is_path(g, p));
    assert(p.first() == u && p.last() == u);
}

/// A node reaches each of its inputs.
pub proof fn lemma_reaches_input(g: Inputs, u: int, v: int)
    requires
        has_input(g, u, v),
    ensures
        reaches(g, u, v),
{
    let p = seq![u, v];
    assert(is_path(g, p));
    assert(p.first() == u && p.last() == v);
}

/// In a well-formed graph a walk never leaves the nodes.
pub proof fn lemma_path_in_range(g: Inputs, p: Seq<int>, i: int)
    requires
        graph_wf(g),
        is_path(g, p),
        0 <= i < p.len(),
    ensures
        0 <= p[i] < g.len(),
    decreases i,
{
    if i > 0 {
        lemma_path_in_range(g, p, i - 1);
        assert(has_input(g, p[i - 1], p[i - 1 + 1]));
    }
}

/// What is reached from a node of a well-formed graph is a node.
pub proof fn lemma_reaches_in_range(g: Inputs, u: int, v: int)
    requires
        graph_wf(g),
        reaches(g, u, v),
    ensures
        0 <= u < g.len(),
        0 <= v < g.len(),
{
    let p = choose|p: Seq<int>| is_path(g, p) && p.first() == u && #[trigger] p.last() == v;
    lemma_path_in_range(g, p, p.len() - 1);
}

/// Reaching is transitive.
pub proof fn lemma_reaches_trans(g: Inputs, u: int, v: int, w: int)
    requires
        reaches(g, u, v),
        reaches(g, v, w),
    ensures
        reaches(g, u, w),
{
    let p = choose|p: Seq<int>| is_path(g, p) && p.first() == u && #[trigger] p.last() == v;
    let q = choose|q: Seq<int>| is_path(g, q) && q.first() == v && #[trigger] q.last() == w;
    let r = p + q.subrange(1, q.len() as int);
    assert forall|i: int| 0 <= i < r.len() - 1 implies has_input(g, #[trigger] r[i], r[i + 1]) by {
        if i < p.len() - 1 {
            assert(has_input(g, p[i], p[i + 1]));
        } else {
            let j = i - (p.len() - 1);
            assert(has_input(g, q[j], q[j + 1]));
        }
    }
    assert(is_path(g, r));
    assert(r.first() == u && r.last() == w);
}

/// Mutual reachability is transitive.
pub proof fn lemma_mutually_reachable_trans(g: Inputs, u: int, v: int, w: int)
    requires
        mutually_reachable(g, u, v),
        mutually_reachable(g, v, w),
    ensures
        mutually_reachable(g, u, w),
{
    lemma_reaches_trans(g, u, v, w);
    lemma_reaches_trans(g, w, v, u);
}

/// A directed graph over the nodes `0..n`, kept as the inputs of each node.
pub struct Graph {
    inputs: Vec<Vec<usize>>,
}

impl View for Graph {
    type V = Inputs;

    closed spec fn view(&self) -> Inputs {
        Seq::new(self.inputs@.len(), |n: int| self.inputs@[n]@)
    }
}

impl Graph {
    /// Every recorded input is a node of the graph.
    pub open spec fn wf(&self) -> bool {
        graph_wf(self@)
    }

    /// The graph without nodes.
    pub fn new() -> (graph: Graph)
        ensures
            graph.wf(),
            graph@ == Seq::<Seq<usize>>::empty(),
    {
        let graph = Graph { inputs: Vec::new() };
        assert(graph@ =~= Seq::<Seq<usize>>::empty());
        graph
    }

    /// Adds a node without edges and returns its index.
    pub fn add_node(&mut self) -> (node: usize)
        requires
            old(self).wf(),
        ensures
            final(self).wf(),
            node == old(self)@.len(),
            final(self)@ == old(self)@.push(Seq::empty()),
    {
        let node = self.inputs.len();
        self.inputs.push(Vec::new());
        proof {
            vstd::std_specs::vec::axiom_spec_len(&self.inputs);
            assert(self@ =~= old(self)@.push(Seq::empty()));
        }
        node
    }

    /// Adds an edge from `source` to `target`: `source` becomes the last
    /// input of `target`.
    pub fn add_edge(&mut self, source: usize, target: usize)
        requires
            old(self).wf(),
            source < old(self)@.len(),
            target < old(self)@.len(),
        ensures
            final(self).wf(),
            final(self)@ == old(self)@.update(
                target as int,
                old(self)@[target as int].push(source),
            ),
    {
        self.inputs[target].push(source);
        proof {
            vstd::std_specs::vec::axiom_spec_len(&self.inputs[target as int]);
            assert(self@ =~= old(self)@.update(
                target as int,
                old(self)@[target as int].push(source),
            ));
        }
    }

    /// The number of nodes.
    pub fn len_nodes(&self) -> (n: usize)
        ensures
            n == self@.len(),
    {
        self.inputs.len()
    }

    /// The inputs of `node`: the sources of the edges into it, oldest
    /// edge first.
    pub fn predecessor_nodes(&self, node: usize) -> (inputs: &Vec<usize>)
        requires
            node < self@.len(),
        ensures
            inputs@ == self@[node as int],
    {
        &self.inputs[node]
    }
}

} // verus!
