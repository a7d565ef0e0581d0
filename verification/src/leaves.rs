//! What the walk records as leaves: the finished nodes without inputs,
//! each once.

use vstd::prelude::*;

use crate::graph::{graph_wf, Inputs};
use crate::walk::{start_nodes_in_range, Color, Walk};

verus! {

impl Walk {
    /// The recorded leaves are the finished nodes without inputs, and
    /// none is recorded twice.
    pub open spec fn leaves_known(self, g: Inputs) -> bool {
        &&& forall|v: usize| #[trigger]
            self.leaf_nodes.contains(v) <==> v < g.len() && self.colors[v as int] is Black && g[v as int].len()
                == 0
        &&& self.leaf_nodes.no_duplicates()
    }

    /// Before the walk no node is finished and no leaf recorded.
    pub proof fn lemma_init_leaves(g: Inputs)
        ensures
            Walk::init(g.len()).leaves_known(g),
    {
    }

    /// Opening a white node finishes no node and records no leaf.
    pub proof fn lemma_open_leaves(self, g: Inputs, node: usize)
        requires
            self.wf(g),
            self.leaves_known(g),
            node < g.len(),
            self.colors[node as int] is White,
        ensures
            self.open(node).leaves_known(g),
    {
        let t = self.open(node);
        assert forall|v: usize| #[trigger]
            t.leaf_nodes.contains(v) <==> v < g.len() && t.colors[v as int] is Black && g[v as int].len()
                == 0 by {
            assert(self.leaf_nodes.contains(v) <==> v < g.len() && self.colors[v as int] is Black
                && g[v as int].len() == 0);
        }
    }

    /// Closing the top node records it as a leaf exactly if it has no
    /// inputs.
    pub proof fn lemma_close_leaves(self, g: Inputs)
        requires
            self.wf(g),
            self.leaves_known(g),
            self.stack.len() > 0,
        ensures
            self.close(g).leaves_known(g),
    {
        let node = self.top();
        let t = self.close(g);
        let top = self.stack.len() - 1;
        assert(self.stack[top] == node);
        assert(self.colors[node as int] is Grey);
        assert(!self.leaf_nodes.contains(node));
        assert forall|v: usize| #[trigger]
            t.leaf_nodes.contains(v) <==> v < g.len() && t.colors[v as int] is Black && g[v as int].len()
                == 0 by {
            assert(self.leaf_nodes.contains(v) <==> v < g.len() && self.colors[v as int] is Black
                && g[v as int].len() == 0);
            if g[node as int].len() == 0 {
                if t.leaf_nodes.contains(v) {
                    let i = choose|i: int| 0 <= i < t.leaf_nodes.len() && t.leaf_nodes[i] == v;
                    if i < self.leaf_nodes.len() {
                        assert(self.leaf_nodes[i] == v);
                    }
                }
                if self.leaf_nodes.contains(v) {
                    let i = choose|i: int| 0 <= i < self.leaf_nodes.len() && self.leaf_nodes[i] == v;
                    assert(t.leaf_nodes[i] == v);
                }
                if v == node {
                    assert(t.leaf_nodes[self.leaf_nodes.len() as int] == v);
                }
            }
        }
        if g[node as int].len() == 0 {
            assert forall|i: int, j: int|
                0 <= i < t.leaf_nodes.len() && 0 <= j < t.leaf_nodes.len() && i != j implies t.leaf_nodes[i]
                != t.leaf_nodes[j] by {
                if i < self.leaf_nodes.len() && j < self.leaf_nodes.len() {
                } else if i < self.leaf_nodes.len() {
                    assert(self.leaf_nodes.contains(self.leaf_nodes[i]));
                } else {
                    assert(self.leaf_nodes.contains(self.leaf_nodes[j]));
                }
            }
        }
    }

    /// A step of the walk keeps the record of the leaves.
    pub proof fn lemma_step_leaves(self, g: Inputs)
        requires
            self.wf(g),
            self.leaves_known(g),
            self.stack.len() > 0,
        ensures
            self.step(g).leaves_known(g),
    {
        let node = self.top();
        let k = self.cursor.last();
        let t = self.step(g);
        let top = self.stack.len() - 1;
        assert(self.stack[top] == node);
        if k < g[node as int].len() {
            let child = g[node as int][k as int];
            let moved = self.advance();
            assert(moved.leaves_known(g));
            if child != node {
                match self.colors[child as int] {
                    Color::White => {
                        assert forall|v: usize| #[trigger]
                            t.leaf_nodes.contains(v) <==> v < g.len() && t.colors[v as int] is Black
                                && g[v as int].len() == 0 by {
                            assert(self.leaf_nodes.contains(v) <==> v < g.len()
                                && self.colors[v as int] is Black && g[v as int].len() == 0);
                        }
                    },
                    Color::Grey(_) => {},
                    Color::Black => {},
                }
            }
        } else {
            self.lemma_close_leaves(g);
        }
    }

    /// The walk until the stack is empty keeps the record of the leaves.
    pub proof fn lemma_drain_leaves(self, g: Inputs)
        requires
            self.wf(g),
            self.leaves_known(g),
        ensures
            self.drain(g).leaves_known(g),
        decreases self.remaining(), self.remaining_top(g),
    {
        if self.stack.len() > 0 {
            self.lemma_step_wf(g);
            self.lemma_step_leaves(g);
            self.step(g).lemma_drain_leaves(g);
        }
    }

    /// After the walk the recorded leaves are the finished nodes without
    /// inputs.
    pub proof fn lemma_walked_leaves(g: Inputs, starts: Seq<usize>)
        requires
            graph_wf(g),
            start_nodes_in_range(g, starts),
        ensures
            Walk::walked(g, starts).leaves_known(g),
        decreases starts.len(),
    {
        if starts.len() == 0 {
            Walk::lemma_init_leaves(g);
        } else {
            let before = starts.drop_last();
            let root = starts.last();
            let s = Walk::walked(g, before);
            assert forall|i: int| 0 <= i < before.len() implies (#[trigger] before[i]) < g.len() by {
                assert(before[i] == starts[i]);
            }
            Walk::lemma_walked_leaves(g, before);
            Walk::lemma_walked_done(g, before);
            if s.colors[root as int] is White {
                assert(starts[starts.len() - 1] == root);
                s.lemma_open_wf(g, root);
                s.lemma_open_leaves(g, root);
                s.open(root).lemma_drain_leaves(g);
            }
        }
    }
}

} // verus!
