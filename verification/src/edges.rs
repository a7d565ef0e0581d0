//! What the walk knows of every edge that it has seen: each is a loop, an
//! edge to a node from its parent, an edge within a class, or a recorded
//! cross edge; and what it recorded are edges of the graph.

use vstd::prelude::*;

use crate::graph::{graph_wf, has_input, Inputs};
use crate::walk::{start_nodes_in_range, Color, Walk};

verus! {

impl Walk {
    /// The walk has accounted for the edge from `x` to its input `y`.
    pub open spec fn edge_known(self, x: int, y: int) -> bool {
        ||| y == x
        ||| self.parents[y] == x
        ||| self.classes.same(x, y)
        ||| self.cross_edges.contains((x as usize, y as usize))
    }

    /// The walk has accounted for every edge that it has handled, and the
    /// parents and cross edges that it recorded are edges of the graph.
    pub open spec fn classified(self, g: Inputs) -> bool {
        &&& forall|v: int, k: int|
            0 <= v < g.len() && self.colors[v] is Black && 0 <= k < g[v].len() ==> self.edge_known(
                v,
                (#[trigger] g[v][k]) as int,
            )
        &&& forall|i: int, k: int|
            0 <= i < self.stack.len() && 0 <= k < self.cursor[i] ==> self.edge_known(
                self.stack[i] as int,
                (#[trigger] g[self.stack[i] as int][k]) as int,
            )
        &&& forall|y: int|
            0 <= y < g.len() && (#[trigger] self.parents[y]) != y ==> has_input(
                g,
                self.parents[y] as int,
                y,
            )
        &&& forall|e: int|
            0 <= e < self.cross_edges.len() ==> has_input(
                g,
                (#[trigger] self.cross_edges[e]).0 as int,
                self.cross_edges[e].1 as int,
            )
    }

    /// The walk begins with nothing handled and nothing recorded.
    pub proof fn lemma_init_classified(g: Inputs)
        requires
            graph_wf(g),
        ensures
            Walk::init(g.len()).classified(g),
    {
    }

    /// An edge that is accounted for stays so through a step.
    pub proof fn lemma_step_keeps_known(self, g: Inputs, roots: Seq<usize>, x: int, y: int)
        requires
            self.wf(g),
            self.forest(g, roots),
            self.stack.len() > 0,
            0 <= x < g.len(),
            0 <= y < g.len(),
            self.edge_known(x, y),
        ensures
            self.step(g).edge_known(x, y),
    {
        let node = self.top();
        let k = self.cursor.last();
        let t = self.step(g);
        let top = self.stack.len() - 1;
        assert(self.stack[top] == node);
        if k < g[node as int].len() {
            let child = g[node as int][k as int];
            if child != node {
                match self.colors[child as int] {
                    Color::White => {
                        if y == child && self.parents[y] == x {
                            assert(self.parents[child as int] == child);
                        }
                    },
                    Color::Grey(pos) => {
                        let keys = self.stack.subrange(pos as int, self.stack.len() as int);
                        assert forall|i: int| 0 <= i < keys.len() implies keys[i]
                            < self.classes.len() by {
                            assert(keys[i] == self.stack[pos + i]);
                        }
                        assert(keys.last() == node);
                        self.classes.lemma_union_all_same(keys, x, y);
                    },
                    Color::Black => {
                        if self.cross_edges.contains((x as usize, y as usize)) {
                            let e = choose|e: int|
                                0 <= e < self.cross_edges.len() && self.cross_edges[e] == (
                                    x as usize,
                                    y as usize,
                                );
                            assert(t.cross_edges[e] == (x as usize, y as usize));
                        }
                    },
                }
            }
        }
    }

    /// A step accounts for the edge that it handles.
    pub proof fn lemma_step_knows_edge(self, g: Inputs)
        requires
            self.wf(g),
            self.stack.len() > 0,
            self.cursor.last() < g[self.top() as int].len(),
        ensures
            self.step(g).edge_known(
                self.top() as int,
                g[self.top() as int][self.cursor.last() as int] as int,
            ),
    {
        let node = self.top();
        let k = self.cursor.last();
        let t = self.step(g);
        let top = self.stack.len() - 1;
        let child = g[node as int][k as int];
        assert(self.stack[top] == node);
        if child != node {
            match self.colors[child as int] {
                Color::White => {},
                Color::Grey(pos) => {
                    let keys = self.stack.subrange(pos as int, self.stack.len() as int);
                    assert forall|i: int| 0 <= i < keys.len() implies keys[i]
                        < self.classes.len() by {
                        assert(keys[i] == self.stack[pos + i]);
                    }
                    assert(keys.last() == node);
                    assert(keys[0] == child);
                    self.classes.lemma_union_all_same(keys, node as int, child as int);
                    assert(self.classes.same(node as int, keys[keys.len() - 1] as int));
                    assert(self.classes.same(child as int, keys[0] as int));
                },
                Color::Black => {
                    assert(t.cross_edges[self.cross_edges.len() as int] == (node, child));
                },
            }
        }
    }

    /// A step keeps every handled edge accounted for and every record an
    /// edge of the graph.
    pub proof fn lemma_step_classified(self, g: Inputs, roots: Seq<usize>)
        requires
            self.wf(g),
            self.forest(g, roots),
            self.classified(g),
            self.stack.len() > 0,
        ensures
            self.step(g).classified(g),
    {
        let node = self.top();
        let k = self.cursor.last();
        let t = self.step(g);
        let top = self.stack.len() - 1;
        assert(self.stack[top] == node);
        self.lemma_step_wf(g);
        assert forall|v: int, j: int|
            0 <= v < g.len() && t.colors[v] is Black && 0 <= j < g[v].len() implies t.edge_known(
            v,
            (#[trigger] g[v][j]) as int,
        ) by {
            if self.colors[v] is Black {
                self.lemma_step_keeps_known(g, roots, v, g[v][j] as int);
            } else {
                assert(v == node);
                assert(j < self.cursor[top]);
                self.lemma_step_keeps_known(g, roots, v, g[v][j] as int);
            }
        }
        assert forall|i: int, j: int|
            0 <= i < t.stack.len() && 0 <= j < t.cursor[i] implies t.edge_known(
            t.stack[i] as int,
            (#[trigger] g[t.stack[i] as int][j]) as int,
        ) by {
            if i < self.stack.len() {
                assert(t.stack[i] == self.stack[i]);
                if i == top && j == k && k < g[node as int].len() {
                    self.lemma_step_knows_edge(g);
                } else {
                    assert(j < self.cursor[i]);
                    self.lemma_step_keeps_known(
                        g,
                        roots,
                        self.stack[i] as int,
                        g[self.stack[i] as int][j] as int,
                    );
                }
            }
        }
        assert forall|y: int| 0 <= y < g.len() && (#[trigger] t.parents[y]) != y implies has_input(
            g,
            t.parents[y] as int,
            y,
        ) by {
            if t.parents[y] != self.parents[y] {
                assert(k < g[node as int].len() && y == g[node as int][k as int]);
            }
        }
        assert forall|e: int| 0 <= e < t.cross_edges.len() implies has_input(
            g,
            (#[trigger] t.cross_edges[e]).0 as int,
            t.cross_edges[e].1 as int,
        ) by {
            if e < self.cross_edges.len() {
                assert(t.cross_edges[e] == self.cross_edges[e]);
            } else {
                assert(k < g[node as int].len());
                assert(t.cross_edges[e] == (node, g[node as int][k as int]));
            }
        }
    }

    /// The walk until the stack is empty keeps every handled edge
    /// accounted for.
    pub proof fn lemma_drain_classified(self, g: Inputs, roots: Seq<usize>)
        requires
            self.wf(g),
            self.forest(g, roots),
            self.classified(g),
        ensures
            self.drain(g).classified(g),
        decreases self.remaining(), self.remaining_top(g),
    {
        if self.stack.len() > 0 {
            self.lemma_step_wf(g);
            self.lemma_step_forest(g, roots);
            self.lemma_step_classified(g, roots);
            self.step(g).lemma_drain_classified(g, roots);
        }
    }

    /// After the walk every edge from a visited node is accounted for.
    pub proof fn lemma_walked_classified(g: Inputs, starts: Seq<usize>)
        requires
            graph_wf(g),
            start_nodes_in_range(g, starts),
        ensures
            Walk::walked(g, starts).classified(g),
        decreases starts.len(),
    {
        if starts.len() == 0 {
            Walk::lemma_init_classified(g);
        } else {
            let before = starts.drop_last();
            let root = starts.last();
            let s = Walk::walked(g, before);
            assert forall|i: int| 0 <= i < before.len() implies (#[trigger] before[i]) < g.len() by {
                assert(before[i] == starts[i]);
            }
            Walk::lemma_walked_classified(g, before);
            Walk::lemma_walked_done(g, before);
            Walk::lemma_walked_forest(g, before);
            if s.colors[root as int] is White {
                assert(starts[starts.len() - 1] == root);
                assert forall|r: usize| before.contains(r) implies starts.contains(r) by {
                    let i = choose|i: int| 0 <= i < before.len() && before[i] == r;
                    assert(starts[i] == r);
                }
                s.lemma_forest_more_roots(g, before, starts);
                s.lemma_open_root_forest(g, starts, root);
                s.lemma_open_wf(g, root);
                let opened = s.open(root);
                assert(opened.classified(g)) by {
                    assert forall|v: int, j: int|
                        0 <= v < g.len() && opened.colors[v] is Black && 0 <= j
                            < g[v].len() implies opened.edge_known(v, (#[trigger] g[v][j]) as int) by {
                        assert(s.colors[v] is Black);
                        assert(s.edge_known(v, g[v][j] as int));
                    }
                }
                opened.lemma_drain_classified(g, starts);
            }
        }
    }
}

} // verus!
