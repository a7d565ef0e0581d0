//! When the classes are all of the cycles: the walk merges every cycle
//! that it visits into one class, unless a cross edge closes a cycle
//! between two classes.

use vstd::prelude::*;

use crate::graph::{
    graph_wf, has_input, is_path, lemma_path_in_range, lemma_reaches_input, lemma_reaches_trans,
    reaches, Inputs,
};
use crate::walk::Walk;

verus! {

/// Every node of a path reaches every later node of the path.
pub proof fn lemma_path_reaches(g: Inputs, p: Seq<int>, i: int, j: int)
    requires
        graph_wf(g),
        is_path(g, p),
        0 <= i <= j < p.len(),
    ensures
        reaches(g, p[i], p[j]),
{
    let q = p.subrange(i, j + 1);
    assert forall|k: int| 0 <= k < q.len() - 1 implies has_input(g, #[trigger] q[k], q[k + 1]) by {
        assert(has_input(g, p[i + k], p[i + k + 1]));
    }
    lemma_path_in_range(g, p, i);
    assert(is_path(g, q));
    assert(q.first() == p[i] && q.last() == p[j]);
}

impl Walk {
    /// The node that is reached from `z` by going to the parent `steps`
    /// times.
    pub open spec fn ancestor(self, z: int, steps: nat) -> int
        decreases steps,
    {
        if steps == 0 {
            z
        } else {
            self.ancestor(self.parents[z] as int, (steps - 1) as nat)
        }
    }

    /// `z` lies in the tree below `y`, or is `y`.
    pub open spec fn below(self, y: int, z: int) -> bool {
        self.depth[z] >= self.depth[y] && self.ancestor(z, (self.depth[z] - self.depth[y]) as nat)
            == y
    }

    /// Every cross edge that closes a cycle joins two nodes of one class.
    pub open spec fn cross_edges_merged(self, g: Inputs) -> bool {
        forall|e: int|
            0 <= e < self.cross_edges.len() && reaches(
                g,
                (#[trigger] self.cross_edges[e]).1 as int,
                self.cross_edges[e].0 as int,
            ) ==> self.classes.same(self.cross_edges[e].0 as int, self.cross_edges[e].1 as int)
    }

    /// Going up by `s1` and then by `s2` steps is going up by their sum.
    pub proof fn lemma_ancestor_add(self, z: int, s1: nat, s2: nat)
        ensures
            self.ancestor(self.ancestor(z, s1), s2) == self.ancestor(z, s1 + s2),
        decreases s1,
    {
        if s1 > 0 {
            self.lemma_ancestor_add(self.parents[z] as int, (s1 - 1) as nat, s2);
        }
    }

    /// Going up from a visited node by no more steps than its depth leads
    /// to a visited node that many levels higher.
    pub proof fn lemma_ancestor(self, g: Inputs, starts: Seq<usize>, z: int, steps: nat)
        requires
            self.finished(g, starts),
            0 <= z < g.len(),
            self.visited(z),
            steps <= self.depth[z],
        ensures
            0 <= self.ancestor(z, steps) < g.len(),
            self.visited(self.ancestor(z, steps)),
            self.depth[self.ancestor(z, steps)] == self.depth[z] - steps,
        decreases steps,
    {
        if steps > 0 {
            let p = self.parents[z] as int;
            assert(p != z);
            assert(self.visited(p) && self.depth[z] == self.depth[p] + 1);
            self.lemma_ancestor(g, starts, p, (steps - 1) as nat);
        }
    }

    /// Two topmost nodes of one class are one node.
    pub proof fn lemma_top_unique(self, g: Inputs, starts: Seq<usize>, s: int, t: int)
        requires
            self.finished(g, starts),
            0 <= s < g.len(),
            0 <= t < g.len(),
            self.is_top(s),
            self.is_top(t),
            self.classes.same(s, t),
        ensures
            s == t,
    {
        if s != t {
            assert(self.classes.same(t, s));
            assert(self.depth[s] < self.depth[t]);
            assert(self.depth[t] < self.depth[s]);
        }
    }

    /// Going up from a visited node, every node down to the depth of the
    /// topmost node of its class is of its class, and the node at that
    /// depth is the topmost node.
    pub proof fn lemma_up_in_class(self, g: Inputs, starts: Seq<usize>, z: int, t: int, steps: nat)
        requires
            self.finished(g, starts),
            0 <= z < g.len(),
            0 <= t < g.len(),
            self.visited(z),
            self.is_top(t),
            self.classes.same(t, z),
            self.depth[t] <= self.depth[z],
            steps <= self.depth[z] - self.depth[t],
        ensures
            self.classes.same(self.ancestor(z, steps), z),
            steps == self.depth[z] - self.depth[t] ==> self.ancestor(z, steps) == t,
        decreases steps,
    {
        self.lemma_ancestor(g, starts, z, steps);
        let a = self.ancestor(z, steps);
        if steps > 0 {
            let before = self.ancestor(z, (steps - 1) as nat);
            self.lemma_up_in_class(g, starts, z, t, (steps - 1) as nat);
            self.lemma_ancestor(g, starts, z, (steps - 1) as nat);
            self.lemma_ancestor_add(z, (steps - 1) as nat, 1);
            assert(self.ancestor(before, 1) == self.parents[before]) by {
                assert(self.ancestor(self.parents[before] as int, 0) == self.parents[before]);
            }
            assert(a == self.parents[before]);
            // `before` lies deeper than the topmost node, so it is not
            // topmost, and its parent is of its class
            if self.is_top(before) {
                assert(self.classes.same(before, t));
                self.lemma_top_unique(g, starts, before, t);
            }
            assert(self.classes.same(self.parents[before] as int, before));
        }
        if steps == self.depth[z] - self.depth[t] && a != t {
            assert(self.classes.same(t, a));
            assert(self.depth[t] < self.depth[a]);
        }
    }

    /// If a class has a node in the tree below `y` and a node outside of
    /// it, the parent of `y` is of the class of `y`.
    pub proof fn lemma_class_leaves_tree(
        self,
        g: Inputs,
        starts: Seq<usize>,
        y: int,
        a: int,
        b: int,
    )
        requires
            self.finished(g, starts),
            0 <= y < g.len(),
            0 <= a < g.len(),
            0 <= b < g.len(),
            self.visited(y),
            self.visited(a),
            self.visited(b),
            self.parents[y] != y,
            self.classes.same(a, b),
            self.below(y, a),
            !self.below(y, b),
        ensures
            self.classes.same(self.parents[y] as int, y),
    {
        let t = self.lemma_class_top(g, starts, a);
        let up = (self.depth[a] - self.depth[y]) as nat;
        assert(self.visited(self.parents[y] as int) && self.depth[y] == self.depth[self.parents[y] as int] + 1);
        if self.depth[t] < self.depth[y] {
            self.lemma_up_in_class(g, starts, a, t, up);
            self.lemma_up_in_class(g, starts, a, t, up + 1);
            self.lemma_ancestor_add(a, up, 1);
            assert(self.ancestor(y, 1) == self.parents[y]) by {
                assert(self.ancestor(self.parents[y] as int, 0) == self.parents[y]);
            }
        } else {
            let t2 = self.lemma_class_top(g, starts, b);
            assert(self.classes.same(t2, t));
            self.lemma_top_unique(g, starts, t2, t);
            let a_to_t = (self.depth[a] - self.depth[t]) as nat;
            let b_to_t = (self.depth[b] - self.depth[t]) as nat;
            let t_to_y = (self.depth[t] - self.depth[y]) as nat;
            self.lemma_up_in_class(g, starts, a, t, a_to_t);
            self.lemma_up_in_class(g, starts, b, t, b_to_t);
            self.lemma_ancestor_add(a, a_to_t, t_to_y);
            self.lemma_ancestor_add(b, b_to_t, t_to_y);
            assert(a_to_t + t_to_y == up);
            assert(self.below(y, b));
        }
    }

    /// The walk is over and all that is known of it holds.
    pub open spec fn settled(self, g: Inputs, starts: Seq<usize>) -> bool {
        &&& self.finished(g, starts)
        &&& self.sound(g)
        &&& self.classified(g)
    }

    /// After the walk, what a visited node reaches is visited.
    pub proof fn lemma_reached_visited(self, g: Inputs, starts: Seq<usize>, p: Seq<int>, i: int)
        requires
            self.settled(g, starts),
            is_path(g, p),
            self.visited(p[0]),
            0 <= i < p.len(),
        ensures
            0 <= p[i] < g.len(),
            self.visited(p[i]),
            self.colors[p[i]] is Black,
    {
        lemma_path_in_range(g, p, i);
        assert(self.colors[p[0]] is Black) by {
            if self.colors[p[0]] is Grey {
                assert(self.colors[p[0]]->Grey_0 < self.stack.len());
            }
        }
        self.lemma_black_reaches_black(g, p, i);
    }

    /// A path from `y` to its parent stays in the tree below `y`, unless
    /// the parent is of the class of `y`.
    pub proof fn lemma_stays_below(self, g: Inputs, starts: Seq<usize>, y: int, q: Seq<int>, i: int)
        requires
            self.settled(g, starts),
            self.cross_edges_merged(g),
            0 <= y < g.len(),
            self.visited(y),
            self.parents[y] != y,
            is_path(g, q),
            q[0] == y,
            q.last() == self.parents[y],
            0 <= i < q.len(),
        ensures
            self.classes.same(self.parents[y] as int, y) || self.below(y, q[i]),
        decreases i,
    {
        let x = self.parents[y] as int;
        if i == 0 {
            assert(self.ancestor(y, 0) == y);
        } else {
            self.lemma_stays_below(g, starts, y, q, i - 1);
            if !self.classes.same(x, y) {
                let a = q[i - 1];
                let b = q[i];
                self.lemma_reached_visited(g, starts, q, i - 1);
                self.lemma_reached_visited(g, starts, q, i);
                assert(has_input(g, q[i - 1], q[i - 1 + 1]));
                let k = choose|k: int| 0 <= k < g[a].len() && #[trigger] g[a][k] == b;
                assert(self.edge_known(a, g[a][k] as int));
                if b == a {
                } else if self.parents[b] == a {
                    assert(self.depth[b] == self.depth[a] + 1);
                    let up = (self.depth[a] - self.depth[y]) as nat;
                    assert(self.ancestor(b, up + 1) == self.ancestor(self.parents[b] as int, up));
                } else {
                    if !self.classes.same(a, b) {
                        let e = choose|e: int|
                            0 <= e < self.cross_edges.len() && self.cross_edges[e] == (
                                a as usize,
                                b as usize,
                            );
                        lemma_path_reaches(g, q, i, q.len() - 1);
                        assert(has_input(g, x, y));
                        lemma_reaches_input(g, x, y);
                        lemma_path_reaches(g, q, 0, i - 1);
                        lemma_reaches_trans(g, b, x, y);
                        lemma_reaches_trans(g, b, y, a);
                        assert(self.cross_edges[e].0 == a && self.cross_edges[e].1 == b);
                    }
                    assert(self.classes.same(a, b));
                    if !self.below(y, b) {
                        self.lemma_class_leaves_tree(g, starts, y, a, b);
                    }
                }
            }
        }
    }

    /// A node that reaches its parent is of the class of its parent,
    /// where every cross edge that closes a cycle joins two nodes of one
    /// class.
    pub proof fn lemma_tree_edge_on_cycle(self, g: Inputs, starts: Seq<usize>, y: int)
        requires
            self.settled(g, starts),
            self.cross_edges_merged(g),
            0 <= y < g.len(),
            self.visited(y),
            self.parents[y] != y,
            reaches(g, y, self.parents[y] as int),
        ensures
            self.classes.same(self.parents[y] as int, y),
    {
        let x = self.parents[y] as int;
        let q = choose|q: Seq<int>| is_path(g, q) && q.first() == y && #[trigger] q.last() == x;
        self.lemma_stays_below(g, starts, y, q, q.len() - 1);
        assert(self.visited(x) && self.depth[y] == self.depth[x] + 1);
    }

    /// Along a path that leads back to where it began, every node is of
    /// the class of the first, where every cross edge that closes a cycle
    /// joins two nodes of one class.
    pub proof fn lemma_cycle_in_class(self, g: Inputs, starts: Seq<usize>, p: Seq<int>, i: int)
        requires
            self.settled(g, starts),
            self.cross_edges_merged(g),
            is_path(g, p),
            self.visited(p[0]),
            reaches(g, p.last(), p[0]),
            0 <= i < p.len(),
        ensures
            self.classes.same(p[0], p[i]),
        decreases i,
    {
        if i > 0 {
            self.lemma_cycle_in_class(g, starts, p, i - 1);
            let a = p[i - 1];
            let b = p[i];
            self.lemma_reached_visited(g, starts, p, i - 1);
            self.lemma_reached_visited(g, starts, p, i);
            assert(has_input(g, p[i - 1], p[i - 1 + 1]));
            let k = choose|k: int| 0 <= k < g[a].len() && #[trigger] g[a][k] == b;
            assert(self.edge_known(a, g[a][k] as int));
            lemma_path_reaches(g, p, i, p.len() - 1);
            lemma_path_reaches(g, p, 0, i - 1);
            lemma_reaches_trans(g, b, p.last(), p[0]);
            lemma_reaches_trans(g, b, p[0], a);
            if b == a {
            } else if self.parents[b] == a {
                self.lemma_tree_edge_on_cycle(g, starts, b);
            } else if !self.classes.same(a, b) {
                let e = choose|e: int|
                    0 <= e < self.cross_edges.len() && self.cross_edges[e] == (
                        a as usize,
                        b as usize,
                    );
                assert(self.cross_edges[e].0 == a && self.cross_edges[e].1 == b);
            }
            assert(self.classes.same(a, b));
        }
    }
}

} // verus!
