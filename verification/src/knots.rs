//! What a cycle that the walk left unmerged does to the reduced graph: a
//! cross edge that closes a cycle between two classes makes a cycle of
//! the canonical graph, and that cycle comes out as a cycle of the
//! reduced graph.

use vstd::prelude::*;

use crate::construct::{canonical, retained};
use crate::graph::{has_input, is_path, reaches, Inputs};
use crate::quotient::class_feeds;
use crate::reach::{
    built, chain_reaches, feeds, is_chain, lemma_chain_part, lemma_chain_self, lemma_chain_step,
    lemma_chain_trans, lemma_cycle_is_out_cycle, lemma_only_source, out_feeds, out_reaches,
};
use crate::walk::Walk;

verus! {

impl Walk {
    /// Against a path of the canonical graph through heads that are not
    /// retained, the topmost nodes of the classes lie higher and higher:
    /// the class of `q[i]` has its topmost node at least `k - i` levels
    /// above `t`, the topmost node of the class of `q[k]`.
    pub proof fn lemma_unretained_climbs(
        self,
        g: Inputs,
        starts: Seq<usize>,
        q: Seq<usize>,
        i: int,
        k: int,
        t: int,
    ) -> (above: int)
        requires
            self.finished(g, starts),
            is_chain(canonical(self), q),
            0 <= i <= k < q.len(),
            forall|m: int| i < m <= k ==> !retained(self, starts).contains(#[trigger] q[m]),
            0 <= t < g.len(),
            self.visited(t),
            self.is_top(t),
            self.classes.find(t) == q[k],
        ensures
            0 <= above < g.len(),
            self.visited(above),
            self.is_top(above),
            self.classes.find(above) == q[i],
            self.depth[above] + (k - i) <= self.depth[t],
        decreases k - i,
    {
        if i == k {
            t
        } else {
            let adj = canonical(self);
            let nodes = retained(self, starts);
            self.lemma_finished_fits(g, starts);
            assert(feeds(adj, q[k - 1], q[k - 1 + 1]));
            assert(!nodes.contains(q[k]));
            lemma_only_source(adj, nodes, q[k - 1], q[k]);
            self.lemma_unretained_has_parent(g, starts, t);
            self.lemma_first_source(g, starts, t);
            let p = self.parents[t] as int;
            assert(self.visited(p) && self.depth[t] == self.depth[p] + 1);
            let top = self.lemma_class_top(g, starts, p);
            assert(self.classes.find(top) == self.classes.find(p));
            self.lemma_unretained_climbs(g, starts, q, i, k - 1, top)
        }
    }

    /// Along a path of the graph from a visited node, the head of the
    /// first node reaches the head of every node in the canonical graph.
    pub proof fn lemma_path_is_chain(self, g: Inputs, starts: Seq<usize>, p: Seq<int>, i: int)
        requires
            self.settled(g, starts),
            is_path(g, p),
            self.visited(p[0]),
            0 <= i < p.len(),
        ensures
            chain_reaches(canonical(self), self.classes.find(p[0]), self.classes.find(p[i])),
        decreases i,
    {
        let adj = canonical(self);
        if i == 0 {
            lemma_chain_self(adj, self.classes.find(p[0]));
        } else {
            self.lemma_path_is_chain(g, starts, p, i - 1);
            self.lemma_reached_visited(g, starts, p, i - 1);
            self.lemma_reached_visited(g, starts, p, i);
            let a = self.classes.find(p[i - 1]);
            let b = self.classes.find(p[i]);
            assert(has_input(g, p[i - 1], p[i - 1 + 1]));
            if a != b {
                assert(class_feeds(g, self, a, b));
                self.lemma_canonical_is_quotient(g, starts, a, b);
                lemma_chain_step(adj, self.classes.find(p[0]), a, b);
            }
        }
    }

    /// A cross edge that closes a cycle between two classes makes a
    /// cycle of the reduced graph: an edge that a path leads back along.
    /// The result is such an edge, in the direction of the walk.
    pub proof fn lemma_unmerged_makes_cycle(self, g: Inputs, starts: Seq<usize>, e: int) -> (c: (
        usize,
        usize,
    ))
        requires
            self.settled(g, starts),
            0 <= e < self.cross_edges.len(),
            reaches(g, self.cross_edges[e].1 as int, self.cross_edges[e].0 as int),
            !self.classes.same(self.cross_edges[e].0 as int, self.cross_edges[e].1 as int),
        ensures
            out_feeds(built(canonical(self), retained(self, starts)), c.0, c.1),
            out_reaches(built(canonical(self), retained(self, starts)), c.1, c.0),
    {
        let adj = canonical(self);
        let nodes = retained(self, starts);
        let x = self.cross_edges[e].0 as int;
        let y = self.cross_edges[e].1 as int;
        let from = self.classes.find(x);
        let to = self.classes.find(y);
        self.lemma_finished_fits(g, starts);
        crate::graph::lemma_reaches_in_range(g, y, x);
        assert(self.visited(x) && self.visited(y));
        assert(has_input(g, x, y));
        assert(class_feeds(g, self, from, to));
        self.lemma_canonical_is_quotient(g, starts, from, to);
        let p = choose|p: Seq<int>| is_path(g, p) && p.first() == y && #[trigger] p.last() == x;
        self.lemma_path_is_chain(g, starts, p, p.len() - 1);
        let back = choose|c: Seq<usize>| is_chain(adj, c) && c.first() == to && #[trigger] c.last() == from;
        // the cycle of the canonical graph: from the head of `y` to the
        // head of `x`, and along the cross edge
        let q = back.push(to);
        let k = q.len() - 1;
        assert forall|i: int| 0 <= i < q.len() - 1 implies feeds(adj, #[trigger] q[i], q[i + 1]) by {
            if i < back.len() - 1 {
                assert(feeds(adj, back[i], back[i + 1]));
            }
        }
        assert(is_chain(adj, q));
        if forall|m: int| 0 < m <= k ==> !nodes.contains(#[trigger] q[m]) {
            let t = self.lemma_class_top(g, starts, y);
            let above = self.lemma_unretained_climbs(g, starts, q, 0, k, t);
            self.lemma_top_unique(g, starts, above, t);
            assert(false);
        }
        let m = choose|m: int| 0 < m <= k && nodes.contains(#[trigger] q[m]);
        assert(feeds(adj, q[m - 1], q[m - 1 + 1]));
        lemma_chain_part(adj, q, m, k);
        lemma_chain_part(adj, q, 0, m - 1);
        lemma_chain_trans(adj, q[m], q[0], q[m - 1]);
        lemma_cycle_is_out_cycle(adj, nodes, q[m - 1], q[m])
    }
}

} // verus!
