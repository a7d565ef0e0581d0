//! The graph of classes: the input graph with every visited node
//! replaced by the head of its class. The canonical table that the
//! construction builds holds exactly its edges.

use vstd::prelude::*;

use crate::chains::lemma_adjacency_entry;
use crate::construct::{
    add_source, adjacency, candidates, canonical, edge_stream, heads_of, lemma_adjacency_wf,
    lemma_distinct, lemma_distinct_contains, merge_points, retained,
};
use crate::graph::{has_input, lemma_reaches_input, lemma_reaches_trans, reaches, Inputs};
use crate::reach::{feeds, fits, is_chain};
use crate::unify::Partition;
use crate::walk::Walk;

verus! {

/// The graph has an edge from a visited node of the class of `a` to a
/// node of the class of `b`, another class.
pub open spec fn class_feeds(g: Inputs, w: Walk, a: usize, b: usize) -> bool {
    a != b && exists|x: int, y: int|
        0 <= x < g.len() && 0 <= y < g.len() && !(w.colors[x] is White) && w.classes.find(x) == a
            && w.classes.find(y) == b && #[trigger] has_input(g, x, y)
}

/// `p` is a path through the graph of classes.
pub open spec fn is_class_chain(g: Inputs, w: Walk, p: Seq<usize>) -> bool {
    &&& p.len() > 0
    &&& forall|i: int| 0 <= i < p.len() - 1 ==> class_feeds(g, w, #[trigger] p[i], p[i + 1])
}

/// The graph of classes has a path from the class of the head `a` to the
/// class of the head `b`.
pub open spec fn class_reaches(g: Inputs, w: Walk, a: usize, b: usize) -> bool {
    exists|p: Seq<usize>| is_class_chain(g, w, p) && p.first() == a && #[trigger] p.last() == b
}

/// The canonical table holds, for every edge of the stream between two
/// classes, the head of its source among the sources of the head of its
/// target.
pub proof fn lemma_adjacency_holds(classes: Partition, stream: Seq<(usize, usize)>, e: int)
    requires
        classes.wf(),
        classes.len() <= usize::MAX,
        forall|e: int|
            0 <= e < stream.len() ==> (#[trigger] stream[e]).0 < classes.len() && stream[e].1
                < classes.len(),
        0 <= e < stream.len(),
        classes.find(stream[e].0 as int) != classes.find(stream[e].1 as int),
    ensures
        adjacency(classes, stream).len() == classes.len(),
        adjacency(classes, stream)[classes.find(stream[e].1 as int) as int].contains(
            classes.find(stream[e].0 as int),
        ),
    decreases stream.len(),
{
    let rest = stream.drop_last();
    let last = stream.last();
    let before = adjacency(classes, rest);
    let source = classes.find(last.0 as int);
    let target = classes.find(last.1 as int);
    let after = add_source(before, source, target);
    assert forall|i: int| 0 <= i < rest.len() implies (#[trigger] rest[i]).0 < classes.len()
        && rest[i].1 < classes.len() by {
        assert(rest[i] == stream[i]);
    }
    lemma_adjacency_wf(classes, rest);
    assert(stream[stream.len() - 1] == last);
    if e == stream.len() - 1 {
        if !before[target as int].contains(source) {
            let list = before[target as int].push(source);
            assert(list[before[target as int].len() as int] == source);
        }
    } else {
        assert(rest[e] == stream[e]);
        lemma_adjacency_holds(classes, rest, e);
        let s = classes.find(stream[e].0 as int);
        let t = classes.find(stream[e].1 as int);
        let i = choose|i: int| 0 <= i < before[t as int].len() && before[t as int][i] == s;
        assert(after[t as int][i] == s);
    }
}

/// The heads below `n` with more than one source are among the merge
/// points, and every merge point is such a head.
pub proof fn lemma_merge_points(adj: Inputs, n: nat, h: usize)
    requires
        n <= adj.len() <= usize::MAX,
    ensures
        merge_points(adj, n).contains(h) <==> h < n && adj[h as int].len() > 1,
    decreases n,
{
    if n > 0 {
        lemma_merge_points(adj, (n - 1) as nat, h);
        let before = merge_points(adj, (n - 1) as nat);
        let made = merge_points(adj, n);
        if adj[n - 1].len() > 1 {
            if made.contains(h) {
                let i = choose|i: int| 0 <= i < made.len() && made[i] == h;
                if i < before.len() {
                    assert(before[i] == h);
                    assert(before.contains(h));
                }
            }
            if h < n && adj[h as int].len() > 1 {
                if h == n - 1 {
                    assert(made[before.len() as int] == h);
                } else {
                    let i = choose|i: int| 0 <= i < before.len() && before[i] == h;
                    assert(made[i] == h);
                }
            }
        }
    }
}

impl Walk {
    /// The canonical table has an edge between two heads exactly if the
    /// graph of classes has one.
    pub proof fn lemma_canonical_is_quotient(self, g: Inputs, starts: Seq<usize>, a: usize, b: usize)
        requires
            self.finished(g, starts),
            self.classified(g),
        ensures
            feeds(canonical(self), a, b) <==> class_feeds(g, self, a, b),
    {
        let adj = canonical(self);
        let stream = edge_stream(self.parents, self.cross_edges);
        self.lemma_stream_in_range(g, starts);
        if feeds(adj, a, b) {
            let m = choose|m: int| 0 <= m < adj[b as int].len() && adj[b as int][m] == a;
            let e = lemma_adjacency_entry(self.classes, stream, b as int, m);
            let x = stream[e].0 as int;
            let y = stream[e].1 as int;
            if e < g.len() {
                assert(stream[e] == (self.parents[e], e as usize));
                assert(self.parents[y] != y);
                assert(self.visited(y));
                assert(self.visited(x));
                assert(has_input(g, x, y));
            } else {
                assert(stream[e] == self.cross_edges[e - g.len()]);
                assert(self.visited(self.cross_edges[e - g.len()].0 as int));
                assert(has_input(g, x, y));
            }
            assert(class_feeds(g, self, a, b));
        }
        if class_feeds(g, self, a, b) {
            let (x, y) = choose|x: int, y: int|
                0 <= x < g.len() && 0 <= y < g.len() && !(self.colors[x] is White)
                    && self.classes.find(x) == a && self.classes.find(y) == b && #[trigger] has_input(
                    g,
                    x,
                    y,
                );
            let k = choose|k: int| 0 <= k < g[x].len() && #[trigger] g[x][k] == y;
            assert(self.colors[x] is Black) by {
                if self.colors[x] is Grey {
                    assert(self.colors[x]->Grey_0 < self.stack.len());
                }
            }
            assert(self.edge_known(x, g[x][k] as int));
            assert(!self.classes.same(x, y));
            if self.parents[y] == x {
                assert(stream[y] == (self.parents[y], y as usize));
                lemma_adjacency_holds(self.classes, stream, y);
            } else {
                assert(self.cross_edges.contains((x as usize, y as usize)));
                let i = choose|i: int|
                    0 <= i < self.cross_edges.len() && self.cross_edges[i] == (
                        x as usize,
                        y as usize,
                    );
                assert(stream[g.len() + i] == self.cross_edges[i]);
                lemma_adjacency_holds(self.classes, stream, g.len() + i);
            }
        }
    }

    /// The paths of the canonical table are the paths of the graph of
    /// classes.
    pub proof fn lemma_chains_are_class_chains(self, g: Inputs, starts: Seq<usize>, p: Seq<usize>)
        requires
            self.finished(g, starts),
            self.classified(g),
        ensures
            is_chain(canonical(self), p) <==> is_class_chain(g, self, p),
    {
        if is_chain(canonical(self), p) {
            assert forall|i: int| 0 <= i < p.len() - 1 implies class_feeds(
                g,
                self,
                #[trigger] p[i],
                p[i + 1],
            ) by {
                self.lemma_canonical_is_quotient(g, starts, p[i], p[i + 1]);
            }
        }
        if is_class_chain(g, self, p) {
            assert forall|i: int| 0 <= i < p.len() - 1 implies feeds(
                canonical(self),
                #[trigger] p[i],
                p[i + 1],
            ) by {
                self.lemma_canonical_is_quotient(g, starts, p[i], p[i + 1]);
            }
        }
    }

    /// The head of a visited node is a visited node that stands for its
    /// own class.
    pub proof fn lemma_head_visited(self, g: Inputs, starts: Seq<usize>, x: int)
        requires
            self.finished(g, starts),
            0 <= x < g.len(),
            self.visited(x),
        ensures
            self.classes.find(x) < g.len(),
            self.visited(self.classes.find(x) as int),
            self.classes.find(self.classes.find(x) as int) == self.classes.find(x),
    {
        let h = self.classes.find(x) as int;
        assert(self.classes.same(x, h));
    }

    /// A head with a source is the head of a visited node.
    pub proof fn lemma_fed_is_visited(self, g: Inputs, starts: Seq<usize>, h: int)
        requires
            self.finished(g, starts),
            0 <= h < g.len(),
            canonical(self)[h].len() > 0,
        ensures
            self.visited(h),
            self.classes.find(h) == h,
    {
        let stream = edge_stream(self.parents, self.cross_edges);
        self.lemma_stream_in_range(g, starts);
        let e = lemma_adjacency_entry(self.classes, stream, h, 0);
        let x = stream[e].1 as int;
        if e < g.len() {
            assert(stream[e] == (self.parents[e], e as usize));
            assert(self.parents[x] != x);
        } else {
            assert(stream[e] == self.cross_edges[e - g.len()]);
            assert(self.visited(self.cross_edges[e - g.len()].1 as int));
        }
        self.lemma_head_visited(g, starts, x);
    }

    /// The canonical table and the retained heads of a finished walk fit
    /// together.
    pub proof fn lemma_finished_fits(self, g: Inputs, starts: Seq<usize>)
        requires
            self.finished(g, starts),
        ensures
            fits(canonical(self), retained(self, starts)),
    {
        let adj = canonical(self);
        let list = candidates(self.classes, starts, self.leaf_nodes, adj);
        let nodes = retained(self, starts);
        self.lemma_stream_in_range(g, starts);
        self.lemma_finished_reducible(g, starts);
        lemma_distinct(list);
        assert forall|i: int| 0 <= i < nodes.len() implies (#[trigger] nodes[i]) < adj.len() by {
            let h = nodes[i];
            assert(nodes.contains(h));
            lemma_distinct_contains(list, h);
            let j = choose|j: int| 0 <= j < list.len() && list[j] == h;
            let from_starts = heads_of(self.classes, starts);
            let from_leaves = heads_of(self.classes, self.leaf_nodes);
            if j < from_starts.len() {
                assert(list[j] == from_starts[j]);
            } else if j < from_starts.len() + from_leaves.len() {
                assert(list[j] == from_leaves[j - from_starts.len()]);
            } else {
                let k = j - from_starts.len() - from_leaves.len();
                assert(list[j] == merge_points(adj, adj.len())[k]);
                assert(merge_points(adj, adj.len()).contains(h));
                lemma_merge_points(adj, adj.len(), h);
            }
        }
        assert forall|h: int| 0 <= h < adj.len() && (#[trigger] adj[h]).len() > 1 implies nodes.contains(
            h as usize,
        ) by {
            lemma_merge_points(adj, adj.len(), h as usize);
            let points = merge_points(adj, adj.len());
            let k = choose|k: int| 0 <= k < points.len() && points[k] == h as usize;
            assert(list[starts.len() + self.leaf_nodes.len() + k] == h as usize);
            lemma_distinct_contains(list, h as usize);
        }
    }

    /// Along a path through the graph of classes, every node of the first
    /// class reaches every node of each later class.
    pub proof fn lemma_class_chain_path(
        self,
        g: Inputs,
        starts: Seq<usize>,
        p: Seq<usize>,
        i: int,
        from: int,
        to: int,
    )
        requires
            self.finished(g, starts),
            self.sound(g),
            is_class_chain(g, self, p),
            0 <= i < p.len(),
            0 <= from < g.len(),
            0 <= to < g.len(),
            self.classes.find(from) == p[0],
            self.classes.find(to) == p[i],
        ensures
            reaches(g, from, to),
        decreases i,
    {
        if i == 0 {
            assert(self.classes.same(from, to));
        } else {
            assert(class_feeds(g, self, p[i - 1], p[i - 1 + 1]));
            let (x, y) = choose|x: int, y: int|
                0 <= x < g.len() && 0 <= y < g.len() && !(self.colors[x] is White)
                    && self.classes.find(x) == p[i - 1] && self.classes.find(y) == p[i] && #[trigger] has_input(
                    g,
                    x,
                    y,
                );
            self.lemma_class_chain_path(g, starts, p, i - 1, from, x);
            lemma_reaches_input(g, x, y);
            assert(self.classes.same(y, to));
            lemma_reaches_trans(g, from, x, y);
            lemma_reaches_trans(g, from, y, to);
        }
    }
}

} // verus!
