//! Why the construction never runs out of parents: after a walk, the
//! chain of first sources from any head that the construction looks at
//! climbs the forest of the walk and ends in a retained head.

use vstd::prelude::*;

use crate::construct::{
    adjacency, candidates, canonical, chains_end, edge_stream, heads_of, lemma_adjacency_wf,
    lemma_distinct_contains, reducible, retained, retained_ancestor,
};
use crate::graph::{graph_wf, Inputs};
use crate::unify::Partition;
use crate::walk::{start_nodes_in_range, Walk};

verus! {

/// While no edge so far leads into the class of `head` from another
/// class, `head` has no source.
pub proof fn lemma_adjacency_none(
    classes: Partition,
    stream: Seq<(usize, usize)>,
    head: usize,
    len: int,
)
    requires
        classes.wf(),
        classes.len() <= usize::MAX,
        head < classes.len(),
        0 <= len <= stream.len(),
        forall|e: int|
            0 <= e < stream.len() ==> (#[trigger] stream[e]).0 < classes.len() && stream[e].1
                < classes.len(),
        forall|e: int|
            0 <= e < len && classes.find((#[trigger] stream[e]).1 as int) == head ==> classes.find(
                stream[e].0 as int,
            ) == head,
    ensures
        adjacency(classes, stream.take(len)).len() == classes.len(),
        adjacency(classes, stream.take(len))[head as int].len() == 0,
    decreases len,
{
    let prefix = stream.take(len);
    if len > 0 {
        assert(prefix.drop_last() =~= stream.take(len - 1));
        assert(prefix.last() == stream[len - 1]);
        lemma_adjacency_none(classes, stream, head, len - 1);
    }
}

/// Once an edge leads into the class of its target from another class,
/// and none did before, the head of its source is the first source of the
/// head of its target, and stays so.
pub proof fn lemma_adjacency_first(classes: Partition, stream: Seq<(usize, usize)>, at: int, len: int)
    requires
        classes.wf(),
        classes.len() <= usize::MAX,
        0 <= at < len <= stream.len(),
        forall|e: int|
            0 <= e < stream.len() ==> (#[trigger] stream[e]).0 < classes.len() && stream[e].1
                < classes.len(),
        classes.find(stream[at].0 as int) != classes.find(stream[at].1 as int),
        forall|e: int|
            0 <= e < at && classes.find((#[trigger] stream[e]).1 as int) == classes.find(
                stream[at].1 as int,
            ) ==> classes.find(stream[e].0 as int) == classes.find(stream[at].1 as int),
    ensures
        adjacency(classes, stream.take(len)).len() == classes.len(),
        adjacency(classes, stream.take(len))[classes.find(stream[at].1 as int) as int].len() > 0,
        adjacency(classes, stream.take(len))[classes.find(stream[at].1 as int) as int][0]
            == classes.find(stream[at].0 as int),
    decreases len,
{
    let head = classes.find(stream[at].1 as int);
    let prefix = stream.take(len);
    assert(prefix.drop_last() =~= stream.take(len - 1));
    assert(prefix.last() == stream[len - 1]);
    if len - 1 == at {
        lemma_adjacency_none(classes, stream, head, at);
        let before = adjacency(classes, stream.take(at));
        assert(!before[head as int].contains(classes.find(stream[at].0 as int)));
    } else {
        lemma_adjacency_first(classes, stream, at, len - 1);
    }
}

/// Every source of a head is the head of the source of some edge that
/// leads into the class of that head from another class.
pub proof fn lemma_adjacency_entry(
    classes: Partition,
    stream: Seq<(usize, usize)>,
    target: int,
    m: int,
) -> (e: int)
    requires
        classes.wf(),
        classes.len() <= usize::MAX,
        forall|e: int|
            0 <= e < stream.len() ==> (#[trigger] stream[e]).0 < classes.len() && stream[e].1
                < classes.len(),
        0 <= target < classes.len(),
        0 <= m < adjacency(classes, stream)[target].len(),
    ensures
        0 <= e < stream.len(),
        classes.find(stream[e].1 as int) == target,
        classes.find(stream[e].0 as int) == adjacency(classes, stream)[target][m],
        adjacency(classes, stream)[target][m] != target,
    decreases stream.len(),
{
    if stream.len() == 0 {
        0
    } else {
        let rest = stream.drop_last();
        let last = stream.last();
        let before = adjacency(classes, rest);
        assert forall|e: int| 0 <= e < rest.len() implies (#[trigger] rest[e]).0 < classes.len()
            && rest[e].1 < classes.len() by {
            assert(rest[e] == stream[e]);
        }
        lemma_adjacency_wf(classes, rest);
        let source = classes.find(last.0 as int);
        let head = classes.find(last.1 as int);
        assert(stream[stream.len() - 1] == last);
        if source != head && !before[head as int].contains(source) && target == head && m
            == before[head as int].len() {
            stream.len() - 1
        } else {
            assert(before[target][m] == adjacency(classes, stream)[target][m]);
            let e = lemma_adjacency_entry(classes, rest, target, m);
            assert(rest[e] == stream[e]);
            e
        }
    }
}

impl Walk {
    /// The walk is over, and what it recorded has the shape of a forest
    /// with its roots among `starts`.
    pub open spec fn finished(self, g: Inputs, starts: Seq<usize>) -> bool {
        &&& self.wf(g)
        &&& self.forest(g, starts)
        &&& self.stack.len() == 0
        &&& forall|k: int| 0 <= k < starts.len() ==> (#[trigger] starts[k]) < g.len()
    }

    /// The class of a visited node has a topmost node, no deeper than the
    /// node.
    pub proof fn lemma_class_top(self, g: Inputs, starts: Seq<usize>, x: int) -> (t: int)
        requires
            self.finished(g, starts),
            0 <= x < g.len(),
            self.visited(x),
        ensures
            0 <= t < g.len(),
            self.visited(t),
            self.is_top(t),
            self.classes.same(t, x),
            self.depth[t] <= self.depth[x],
        decreases self.depth[x],
    {
        if self.is_top(x) {
            x
        } else {
            let p = self.parents[x] as int;
            assert(self.visited(p) && self.depth[x] == self.depth[p] + 1);
            let t = self.lemma_class_top(g, starts, p);
            t
        }
    }

    /// The edges that the walk recorded join nodes, and the canonical
    /// table has a list of sources for every node.
    pub proof fn lemma_stream_in_range(self, g: Inputs, starts: Seq<usize>)
        requires
            self.finished(g, starts),
        ensures
            edge_stream(self.parents, self.cross_edges).len() == g.len() + self.cross_edges.len(),
            forall|e: int|
                0 <= e < edge_stream(self.parents, self.cross_edges).len() ==> (#[trigger] edge_stream(
                    self.parents,
                    self.cross_edges,
                )[e]).0 < g.len() && edge_stream(self.parents, self.cross_edges)[e].1 < g.len(),
            forall|v: int|
                0 <= v < g.len() ==> #[trigger] edge_stream(self.parents, self.cross_edges)[v] == (
                    self.parents[v],
                    v as usize,
                ),
            canonical(self).len() == g.len(),
            graph_wf(canonical(self)),
    {
        let stream = edge_stream(self.parents, self.cross_edges);
        assert forall|e: int| 0 <= e < stream.len() implies (#[trigger] stream[e]).0 < g.len()
            && stream[e].1 < g.len() by {
            if e < g.len() {
                assert(stream[e] == (self.parents[e], e as usize));
            } else {
                assert(stream[e] == self.cross_edges[e - g.len()]);
            }
        }
        lemma_adjacency_wf(self.classes, stream);
    }

    /// The head of a class whose topmost node has a parent has the head
    /// of that parent as its first source.
    pub proof fn lemma_first_source(self, g: Inputs, starts: Seq<usize>, t: int)
        requires
            self.finished(g, starts),
            0 <= t < g.len(),
            self.visited(t),
            self.is_top(t),
            self.parents[t] != t,
        ensures
            canonical(self)[self.classes.find(t) as int].len() > 0,
            canonical(self)[self.classes.find(t) as int][0] == self.classes.find(
                self.parents[t] as int,
            ),
    {
        let stream = edge_stream(self.parents, self.cross_edges);
        let head = self.classes.find(t);
        self.lemma_stream_in_range(g, starts);
        assert(stream[t] == (self.parents[t], t as usize));
        assert forall|e: int|
            0 <= e < t && self.classes.find((#[trigger] stream[e]).1 as int) == head implies self.classes.find(
            stream[e].0 as int,
        ) == head by {
            assert(stream[e] == (self.parents[e], e as usize));
            assert(self.classes.same(e, t));
            assert(self.classes.same(t, e));
            if self.is_top(e) {
                assert(self.depth[e] < self.depth[t]);
                assert(self.depth[t] < self.depth[e]);
            }
            assert(self.classes.same(self.parents[e] as int, e));
        }
        lemma_adjacency_first(self.classes, stream, t, stream.len() as int);
        assert(stream.take(stream.len() as int) =~= stream);
    }

    /// The topmost node of a class whose head is not retained has a
    /// parent: a node without parent is a start node.
    pub proof fn lemma_unretained_has_parent(self, g: Inputs, starts: Seq<usize>, t: int)
        requires
            self.finished(g, starts),
            0 <= t < g.len(),
            self.visited(t),
            !retained(self, starts).contains(self.classes.find(t)),
        ensures
            self.parents[t] != t,
    {
        if self.parents[t] == t {
            let head = self.classes.find(t);
            assert(starts.contains(t as usize));
            let k = choose|k: int| 0 <= k < starts.len() && starts[k] == t as usize;
            let list = candidates(self.classes, starts, self.leaf_nodes, canonical(self));
            assert(heads_of(self.classes, starts)[k] == head);
            assert(list[k] == head);
            lemma_distinct_contains(list, head);
        }
    }

    /// From the head of a class whose topmost node lies at depth `fuel`
    /// or less, the chain of first sources ends in a retained head.
    pub proof fn lemma_chain_ends(self, g: Inputs, starts: Seq<usize>, t: int, fuel: nat)
        requires
            self.finished(g, starts),
            0 <= t < g.len(),
            self.visited(t),
            self.is_top(t),
            self.depth[t] <= fuel,
        ensures
            retained_ancestor(
                canonical(self),
                retained(self, starts),
                self.classes.find(t),
                fuel,
            ) is Some,
        decreases self.depth[t],
    {
        let adj = canonical(self);
        let nodes = retained(self, starts);
        let head = self.classes.find(t);
        if !nodes.contains(head) {
            self.lemma_unretained_has_parent(g, starts, t);
            let p = self.parents[t] as int;
            assert(self.visited(p) && self.depth[t] == self.depth[p] + 1);
            self.lemma_first_source(g, starts, t);
            let above = self.lemma_class_top(g, starts, p);
            self.lemma_chain_ends(g, starts, above, (fuel - 1) as nat);
            assert(self.classes.find(above) == self.classes.find(p));
        }
    }

    /// What a finished walk recorded fits together: the construction can
    /// build the reduced graph from it.
    pub proof fn lemma_finished_reducible(self, g: Inputs, starts: Seq<usize>)
        requires
            self.finished(g, starts),
        ensures
            reducible(self.classes, starts, self.parents, self.cross_edges, self.leaf_nodes),
    {
        let adj = canonical(self);
        let nodes = retained(self, starts);
        let stream = edge_stream(self.parents, self.cross_edges);
        self.lemma_stream_in_range(g, starts);
        assert forall|t: int, m: int|
            0 <= t < adj.len() && nodes.contains(t as usize) && 0 <= m < adj[t].len() implies retained_ancestor(
            adj,
            nodes,
            #[trigger] adj[t][m],
            adj.len(),
        ) is Some by {
            let e = lemma_adjacency_entry(self.classes, stream, t, m);
            let s = stream[e].0 as int;
            assert(self.visited(s)) by {
                if e < g.len() {
                    assert(stream[e] == (self.parents[e], e as usize));
                    assert(self.parents[e] != e);
                    assert(self.visited(e));
                } else {
                    assert(stream[e] == self.cross_edges[e - g.len()]);
                    assert(self.visited(self.cross_edges[e - g.len()].0 as int));
                }
            }
            let top = self.lemma_class_top(g, starts, s);
            assert(self.depth[top] < g.len());
            self.lemma_chain_ends(g, starts, top, adj.len());
            assert(self.classes.find(top) == adj[t][m]);
        }
        assert(chains_end(adj, nodes));
    }

    /// After the walk from start nodes of the graph the construction can
    /// build the reduced graph.
    pub proof fn lemma_walked_reducible(g: Inputs, starts: Seq<usize>)
        requires
            graph_wf(g),
            start_nodes_in_range(g, starts),
        ensures
            reducible(
                Walk::walked(g, starts).classes,
                starts,
                Walk::walked(g, starts).parents,
                Walk::walked(g, starts).cross_edges,
                Walk::walked(g, starts).leaf_nodes,
            ),
    {
        Walk::lemma_walked_done(g, starts);
        Walk::lemma_walked_forest(g, starts);
        Walk::walked(g, starts).lemma_finished_reducible(g, starts);
    }
}

} // verus!
