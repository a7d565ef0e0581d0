//! Reducing a graph that is already reduced: a graph without cycles, all
//! of whose nodes are start nodes, is reduced to itself, with every edge
//! once.

use vstd::prelude::*;

use crate::construct::{
    candidates, canonical, distinct, edges_into, heads_of, reduced, retained, retained_ancestor,
    sources_into, Reduction,
};
use crate::graph::{
    graph_wf, has_input, is_path, lemma_path_in_range, mutually_reachable, on_cycle, reaches,
    Inputs,
};
use crate::quotient::class_feeds;
use crate::reach::{
    built, feeds, is_out_chain, lemma_edges_below, lemma_edges_into, out_feeds, out_reaches, slot,
};
use crate::walk::{start_nodes_ok, Walk};

verus! {

/// The graph has no cycle: no edge leads to a node from which a path
/// leads back.
pub open spec fn acyclic(g: Inputs) -> bool {
    forall|u: int, v: int| #[trigger] has_input(g, u, v) ==> !reaches(g, v, u)
}

/// All nodes of a graph of `n` nodes, in order.
pub open spec fn all_nodes(n: nat) -> Seq<usize> {
    Seq::new(n, |i: int| i as usize)
}

/// In a graph without cycles no two nodes reach each other.
pub proof fn lemma_acyclic_no_cycle(g: Inputs, u: int, v: int)
    requires
        graph_wf(g),
        acyclic(g),
        mutually_reachable(g, u, v),
    ensures
        u == v,
{
    if u != v {
        let p = choose|p: Seq<int>| is_path(g, p) && p.first() == u && #[trigger] p.last() == v;
        assert(p.len() > 1);
        assert(has_input(g, p[0int], p[0int + 1]));
        crate::cycles::lemma_path_reaches(g, p, 1, p.len() - 1);
        crate::graph::lemma_reaches_trans(g, p[1], v, u);
    }
}

/// A list without repetitions is its own list without repetitions.
pub proof fn lemma_distinct_same(list: Seq<usize>)
    requires
        list.no_duplicates(),
    ensures
        distinct(list) == list,
    decreases list.len(),
{
    if list.len() > 0 {
        let rest = list.drop_last();
        lemma_distinct_same(rest);
        if rest.contains(list.last()) {
            let i = choose|i: int| 0 <= i < rest.len() && rest[i] == list.last();
            assert(list[i] == list[list.len() - 1]);
        }
        assert(rest.push(list.last()) =~= list);
    } else {
        assert(list =~= Seq::empty());
    }
}

/// What follows a list without repetitions and holds nothing new adds
/// nothing to the list without repetitions.
pub proof fn lemma_distinct_prefix(list: Seq<usize>, more: Seq<usize>)
    requires
        list.no_duplicates(),
        forall|i: int| 0 <= i < more.len() ==> list.contains(#[trigger] more[i]),
    ensures
        distinct(list + more) == list,
    decreases more.len(),
{
    if more.len() == 0 {
        assert(list + more =~= list);
        lemma_distinct_same(list);
    } else {
        let rest = more.drop_last();
        assert((list + more).drop_last() =~= list + rest);
        assert((list + more).last() == more[more.len() - 1]);
        assert forall|i: int| 0 <= i < rest.len() implies list.contains(#[trigger] rest[i]) by {
            assert(rest[i] == more[i]);
        }
        lemma_distinct_prefix(list, rest);
    }
}

/// The walk through a graph without cycles, from all of its nodes, merges
/// nothing and visits everything.
pub proof fn lemma_acyclic_walk(g: Inputs, x: int)
    requires
        graph_wf(g),
        acyclic(g),
        0 <= x < g.len(),
    ensures
        Walk::walked(g, all_nodes(g.len())).classes.find(x) == x,
        Walk::walked(g, all_nodes(g.len())).visited(x),
        Walk::walked(g, all_nodes(g.len())).classes.len() == g.len(),
        Walk::walked(g, all_nodes(g.len())).classes.wf(),
{
    let starts = all_nodes(g.len());
    let w = Walk::walked(g, starts);
    Walk::lemma_walked_done(g, starts);
    let h = w.classes.find(x) as int;
    assert(w.classes.same(h, x));
    lemma_acyclic_no_cycle(g, h, x);
    assert(starts[x] == x);
}

/// Every head that is a candidate for retention is a node.
pub proof fn lemma_candidates_in_range(w: Walk, g: Inputs, starts: Seq<usize>, i: int)
    requires
        w.finished(g, starts),
        0 <= i < candidates(w.classes, starts, w.leaf_nodes, canonical(w)).len(),
    ensures
        candidates(w.classes, starts, w.leaf_nodes, canonical(w))[i] < g.len(),
{
    let adj = canonical(w);
    let list = candidates(w.classes, starts, w.leaf_nodes, adj);
    let from_starts = heads_of(w.classes, starts);
    let from_leaves = heads_of(w.classes, w.leaf_nodes);
    let points = crate::construct::merge_points(adj, adj.len());
    w.lemma_stream_in_range(g, starts);
    if i < from_starts.len() {
        assert(list[i] == from_starts[i]);
        assert(starts[i] < g.len());
    } else if i < from_starts.len() + from_leaves.len() {
        let l = i - from_starts.len();
        assert(list[i] == from_leaves[l]);
        assert(w.leaf_nodes[l] < g.len());
    } else {
        let k = i - from_starts.len() - from_leaves.len();
        assert(list[i] == points[k]);
        assert(points.contains(points[k]));
        crate::quotient::lemma_merge_points(adj, adj.len(), points[k]);
    }
}

/// The heads of all nodes, where every node is its own head, are all
/// nodes.
pub proof fn lemma_acyclic_heads(g: Inputs)
    requires
        graph_wf(g),
        acyclic(g),
    ensures
        heads_of(Walk::walked(g, all_nodes(g.len())).classes, all_nodes(g.len())) == all_nodes(
            g.len(),
        ),
{
    let starts = all_nodes(g.len());
    let w = Walk::walked(g, starts);
    let first = heads_of(w.classes, starts);
    assert forall|i: int| 0 <= i < first.len() implies first[i] == starts[i] by {
        lemma_acyclic_walk(g, i);
        assert(starts[i] == i);
    }
    assert(first =~= starts);
}

/// After the walk from all nodes, every candidate for retention is a
/// node.
pub proof fn lemma_all_candidates_in_range(g: Inputs)
    requires
        graph_wf(g),
    ensures
        forall|i: int|
            0 <= i < candidates(
                Walk::walked(g, all_nodes(g.len())).classes,
                all_nodes(g.len()),
                Walk::walked(g, all_nodes(g.len())).leaf_nodes,
                canonical(Walk::walked(g, all_nodes(g.len()))),
            ).len() ==> (#[trigger] candidates(
                Walk::walked(g, all_nodes(g.len())).classes,
                all_nodes(g.len()),
                Walk::walked(g, all_nodes(g.len())).leaf_nodes,
                canonical(Walk::walked(g, all_nodes(g.len()))),
            )[i]) < g.len(),
{
    let starts = all_nodes(g.len());
    let w = Walk::walked(g, starts);
    let list = candidates(w.classes, starts, w.leaf_nodes, canonical(w));
    Walk::lemma_walked_done(g, starts);
    Walk::lemma_walked_forest(g, starts);
    assert forall|i: int| 0 <= i < list.len() implies (#[trigger] list[i]) < g.len() by {
        lemma_candidates_in_range(w, g, starts, i);
    }
}

/// A graph without cycles, all of whose nodes are start nodes, is
/// reduced to its own nodes, in order.
pub proof fn lemma_acyclic_nodes(g: Inputs)
    requires
        graph_wf(g),
        acyclic(g),
    ensures
        reduced(g, all_nodes(g.len())).nodes == all_nodes(g.len()),
{
    let starts = all_nodes(g.len());
    let w = Walk::walked(g, starts);
    let list = candidates(w.classes, starts, w.leaf_nodes, canonical(w));
    lemma_acyclic_heads(g);
    lemma_all_candidates_in_range(g);
    let more = list.subrange(starts.len() as int, list.len() as int);
    assert(list =~= starts + more);
    assert forall|i: int| 0 <= i < more.len() implies starts.contains(#[trigger] more[i]) by {
        assert(more[i] == list[starts.len() + i]);
        assert(starts[more[i] as int] == more[i]);
    }
    assert(starts.no_duplicates());
    lemma_distinct_prefix(starts, more);
    assert(reduced(g, starts).nodes == distinct(list));
}

/// Where every head is retained, in order, the reduced graph has an
/// edge from `t` to `s` exactly if `s` is a source of `t`.
pub proof fn lemma_all_retained_edges(adj: Inputs, t: usize, s: usize)
    requires
        graph_wf(adj),
    ensures
        built(adj, all_nodes(adj.len())).edges.contains((t, s)) <==> feeds(adj, s, t),
{
    let nodes = all_nodes(adj.len());
    let r = built(adj, nodes);
    assert forall|h: usize| h < adj.len() implies nodes.contains(h) && #[trigger] slot(nodes, h)
        == h by {
        assert(nodes[h as int] == h);
        let i = nodes.index_of(h);
        assert(nodes[i] == h);
    }
    lemma_edges_below(adj, nodes, adj.len(), (t, s));
    if r.edges.contains((t, s)) {
        let target = choose|target: int|
            0 <= target < adj.len() && nodes.contains(target as usize) && #[trigger] edges_into(
                adj,
                nodes,
                target as usize,
                adj[target].len(),
            ).contains((t, s));
        lemma_edges_into(adj, nodes, target as usize, adj[target].len(), (t, s));
        let k = choose|k: int|
            0 <= k < adj[target].len() && (t, s) == (
                slot(nodes, target as usize),
                #[trigger] retained_ancestor(adj, nodes, adj[target][k], adj.len())->Some_0,
            );
        let source = adj[target][k];
        assert(source < adj.len());
        assert(slot(nodes, source) == source);
        assert(slot(nodes, target as usize) == target);
        assert(adj[t as int].contains(s));
    }
    if feeds(adj, s, t) {
        let k = choose|k: int| 0 <= k < adj[t as int].len() && adj[t as int][k] == s;
        assert(s < adj.len());
        assert(slot(nodes, s) == s);
        assert(slot(nodes, t) == t);
        lemma_edges_into(adj, nodes, t, adj[t as int].len(), (t, s));
        assert(retained_ancestor(adj, nodes, adj[t as int][k], adj.len()) == Some(s));
        assert(edges_into(adj, nodes, t, adj[t as int].len()).contains((t, s)));
    }
}

/// After the walk through a graph without cycles from all of its nodes,
/// `s` is a source of `t` exactly if `t` is an input of `s`.
pub proof fn lemma_acyclic_sources(g: Inputs, t: usize, s: usize)
    requires
        graph_wf(g),
        acyclic(g),
    ensures
        canonical(Walk::walked(g, all_nodes(g.len()))).len() == g.len(),
        graph_wf(canonical(Walk::walked(g, all_nodes(g.len())))),
        feeds(canonical(Walk::walked(g, all_nodes(g.len()))), s, t) <==> has_input(
            g,
            s as int,
            t as int,
        ),
{
    let starts = all_nodes(g.len());
    let w = Walk::walked(g, starts);
    Walk::lemma_walked_done(g, starts);
    Walk::lemma_walked_forest(g, starts);
    Walk::lemma_walked_classified(g, starts);
    w.lemma_stream_in_range(g, starts);
    w.lemma_canonical_is_quotient(g, starts, s, t);
    if class_feeds(g, w, s, t) {
        let (x, y) = choose|x: int, y: int|
            0 <= x < g.len() && 0 <= y < g.len() && !(w.colors[x] is White) && w.classes.find(x)
                == s && w.classes.find(y) == t && #[trigger] has_input(g, x, y);
        lemma_acyclic_walk(g, x);
        lemma_acyclic_walk(g, y);
    }
    if has_input(g, s as int, t as int) {
        let k = choose|k: int| 0 <= k < g[s as int].len() && #[trigger] g[s as int][k] == t as int;
        assert(g[s as int][k] < g.len());
        lemma_acyclic_walk(g, s as int);
        lemma_acyclic_walk(g, t as int);
        crate::graph::lemma_reaches_self(g, s as int);
        assert(s != t);
        assert(class_feeds(g, w, s, t));
    }
}

/// A graph without cycles, all of whose nodes are start nodes, is
/// reduced to a graph with its own edges: the reduced graph has an edge
/// from `t` to `s` exactly if `t` is an input of `s`.
pub proof fn lemma_acyclic_edges(g: Inputs, t: usize, s: usize)
    requires
        graph_wf(g),
        acyclic(g),
    ensures
        reduced(g, all_nodes(g.len())).edges.contains((t, s)) <==> has_input(g, s as int, t as int),
{
    let starts = all_nodes(g.len());
    let w = Walk::walked(g, starts);
    let adj = canonical(w);
    lemma_acyclic_nodes(g);
    lemma_acyclic_sources(g, t, s);
    lemma_all_retained_edges(adj, t, s);
    assert(reduced(g, starts) == built(adj, retained(w, starts)));
}

/// The sources of the edges into a node are the sources of exactly the
/// edges that lead to it.
pub proof fn lemma_sources_into(edges: Seq<(usize, usize)>, target: usize, source: usize)
    ensures
        sources_into(edges, target as int).len() <= edges.len(),
        sources_into(edges, target as int).contains(source) <==> edges.contains((source, target)),
    decreases edges.len(),
{
    if edges.len() > 0 {
        let rest = edges.drop_last();
        let list = sources_into(rest, target as int);
        let full = sources_into(edges, target as int);
        lemma_sources_into(rest, target, source);
        if full.contains(source) {
            let i = choose|i: int| 0 <= i < full.len() && full[i] == source;
            if i < list.len() {
                assert(list[i] == source);
                let e = choose|e: int| 0 <= e < rest.len() && rest[e] == (source, target);
                assert(edges[e] == (source, target));
            } else {
                assert(edges[edges.len() - 1] == (source, target));
            }
        }
        if edges.contains((source, target)) {
            let e = choose|e: int| 0 <= e < edges.len() && edges[e] == (source, target);
            if e < rest.len() {
                assert(rest[e] == (source, target));
                let i = choose|i: int| 0 <= i < list.len() && list[i] == source;
                assert(full[i] == source);
            } else {
                assert(full[list.len() as int] == source);
            }
        }
    }
}

/// A reduced graph whose nodes and edges can be counted is a graph, in
/// which the walk steps from a node to the sources of the edges into it.
pub proof fn lemma_as_inputs(r: Reduction)
    requires
        r.wf(),
        r.nodes.len() <= usize::MAX,
        r.edges.len() <= usize::MAX,
    ensures
        graph_wf(r.as_inputs()),
        r.as_inputs().len() == r.nodes.len(),
        forall|u: usize, v: usize| #[trigger]
            has_input(r.as_inputs(), u as int, v as int) ==> out_feeds(r, u, v),
        forall|u: usize, v: usize| #[trigger]
            out_feeds(r, u, v) ==> has_input(r.as_inputs(), u as int, v as int),
{
    let g = r.as_inputs();
    assert forall|n: int| 0 <= n < g.len() implies (#[trigger] g[n]).len() <= usize::MAX by {
        lemma_sources_into(r.edges, n as usize, 0);
    }
    assert forall|n: int, k: int| 0 <= n < g.len() && 0 <= k < g[n].len() implies (#[trigger] g[n][k])
        < g.len() by {
        let source = g[n][k];
        lemma_sources_into(r.edges, n as usize, source);
        assert(g[n].contains(source));
        let e = choose|e: int| 0 <= e < r.edges.len() && r.edges[e] == (source, n as usize);
        assert(r.edges[e].0 < r.nodes.len());
    }
    assert forall|u: usize, v: usize| #[trigger]
        has_input(g, u as int, v as int) implies out_feeds(r, u, v) by {
        let k = choose|k: int| 0 <= k < g[u as int].len() && #[trigger] g[u as int][k] == v as int;
        assert(g[u as int].contains(v));
        lemma_sources_into(r.edges, u, v);
    }
    assert forall|u: usize, v: usize| #[trigger] out_feeds(r, u, v) implies has_input(
        g,
        u as int,
        v as int,
    ) by {
        let e = choose|e: int| 0 <= e < r.edges.len() && r.edges[e] == (v, u);
        assert(r.edges[e].1 < r.nodes.len());
        lemma_sources_into(r.edges, u, v);
        let k = choose|k: int| 0 <= k < g[u as int].len() && g[u as int][k] == v;
        assert(g[u as int][k] == v as int);
    }
}

/// A walk through a reduced graph, taken as a graph, is a path of the
/// reduced graph.
pub proof fn lemma_path_is_out_chain(r: Reduction, p: Seq<int>)
    requires
        r.wf(),
        r.nodes.len() <= usize::MAX,
        r.edges.len() <= usize::MAX,
        is_path(r.as_inputs(), p),
    ensures
        out_reaches(r, p.first() as usize, p.last() as usize),
{
    let g = r.as_inputs();
    lemma_as_inputs(r);
    let q = Seq::new(p.len(), |i: int| p[i] as usize);
    assert forall|i: int| 0 <= i < q.len() - 1 implies out_feeds(r, #[trigger] q[i], q[i + 1]) by {
        lemma_path_in_range(g, p, i);
        lemma_path_in_range(g, p, i + 1);
        assert(has_input(g, p[i], p[i + 1]));
        assert(has_input(g, q[i] as int, q[i + 1] as int));
    }
    assert(is_out_chain(r, q));
    assert(q.first() == p.first() as usize && q.last() == p.last() as usize);
}

/// A graph without cycles can be walked from all of its nodes.
pub proof fn lemma_acyclic_starts(g: Inputs)
    requires
        graph_wf(g),
        acyclic(g),
    ensures
        start_nodes_ok(g, all_nodes(g.len())),
{
    let starts = all_nodes(g.len());
    assert forall|k: int| 0 <= k < starts.len() implies !on_cycle(g, (#[trigger] starts[k]) as int) by {
        let r = starts[k] as int;
        if on_cycle(g, r) {
            let u = choose|u: int| u != r && reaches(g, r, u) && #[trigger] has_input(g, u, r);
            assert(!reaches(g, r, u));
        }
    }
}

} // verus!
