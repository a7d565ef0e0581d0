//! What holds of every walk and of every reduced graph.

use vstd::prelude::*;

use crate::construct::{
    candidates, canonical, heads_of, lemma_distinct, lemma_distinct_contains, reduced, retained,
};
use crate::fixpoint::{
    acyclic, all_nodes, lemma_acyclic_edges, lemma_acyclic_nodes, lemma_acyclic_starts,
    lemma_as_inputs, lemma_path_is_out_chain,
};
use crate::graph::{
    graph_wf, has_input, is_path, lemma_reaches_input, mutually_reachable, reaches, Inputs,
};
use crate::quotient::{class_reaches, is_class_chain};
use crate::reach::{
    built, chain_reaches, feeds, is_chain, is_out_chain, lemma_built_keeps_paths,
    lemma_chain_trans, lemma_out_chain_is_chain, lemma_out_edge_is_chain, out_feeds, out_reaches,
    slot,
};
use crate::walk::{reached_from, start_nodes_in_range, start_nodes_ok, Walk};

verus! {

/// The walk merges no more than cycles: two nodes that the walk has put
/// into one class can each be reached from the other.
pub proof fn lemma_classes_lie_on_cycles(g: Inputs, starts: Seq<usize>, u: int, v: int)
    requires
        graph_wf(g),
        start_nodes_in_range(g, starts),
        0 <= u < g.len(),
        0 <= v < g.len(),
        Walk::walked(g, starts).classes.same(u, v),
    ensures
        mutually_reachable(g, u, v),
{
    Walk::lemma_walked_done(g, starts);
}

/// The head of every start node is a node of the reduced graph.
pub proof fn lemma_start_heads_retained(g: Inputs, starts: Seq<usize>, k: int)
    requires
        0 <= k < starts.len(),
    ensures
        reduced(g, starts).nodes.contains(Walk::walked(g, starts).classes.find(starts[k] as int)),
{
    let w = Walk::walked(g, starts);
    let list = candidates(w.classes, starts, w.leaf_nodes, canonical(w));
    let head = w.classes.find(starts[k] as int);
    assert(heads_of(w.classes, starts)[k] == head);
    assert(list[k] == head);
    lemma_distinct_contains(list, head);
}

/// The head of every leaf that the walk recorded is a node of the
/// reduced graph.
pub proof fn lemma_leaf_heads_retained(g: Inputs, starts: Seq<usize>, l: int)
    requires
        0 <= l < Walk::walked(g, starts).leaf_nodes.len(),
    ensures
        reduced(g, starts).nodes.contains(
            Walk::walked(g, starts).classes.find(Walk::walked(g, starts).leaf_nodes[l] as int),
        ),
{
    let w = Walk::walked(g, starts);
    let list = candidates(w.classes, starts, w.leaf_nodes, canonical(w));
    let head = w.classes.find(w.leaf_nodes[l] as int);
    assert(heads_of(w.classes, w.leaf_nodes)[l] == head);
    assert(list[starts.len() + l] == head);
    lemma_distinct_contains(list, head);
}

/// No head is a node of the reduced graph twice.
pub proof fn lemma_nodes_distinct(g: Inputs, starts: Seq<usize>)
    ensures
        reduced(g, starts).nodes.no_duplicates(),
        reduced(g, starts).nodes == retained(Walk::walked(g, starts), starts),
{
    let w = Walk::walked(g, starts);
    lemma_distinct(candidates(w.classes, starts, w.leaf_nodes, canonical(w)));
}

/// The reduced graph keeps the paths between what it retains: it has a
/// path from the node of one retained head to the node of another,
/// exactly if the graph of classes has a path from the class of the one
/// to the class of the other. Both are read in the direction of the walk;
/// an edge of the reduced graph from `x` to `y` leads from `y` to `x` in
/// that direction.
pub proof fn lemma_reduced_keeps_paths(g: Inputs, starts: Seq<usize>, a: usize, b: usize)
    requires
        graph_wf(g),
        start_nodes_in_range(g, starts),
        reduced(g, starts).nodes.contains(a),
        reduced(g, starts).nodes.contains(b),
    ensures
        out_reaches(
            reduced(g, starts),
            slot(reduced(g, starts).nodes, a),
            slot(reduced(g, starts).nodes, b),
        ) <==> class_reaches(g, Walk::walked(g, starts), a, b),
{
    let w = Walk::walked(g, starts);
    let adj = canonical(w);
    let nodes = retained(w, starts);
    Walk::lemma_walked_done(g, starts);
    Walk::lemma_walked_forest(g, starts);
    Walk::lemma_walked_classified(g, starts);
    w.lemma_finished_fits(g, starts);
    assert(reduced(g, starts) == built(adj, nodes));
    lemma_built_keeps_paths(adj, nodes, a, b);
    if chain_reaches(adj, a, b) {
        let p = choose|p: Seq<usize>| is_chain(adj, p) && p.first() == a && #[trigger] p.last() == b;
        w.lemma_chains_are_class_chains(g, starts, p);
    }
    if class_reaches(g, w, a, b) {
        let p = choose|p: Seq<usize>|
            is_class_chain(g, w, p) && p.first() == a && #[trigger] p.last() == b;
        w.lemma_chains_are_class_chains(g, starts, p);
    }
}

/// After the walk, all that the walk knows of its result holds.
pub proof fn lemma_walked_settled(g: Inputs, starts: Seq<usize>)
    requires
        graph_wf(g),
        start_nodes_in_range(g, starts),
    ensures
        Walk::walked(g, starts).settled(g, starts),
{
    Walk::lemma_walked_done(g, starts);
    Walk::lemma_walked_forest(g, starts);
    Walk::lemma_walked_classified(g, starts);
}

/// The walk visits what the start nodes reach, and nothing else.
pub proof fn lemma_visited_is_reached(g: Inputs, starts: Seq<usize>, v: int)
    requires
        graph_wf(g),
        start_nodes_in_range(g, starts),
        0 <= v < g.len(),
    ensures
        Walk::walked(g, starts).visited(v) <==> reached_from(g, starts, v),
{
    let w = Walk::walked(g, starts);
    lemma_walked_settled(g, starts);
    Walk::lemma_walked_done(g, starts);
    if reached_from(g, starts, v) {
        let j = choose|j: int| 0 <= j < starts.len() && reaches(g, (#[trigger] starts[j]) as int, v);
        let p = choose|p: Seq<int>|
            is_path(g, p) && p.first() == starts[j] as int && #[trigger] p.last() == v;
        assert(w.colors[starts[j] as int] is Black);
        w.lemma_reached_visited(g, starts, p, p.len() - 1);
    }
}

/// The walk records as leaves the nodes without inputs that the start
/// nodes reach, each once.
pub proof fn lemma_leaves_are_reached_inputs(g: Inputs, starts: Seq<usize>, v: usize)
    requires
        graph_wf(g),
        start_nodes_in_range(g, starts),
    ensures
        Walk::walked(g, starts).leaf_nodes.contains(v) <==> reached_from(g, starts, v as int)
            && g[v as int].len() == 0,
        Walk::walked(g, starts).leaf_nodes.no_duplicates(),
{
    let w = Walk::walked(g, starts);
    Walk::lemma_walked_leaves(g, starts);
    Walk::lemma_walked_done(g, starts);
    if v < g.len() {
        lemma_visited_is_reached(g, starts, v as int);
        if w.colors[v as int] is Grey {
            assert(w.colors[v as int]->Grey_0 < w.stack.len());
        }
    } else if reached_from(g, starts, v as int) {
        let j = choose|j: int| 0 <= j < starts.len() && reaches(g, (#[trigger] starts[j]) as int, v as int);
        crate::graph::lemma_reaches_in_range(g, starts[j] as int, v as int);
    }
}

/// The head of every node without inputs that the start nodes reach is
/// a node of the reduced graph.
pub proof fn lemma_input_heads_retained(g: Inputs, starts: Seq<usize>, v: usize)
    requires
        graph_wf(g),
        start_nodes_in_range(g, starts),
        reached_from(g, starts, v as int),
        g[v as int].len() == 0,
    ensures
        reduced(g, starts).nodes.contains(Walk::walked(g, starts).classes.find(v as int)),
{
    let w = Walk::walked(g, starts);
    lemma_leaves_are_reached_inputs(g, starts, v);
    let l = choose|l: int| 0 <= l < w.leaf_nodes.len() && w.leaf_nodes[l] == v;
    lemma_leaf_heads_retained(g, starts, l);
}

/// Every node of the reduced graph stands for a class that the start
/// nodes reach: it is the head of its own class, and one of the start
/// nodes reaches it.
pub proof fn lemma_nodes_are_reached_heads(g: Inputs, starts: Seq<usize>, h: usize)
    requires
        graph_wf(g),
        start_nodes_in_range(g, starts),
        reduced(g, starts).nodes.contains(h),
    ensures
        h < g.len(),
        Walk::walked(g, starts).classes.find(h as int) == h,
        reached_from(g, starts, h as int),
{
    let w = Walk::walked(g, starts);
    let adj = canonical(w);
    let list = candidates(w.classes, starts, w.leaf_nodes, adj);
    let from_starts = heads_of(w.classes, starts);
    let from_leaves = heads_of(w.classes, w.leaf_nodes);
    lemma_walked_settled(g, starts);
    Walk::lemma_walked_done(g, starts);
    Walk::lemma_walked_leaves(g, starts);
    w.lemma_stream_in_range(g, starts);
    lemma_distinct_contains(list, h);
    let j = choose|j: int| 0 <= j < list.len() && list[j] == h;
    if j < from_starts.len() {
        assert(list[j] == from_starts[j]);
        assert(w.colors[starts[j] as int] is Black);
        w.lemma_head_visited(g, starts, starts[j] as int);
    } else if j < from_starts.len() + from_leaves.len() {
        let l = j - from_starts.len();
        assert(list[j] == from_leaves[l]);
        assert(w.leaf_nodes.contains(w.leaf_nodes[l]));
        w.lemma_head_visited(g, starts, w.leaf_nodes[l] as int);
    } else {
        let k = j - from_starts.len() - from_leaves.len();
        let points = crate::construct::merge_points(adj, adj.len());
        assert(list[j] == points[k]);
        assert(points.contains(h));
        crate::quotient::lemma_merge_points(adj, adj.len(), h);
        w.lemma_fed_is_visited(g, starts, h as int);
    }
    lemma_visited_is_reached(g, starts, h as int);
}

/// The reduced graph keeps the paths between its nodes: it has a path
/// from the node of one retained head to the node of another exactly if
/// the graph has one between the two heads. Both are read in the
/// direction of the walk.
pub proof fn lemma_reduced_keeps_reach(g: Inputs, starts: Seq<usize>, a: usize, b: usize)
    requires
        graph_wf(g),
        start_nodes_in_range(g, starts),
        reduced(g, starts).nodes.contains(a),
        reduced(g, starts).nodes.contains(b),
    ensures
        out_reaches(
            reduced(g, starts),
            slot(reduced(g, starts).nodes, a),
            slot(reduced(g, starts).nodes, b),
        ) <==> reaches(g, a as int, b as int),
{
    let w = Walk::walked(g, starts);
    let adj = canonical(w);
    let nodes = retained(w, starts);
    lemma_walked_settled(g, starts);
    w.lemma_finished_fits(g, starts);
    lemma_nodes_are_reached_heads(g, starts, a);
    lemma_nodes_are_reached_heads(g, starts, b);
    lemma_visited_is_reached(g, starts, a as int);
    lemma_reduced_keeps_paths(g, starts, a, b);
    assert(reduced(g, starts) == built(adj, nodes));
    lemma_built_keeps_paths(adj, nodes, a, b);
    if class_reaches(g, w, a, b) {
        let p = choose|p: Seq<usize>|
            is_class_chain(g, w, p) && p.first() == a && #[trigger] p.last() == b;
        w.lemma_class_chain_path(g, starts, p, p.len() - 1, a as int, b as int);
    }
    if reaches(g, a as int, b as int) {
        let p = choose|p: Seq<int>|
            is_path(g, p) && p.first() == a as int && #[trigger] p.last() == b as int;
        w.lemma_path_is_chain(g, starts, p, p.len() - 1);
    }
}

/// The walk merges every cycle that it visits: two nodes that the start
/// nodes reach and that reach each other are of one class, where every
/// cross edge that closes a cycle joins two nodes of one class.
pub proof fn lemma_cycles_lie_in_classes(g: Inputs, starts: Seq<usize>, u: int, v: int)
    requires
        graph_wf(g),
        start_nodes_in_range(g, starts),
        Walk::walked(g, starts).cross_edges_merged(g),
        reached_from(g, starts, u),
        mutually_reachable(g, u, v),
    ensures
        Walk::walked(g, starts).classes.same(u, v),
{
    let w = Walk::walked(g, starts);
    lemma_walked_settled(g, starts);
    crate::graph::lemma_reaches_in_range(g, u, v);
    lemma_visited_is_reached(g, starts, u);
    let p = choose|p: Seq<int>| is_path(g, p) && p.first() == u && #[trigger] p.last() == v;
    w.lemma_cycle_in_class(g, starts, p, p.len() - 1);
}

/// Where the walk merges every cycle that it visits, every cross edge
/// that closes a cycle joins two nodes of one class: the condition of
/// `lemma_cycles_lie_in_classes` leaves out no walk of which its
/// conclusion holds.
pub proof fn lemma_cross_edges_merged_is_needed(g: Inputs, starts: Seq<usize>)
    requires
        graph_wf(g),
        start_nodes_in_range(g, starts),
        forall|u: int, v: int|
            reached_from(g, starts, u) && #[trigger] mutually_reachable(g, u, v)
                ==> Walk::walked(g, starts).classes.same(u, v),
    ensures
        Walk::walked(g, starts).cross_edges_merged(g),
{
    let w = Walk::walked(g, starts);
    lemma_walked_settled(g, starts);
    assert forall|e: int|
        0 <= e < w.cross_edges.len() && reaches(
            g,
            (#[trigger] w.cross_edges[e]).1 as int,
            w.cross_edges[e].0 as int,
        ) implies w.classes.same(w.cross_edges[e].0 as int, w.cross_edges[e].1 as int) by {
        let x = w.cross_edges[e].0 as int;
        let y = w.cross_edges[e].1 as int;
        assert(w.visited(x));
        lemma_visited_is_reached(g, starts, x);
        lemma_reaches_input(g, x, y);
        assert(mutually_reachable(g, x, y));
    }
}

/// The reduced graph has no cycle: no edge leads to a node from which a
/// path leads back, where every cross edge of the walk that closes a
/// cycle joins two nodes of one class.
pub proof fn lemma_reduced_is_acyclic(g: Inputs, starts: Seq<usize>, a: usize, b: usize)
    requires
        graph_wf(g),
        start_nodes_in_range(g, starts),
        Walk::walked(g, starts).cross_edges_merged(g),
        out_feeds(reduced(g, starts), a, b),
    ensures
        !out_reaches(reduced(g, starts), b, a),
{
    let w = Walk::walked(g, starts);
    let adj = canonical(w);
    let nodes = retained(w, starts);
    let r = reduced(g, starts);
    lemma_walked_settled(g, starts);
    w.lemma_finished_fits(g, starts);
    assert(r == built(adj, nodes));
    lemma_out_edge_is_chain(adj, nodes, a, b);
    let s = choose|s: usize|
        #[trigger] chain_reaches(adj, nodes[a as int], s) && feeds(adj, s, nodes[b as int]);
    let t = nodes[b as int];
    if out_reaches(r, b, a) {
        let q = choose|q: Seq<usize>| is_out_chain(r, q) && q.first() == b && #[trigger] q.last() == a;
        lemma_out_chain_is_chain(adj, nodes, q, q.len() - 1);
        lemma_chain_trans(adj, t, nodes[a as int], s);
        // an edge of the graph leads from the class of `s` to the class
        // of `t`, and a path leads back
        w.lemma_canonical_is_quotient(g, starts, s, t);
        let (x, y) = choose|x: int, y: int|
            0 <= x < g.len() && 0 <= y < g.len() && !(w.colors[x] is White) && w.classes.find(x)
                == s && w.classes.find(y) == t && #[trigger] has_input(g, x, y);
        let back = choose|p: Seq<usize>| is_chain(adj, p) && p.first() == t && #[trigger] p.last() == s;
        w.lemma_chains_are_class_chains(g, starts, back);
        w.lemma_class_chain_path(g, starts, back, back.len() - 1, y, x);
        lemma_reaches_input(g, x, y);
        lemma_visited_is_reached(g, starts, x);
        lemma_cycles_lie_in_classes(g, starts, x, y);
        assert(false);
    }
}

/// Where the reduced graph has no cycle, every cross edge of the walk
/// that closes a cycle joins two nodes of one class: the condition of
/// `lemma_reduced_is_acyclic` leaves out no graph of which its
/// conclusion holds.
pub proof fn lemma_acyclic_needs_cross_edges_merged(g: Inputs, starts: Seq<usize>)
    requires
        graph_wf(g),
        start_nodes_in_range(g, starts),
        forall|a: usize, b: usize| #[trigger]
            out_feeds(reduced(g, starts), a, b) ==> !out_reaches(reduced(g, starts), b, a),
    ensures
        Walk::walked(g, starts).cross_edges_merged(g),
{
    let w = Walk::walked(g, starts);
    let r = reduced(g, starts);
    lemma_walked_settled(g, starts);
    assert(r == built(canonical(w), retained(w, starts)));
    assert forall|e: int|
        0 <= e < w.cross_edges.len() && reaches(
            g,
            (#[trigger] w.cross_edges[e]).1 as int,
            w.cross_edges[e].0 as int,
        ) implies w.classes.same(w.cross_edges[e].0 as int, w.cross_edges[e].1 as int) by {
        if !w.classes.same(w.cross_edges[e].0 as int, w.cross_edges[e].1 as int) {
            let c = w.lemma_unmerged_makes_cycle(g, starts, e);
            assert(out_feeds(r, c.0, c.1));
        }
    }
}

/// Every edge of the reduced graph joins two of its nodes, and the
/// reduced graph has no more nodes than the graph.
pub proof fn lemma_reduced_wf(g: Inputs, starts: Seq<usize>)
    requires
        graph_wf(g),
        start_nodes_in_range(g, starts),
    ensures
        reduced(g, starts).wf(),
        reduced(g, starts).nodes.len() <= g.len(),
{
    let w = Walk::walked(g, starts);
    let adj = canonical(w);
    let nodes = retained(w, starts);
    let r = reduced(g, starts);
    lemma_walked_settled(g, starts);
    w.lemma_finished_fits(g, starts);
    w.lemma_stream_in_range(g, starts);
    assert(r == built(adj, nodes));
    crate::construct::lemma_no_duplicates_len(nodes, adj.len());
    assert forall|e: int| 0 <= e < r.edges.len() implies (#[trigger] r.edges[e]).0 < r.nodes.len()
        && r.edges[e].1 < r.nodes.len() by {
        let (b, a) = r.edges[e];
        assert(r.edges.contains((b, a)));
        lemma_out_edge_is_chain(adj, nodes, a, b);
    }
}

/// The reduced graph, taken as a graph of its own, has no cycle, where
/// every cross edge of the walk that closes a cycle joins two nodes of
/// one class.
pub proof fn lemma_reduced_graph_is_acyclic(g: Inputs, starts: Seq<usize>)
    requires
        graph_wf(g),
        start_nodes_in_range(g, starts),
        Walk::walked(g, starts).cross_edges_merged(g),
        reduced(g, starts).edges.len() <= usize::MAX,
    ensures
        graph_wf(reduced(g, starts).as_inputs()),
        acyclic(reduced(g, starts).as_inputs()),
{
    let r = reduced(g, starts);
    let again = r.as_inputs();
    lemma_reduced_wf(g, starts);
    lemma_as_inputs(r);
    assert forall|u: int, v: int| #[trigger] has_input(again, u, v) implies !reaches(again, v, u) by {
        let k = choose|k: int| 0 <= k < again[u].len() && #[trigger] again[u][k] == v;
        assert(again[u][k] < again.len());
        assert(has_input(again, u as usize as int, v as usize as int));
        lemma_reduced_is_acyclic(g, starts, u as usize, v as usize);
        if reaches(again, v, u) {
            let p = choose|p: Seq<int>| is_path(again, p) && p.first() == v && #[trigger] p.last() == u;
            lemma_path_is_out_chain(r, p);
        }
    }
}

/// Reducing a reduced graph once more, with all of its nodes as start
/// nodes, is allowed and gives the same graph: the same nodes in the same
/// order, and an edge exactly where the reduced graph has one. This holds
/// where every cross edge of the walk that closes a cycle joins two nodes
/// of one class, and the edges of the reduced graph can be counted. Of
/// several edges between the same two nodes one is left.
pub proof fn lemma_reduction_is_idempotent(g: Inputs, starts: Seq<usize>, e: (usize, usize))
    requires
        graph_wf(g),
        start_nodes_in_range(g, starts),
        Walk::walked(g, starts).cross_edges_merged(g),
        reduced(g, starts).edges.len() <= usize::MAX,
    ensures
        graph_wf(reduced(g, starts).as_inputs()),
        start_nodes_ok(reduced(g, starts).as_inputs(), all_nodes(reduced(g, starts).nodes.len())),
        reduced(
            reduced(g, starts).as_inputs(),
            all_nodes(reduced(g, starts).nodes.len()),
        ).nodes == all_nodes(reduced(g, starts).nodes.len()),
        reduced(
            reduced(g, starts).as_inputs(),
            all_nodes(reduced(g, starts).nodes.len()),
        ).edges.contains(e) <==> reduced(g, starts).edges.contains(e),
{
    let r = reduced(g, starts);
    let again = r.as_inputs();
    lemma_reduced_wf(g, starts);
    lemma_reduced_graph_is_acyclic(g, starts);
    lemma_as_inputs(r);
    lemma_acyclic_starts(again);
    lemma_acyclic_nodes(again);
    lemma_acyclic_edges(again, e.0, e.1);
    assert(has_input(again, e.1 as int, e.0 as int) <==> out_feeds(r, e.1, e.0));
}

} // verus!
