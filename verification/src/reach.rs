//! Paths through the canonical graph and through the reduced graph, and
//! why the reduced graph has a path between two retained heads exactly
//! where the canonical graph has one.
//!
//! Both graphs are read in the direction of the walk: from a head to the
//! heads of which it is a source. An edge of the reduced graph from node
//! `a` to node `b` says that `b` is the nearest retained ancestor of a
//! source of `a`; read in the direction of the walk it leads from `b` to
//! `a`.

use vstd::prelude::*;

use crate::construct::{chains_end, edges_below, edges_into, retained_ancestor, Reduction};
use crate::graph::{graph_wf, Inputs};

verus! {

/// `source` is among the sources of `target`.
pub open spec fn feeds(adj: Inputs, source: usize, target: usize) -> bool {
    target < adj.len() && adj[target as int].contains(source)
}

/// `p` is a path through the canonical graph: each head feeds the next.
pub open spec fn is_chain(adj: Inputs, p: Seq<usize>) -> bool {
    &&& p.len() > 0
    &&& forall|i: int| 0 <= i < p.len() - 1 ==> feeds(adj, #[trigger] p[i], p[i + 1])
}

/// The canonical graph has a path from `a` to `b`.
pub open spec fn chain_reaches(adj: Inputs, a: usize, b: usize) -> bool {
    exists|p: Seq<usize>| is_chain(adj, p) && p.first() == a && #[trigger] p.last() == b
}

/// The reduced graph has an edge that, in the direction of the walk,
/// leads from node `a` to node `b`.
pub open spec fn out_feeds(r: Reduction, a: usize, b: usize) -> bool {
    r.edges.contains((b, a))
}

/// `p` is a path through the reduced graph in the direction of the walk.
pub open spec fn is_out_chain(r: Reduction, p: Seq<usize>) -> bool {
    &&& p.len() > 0
    &&& forall|i: int| 0 <= i < p.len() - 1 ==> out_feeds(r, #[trigger] p[i], p[i + 1])
}

/// The reduced graph has a path from node `a` to node `b`, in the
/// direction of the walk.
pub open spec fn out_reaches(r: Reduction, a: usize, b: usize) -> bool {
    exists|p: Seq<usize>| is_out_chain(r, p) && p.first() == a && #[trigger] p.last() == b
}

/// A canonical table and a list of retained heads that fit together: the
/// list names no head twice, holds every head with more than one source,
/// and every chain of first sources that is needed ends in it.
pub open spec fn fits(adj: Inputs, nodes: Seq<usize>) -> bool {
    &&& graph_wf(adj)
    &&& nodes.no_duplicates()
    &&& forall|i: int| 0 <= i < nodes.len() ==> (#[trigger] nodes[i]) < adj.len()
    &&& forall|h: int| 0 <= h < adj.len() && (#[trigger] adj[h]).len() > 1 ==> nodes.contains(h as usize)
    &&& chains_end(adj, nodes)
}

/// The reduced graph that the construction makes of `adj` and `nodes`.
pub open spec fn built(adj: Inputs, nodes: Seq<usize>) -> Reduction {
    Reduction { nodes, edges: edges_below(adj, nodes, adj.len()) }
}

/// The place of the retained head `head` among the nodes.
pub open spec fn slot(nodes: Seq<usize>, head: usize) -> usize {
    nodes.index_of(head) as usize
}

/// The place of a retained head is a place in the list, and holds it.
pub proof fn lemma_slot(adj: Inputs, nodes: Seq<usize>, head: usize)
    requires
        graph_wf(adj),
        forall|i: int| 0 <= i < nodes.len() ==> (#[trigger] nodes[i]) < adj.len(),
        nodes.no_duplicates(),
        nodes.contains(head),
    ensures
        slot(nodes, head) < nodes.len(),
        nodes[slot(nodes, head) as int] == head,
        nodes.len() <= usize::MAX,
{
    let i = nodes.index_of(head);
    assert(nodes[i] == head);
    crate::construct::lemma_no_duplicates_len(nodes, adj.len());
}

/// Every head reaches itself.
pub proof fn lemma_chain_self(adj: Inputs, a: usize)
    ensures
        chain_reaches(adj, a, a),
{
    let p = seq![a];
    assert(is_chain(adj, p));
    assert(p.first() == a && p.last() == a);
}

/// A path through the canonical graph extends by one edge.
pub proof fn lemma_chain_step(adj: Inputs, a: usize, b: usize, c: usize)
    requires
        chain_reaches(adj, a, b),
        feeds(adj, b, c),
    ensures
        chain_reaches(adj, a, c),
{
    let p = choose|p: Seq<usize>| is_chain(adj, p) && p.first() == a && #[trigger] p.last() == b;
    let q = p.push(c);
    assert forall|i: int| 0 <= i < q.len() - 1 implies feeds(adj, #[trigger] q[i], q[i + 1]) by {
        if i < p.len() - 1 {
            assert(feeds(adj, p[i], p[i + 1]));
        }
    }
    assert(is_chain(adj, q));
    assert(q.first() == a && q.last() == c);
}

/// Paths through the canonical graph join.
pub proof fn lemma_chain_trans(adj: Inputs, a: usize, b: usize, c: usize)
    requires
        chain_reaches(adj, a, b),
        chain_reaches(adj, b, c),
    ensures
        chain_reaches(adj, a, c),
{
    let p = choose|p: Seq<usize>| is_chain(adj, p) && p.first() == a && #[trigger] p.last() == b;
    let q = choose|q: Seq<usize>| is_chain(adj, q) && q.first() == b && #[trigger] q.last() == c;
    let r = p + q.subrange(1, q.len() as int);
    assert forall|i: int| 0 <= i < r.len() - 1 implies feeds(adj, #[trigger] r[i], r[i + 1]) by {
        if i < p.len() - 1 {
            assert(feeds(adj, p[i], p[i + 1]));
        } else {
            let j = i - (p.len() - 1);
            assert(feeds(adj, q[j], q[j + 1]));
        }
    }
    assert(is_chain(adj, r));
    assert(r.first() == a && r.last() == c);
}

/// Every node of the reduced graph reaches itself.
pub proof fn lemma_out_self(r: Reduction, a: usize)
    ensures
        out_reaches(r, a, a),
{
    let p = seq![a];
    assert(is_out_chain(r, p));
    assert(p.first() == a && p.last() == a);
}

/// A path through the reduced graph extends by one edge.
pub proof fn lemma_out_step(r: Reduction, a: usize, b: usize, c: usize)
    requires
        out_reaches(r, a, b),
        out_feeds(r, b, c),
    ensures
        out_reaches(r, a, c),
{
    let p = choose|p: Seq<usize>| is_out_chain(r, p) && p.first() == a && #[trigger] p.last() == b;
    let q = p.push(c);
    assert forall|i: int| 0 <= i < q.len() - 1 implies out_feeds(r, #[trigger] q[i], q[i + 1]) by {
        if i < p.len() - 1 {
            assert(out_feeds(r, p[i], p[i + 1]));
        }
    }
    assert(is_out_chain(r, q));
    assert(q.first() == a && q.last() == c);
}

/// The edges made for the first `m` sources of a retained head are those
/// from its place to the nearest retained ancestors of these sources.
pub proof fn lemma_edges_into(adj: Inputs, nodes: Seq<usize>, target: usize, m: nat, e: (usize, usize))
    ensures
        edges_into(adj, nodes, target, m).contains(e) <==> exists|k: int|
            0 <= k < m && e == (
                slot(nodes, target),
                #[trigger] retained_ancestor(adj, nodes, adj[target as int][k], adj.len())->Some_0,
            ),
    decreases m,
{
    let made = edges_into(adj, nodes, target, m);
    if m > 0 {
        let before = edges_into(adj, nodes, target, (m - 1) as nat);
        let last = (
            slot(nodes, target),
            retained_ancestor(adj, nodes, adj[target as int][m - 1], adj.len())->Some_0,
        );
        lemma_edges_into(adj, nodes, target, (m - 1) as nat, e);
        if made.contains(e) {
            let i = choose|i: int| 0 <= i < made.len() && made[i] == e;
            if i < before.len() {
                assert(before[i] == e);
                assert(before.contains(e));
            } else {
                assert(e == last);
            }
        }
        if exists|k: int|
            0 <= k < m && e == (
                slot(nodes, target),
                #[trigger] retained_ancestor(adj, nodes, adj[target as int][k], adj.len())->Some_0,
            ) {
            let k = choose|k: int|
                0 <= k < m && e == (
                    slot(nodes, target),
                    #[trigger] retained_ancestor(
                        adj,
                        nodes,
                        adj[target as int][k],
                        adj.len(),
                    )->Some_0,
                );
            if k < m - 1 {
                assert(before.contains(e));
                let i = choose|i: int| 0 <= i < before.len() && before[i] == e;
                assert(made[i] == e);
            } else {
                assert(made[before.len() as int] == e);
            }
        }
    }
}

/// The edges made for the retained heads below `n` are those made for
/// each of them.
pub proof fn lemma_edges_below(adj: Inputs, nodes: Seq<usize>, n: nat, e: (usize, usize))
    requires
        n <= adj.len() <= usize::MAX,
    ensures
        edges_below(adj, nodes, n).contains(e) <==> exists|t: int|
            0 <= t < n && nodes.contains(t as usize) && #[trigger] edges_into(
                adj,
                nodes,
                t as usize,
                adj[t].len(),
            ).contains(e),
    decreases n,
{
    let made = edges_below(adj, nodes, n);
    if n > 0 {
        let before = edges_below(adj, nodes, (n - 1) as nat);
        let last = edges_into(adj, nodes, (n - 1) as usize, adj[n - 1].len());
        lemma_edges_below(adj, nodes, (n - 1) as nat, e);
        if made.contains(e) {
            let i = choose|i: int| 0 <= i < made.len() && made[i] == e;
            if i < before.len() {
                assert(before[i] == e);
                assert(before.contains(e));
            } else {
                assert(nodes.contains((n - 1) as usize));
                assert(last[i - before.len()] == e);
                assert(last.contains(e));
            }
        }
        if exists|t: int|
            0 <= t < n && nodes.contains(t as usize) && #[trigger] edges_into(
                adj,
                nodes,
                t as usize,
                adj[t].len(),
            ).contains(e) {
            let t = choose|t: int|
                0 <= t < n && nodes.contains(t as usize) && #[trigger] edges_into(
                    adj,
                    nodes,
                    t as usize,
                    adj[t].len(),
                ).contains(e);
            if t < n - 1 {
                assert(before.contains(e));
                let i = choose|i: int| 0 <= i < before.len() && before[i] == e;
                assert(made[i] == e);
            } else {
                let i = choose|i: int| 0 <= i < last.len() && last[i] == e;
                assert(made[before.len() + i] == e);
            }
        }
    }
}

/// The canonical graph has a path from the nearest retained ancestor of
/// a head to that head.
pub proof fn lemma_ancestor_chain(adj: Inputs, nodes: Seq<usize>, head: usize, fuel: nat)
    requires
        graph_wf(adj),
        head < adj.len(),
        retained_ancestor(adj, nodes, head, fuel) is Some,
    ensures
        nodes.contains(head) ==> retained_ancestor(adj, nodes, head, fuel) == Some(
            slot(nodes, head),
        ),
        exists|a: usize|
            nodes.contains(a) && retained_ancestor(adj, nodes, head, fuel) == Some(slot(nodes, a))
                && #[trigger] chain_reaches(adj, a, head),
    decreases fuel,
{
    if nodes.contains(head) {
        lemma_chain_self(adj, head);
        assert(chain_reaches(adj, head, head));
    } else {
        let first = adj[head as int][0];
        lemma_ancestor_chain(adj, nodes, first, (fuel - 1) as nat);
        let a = choose|a: usize|
            nodes.contains(a) && retained_ancestor(adj, nodes, first, (fuel - 1) as nat) == Some(
                slot(nodes, a),
            ) && #[trigger] chain_reaches(adj, a, first);
        assert(adj[head as int].contains(first));
        lemma_chain_step(adj, a, first, head);
        assert(chain_reaches(adj, a, head));
    }
}

/// An edge of the reduced graph follows a path of the canonical graph.
pub proof fn lemma_out_edge_is_chain(adj: Inputs, nodes: Seq<usize>, a: usize, b: usize)
    requires
        fits(adj, nodes),
        out_feeds(built(adj, nodes), a, b),
    ensures
        a < nodes.len(),
        b < nodes.len(),
        chain_reaches(adj, nodes[a as int], nodes[b as int]),
        exists|s: usize|
            #[trigger] chain_reaches(adj, nodes[a as int], s) && feeds(adj, s, nodes[b as int]),
{
    let r = built(adj, nodes);
    lemma_edges_below(adj, nodes, adj.len(), (b, a));
    let t = choose|t: int|
        0 <= t < adj.len() && nodes.contains(t as usize) && #[trigger] edges_into(
            adj,
            nodes,
            t as usize,
            adj[t].len(),
        ).contains((b, a));
    lemma_edges_into(adj, nodes, t as usize, adj[t].len(), (b, a));
    let k = choose|k: int|
        0 <= k < adj[t].len() && (b, a) == (
            slot(nodes, t as usize),
            #[trigger] retained_ancestor(adj, nodes, adj[t][k], adj.len())->Some_0,
        );
    let s = adj[t][k];
    assert(retained_ancestor(adj, nodes, s, adj.len()) is Some);
    lemma_ancestor_chain(adj, nodes, s, adj.len());
    let top = choose|top: usize|
        nodes.contains(top) && retained_ancestor(adj, nodes, s, adj.len()) == Some(slot(nodes, top))
            && #[trigger] chain_reaches(adj, top, s);
    lemma_slot(adj, nodes, top);
    lemma_slot(adj, nodes, t as usize);
    assert(adj[t].contains(s));
    lemma_chain_step(adj, top, s, t as usize);
    assert(chain_reaches(adj, nodes[a as int], s) && feeds(adj, s, nodes[b as int]));
}

/// A path of the reduced graph follows a path of the canonical graph.
pub proof fn lemma_out_chain_is_chain(adj: Inputs, nodes: Seq<usize>, p: Seq<usize>, k: int)
    requires
        fits(adj, nodes),
        is_out_chain(built(adj, nodes), p),
        0 <= k < p.len(),
        p[0] < nodes.len(),
    ensures
        p[k] < nodes.len(),
        chain_reaches(adj, nodes[p[0] as int], nodes[p[k] as int]),
    decreases k,
{
    if k == 0 {
        lemma_chain_self(adj, nodes[p[0] as int]);
    } else {
        lemma_out_chain_is_chain(adj, nodes, p, k - 1);
        assert(out_feeds(built(adj, nodes), p[k - 1], p[k - 1 + 1]));
        lemma_out_edge_is_chain(adj, nodes, p[k - 1], p[k]);
        lemma_chain_trans(adj, nodes[p[0] as int], nodes[p[k - 1] as int], nodes[p[k] as int]);
    }
}

/// A head that is not retained has no source but the one that feeds it.
pub proof fn lemma_only_source(adj: Inputs, nodes: Seq<usize>, source: usize, head: usize)
    requires
        fits(adj, nodes),
        feeds(adj, source, head),
        !nodes.contains(head),
    ensures
        adj[head as int].len() == 1,
        adj[head as int][0] == source,
{
    let i = choose|i: int| 0 <= i < adj[head as int].len() && adj[head as int][i] == source;
    assert(!(adj[head as int].len() > 1));
}

/// Along a path of heads that are not retained, the nearest retained
/// ancestor is the retained head at which the path begins.
pub proof fn lemma_ancestor_along(
    adj: Inputs,
    nodes: Seq<usize>,
    p: Seq<usize>,
    j: int,
    i: int,
    fuel: nat,
)
    requires
        fits(adj, nodes),
        is_chain(adj, p),
        0 <= j <= i < p.len(),
        nodes.contains(p[j]),
        forall|m: int| j < m <= i ==> !nodes.contains(#[trigger] p[m]),
        retained_ancestor(adj, nodes, p[i], fuel) is Some,
    ensures
        retained_ancestor(adj, nodes, p[i], fuel) == Some(slot(nodes, p[j])),
    decreases i - j,
{
    if i > j {
        assert(feeds(adj, p[i - 1], p[i - 1 + 1]));
        lemma_only_source(adj, nodes, p[i - 1], p[i]);
        lemma_ancestor_along(adj, nodes, p, j, i - 1, (fuel - 1) as nat);
    }
}

/// The last place up to `i` on the path `p` that holds a retained head,
/// or the first place of the path.
pub open spec fn last_kept(nodes: Seq<usize>, p: Seq<usize>, i: int) -> int
    decreases i,
{
    if i <= 0 || nodes.contains(p[i]) {
        i
    } else {
        last_kept(nodes, p, i - 1)
    }
}

/// After the last place that holds a retained head, no place up to `i`
/// holds one.
pub proof fn lemma_last_kept(nodes: Seq<usize>, p: Seq<usize>, i: int)
    requires
        0 <= i < p.len(),
        nodes.contains(p[0]),
    ensures
        0 <= last_kept(nodes, p, i) <= i,
        nodes.contains(p[last_kept(nodes, p, i)]),
        forall|m: int| last_kept(nodes, p, i) < m <= i ==> !nodes.contains(#[trigger] p[m]),
    decreases i,
{
    if !(i <= 0 || nodes.contains(p[i])) {
        lemma_last_kept(nodes, p, i - 1);
    }
}

/// The reduced graph has an edge from the place of a retained head to
/// the nearest retained ancestor of each of its sources.
pub proof fn lemma_edge_made(adj: Inputs, nodes: Seq<usize>, source: usize, target: usize)
    requires
        fits(adj, nodes),
        feeds(adj, source, target),
        nodes.contains(target),
    ensures
        retained_ancestor(adj, nodes, source, adj.len()) is Some,
        out_feeds(
            built(adj, nodes),
            retained_ancestor(adj, nodes, source, adj.len())->Some_0,
            slot(nodes, target),
        ),
{
    let k = choose|k: int| 0 <= k < adj[target as int].len() && adj[target as int][k] == source;
    let t = target as int;
    assert(retained_ancestor(adj, nodes, adj[t][k], adj.len()) is Some);
    let e = (slot(nodes, target), retained_ancestor(adj, nodes, source, adj.len())->Some_0);
    lemma_edges_into(adj, nodes, target, adj[t].len(), e);
    lemma_edges_below(adj, nodes, adj.len(), e);
    assert(edges_into(adj, nodes, t as usize, adj[t].len()).contains(e));
}

/// A path of the canonical graph between retained heads is followed by
/// a path of the reduced graph.
pub proof fn lemma_chain_is_out_chain(adj: Inputs, nodes: Seq<usize>, p: Seq<usize>, k: int)
    requires
        fits(adj, nodes),
        is_chain(adj, p),
        0 <= k < p.len(),
        nodes.contains(p[0]),
        nodes.contains(p[k]),
    ensures
        out_reaches(built(adj, nodes), slot(nodes, p[0]), slot(nodes, p[k])),
    decreases k,
{
    let r = built(adj, nodes);
    if k == 0 {
        lemma_out_self(r, slot(nodes, p[0]));
    } else {
        let j = last_kept(nodes, p, k - 1);
        lemma_last_kept(nodes, p, k - 1);
        assert(feeds(adj, p[k - 1], p[k - 1 + 1]));
        lemma_edge_made(adj, nodes, p[k - 1], p[k]);
        lemma_ancestor_along(adj, nodes, p, j, k - 1, adj.len());
        lemma_chain_is_out_chain(adj, nodes, p, j);
        lemma_out_step(r, slot(nodes, p[0]), slot(nodes, p[j]), slot(nodes, p[k]));
    }
}

/// The reduced graph has a path between the places of two retained
/// heads exactly if the canonical graph has a path between the heads.
pub proof fn lemma_built_keeps_paths(adj: Inputs, nodes: Seq<usize>, a: usize, b: usize)
    requires
        fits(adj, nodes),
        nodes.contains(a),
        nodes.contains(b),
    ensures
        out_reaches(built(adj, nodes), slot(nodes, a), slot(nodes, b)) <==> chain_reaches(
            adj,
            a,
            b,
        ),
{
    let r = built(adj, nodes);
    lemma_slot(adj, nodes, a);
    lemma_slot(adj, nodes, b);
    if out_reaches(r, slot(nodes, a), slot(nodes, b)) {
        let p = choose|p: Seq<usize>|
            is_out_chain(r, p) && p.first() == slot(nodes, a) && #[trigger] p.last() == slot(
                nodes,
                b,
            );
        lemma_out_chain_is_chain(adj, nodes, p, p.len() - 1);
    }
    if chain_reaches(adj, a, b) {
        let p = choose|p: Seq<usize>| is_chain(adj, p) && p.first() == a && #[trigger] p.last() == b;
        lemma_chain_is_out_chain(adj, nodes, p, p.len() - 1);
    }
}

/// Every head of a path of the canonical graph reaches every later head
/// of the path.
pub proof fn lemma_chain_part(adj: Inputs, p: Seq<usize>, i: int, j: int)
    requires
        is_chain(adj, p),
        0 <= i <= j < p.len(),
    ensures
        chain_reaches(adj, p[i], p[j]),
{
    let q = p.subrange(i, j + 1);
    assert forall|k: int| 0 <= k < q.len() - 1 implies feeds(adj, #[trigger] q[k], q[k + 1]) by {
        assert(feeds(adj, p[i + k], p[i + k + 1]));
    }
    assert(is_chain(adj, q));
    assert(q.first() == p[i] && q.last() == p[j]);
}

/// A cycle of the canonical graph through a retained head is followed by
/// a cycle of the reduced graph: where a retained head reaches one of
/// its sources, the reduced graph has an edge that a path leads back
/// along. The result is such an edge, in the direction of the walk.
pub proof fn lemma_cycle_is_out_cycle(adj: Inputs, nodes: Seq<usize>, source: usize, head: usize) -> (e:
    (usize, usize))
    requires
        fits(adj, nodes),
        nodes.contains(head),
        feeds(adj, source, head),
        chain_reaches(adj, head, source),
    ensures
        out_feeds(built(adj, nodes), e.0, e.1),
        out_reaches(built(adj, nodes), e.1, e.0),
{
    let p = choose|p: Seq<usize>| is_chain(adj, p) && p.first() == head && #[trigger] p.last() == source;
    let k = p.len() - 1;
    let j = last_kept(nodes, p, k);
    lemma_last_kept(nodes, p, k);
    lemma_edge_made(adj, nodes, source, head);
    lemma_ancestor_along(adj, nodes, p, j, k, adj.len());
    lemma_chain_is_out_chain(adj, nodes, p, j);
    (slot(nodes, p[j]), slot(nodes, head))
}

} // verus!
