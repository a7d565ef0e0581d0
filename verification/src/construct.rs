//! Second phase: the reduced graph is built from what the walk recorded.
//!
//! The walk has found the classes of nodes that lie on common cycles, a
//! parent for each node that it reached from another, and the cross edges.
//! With every node replaced by the head of its class, the parent edges and
//! the cross edges form the canonical graph. Of its nodes the reduced
//! graph retains the heads of the start nodes and of the leaves, and every
//! head with more than one source; an edge from a head that is not
//! retained is moved up to the nearest retained head on the chain of first
//! sources.

use vstd::prelude::*;

use crate::graph::{graph_wf, Graph, Inputs};
use crate::unify::Partition;
use crate::walk::Walk;
use crate::Dag;
use crate::GraphReduce;

verus! {

/// The model of a reduced graph.
pub struct Reduction {
    /// For each node of the reduced graph, the node of the input graph
    /// that it stands for.
    pub nodes: Seq<usize>,
    /// The edges, each as the positions in `nodes` of its source and of
    /// its target.
    pub edges: Seq<(usize, usize)>,
}

/// A reduced graph.
pub struct Reduced {
    /// For each node of the reduced graph, the node of the input graph
    /// that it stands for.
    pub nodes: Vec<usize>,
    /// The edges, each as the positions in `nodes` of its source and of
    /// its target.
    pub edges: Vec<(usize, usize)>,
}

impl View for Reduced {
    type V = Reduction;

    open spec fn view(&self) -> Reduction {
        Reduction { nodes: self.nodes@, edges: self.edges@ }
    }
}

/// The sources of the edges of `edges` that lead to `target`, in order.
pub open spec fn sources_into(edges: Seq<(usize, usize)>, target: int) -> Seq<usize>
    decreases edges.len(),
{
    if edges.len() == 0 {
        Seq::empty()
    } else if edges.last().1 == target {
        sources_into(edges.drop_last(), target).push(edges.last().0)
    } else {
        sources_into(edges.drop_last(), target)
    }
}

impl Reduction {
    /// Every edge joins two nodes.
    pub open spec fn wf(self) -> bool {
        forall|e: int|
            0 <= e < self.edges.len() ==> (#[trigger] self.edges[e]).0 < self.nodes.len()
                && self.edges[e].1 < self.nodes.len()
    }

    /// The reduced graph as a graph of its own: for each of its nodes the
    /// sources of the edges that lead to it.
    pub open spec fn as_inputs(self) -> Inputs {
        Seq::new(self.nodes.len(), |target: int| sources_into(self.edges, target))
    }
}

impl Reduced {
    /// The reduced graph as a graph of its own, which can be reduced in
    /// turn: each node has as its inputs the sources of the edges that
    /// lead to it.
    pub fn to_graph(&self) -> (graph: Graph)
        requires
            self@.wf(),
        ensures
            graph.wf(),
            graph@ == self@.as_inputs(),
    {
        let n = self.nodes.len();
        let mut graph = Graph::new();
        let mut v: usize = 0;
        while v < n
            invariant
                v <= n,
                graph.wf(),
                graph@ == Seq::new(v as nat, |t: int| Seq::<usize>::empty()),
            decreases n - v,
        {
            graph.add_node();
            v = v + 1;
            assert(graph@ =~= Seq::new(v as nat, |t: int| Seq::<usize>::empty()));
        }
        assert(self.edges@.take(0) =~= Seq::empty());
        assert(graph@ =~= Seq::new(n as nat, |t: int| sources_into(self.edges@.take(0), t)));
        let mut k: usize = 0;
        while k < self.edges.len()
            invariant
                k <= self.edges@.len(),
                n == self.nodes@.len(),
                self@.wf(),
                graph.wf(),
                graph@.len() == n,
                graph@ == Seq::new(n as nat, |t: int| sources_into(self.edges@.take(k as int), t)),
            decreases self.edges@.len() - k,
        {
            let (source, target) = self.edges[k];
            let ghost before = graph@;
            assert(self@.edges[k as int].0 < n && self@.edges[k as int].1 < n);
            graph.add_edge(source, target);
            proof {
                let old_edges = self.edges@.take(k as int);
                let new_edges = self.edges@.take(k + 1);
                assert(new_edges.drop_last() =~= old_edges);
                assert(new_edges.last() == (source, target));
                assert forall|t: int| 0 <= t < n implies #[trigger] graph@[t] == sources_into(
                    new_edges,
                    t,
                ) by {
                    assert(before[t] == sources_into(old_edges, t));
                }
                assert(graph@ =~= Seq::new(n as nat, |t: int| sources_into(new_edges, t)));
            }
            k = k + 1;
        }
        assert(self.edges@.take(k as int) =~= self.edges@);
        graph
    }
}

/// The edges that the walk recorded: from its parent to each node, in the
/// order of the nodes, and then the cross edges.
pub open spec fn edge_stream(parents: Seq<usize>, cross_edges: Seq<(usize, usize)>) -> Seq<
    (usize, usize),
> {
    Seq::new(parents.len(), |v: int| (parents[v], v as usize)) + cross_edges
}

/// The table `adj` with `source` added as a source of `target`, unless
/// the two are one node or `source` is among the sources already.
pub open spec fn add_source(adj: Inputs, source: usize, target: usize) -> Inputs {
    if source != target && !adj[target as int].contains(source) {
        adj.update(target as int, adj[target as int].push(source))
    } else {
        adj
    }
}

/// The canonical sources of every head: the table that holds, for each
/// edge of `stream` in turn, the head of its source among the sources of
/// the head of its target.
pub open spec fn adjacency(classes: Partition, stream: Seq<(usize, usize)>) -> Inputs
    decreases stream.len(),
{
    if stream.len() == 0 {
        Seq::new(classes.len(), |v: int| Seq::empty())
    } else {
        add_source(
            adjacency(classes, stream.drop_last()),
            classes.find(stream.last().0 as int),
            classes.find(stream.last().1 as int),
        )
    }
}

/// The heads below `n` that have more than one source, in rising order.
pub open spec fn merge_points(adj: Inputs, n: nat) -> Seq<usize>
    decreases n,
{
    if n == 0 {
        Seq::empty()
    } else if adj[n - 1].len() > 1 {
        merge_points(adj, (n - 1) as nat).push((n - 1) as usize)
    } else {
        merge_points(adj, (n - 1) as nat)
    }
}

/// The heads of `nodes`, in order.
pub open spec fn heads_of(classes: Partition, nodes: Seq<usize>) -> Seq<usize> {
    Seq::new(nodes.len(), |i: int| classes.find(nodes[i] as int))
}

/// The heads to retain, with repetitions: those of the start nodes, those
/// of the leaves, and the heads with more than one source.
pub open spec fn candidates(
    classes: Partition,
    starts: Seq<usize>,
    leaf_nodes: Seq<usize>,
    adj: Inputs,
) -> Seq<usize> {
    heads_of(classes, starts) + heads_of(classes, leaf_nodes) + merge_points(adj, adj.len())
}

/// `list` without repetitions: of equal entries the first stays.
pub open spec fn distinct(list: Seq<usize>) -> Seq<usize>
    decreases list.len(),
{
    if list.len() == 0 {
        Seq::empty()
    } else if distinct(list.drop_last()).contains(list.last()) {
        distinct(list.drop_last())
    } else {
        distinct(list.drop_last()).push(list.last())
    }
}

/// The position in `nodes` of the nearest retained head on the chain of
/// first sources that begins at `head`, if the chain meets one within
/// `fuel` steps.
pub open spec fn retained_ancestor(adj: Inputs, nodes: Seq<usize>, head: usize, fuel: nat) -> Option<
    usize,
>
    decreases fuel,
{
    if nodes.contains(head) {
        Some(nodes.index_of(head) as usize)
    } else if fuel == 0 || adj[head as int].len() == 0 {
        None
    } else {
        retained_ancestor(adj, nodes, adj[head as int][0], (fuel - 1) as nat)
    }
}

/// From every source of a retained head the chain of first sources leads
/// to a retained head.
pub open spec fn chains_end(adj: Inputs, nodes: Seq<usize>) -> bool {
    forall|t: int, m: int|
        0 <= t < adj.len() && nodes.contains(t as usize) && 0 <= m < adj[t].len()
            ==> retained_ancestor(adj, nodes, #[trigger] adj[t][m], adj.len()) is Some
}

/// The edges of the reduced graph that end in the retained head `target`,
/// for its first `m` sources.
pub open spec fn edges_into(adj: Inputs, nodes: Seq<usize>, target: usize, m: nat) -> Seq<
    (usize, usize),
>
    decreases m,
{
    if m == 0 {
        Seq::empty()
    } else {
        edges_into(adj, nodes, target, (m - 1) as nat).push(
            (
                nodes.index_of(target) as usize,
                retained_ancestor(adj, nodes, adj[target as int][m - 1], adj.len())->Some_0,
            ),
        )
    }
}

/// The edges of the reduced graph that end in a retained head below `n`.
pub open spec fn edges_below(adj: Inputs, nodes: Seq<usize>, n: nat) -> Seq<(usize, usize)>
    decreases n,
{
    if n == 0 {
        Seq::empty()
    } else if nodes.contains((n - 1) as usize) {
        edges_below(adj, nodes, (n - 1) as nat) + edges_into(
            adj,
            nodes,
            (n - 1) as usize,
            adj[n - 1].len(),
        )
    } else {
        edges_below(adj, nodes, (n - 1) as nat)
    }
}

/// The reduced graph for the classes, the start nodes and the record of
/// a walk.
pub open spec fn reduction(
    classes: Partition,
    starts: Seq<usize>,
    parents: Seq<usize>,
    cross_edges: Seq<(usize, usize)>,
    leaf_nodes: Seq<usize>,
) -> Reduction {
    let adj = adjacency(classes, edge_stream(parents, cross_edges));
    let nodes = distinct(candidates(classes, starts, leaf_nodes, adj));
    Reduction { nodes, edges: edges_below(adj, nodes, adj.len()) }
}

/// The classes, the start nodes and the record of a walk fit together:
/// all speak of the same nodes, and every chain of first sources that the
/// reduced graph needs ends in a retained head.
pub open spec fn reducible(
    classes: Partition,
    starts: Seq<usize>,
    parents: Seq<usize>,
    cross_edges: Seq<(usize, usize)>,
    leaf_nodes: Seq<usize>,
) -> bool {
    let n = classes.len();
    let adj = adjacency(classes, edge_stream(parents, cross_edges));
    let nodes = distinct(candidates(classes, starts, leaf_nodes, adj));
    &&& parents.len() == n
    &&& forall|v: int| 0 <= v < n ==> (#[trigger] parents[v]) < n
    &&& forall|e: int|
        0 <= e < cross_edges.len() ==> (#[trigger] cross_edges[e]).0 < n && cross_edges[e].1 < n
    &&& forall|l: int| 0 <= l < leaf_nodes.len() ==> (#[trigger] leaf_nodes[l]) < n
    &&& forall|k: int| 0 <= k < starts.len() ==> (#[trigger] starts[k]) < n
    &&& chains_end(adj, nodes)
}

/// The canonical sources of every head after the walk `w`.
pub open spec fn canonical(w: Walk) -> Inputs {
    adjacency(w.classes, edge_stream(w.parents, w.cross_edges))
}

/// The heads that the reduced graph retains after the walk `w` from
/// `starts`, in the order of its nodes.
pub open spec fn retained(w: Walk, starts: Seq<usize>) -> Seq<usize> {
    distinct(candidates(w.classes, starts, w.leaf_nodes, canonical(w)))
}

/// The reduced graph of `g` for the start nodes `starts`.
pub open spec fn reduced(g: Inputs, starts: Seq<usize>) -> Reduction {
    let w = Walk::walked(g, starts);
    reduction(w.classes, starts, w.parents, w.cross_edges, w.leaf_nodes)
}

/// The table `map` gives for each retained head its place in `nodes`, and
/// `nodes` names no head twice.
pub open spec fn map_ok(map: Seq<Option<usize>>, nodes: Seq<usize>) -> bool {
    &&& map.len() <= usize::MAX
    &&& nodes.no_duplicates()
    &&& forall|i: int| 0 <= i < nodes.len() ==> (#[trigger] nodes[i]) < map.len()
    &&& forall|h: int|
        0 <= h < map.len() ==> match #[trigger] map[h] {
            Some(i) => i < nodes.len() && nodes[i as int] == h,
            None => !nodes.contains(h as usize),
        }
}

/// Adding a source keeps the table's size, its entries in range and its
/// lists without repetitions.
pub proof fn lemma_add_source_wf(adj: Inputs, source: usize, target: usize)
    requires
        graph_wf(adj),
        forall|t: int| 0 <= t < adj.len() ==> (#[trigger] adj[t]).no_duplicates(),
        source < adj.len(),
        target < adj.len(),
    ensures
        graph_wf(add_source(adj, source, target)),
        add_source(adj, source, target).len() == adj.len(),
        forall|t: int|
            0 <= t < adj.len() ==> (#[trigger] add_source(adj, source, target)[t]).no_duplicates(),
{
    let next = add_source(adj, source, target);
    if source != target && !adj[target as int].contains(source) {
        let old_list = adj[target as int];
        let list = old_list.push(source);
        assert(next[target as int] == list);
        assert forall|k: int| 0 <= k < list.len() implies list[k] < adj.len() by {
            if k < old_list.len() {
                assert(list[k] == adj[target as int][k]);
            }
        }
        assert(list.no_duplicates()) by {
            assert forall|i: int, j: int|
                0 <= i < list.len() && 0 <= j < list.len() && i != j implies list[i]
                != list[j] by {
                if i < old_list.len() && j < old_list.len() {
                } else if i < old_list.len() {
                    assert(old_list.contains(old_list[i]));
                } else {
                    assert(old_list.contains(old_list[j]));
                }
            }
        }
        lemma_no_duplicates_len(list, adj.len());
        assert forall|t: int| 0 <= t < next.len() implies (#[trigger] next[t]).len()
            <= usize::MAX by {
            if t != target {
                assert(next[t] == adj[t]);
            }
        }
        assert forall|t: int, k: int| 0 <= t < next.len() && 0 <= k < next[t].len() implies (
        #[trigger] next[t][k]) < next.len() by {
            if t != target {
                assert(next[t][k] == adj[t][k]);
            } else {
                assert(next[t][k] == list[k]);
            }
        }
        assert forall|t: int| 0 <= t < adj.len() implies (#[trigger] next[t]).no_duplicates() by {
            if t != target {
                assert(next[t] == adj[t]);
            }
        }
    }
}

/// A list without repetitions of numbers below `n` has at most `n`
/// entries.
pub proof fn lemma_no_duplicates_len(list: Seq<usize>, n: nat)
    requires
        list.no_duplicates(),
        forall|i: int| 0 <= i < list.len() ==> list[i] < n,
    ensures
        list.len() <= n,
    decreases n,
{
    if list.len() > 0 {
        if n == 0 {
            assert(list[0] < n);
        } else {
            let top = (n - 1) as usize;
            let rest = if list.contains(top) {
                list.remove(list.index_of(top))
            } else {
                list
            };
            if list.contains(top) {
                let at = list.index_of(top);
                assert forall|i: int| 0 <= i < rest.len() implies rest[i] < n - 1 by {
                    if i < at {
                        assert(rest[i] == list[i]);
                        assert(list[i] != list[at]);
                    } else {
                        assert(rest[i] == list[i + 1]);
                        assert(list[i + 1] != list[at]);
                    }
                }
                assert(rest.no_duplicates()) by {
                    assert forall|i: int, j: int|
                        0 <= i < rest.len() && 0 <= j < rest.len() && i != j implies rest[i]
                        != rest[j] by {
                        let ii = if i < at {
                            i
                        } else {
                            i + 1
                        };
                        let jj = if j < at {
                            j
                        } else {
                            j + 1
                        };
                        assert(rest[i] == list[ii] && rest[j] == list[jj]);
                    }
                }
            } else {
                assert forall|i: int| 0 <= i < rest.len() implies rest[i] < n - 1 by {
                    assert(list.contains(list[i]));
                }
            }
            lemma_no_duplicates_len(rest, (n - 1) as nat);
        }
    }
}

/// The canonical table has a list for every key, of heads in range and
/// without repetitions.
pub proof fn lemma_adjacency_wf(classes: Partition, stream: Seq<(usize, usize)>)
    requires
        classes.wf(),
        classes.len() <= usize::MAX,
        forall|e: int|
            0 <= e < stream.len() ==> (#[trigger] stream[e]).0 < classes.len() && stream[e].1
                < classes.len(),
    ensures
        graph_wf(adjacency(classes, stream)),
        adjacency(classes, stream).len() == classes.len(),
        forall|t: int|
            0 <= t < classes.len() ==> (#[trigger] adjacency(classes, stream)[t]).no_duplicates(),
        forall|t: int|
            0 <= t < classes.len() ==> (#[trigger] adjacency(classes, stream)[t]).len()
                <= classes.len(),
    decreases stream.len(),
{
    let adj = adjacency(classes, stream);
    if stream.len() > 0 {
        let rest = stream.drop_last();
        assert forall|e: int| 0 <= e < rest.len() implies (#[trigger] rest[e]).0 < classes.len()
            && rest[e].1 < classes.len() by {
            assert(rest[e] == stream[e]);
        }
        lemma_adjacency_wf(classes, rest);
        let last = stream[stream.len() - 1];
        lemma_add_source_wf(
            adjacency(classes, rest),
            classes.find(last.0 as int),
            classes.find(last.1 as int),
        );
    }
    assert forall|t: int| 0 <= t < classes.len() implies (#[trigger] adj[t]).len()
        <= classes.len() by {
        lemma_no_duplicates_len(adj[t], classes.len());
    }
}

/// The list without repetitions holds `x` exactly if the list does.
pub proof fn lemma_distinct_contains(list: Seq<usize>, x: usize)
    ensures
        distinct(list).contains(x) <==> list.contains(x),
    decreases list.len(),
{
    if list.len() > 0 {
        let rest = list.drop_last();
        let last = list.last();
        let d = distinct(rest);
        lemma_distinct_contains(rest, x);
        if list.contains(x) {
            let i = choose|i: int| 0 <= i < list.len() && list[i] == x;
            if i < rest.len() {
                assert(rest[i] == x);
                assert(rest.contains(x));
                if !d.contains(last) {
                    let j = choose|j: int| 0 <= j < d.len() && d[j] == x;
                    assert(d.push(last)[j] == x);
                }
            } else if !d.contains(last) {
                assert(d.push(last)[d.len() as int] == last);
            }
            assert(distinct(list).contains(x));
        }
        if distinct(list).contains(x) {
            let j = choose|j: int| 0 <= j < distinct(list).len() && distinct(list)[j] == x;
            if j < d.len() {
                assert(d[j] == x);
                assert(d.contains(x));
                let i = choose|i: int| 0 <= i < rest.len() && rest[i] == x;
                assert(list[i] == x);
            } else {
                assert(list[list.len() - 1] == x);
            }
            assert(list.contains(x));
        }
    }
}

/// The list without repetitions has none, and is no longer than the
/// list.
pub proof fn lemma_distinct(list: Seq<usize>)
    ensures
        distinct(list).no_duplicates(),
        distinct(list).len() <= list.len(),
    decreases list.len(),
{
    if list.len() > 0 {
        let rest = list.drop_last();
        let last = list.last();
        lemma_distinct(rest);
        let d = distinct(rest);
        if !d.contains(last) {
            assert forall|i: int, j: int|
                0 <= i < d.len() + 1 && 0 <= j < d.len() + 1 && i != j implies d.push(last)[i]
                != d.push(last)[j] by {
                if i < d.len() && j < d.len() {
                } else if i < d.len() {
                    assert(d.contains(d[i]));
                } else {
                    assert(d.contains(d[j]));
                }
            }
        }
    }
}

/// A retained head's place in `nodes` is the one that the table gives.
proof fn lemma_map_index(map: Seq<Option<usize>>, nodes: Seq<usize>, head: usize)
    requires
        map_ok(map, nodes),
        head < map.len(),
    ensures
        map[head as int] is Some <==> nodes.contains(head),
        map[head as int] matches Some(i) ==> nodes.index_of(head) == i,
{
    if let Some(i) = map[head as int] {
        assert(nodes[i as int] == head);
        assert(nodes.contains(head));
        let j = nodes.index_of(head);
        assert(nodes[j] == head);
    }
}

/// Whether `node` is in `list`.
fn contains(list: &Vec<usize>, node: usize) -> (found: bool)
    ensures
        found == list@.contains(node),
{
    let mut i: usize = 0;
    while i < list.len()
        invariant
            i <= list@.len(),
            forall|j: int| 0 <= j < i ==> list@[j] != node,
        decreases list@.len() - i,
    {
        if list[i] == node {
            return true;
        }
        i = i + 1;
    }
    false
}

/// Adds to the canonical table the edge from `source` to `target`, each
/// replaced by its head.
fn add_canonical(
    r: &mut GraphReduce<'_>,
    edges: &mut Graph,
    source: usize,
    target: usize,
)
    requires
        old(r).wf(),
        old(edges).wf(),
        old(edges)@.len() == old(r).graph().len(),
        source < old(r).graph().len(),
        target < old(r).graph().len(),
    ensures
        final(r).wf(),
        final(r).graph() == old(r).graph(),
        final(r).starts() == old(r).starts(),
        final(r).classes() == old(r).classes(),
        final(edges).wf(),
        final(edges)@ == add_source(
            old(edges)@,
            old(r).classes().find(source as int),
            old(r).classes().find(target as int),
        ),
        final(edges)@.len() == old(edges)@.len(),
{
    let source = r.cycle_head(source);
    let target = r.cycle_head(target);
    if source != target {
        if !contains(edges.predecessor_nodes(target), source) {
            edges.add_edge(source, target);
        }
    }
}

/// Retains `head`, unless it is retained already.
fn retain(nodes: &mut Vec<usize>, retain_map: &mut Vec<Option<usize>>, head: usize)
    requires
        map_ok(old(retain_map)@, old(nodes)@),
        head < old(retain_map)@.len(),
    ensures
        map_ok(final(retain_map)@, final(nodes)@),
        final(retain_map)@.len() == old(retain_map)@.len(),
        final(nodes)@ == if old(nodes)@.contains(head) {
            old(nodes)@
        } else {
            old(nodes)@.push(head)
        },
{
    proof {
        lemma_map_index(retain_map@, nodes@, head);
    }
    if retain_map[head].is_none() {
        let index = nodes.len();
        nodes.push(head);
        retain_map[head] = Some(index);
        proof {
            let before = old(nodes)@;
            let after = nodes@;
            assert forall|i: int, j: int|
                0 <= i < after.len() && 0 <= j < after.len() && i != j implies after[i]
                != after[j] by {
                if i < before.len() && j < before.len() {
                } else if i < before.len() {
                    assert(before.contains(before[i]));
                } else {
                    assert(before.contains(before[j]));
                }
            }
            assert forall|h: int| 0 <= h < retain_map@.len() implies match #[trigger] retain_map@[h] {
                Some(i) => i < after.len() && after[i as int] == h,
                None => !after.contains(h as usize),
            } by {
                if h != head {
                    assert(retain_map@[h] == old(retain_map)@[h]);
                    if retain_map@[h] is None {
                        if after.contains(h as usize) {
                            let i = choose|i: int| 0 <= i < after.len() && after[i] == h as usize;
                            assert(before[i] == h as usize);
                        }
                    }
                }
            }
        }
    }
}

/// The place in the reduced graph of the nearest retained head on the
/// chain of first sources that begins at the head `ni`.
fn retained_parent(
    edges: &Graph,
    retain_map: &Vec<Option<usize>>,
    Ghost(nodes): Ghost<Seq<usize>>,
    ni: usize,
) -> (index: usize)
    requires
        edges.wf(),
        map_ok(retain_map@, nodes),
        retain_map@.len() == edges@.len(),
        ni < edges@.len(),
        retained_ancestor(edges@, nodes, ni, edges@.len()) is Some,
    ensures
        retained_ancestor(edges@, nodes, ni, edges@.len()) == Some(index),
        index < nodes.len(),
{
    let mut head = ni;
    let ghost mut fuel = edges@.len();
    loop
        invariant
            edges.wf(),
            map_ok(retain_map@, nodes),
            retain_map@.len() == edges@.len(),
            head < edges@.len(),
            retained_ancestor(edges@, nodes, ni, edges@.len()) is Some,
            retained_ancestor(edges@, nodes, head, fuel) == retained_ancestor(
                edges@,
                nodes,
                ni,
                edges@.len(),
            ),
        decreases fuel,
    {
        proof {
            lemma_map_index(retain_map@, nodes, head);
        }
        match retain_map[head] {
            Some(v) => {
                assert(retained_ancestor(edges@, nodes, head, fuel) == Some(v));
                return v;
            },
            None => {
                head = edges.predecessor_nodes(head)[0];
                proof {
                    fuel = (fuel - 1) as nat;
                }
            },
        }
    }
}

/// Builds the reduced graph from the classes in `r` and the record `dag`
/// of the walk.
pub fn construct_graph(r: &mut GraphReduce<'_>, dag: Dag) -> (reduced: Reduced)
    requires
        old(r).wf(),
        reducible(
            old(r).classes(),
            old(r).starts(),
            dag.parents@,
            dag.cross_edges@,
            dag.leaf_nodes@,
        ),
    ensures
        reduced@ == reduction(
            old(r).classes(),
            old(r).starts(),
            dag.parents@,
            dag.cross_edges@,
            dag.leaf_nodes@,
        ),
        reduced@.wf(),
        final(r).wf(),
        final(r).graph() == old(r).graph(),
        final(r).starts() == old(r).starts(),
        final(r).classes() == old(r).classes(),
{
    let Dag { parents: old_parents, leaf_nodes, cross_edges } = dag;
    let n = r.len_nodes();
    let start_nodes = r.start_nodes();
    let ghost classes = r.classes();
    let ghost stream = edge_stream(old_parents@, cross_edges@);
    proof {
        r.lemma_wf();
    }

    // Create a canonical list of edges; this includes both parent and
    // cross-edges. We store this in `(target -> Vec<source>)` form.
    // We call the first edge to any given target its "parent".
    let mut edges = Graph::new();
    let mut v: usize = 0;
    while v < n
        invariant
            v <= n,
            edges.wf(),
            edges@ == Seq::new(v as nat, |t: int| Seq::<usize>::empty()),
        decreases n - v,
    {
        edges.add_node();
        v = v + 1;
        assert(edges@ =~= Seq::new(v as nat, |t: int| Seq::<usize>::empty()));
    }
    assert(stream.take(0) =~= Seq::empty());
    let mut target: usize = 0;
    while target < n
        invariant
            target <= n,
            n == classes.len(),
            n == old_parents@.len(),
            forall|v: int| 0 <= v < n ==> (#[trigger] old_parents@[v]) < n,
            stream == edge_stream(old_parents@, cross_edges@),
            r.wf(),
            r.graph() == old(r).graph(),
            r.starts() == old(r).starts(),
            r.classes() == classes,
            edges.wf(),
            edges@.len() == n,
            edges@ == adjacency(classes, stream.take(target as int)),
        decreases n - target,
    {
        proof {
            let next = stream.take(target + 1);
            assert(next.drop_last() =~= stream.take(target as int));
            assert(next.last() == (old_parents@[target as int], target));
        }
        add_canonical(r, &mut edges, old_parents[target], target);
        target = target + 1;
    }
    let mut e: usize = 0;
    while e < cross_edges.len()
        invariant
            e <= cross_edges@.len(),
            n == classes.len(),
            n == old_parents@.len(),
            forall|e: int|
                0 <= e < cross_edges@.len() ==> (#[trigger] cross_edges@[e]).0 < n
                    && cross_edges@[e].1 < n,
            stream == edge_stream(old_parents@, cross_edges@),
            r.wf(),
            r.graph() == old(r).graph(),
            r.starts() == old(r).starts(),
            r.classes() == classes,
            edges.wf(),
            edges@.len() == n,
            edges@ == adjacency(classes, stream.take(n + e)),
        decreases cross_edges@.len() - e,
    {
        proof {
            let next = stream.take(n + e + 1);
            assert(next.drop_last() =~= stream.take(n + e));
            assert(next.last() == cross_edges@[e as int]);
        }
        let (source, target) = cross_edges[e];
        add_canonical(r, &mut edges, source, target);
        e = e + 1;
    }
    assert(stream.take(n + e) =~= stream);
    let ghost adj = edges@;

    // `retain`: those heads that we want to retain in the ultimate graph:
    // the start nodes, the leaves, and the targets of more than one edge.
    // The first two we need; the last keep the graph small.
    let ghost head_starts = heads_of(classes, start_nodes@);
    let ghost head_leaves = heads_of(classes, leaf_nodes@);
    let mut nodes: Vec<usize> = Vec::new();
    let mut retain_map: Vec<Option<usize>> = Vec::new();
    let mut h: usize = 0;
    while h < n
        invariant
            h <= n,
            retain_map@.len() == h,
            forall|t: int| 0 <= t < h ==> retain_map@[t] is None,
        decreases n - h,
    {
        retain_map.push(None);
        h = h + 1;
    }
    assert(head_starts.take(0) =~= Seq::empty());
    let mut k: usize = 0;
    while k < start_nodes.len()
        invariant
            k <= start_nodes@.len(),
            n == classes.len(),
            classes.wf(),
            forall|k: int| 0 <= k < start_nodes@.len() ==> (#[trigger] start_nodes@[k]) < n,
            head_starts == heads_of(classes, start_nodes@),
            r.wf(),
            r.graph() == old(r).graph(),
            r.starts() == old(r).starts(),
            r.classes() == classes,
            retain_map@.len() == n,
            map_ok(retain_map@, nodes@),
            nodes@ == distinct(head_starts.take(k as int)),
        decreases start_nodes@.len() - k,
    {
        proof {
            let next = head_starts.take(k + 1);
            assert(next.drop_last() =~= head_starts.take(k as int));
            assert(next.last() == classes.find(start_nodes@[k as int] as int));
        }
        let head = r.cycle_head(start_nodes[k]);
        retain(&mut nodes, &mut retain_map, head);
        k = k + 1;
    }
    assert(head_starts.take(k as int) =~= head_starts + head_leaves.take(0));
    let mut l: usize = 0;
    while l < leaf_nodes.len()
        invariant
            l <= leaf_nodes@.len(),
            n == classes.len(),
            classes.wf(),
            forall|l: int| 0 <= l < leaf_nodes@.len() ==> (#[trigger] leaf_nodes@[l]) < n,
            head_leaves == heads_of(classes, leaf_nodes@),
            r.wf(),
            r.graph() == old(r).graph(),
            r.starts() == old(r).starts(),
            r.classes() == classes,
            retain_map@.len() == n,
            map_ok(retain_map@, nodes@),
            nodes@ == distinct(head_starts + head_leaves.take(l as int)),
        decreases leaf_nodes@.len() - l,
    {
        proof {
            let next = head_starts + head_leaves.take(l + 1);
            assert(next.drop_last() =~= head_starts + head_leaves.take(l as int));
            assert(next.last() == classes.find(leaf_nodes@[l as int] as int));
        }
        let head = r.cycle_head(leaf_nodes[l]);
        retain(&mut nodes, &mut retain_map, head);
        l = l + 1;
    }
    assert(head_starts + head_leaves.take(l as int) =~= head_starts + head_leaves + merge_points(
        adj,
        0,
    ));
    let mut h: usize = 0;
    while h < n
        invariant
            h <= n,
            edges.wf(),
            edges@ == adj,
            adj.len() == n,
            retain_map@.len() == n,
            map_ok(retain_map@, nodes@),
            nodes@ == distinct(head_starts + head_leaves + merge_points(adj, h as nat)),
        decreases n - h,
    {
        if edges.predecessor_nodes(h).len() > 1 {
            proof {
                let next = head_starts + head_leaves + merge_points(adj, (h + 1) as nat);
                assert(next.drop_last() =~= head_starts + head_leaves + merge_points(
                    adj,
                    h as nat,
                ));
                assert(next.last() == h);
            }
            retain(&mut nodes, &mut retain_map, h);
        }
        h = h + 1;
    }
    assert(nodes@ == distinct(candidates(classes, start_nodes@, leaf_nodes@, adj)));

    // Now add in the edges into the graph.
    let mut out_edges: Vec<(usize, usize)> = Vec::new();
    let mut target: usize = 0;
    while target < n
        invariant
            target <= n,
            edges.wf(),
            edges@ == adj,
            adj.len() == n,
            retain_map@.len() == n,
            map_ok(retain_map@, nodes@),
            chains_end(adj, nodes@),
            out_edges@ == edges_below(adj, nodes@, target as nat),
            forall|e: int|
                0 <= e < out_edges@.len() ==> (#[trigger] out_edges@[e]).0 < nodes@.len()
                    && out_edges@[e].1 < nodes@.len(),
        decreases n - target,
    {
        proof {
            lemma_map_index(retain_map@, nodes@, target);
        }
        if let Some(r_target) = retain_map[target] {
            let sources = edges.predecessor_nodes(target);
            let ghost below = out_edges@;
            let mut m: usize = 0;
            while m < sources.len()
                invariant
                    m <= sources@.len(),
                    sources@ == adj[target as int],
                    target < n,
                    edges.wf(),
                    edges@ == adj,
                    adj.len() == n,
                    retain_map@.len() == n,
                    map_ok(retain_map@, nodes@),
                    chains_end(adj, nodes@),
                    nodes@.contains(target),
                    nodes@.index_of(target) == r_target,
                    r_target < nodes@.len(),
                    out_edges@ == below + edges_into(adj, nodes@, target, m as nat),
                    forall|e: int|
                        0 <= e < out_edges@.len() ==> (#[trigger] out_edges@[e]).0 < nodes@.len()
                            && out_edges@[e].1 < nodes@.len(),
                decreases sources@.len() - m,
            {
                let source = sources[m];
                assert(retained_ancestor(adj, nodes@, adj[target as int][m as int], adj.len()) is Some);
                let r_source = retained_parent(&edges, &retain_map, Ghost(nodes@), source);
                out_edges.push((r_target, r_source));
                m = m + 1;
                assert(out_edges@ =~= below + edges_into(adj, nodes@, target, m as nat));
            }
        }
        target = target + 1;
    }

    Reduced { nodes, edges: out_edges }
}

} // verus!
