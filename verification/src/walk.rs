//! The depth-first walk as a mathematical object.
//!
//! A [`Walk`] is the state of the classifier between two steps. The walk
//! itself is the function [`Walk::walked`], built from single steps; the
//! executable classifier is specified as computing exactly that function.

use vstd::prelude::*;
use vstd::set_lib::*;
use crate::graph::{
    graph_wf, has_input, is_path, lemma_mutually_reachable_trans, lemma_path_in_range,
    lemma_reaches_input, lemma_reaches_self, lemma_reaches_trans, mutually_reachable, on_cycle,
    reaches, Inputs,
};
use crate::unify::Partition;

verus! {

/// The colour of a node during the walk.
#[derive(Clone, Copy, Debug)]
pub enum Color {
    /// Not yet visited.
    White,
    /// Being visited; the number is the node's position on the stack.
    Grey(usize),
    /// Finished.
    Black,
}

/// The indices of the white entries of `colors`.
pub open spec fn white_set(colors: Seq<Color>) -> Set<int> {
    Set::new(|v: int| 0 <= v < colors.len() && colors[v] is White)
}

/// The indices of the entries of `colors` that are not black.
pub open spec fn unfinished_set(colors: Seq<Color>) -> Set<int> {
    Set::new(|v: int| 0 <= v < colors.len() && !(colors[v] is Black))
}

/// The state of the walk between two steps.
pub struct Walk {
    /// The colour of every node.
    pub colors: Seq<Color>,
    /// The nodes being visited, outermost first.
    pub stack: Seq<usize>,
    /// For each node on the stack, how many of its inputs were handled.
    pub cursor: Seq<usize>,
    /// For each node the node from which it was first reached, or the
    /// node itself.
    pub parents: Seq<usize>,
    /// The edges that led to a finished node.
    pub cross_edges: Seq<(usize, usize)>,
    /// The visited nodes without inputs.
    pub leaf_nodes: Seq<usize>,
    /// The classes of nodes found to lie on common cycles.
    pub classes: Partition,
    /// For each visited node its position on the stack when it was opened.
    pub depth: Seq<nat>,
    /// No edge has led back to the node at the bottom of the stack.
    pub ok: bool,
}

impl Partition {
    /// The partition after merging each of `keys`, in order, with `with`.
    pub open spec fn union_all(self, keys: Seq<usize>, with: usize) -> Partition
        decreases keys.len(),
    {
        if keys.len() == 0 {
            self
        } else {
            self.union_all(keys.drop_last(), with).union(keys.last() as int, with as int)
        }
    }

    /// Merging keys in range keeps the partition well formed.
    pub proof fn lemma_union_all_wf(self, keys: Seq<usize>, with: usize)
        requires
            self.wf(),
            with < self.len(),
            forall|i: int| 0 <= i < keys.len() ==> keys[i] < self.len(),
        ensures
            self.union_all(keys, with).wf(),
            self.union_all(keys, with).len() == self.len(),
        decreases keys.len(),
    {
        if keys.len() > 0 {
            self.lemma_union_all_wf(keys.drop_last(), with);
            self.union_all(keys.drop_last(), with).lemma_union_wf(keys.last() as int, with as int);
        }
    }
}

impl Walk {
    /// The state before the walk: every node white and in a class of its
    /// own, nothing recorded.
    pub open spec fn init(n: nat) -> Walk {
        Walk {
            colors: Seq::new(n, |v: int| Color::White),
            stack: Seq::empty(),
            cursor: Seq::empty(),
            parents: Seq::new(n, |v: int| v as usize),
            cross_edges: Seq::empty(),
            leaf_nodes: Seq::empty(),
            classes: Partition::singletons(n),
            depth: Seq::new(n, |v: int| 0nat),
            ok: true,
        }
    }

    /// The node on top of the stack.
    pub open spec fn top(self) -> usize {
        self.stack.last()
    }

    /// `node` turns grey and goes on top of the stack.
    pub open spec fn open(self, node: usize) -> Walk {
        Walk {
            colors: self.colors.update(node as int, Color::Grey(self.stack.len() as usize)),
            stack: self.stack.push(node),
            cursor: self.cursor.push(0),
            depth: self.depth.update(node as int, self.stack.len()),
            ..self
        }
    }

    /// One more input of the top node counts as handled.
    pub open spec fn advance(self) -> Walk {
        Walk {
            cursor: self.cursor.update(
                self.cursor.len() - 1,
                (self.cursor.last() + 1) as usize,
            ),
            ..self
        }
    }

    /// The edge from `parent`, the top node, to its input `child` is
    /// classified: a loop at `parent` is ignored; a white `child` gets
    /// `parent` as its parent and is opened; a grey `child` closes a cycle,
    /// and every node on the stack from `child` upwards is merged with
    /// `parent`; a black `child` makes a cross edge. A cycle through the
    /// bottom of the stack, a start node, is an error that `ok` records.
    pub open spec fn walk_edge(self, parent: usize, child: usize) -> Walk {
        if child == parent {
            self
        } else {
            match self.colors[child as int] {
                Color::White => Walk {
                    parents: self.parents.update(child as int, parent),
                    ..self
                }.open(child),
                Color::Grey(pos) => Walk {
                    classes: self.classes.union_all(
                        self.stack.subrange(pos as int, self.stack.len() as int),
                        parent,
                    ),
                    ok: self.ok && pos > 0,
                    ..self
                },
                Color::Black => Walk {
                    cross_edges: self.cross_edges.push((parent, child)),
                    ..self
                },
            }
        }
    }

    /// The top node is finished: it turns black and leaves the stack, and
    /// is recorded as a leaf if it has no inputs.
    pub open spec fn close(self, g: Inputs) -> Walk {
        let node = self.top();
        Walk {
            colors: self.colors.update(node as int, Color::Black),
            stack: self.stack.drop_last(),
            cursor: self.cursor.drop_last(),
            leaf_nodes: if g[node as int].len() == 0 {
                self.leaf_nodes.push(node)
            } else {
                self.leaf_nodes
            },
            ..self
        }
    }

    /// One step of the walk: the next input of the top node is handled,
    /// or, when none is left, the top node is closed.
    pub open spec fn step(self, g: Inputs) -> Walk {
        let node = self.top();
        let k = self.cursor.last();
        if k < g[node as int].len() {
            self.advance().walk_edge(node, g[node as int][k as int])
        } else {
            self.close(g)
        }
    }

    /// The shape that every state of a walk through `g` has.
    pub open spec fn wf(self, g: Inputs) -> bool {
        let n = g.len();
        &&& graph_wf(g)
        &&& self.colors.len() == n
        &&& self.parents.len() == n
        &&& self.depth.len() == n
        &&& self.classes.len() == n
        &&& self.classes.wf()
        &&& self.stack.len() == self.cursor.len()
        &&& self.stack.len() + white_set(self.colors).len() == unfinished_set(self.colors).len()
        &&& forall|i: int|
            0 <= i < self.stack.len() ==> {
                &&& (#[trigger] self.stack[i]) < n
                &&& self.colors[self.stack[i] as int] == Color::Grey(i as usize)
                &&& self.cursor[i] <= g[self.stack[i] as int].len()
            }
        &&& forall|v: int|
            0 <= v < n ==> ((#[trigger] self.colors[v]) matches Color::Grey(p) ==> p
                < self.stack.len() && self.stack[p as int] == v)
        &&& forall|v: int| 0 <= v < n ==> (#[trigger] self.parents[v]) < n
        &&& forall|e: int|
            0 <= e < self.cross_edges.len() ==> (#[trigger] self.cross_edges[e]).0 < n
                && self.cross_edges[e].1 < n
        &&& forall|l: int| 0 <= l < self.leaf_nodes.len() ==> (#[trigger] self.leaf_nodes[l]) < n
    }

    /// How much of the walk is left: the white nodes counted twice and the
    /// grey nodes once.
    pub open spec fn remaining(self) -> nat {
        white_set(self.colors).len() + unfinished_set(self.colors).len()
    }

    /// How many inputs of the top node are left.
    pub open spec fn remaining_top(self, g: Inputs) -> nat {
        if self.stack.len() > 0 {
            (g[self.top() as int].len() - self.cursor.last()) as nat
        } else {
            0
        }
    }
}

impl Walk {
    /// The walk goes on until the stack is empty.
    pub open spec fn drain(self, g: Inputs) -> Walk
        decreases self.remaining(), self.remaining_top(g),
        when self.wf(g)
    {
        if self.stack.len() == 0 {
            self
        } else {
            proof {
                self.lemma_step_wf(g);
            }
            self.step(g).drain(g)
        }
    }

    /// The node `root` is visited, with all that it reaches, unless it was
    /// visited before.
    pub open spec fn visit(self, g: Inputs, root: usize) -> Walk {
        if self.colors[root as int] is White {
            self.open(root).drain(g)
        } else {
            self
        }
    }

    /// The state after the walk through `g` from each of `starts` in turn.
    pub open spec fn walked(g: Inputs, starts: Seq<usize>) -> Walk
        decreases starts.len(),
    {
        if starts.len() == 0 {
            Walk::init(g.len())
        } else {
            Self::walked(g, starts.drop_last()).visit(g, starts.last())
        }
    }

    /// The initial state has the shape of a walk's state.
    pub proof fn lemma_init_wf(g: Inputs)
        requires
            graph_wf(g),
        ensures
            Walk::init(g.len()).wf(g),
    {
        let s = Walk::init(g.len());
        lemma_color_sets_finite(s.colors);
        assert(white_set(s.colors) =~= unfinished_set(s.colors));
        Partition::lemma_singletons(g.len());
    }

    /// Opening a white node keeps the shape and leaves less to do.
    pub proof fn lemma_open_wf(self, g: Inputs, node: usize)
        requires
            self.wf(g),
            node < g.len(),
            self.colors[node as int] is White,
        ensures
            self.open(node).wf(g),
            self.open(node).remaining() < self.remaining(),
            self.stack.len() < g.len(),
    {
        let t = self.open(node);
        lemma_color_sets_finite(self.colors);
        lemma_color_sets_finite(t.colors);
        assert(white_set(t.colors) =~= white_set(self.colors).remove(node as int));
        assert(unfinished_set(t.colors) =~= unfinished_set(self.colors));
        assert(white_set(self.colors).contains(node as int));
        assert forall|i: int| 0 <= i < t.stack.len() implies {
            &&& (#[trigger] t.stack[i]) < g.len()
            &&& t.colors[t.stack[i] as int] == Color::Grey(i as usize)
            &&& t.cursor[i] <= g[t.stack[i] as int].len()
        } by {
            if i < self.stack.len() {
                assert(self.stack[i] != node);
            }
        }
    }

    /// Closing the top node keeps the shape and leaves less to do.
    pub proof fn lemma_close_wf(self, g: Inputs)
        requires
            self.wf(g),
            self.stack.len() > 0,
        ensures
            self.close(g).wf(g),
            self.close(g).remaining() < self.remaining(),
    {
        let t = self.close(g);
        let node = self.top();
        lemma_color_sets_finite(self.colors);
        lemma_color_sets_finite(t.colors);
        assert(self.stack[self.stack.len() - 1] == node);
        assert(white_set(t.colors) =~= white_set(self.colors));
        assert(unfinished_set(t.colors) =~= unfinished_set(self.colors).remove(node as int));
        assert(unfinished_set(self.colors).contains(node as int));
        assert forall|i: int| 0 <= i < t.stack.len() implies {
            &&& (#[trigger] t.stack[i]) < g.len()
            &&& t.colors[t.stack[i] as int] == Color::Grey(i as usize)
            &&& t.cursor[i] <= g[t.stack[i] as int].len()
        } by {
            assert(self.stack[i] == t.stack[i]);
            assert(self.stack[i] != node);
        }
        assert forall|v: int| 0 <= v < g.len() implies ((#[trigger] t.colors[v]) matches Color::Grey(
            p,
        ) ==> p < t.stack.len() && t.stack[p as int] == v) by {
            if v != node {
                assert(t.colors[v] == self.colors[v]);
            }
        }
    }

    /// Classifying an edge from the top node keeps the shape and leaves
    /// no more to do.
    pub proof fn lemma_walk_edge_wf(self, g: Inputs, child: usize)
        requires
            self.wf(g),
            self.stack.len() > 0,
            child < g.len(),
        ensures
            self.walk_edge(self.top(), child).wf(g),
            self.walk_edge(self.top(), child).remaining() <= self.remaining(),
            self.walk_edge(self.top(), child).remaining() == self.remaining() ==> self.walk_edge(
                self.top(),
                child,
            ).stack == self.stack && self.walk_edge(self.top(), child).cursor == self.cursor,
    {
        let parent = self.top();
        assert(self.stack[self.stack.len() - 1] == parent);
        if child != parent {
            match self.colors[child as int] {
                Color::White => {
                    let t = Walk { parents: self.parents.update(child as int, parent), ..self };
                    t.lemma_open_wf(g, child);
                },
                Color::Grey(pos) => {
                    let keys = self.stack.subrange(pos as int, self.stack.len() as int);
                    self.classes.lemma_union_all_wf(keys, parent);
                },
                Color::Black => {},
            }
        }
    }

    /// A step keeps the shape and leaves less to do.
    pub proof fn lemma_step_wf(self, g: Inputs)
        requires
            self.wf(g),
            self.stack.len() > 0,
        ensures
            self.step(g).wf(g),
            self.step(g).remaining() < self.remaining() || (self.step(g).remaining() == self.remaining()
                && self.step(g).remaining_top(g) < self.remaining_top(g)),
    {
        let node = self.top();
        let k = self.cursor.last();
        assert(self.stack[self.stack.len() - 1] == node);
        if k < g[node as int].len() {
            let a = self.advance();
            assert(a.colors == self.colors);
            assert(a.wf(g));
            a.lemma_walk_edge_wf(g, g[node as int][k as int]);
        } else {
            self.lemma_close_wf(g);
        }
    }

    /// The walk from a state of the right shape ends in such a state,
    /// with an empty stack.
    pub proof fn lemma_drain_wf(self, g: Inputs)
        requires
            self.wf(g),
        ensures
            self.drain(g).wf(g),
            self.drain(g).stack.len() == 0,
        decreases self.remaining(), self.remaining_top(g),
    {
        if self.stack.len() > 0 {
            self.lemma_step_wf(g);
            self.step(g).lemma_drain_wf(g);
        }
    }
}

/// The start nodes are nodes of the graph.
pub open spec fn start_nodes_in_range(g: Inputs, starts: Seq<usize>) -> bool {
    forall|k: int| 0 <= k < starts.len() ==> (#[trigger] starts[k]) < g.len()
}

/// None of the start nodes that the walk has to open itself lies on a
/// cycle: a start node that no earlier start node reaches shares no cycle
/// with another node.
pub open spec fn start_nodes_acyclic(g: Inputs, starts: Seq<usize>) -> bool {
    forall|k: int|
        0 <= k < starts.len() && is_fresh_start(g, starts, k) ==> !on_cycle(
            g,
            (#[trigger] starts[k]) as int,
        )
}

/// The nodes from which the walk is started are nodes, and none that the
/// walk has to open itself lies on a cycle.
pub open spec fn start_nodes_ok(g: Inputs, starts: Seq<usize>) -> bool {
    start_nodes_in_range(g, starts) && start_nodes_acyclic(g, starts)
}

/// The `k`-th start node is the first that is no node of the graph.
pub open spec fn first_out_of_range(g: Inputs, starts: Seq<usize>, k: int) -> bool {
    &&& 0 <= k < starts.len()
    &&& starts[k] >= g.len()
    &&& forall|j: int| 0 <= j < k ==> (#[trigger] starts[j]) < g.len()
}

/// The `k`-th start node is the first that the walk has to open itself
/// and that lies on a cycle.
pub open spec fn first_on_cycle(g: Inputs, starts: Seq<usize>, k: int) -> bool {
    &&& 0 <= k < starts.len()
    &&& is_fresh_start(g, starts, k)
    &&& on_cycle(g, starts[k] as int)
    &&& forall|j: int|
        0 <= j < k && is_fresh_start(g, starts, j) ==> !on_cycle(g, (#[trigger] starts[j]) as int)
}

/// One of `roots` reaches `v`.
pub open spec fn reached_from(g: Inputs, roots: Seq<usize>, v: int) -> bool {
    exists|j: int| 0 <= j < roots.len() && reaches(g, (#[trigger] roots[j]) as int, v)
}

/// No start node before the `k`-th reaches the `k`-th.
pub open spec fn is_fresh_start(g: Inputs, starts: Seq<usize>, k: int) -> bool {
    forall|j: int| 0 <= j < k ==> !reaches(g, (#[trigger] starts[j]) as int, starts[k] as int)
}

impl Partition {
    /// Keys of one class can reach each other.
    pub open spec fn within_cycles(self, g: Inputs) -> bool {
        forall|u: int, v: int|
            0 <= u < self.len() && 0 <= v < self.len() && #[trigger] self.same(u, v)
                ==> mutually_reachable(g, u, v)
    }

    /// Merging keys that can reach each other keeps every class within
    /// a cycle.
    pub proof fn lemma_union_within_cycles(self, g: Inputs, a: int, b: int)
        requires
            self.wf(),
            self.within_cycles(g),
            0 <= a < self.len(),
            0 <= b < self.len(),
            mutually_reachable(g, a, b),
        ensures
            self.union(a, b).within_cycles(g),
    {
        let t = self.union(a, b);
        assert forall|u: int, v: int|
            0 <= u < t.len() && 0 <= v < t.len() && #[trigger] t.same(u, v) implies mutually_reachable(
            g,
            u,
            v,
        ) by {
            self.lemma_union_same(a, b, u, v);
            if self.same(u, v) {
            } else if self.same(u, a) && self.same(v, b) {
                lemma_mutually_reachable_trans(g, u, a, b);
                assert(self.same(b, v));
                lemma_mutually_reachable_trans(g, u, b, v);
            } else {
                assert(self.same(u, b) && self.same(v, a));
                assert(self.same(a, v));
                lemma_mutually_reachable_trans(g, u, b, a);
                lemma_mutually_reachable_trans(g, u, a, v);
            }
        }
    }

    /// Merging each of `keys` with a key that it can reach, and that can
    /// reach it, keeps every class within a cycle.
    pub proof fn lemma_union_all_within_cycles(self, g: Inputs, keys: Seq<usize>, with: usize)
        requires
            self.wf(),
            self.within_cycles(g),
            with < self.len(),
            forall|i: int|
                0 <= i < keys.len() ==> keys[i] < self.len() && mutually_reachable(
                    g,
                    #[trigger] keys[i] as int,
                    with as int,
                ),
        ensures
            self.union_all(keys, with).within_cycles(g),
        decreases keys.len(),
    {
        if keys.len() > 0 {
            let rest = keys.drop_last();
            assert forall|i: int| 0 <= i < rest.len() implies rest[i] < self.len()
                && mutually_reachable(g, #[trigger] rest[i] as int, with as int) by {
                assert(rest[i] == keys[i]);
            }
            self.lemma_union_all_within_cycles(g, rest, with);
            self.lemma_union_all_wf(rest, with);
            assert(mutually_reachable(g, keys[keys.len() - 1] as int, with as int));
            self.union_all(rest, with).lemma_union_within_cycles(
                g,
                keys.last() as int,
                with as int,
            );
        }
    }
}

impl Walk {
    /// What the walk has done so far is right: the stack is a path; the
    /// handled inputs of every visited node are visited; and the nodes of
    /// one class can reach each other.
    pub open spec fn sound(self, g: Inputs) -> bool {
        &&& forall|i: int|
            0 < i < self.stack.len() ==> has_input(
                g,
                self.stack[i - 1] as int,
                (#[trigger] self.stack[i]) as int,
            )
        &&& forall|v: int, k: int|
            0 <= v < g.len() && self.colors[v] is Black && 0 <= k < g[v].len() ==> !(self.colors[(
            #[trigger] g[v][k]) as int] is White)
        &&& forall|i: int, k: int|
            0 <= i < self.stack.len() && 0 <= k < self.cursor[i] ==> !(self.colors[(
            #[trigger] g[self.stack[i] as int][k]) as int] is White)
        &&& self.classes.within_cycles(g)
    }

    /// While `ok` holds, no edge seen so far leads to the bottom of the
    /// stack from another node.
    pub open spec fn guarded(self, g: Inputs) -> bool {
        self.ok && self.stack.len() > 0 ==> {
            &&& forall|v: int, k: int|
                0 <= v < g.len() && self.colors[v] is Black && 0 <= k < g[v].len() ==> (
                #[trigger] g[v][k]) != self.stack[0]
            &&& forall|i: int, k: int|
                0 < i < self.stack.len() && 0 <= k < self.cursor[i] ==> (
                #[trigger] g[self.stack[i] as int][k]) != self.stack[0]
        }
    }

    /// Every visited node is reached from one of `roots`.
    pub open spec fn traced(self, g: Inputs, roots: Seq<usize>) -> bool {
        forall|v: int|
            0 <= v < g.len() && !(#[trigger] self.colors[v] is White) ==> reached_from(g, roots, v)
    }

    /// Each node on the stack reaches the nodes above it.
    pub proof fn lemma_stack_reaches(self, g: Inputs, i: int, j: int)
        requires
            self.wf(g),
            self.sound(g),
            0 <= i <= j < self.stack.len(),
        ensures
            reaches(g, self.stack[i] as int, self.stack[j] as int),
        decreases j - i,
    {
        if i == j {
            lemma_reaches_self(g, self.stack[i] as int);
        } else {
            self.lemma_stack_reaches(g, i, j - 1);
            lemma_reaches_input(g, self.stack[j - 1] as int, self.stack[j] as int);
            lemma_reaches_trans(
                g,
                self.stack[i] as int,
                self.stack[j - 1] as int,
                self.stack[j] as int,
            );
        }
    }

    /// Where the bottom of the stack lies on no cycle, an edge from the
    /// top node to another node on the stack does not lead to the bottom.
    pub proof fn lemma_back_edge_above_root(self, g: Inputs, k: int)
        requires
            self.wf(g),
            self.sound(g),
            self.stack.len() > 0,
            !on_cycle(g, self.stack[0] as int),
            0 <= k < g[self.top() as int].len(),
            g[self.top() as int][k] != self.top(),
            self.colors[g[self.top() as int][k] as int] is Grey,
        ensures
            self.colors[g[self.top() as int][k] as int]->Grey_0 > 0,
    {
        let parent = self.top();
        let child = g[parent as int][k];
        let pos = self.colors[child as int]->Grey_0;
        assert(self.stack[self.stack.len() - 1] == parent);
        if pos == 0 {
            self.lemma_stack_reaches(g, 0, self.stack.len() - 1);
            assert(has_input(g, parent as int, child as int));
            assert(on_cycle(g, child as int));
        }
    }

    /// A step never turns a visited node white, nor a black node grey.
    pub proof fn lemma_step_colors(self, g: Inputs)
        requires
            self.wf(g),
            self.stack.len() > 0,
        ensures
            forall|v: int|
                0 <= v < g.len() && !(self.colors[v] is White) ==> !(
                #[trigger] self.step(g).colors[v] is White),
            forall|v: int|
                0 <= v < g.len() && self.colors[v] is Black ==> #[trigger] self.step(
                    g,
                ).colors[v] is Black,
    {
        assert(self.stack[self.stack.len() - 1] == self.top());
    }

    /// A step keeps what the walk has done right.
    pub proof fn lemma_step_sound(self, g: Inputs)
        requires
            self.wf(g),
            self.sound(g),
            self.stack.len() > 0,
        ensures
            self.step(g).sound(g),
    {
        let node = self.top();
        let k = self.cursor.last();
        let t = self.step(g);
        let top = self.stack.len() - 1;
        assert(self.stack[top] == node);
        self.lemma_step_wf(g);
        self.lemma_step_colors(g);
        if k < g[node as int].len() {
            let child = g[node as int][k as int];
            let a = self.advance();
            assert(has_input(g, node as int, child as int));
            // the classes
            if child != node && self.colors[child as int] is Grey {
                let pos = self.colors[child as int]->Grey_0;
                let keys = self.stack.subrange(pos as int, self.stack.len() as int);
                assert forall|i: int| 0 <= i < keys.len() implies keys[i] < self.classes.len()
                    && mutually_reachable(g, #[trigger] keys[i] as int, node as int) by {
                    assert(keys[i] == self.stack[pos + i]);
                    self.lemma_stack_reaches(g, pos + i, top);
                    self.lemma_stack_reaches(g, pos as int, pos + i);
                    lemma_reaches_input(g, node as int, child as int);
                    lemma_reaches_trans(g, node as int, child as int, keys[i] as int);
                }
                self.classes.lemma_union_all_within_cycles(g, keys, node);
            }
            assert(t.classes.within_cycles(g));
            // the path
            assert forall|i: int| 0 < i < t.stack.len() implies has_input(
                g,
                t.stack[i - 1] as int,
                (#[trigger] t.stack[i]) as int,
            ) by {
                if i < self.stack.len() {
                    assert(t.stack[i] == self.stack[i]);
                    assert(t.stack[i - 1] == self.stack[i - 1]);
                }
            }
            assert(t.stack.len() > 0 && t.stack[0] == self.stack[0]);
            // the handled inputs
            assert forall|i: int, j: int|
                0 <= i < t.stack.len() && 0 <= j < t.cursor[i] implies !(t.colors[(
            #[trigger] g[t.stack[i] as int][j]) as int] is White) by {
                if i < self.stack.len() {
                    assert(t.stack[i] == self.stack[i]);
                    if i == top && j == k {
                        assert(!(t.colors[child as int] is White));
                    } else {
                        assert(j < self.cursor[i]);
                        assert(!(self.colors[g[self.stack[i] as int][j] as int] is White));
                    }
                }
            }
            assert forall|v: int, j: int|
                0 <= v < g.len() && t.colors[v] is Black && 0 <= j < g[v].len() implies !(t.colors[(
            #[trigger] g[v][j]) as int] is White) by {
                assert(self.colors[v] is Black);
                assert(!(self.colors[g[v][j] as int] is White));
            }
        } else {
            assert forall|i: int| 0 < i < t.stack.len() implies has_input(
                g,
                t.stack[i - 1] as int,
                (#[trigger] t.stack[i]) as int,
            ) by {
                assert(t.stack[i] == self.stack[i]);
                assert(t.stack[i - 1] == self.stack[i - 1]);
            }
            if t.stack.len() > 0 {
                assert(t.stack[0] == self.stack[0]);
            }
            assert forall|i: int, j: int|
                0 <= i < t.stack.len() && 0 <= j < t.cursor[i] implies !(t.colors[(
            #[trigger] g[t.stack[i] as int][j]) as int] is White) by {
                assert(t.stack[i] == self.stack[i]);
                assert(!(self.colors[g[self.stack[i] as int][j] as int] is White));
            }
            assert forall|v: int, j: int|
                0 <= v < g.len() && t.colors[v] is Black && 0 <= j < g[v].len() implies !(t.colors[(
            #[trigger] g[v][j]) as int] is White) by {
                if v == node {
                    assert(j < self.cursor[top]);
                    assert(!(self.colors[g[self.stack[top] as int][j] as int] is White));
                } else {
                    assert(self.colors[v] is Black);
                    assert(!(self.colors[g[v][j] as int] is White));
                }
            }
        }
    }

    /// Opening a white node on an empty stack keeps what the walk has
    /// done right, and no edge seen so far leads to that node.
    pub proof fn lemma_open_root_sound(self, g: Inputs, root: usize)
        requires
            self.wf(g),
            self.sound(g),
            self.stack.len() == 0,
            root < g.len(),
            self.colors[root as int] is White,
        ensures
            self.open(root).sound(g),
            self.open(root).guarded(g),
            self.open(root).ok == self.ok,
    {
        let t = self.open(root);
        assert forall|v: int, j: int|
            0 <= v < g.len() && t.colors[v] is Black && 0 <= j < g[v].len() implies !(t.colors[(
        #[trigger] g[v][j]) as int] is White) by {
            assert(self.colors[v] is Black);
            assert(!(self.colors[g[v][j] as int] is White));
        }
    }

    /// The walk until the stack is empty keeps what was done right. No
    /// visited node turns white again, and no grey node is left.
    pub proof fn lemma_drain_sound(self, g: Inputs)
        requires
            self.wf(g),
            self.sound(g),
        ensures
            self.drain(g).sound(g),
            forall|v: int|
                0 <= v < g.len() && !(self.colors[v] is White) ==> #[trigger] self.drain(
                    g,
                ).colors[v] is Black,
        decreases self.remaining(), self.remaining_top(g),
    {
        self.lemma_drain_wf(g);
        if self.stack.len() > 0 {
            self.lemma_step_wf(g);
            self.lemma_step_sound(g);
            self.lemma_step_colors(g);
            self.step(g).lemma_drain_sound(g);
        }
        let t = self.drain(g);
        assert forall|v: int| 0 <= v < g.len() && !(self.colors[v] is White) implies #[trigger] t.colors[v] is Black by {
            if self.stack.len() > 0 {
                assert(!(self.step(g).colors[v] is White));
            }
            assert(!(t.colors[v] is White));
            assert(!(t.colors[v] is Grey));
        }
    }

    /// While the stack is empty, whatever a black node reaches is black.
    pub proof fn lemma_black_reaches_black(self, g: Inputs, p: Seq<int>, i: int)
        requires
            self.wf(g),
            self.sound(g),
            self.stack.len() == 0,
            is_path(g, p),
            self.colors[p[0]] is Black,
            0 <= i < p.len(),
        ensures
            self.colors[p[i]] is Black,
        decreases i,
    {
        if i > 0 {
            self.lemma_black_reaches_black(g, p, i - 1);
            lemma_path_in_range(g, p, i - 1);
            lemma_path_in_range(g, p, i);
            assert(has_input(g, p[i - 1], p[i - 1 + 1]));
            let k = choose|k: int| 0 <= k < g[p[i - 1]].len() && #[trigger] g[p[i - 1]][k] == p[i];
            assert(!(self.colors[g[p[i - 1]][k] as int] is White));
            assert(!(self.colors[p[i]] is Grey));
        }
    }
}

impl Walk {
    /// A step never makes `ok` hold again; and where the bottom of the
    /// stack lies on no cycle, a step keeps `ok`.
    pub proof fn lemma_step_ok(self, g: Inputs)
        requires
            self.wf(g),
            self.sound(g),
            self.stack.len() > 0,
        ensures
            self.step(g).ok ==> self.ok,
            !on_cycle(g, self.stack[0] as int) ==> self.step(g).ok == self.ok,
    {
        let node = self.top();
        let k = self.cursor.last();
        assert(self.stack[self.stack.len() - 1] == node);
        if k < g[node as int].len() {
            let child = g[node as int][k as int];
            if child != node && self.colors[child as int] is Grey && !on_cycle(
                g,
                self.stack[0] as int,
            ) {
                self.lemma_back_edge_above_root(g, k as int);
            }
        }
    }

    /// A step keeps it that, while `ok` holds, no edge seen leads to the
    /// bottom of the stack from another node.
    pub proof fn lemma_step_guarded(self, g: Inputs)
        requires
            self.wf(g),
            self.guarded(g),
            self.stack.len() > 0,
        ensures
            self.step(g).guarded(g),
    {
        let node = self.top();
        let k = self.cursor.last();
        let t = self.step(g);
        let top = self.stack.len() - 1;
        assert(self.stack[top] == node);
        self.lemma_step_wf(g);
        lemma_color_sets_finite(self.colors);
        if t.ok && t.stack.len() > 0 {
            assert(self.ok);
            assert(t.stack[0] == self.stack[0]);
            assert forall|v: int, j: int|
                0 <= v < g.len() && t.colors[v] is Black && 0 <= j < g[v].len() implies (
            #[trigger] g[v][j]) != t.stack[0] by {
                if self.colors[v] is Black {
                } else {
                    // `v` is the node that was closed, above the bottom
                    assert(v == node && top > 0);
                    assert(j < self.cursor[top]);
                }
            }
            assert forall|i: int, j: int|
                0 < i < t.stack.len() && 0 <= j < t.cursor[i] implies (
            #[trigger] g[t.stack[i] as int][j]) != t.stack[0] by {
                if i < self.stack.len() {
                    assert(t.stack[i] == self.stack[i]);
                    if i == top && j == k && k < g[node as int].len() {
                        // the edge just handled: had it led to the bottom,
                        // `ok` would be lost
                        let child = g[node as int][k as int];
                        if child == self.stack[0] {
                            assert(self.colors[self.stack[0] as int] == Color::Grey(0));
                            assert(self.colors[self.stack[top] as int] == Color::Grey(
                                top as usize,
                            ));
                            assert(child != node);
                        }
                    } else {
                        assert(j < self.cursor[i]);
                    }
                }
            }
        }
    }

    /// A step keeps every visited node reached from one of `roots`.
    pub proof fn lemma_step_traced(self, g: Inputs, roots: Seq<usize>)
        requires
            self.wf(g),
            self.traced(g, roots),
            self.stack.len() > 0,
        ensures
            self.step(g).traced(g, roots),
    {
        let node = self.top();
        let k = self.cursor.last();
        let t = self.step(g);
        assert(self.stack[self.stack.len() - 1] == node);
        assert(self.colors[node as int] is Grey);
        assert forall|v: int| 0 <= v < g.len() && !(#[trigger] t.colors[v] is White) implies reached_from(
            g,
            roots,
            v,
        ) by {
            if self.colors[v] is White {
                // `v` is the input of the top node that was opened
                assert(k < g[node as int].len() && v == g[node as int][k as int]);
                assert(reached_from(g, roots, node as int));
                let j = choose|j: int|
                    0 <= j < roots.len() && reaches(g, (#[trigger] roots[j]) as int, node as int);
                assert(has_input(g, node as int, v));
                lemma_reaches_input(g, node as int, v);
                lemma_reaches_trans(g, roots[j] as int, node as int, v);
            }
        }
    }

    /// Where the bottom of the stack lies on no cycle, the walk until the
    /// stack is empty keeps `ok`.
    pub proof fn lemma_drain_ok(self, g: Inputs)
        requires
            self.wf(g),
            self.sound(g),
            self.stack.len() > 0 ==> !on_cycle(g, self.stack[0] as int),
        ensures
            self.drain(g).ok == self.ok,
        decreases self.remaining(), self.remaining_top(g),
    {
        if self.stack.len() > 0 {
            self.lemma_step_wf(g);
            self.lemma_step_sound(g);
            self.lemma_step_ok(g);
            if self.step(g).stack.len() > 0 {
                assert(self.step(g).stack[0] == self.stack[0]);
            }
            self.step(g).lemma_drain_ok(g);
        }
    }

    /// The walk until the stack is empty keeps every visited node
    /// reached from one of `roots`, and never makes `ok` hold again. If
    /// `ok` holds in the end, the bottom of the stack lies on no cycle.
    pub proof fn lemma_drain_detects(self, g: Inputs, roots: Seq<usize>)
        requires
            self.wf(g),
            self.sound(g),
            self.guarded(g),
            self.traced(g, roots),
        ensures
            self.drain(g).traced(g, roots),
            self.drain(g).ok ==> self.ok,
            self.drain(g).ok && self.stack.len() > 0 ==> !on_cycle(g, self.stack[0] as int),
        decreases self.remaining(), self.remaining_top(g),
    {
        if self.stack.len() > 0 {
            let t = self.step(g);
            self.lemma_step_wf(g);
            self.lemma_step_sound(g);
            self.lemma_step_ok(g);
            self.lemma_step_guarded(g);
            self.lemma_step_traced(g, roots);
            t.lemma_drain_detects(g, roots);
            if t.stack.len() > 0 {
                assert(t.stack[0] == self.stack[0]);
            } else if t.ok {
                assert(self.stack[self.stack.len() - 1] == self.top());
                assert(self.cursor.last() >= g[self.top() as int].len());
                assert(self.stack.len() == 1);
                self.lemma_last_step_detects(g);
            }
        }
    }

    /// When the bottom of the stack is about to be closed and `ok` holds,
    /// the bottom of the stack lies on no cycle.
    pub proof fn lemma_last_step_detects(self, g: Inputs)
        requires
            self.wf(g),
            self.sound(g),
            self.guarded(g),
            self.stack.len() == 1,
            self.cursor[0] >= g[self.stack[0] as int].len(),
            self.ok,
        ensures
            !on_cycle(g, self.stack[0] as int),
    {
        let root = self.stack[0];
        if on_cycle(g, root as int) {
            let u = choose|u: int|
                u != root as int && reaches(g, root as int, u) && #[trigger] has_input(
                    g,
                    u,
                    root as int,
                );
            let p = choose|p: Seq<int>|
                is_path(g, p) && p.first() == root as int && #[trigger] p.last() == u;
            self.lemma_reached_not_white(g, p, p.len() - 1);
            lemma_path_in_range(g, p, p.len() - 1);
            assert(0 <= u < g.len());
            if self.colors[u] is Grey {
                let pos = self.colors[u]->Grey_0;
                assert(pos < self.stack.len() && self.stack[pos as int] == u);
                assert(false);
            }
            assert(self.colors[u] is Black);
            assert(has_input(g, u, root as int));
            let k = choose|k: int| 0 <= k < g[u].len() && #[trigger] g[u][k] == root as int;
            assert(g[u][k] != self.stack[0]);
            assert(false);
        }
    }

    /// When all inputs of the only node on the stack are handled,
    /// whatever that node reaches is visited.
    pub proof fn lemma_reached_not_white(self, g: Inputs, p: Seq<int>, i: int)
        requires
            self.wf(g),
            self.sound(g),
            self.stack.len() == 1,
            self.cursor[0] >= g[self.stack[0] as int].len(),
            is_path(g, p),
            p[0] == self.stack[0],
            0 <= i < p.len(),
        ensures
            !(self.colors[p[i]] is White),
        decreases i,
    {
        if i > 0 {
            self.lemma_reached_not_white(g, p, i - 1);
            lemma_path_in_range(g, p, i - 1);
            assert(has_input(g, p[i - 1], p[i - 1 + 1]));
            let k = choose|k: int| 0 <= k < g[p[i - 1]].len() && #[trigger] g[p[i - 1]][k] == p[i];
            if self.colors[p[i - 1]] is Grey {
                assert(self.stack[self.colors[p[i - 1]]->Grey_0 as int] == p[i - 1]);
                assert(!(self.colors[g[self.stack[0] as int][k] as int] is White));
            } else {
                assert(!(self.colors[g[p[i - 1]][k] as int] is White));
            }
        } else {
            assert(self.colors[self.stack[0] as int] == Color::Grey(0));
        }
    }
}

impl Walk {
    /// The state between the visits of two start nodes: of the right
    /// shape and rightly done, with an empty stack; every start node
    /// handled so far is black, and every visited node is reached from one
    /// of them; and `ok` tells whether none of them that the walk had to
    /// open lies on a cycle.
    pub open spec fn done(self, g: Inputs, starts: Seq<usize>) -> bool {
        &&& self.wf(g)
        &&& self.sound(g)
        &&& self.stack.len() == 0
        &&& forall|j: int| 0 <= j < starts.len() ==> self.colors[(#[trigger] starts[j]) as int] is Black
        &&& self.traced(g, starts)
        &&& self.ok <==> start_nodes_acyclic(g, starts)
    }

    /// The walk begins in such a state.
    pub proof fn lemma_init_done(g: Inputs)
        requires
            graph_wf(g),
        ensures
            Walk::init(g.len()).done(g, Seq::empty()),
    {
        Walk::lemma_init_wf(g);
        let s = Walk::init(g.len());
        Partition::lemma_singletons(g.len());
        assert forall|u: int, v: int|
            0 <= u < s.classes.len() && 0 <= v < s.classes.len() && #[trigger] s.classes.same(
                u,
                v,
            ) implies mutually_reachable(g, u, v) by {
            lemma_reaches_self(g, u);
        }
    }

    /// A start node is white when its turn comes exactly if no earlier
    /// start node reaches it.
    pub proof fn lemma_white_is_fresh(self, g: Inputs, starts: Seq<usize>, k: int)
        requires
            0 <= k < starts.len(),
            start_nodes_in_range(g, starts),
            self.done(g, starts.take(k)),
        ensures
            self.colors[starts[k] as int] is White <==> is_fresh_start(g, starts, k),
    {
        let root = starts[k];
        let before = starts.take(k);
        if self.colors[root as int] is White {
            assert forall|j: int| 0 <= j < k implies !reaches(
                g,
                (#[trigger] starts[j]) as int,
                root as int,
            ) by {
                if reaches(g, starts[j] as int, root as int) {
                    let p = choose|p: Seq<int>|
                        is_path(g, p) && p.first() == starts[j] as int && #[trigger] p.last()
                            == root as int;
                    assert(before[j] == starts[j]);
                    self.lemma_black_reaches_black(g, p, p.len() - 1);
                }
            }
        } else {
            assert(reached_from(g, before, root as int));
            let j = choose|j: int|
                0 <= j < before.len() && reaches(g, (#[trigger] before[j]) as int, root as int);
            assert(before[j] == starts[j]);
        }
    }

    /// The visit of the next start node leads to such a state again.
    pub proof fn lemma_visit_done(self, g: Inputs, starts: Seq<usize>, k: int)
        requires
            0 <= k < starts.len(),
            start_nodes_in_range(g, starts),
            self.done(g, starts.take(k)),
        ensures
            self.colors[starts[k] as int] is White ==> self.open(starts[k]).wf(g) && self.open(
                starts[k],
            ).sound(g),
            self.visit(g, starts[k]).done(g, starts.take(k + 1)),
    {
        let root = starts[k];
        let t = self.visit(g, root);
        let before = starts.take(k);
        let after = starts.take(k + 1);
        self.lemma_white_is_fresh(g, starts, k);
        lemma_acyclic_extend(g, starts, k);
        self.lemma_visit_ok(g, starts, k);
        self.lemma_visit_traced(g, starts, k);
        if self.colors[root as int] is White {
            let opened = self.open(root);
            self.lemma_open_wf(g, root);
            self.lemma_open_root_sound(g, root);
            opened.lemma_drain_wf(g);
            opened.lemma_drain_sound(g);
            assert(!(opened.colors[root as int] is White));
        }
        assert forall|j: int| 0 <= j < after.len() implies t.colors[(#[trigger] after[j]) as int] is Black by {
            if j < k {
                assert(before[j] == starts[j]);
                assert(self.colors[before[j] as int] is Black);
            } else {
                assert(after[j] == root);
            }
        }
    }

    /// The visit of the next start node keeps `ok` exactly if that node,
    /// where the walk has to open it, lies on no cycle.
    pub proof fn lemma_visit_ok(self, g: Inputs, starts: Seq<usize>, k: int)
        requires
            0 <= k < starts.len(),
            start_nodes_in_range(g, starts),
            self.done(g, starts.take(k)),
        ensures
            self.visit(g, starts[k]).ok <==> self.ok && (self.colors[starts[k] as int] is White
                ==> !on_cycle(g, starts[k] as int)),
    {
        let root = starts[k];
        if self.colors[root as int] is White {
            let opened = self.open(root);
            self.lemma_open_wf(g, root);
            self.lemma_open_root_sound(g, root);
            self.lemma_visit_traced(g, starts, k);
            assert(opened.stack[0] == root);
            opened.lemma_drain_detects(g, starts.take(k + 1));
            if !on_cycle(g, root as int) {
                opened.lemma_drain_ok(g);
            }
        }
    }

    /// The visit of the next start node never restores `ok`, and where
    /// it takes `ok` away, that start node is the first at fault.
    pub proof fn lemma_visit_fault(self, g: Inputs, starts: Seq<usize>, k: int)
        requires
            0 <= k < starts.len(),
            start_nodes_in_range(g, starts),
            self.done(g, starts.take(k)),
        ensures
            self.visit(g, starts[k]).ok ==> self.ok,
            self.ok && !self.visit(g, starts[k]).ok ==> first_on_cycle(g, starts, k),
    {
        self.lemma_visit_ok(g, starts, k);
        self.lemma_visit_done(g, starts, k);
        if self.ok && !self.visit(g, starts[k]).ok {
            lemma_first_on_cycle(g, starts, k);
        }
    }

    /// When the next start node is opened, every visited node is reached
    /// from one of the start nodes up to that one; and so it is after the
    /// visit.
    pub proof fn lemma_visit_traced(self, g: Inputs, starts: Seq<usize>, k: int)
        requires
            0 <= k < starts.len(),
            start_nodes_in_range(g, starts),
            self.done(g, starts.take(k)),
        ensures
            self.traced(g, starts.take(k + 1)),
            self.colors[starts[k] as int] is White ==> self.open(starts[k]).traced(
                g,
                starts.take(k + 1),
            ),
            self.visit(g, starts[k]).traced(g, starts.take(k + 1)),
    {
        let root = starts[k];
        let before = starts.take(k);
        let after = starts.take(k + 1);
        assert forall|v: int| reached_from(g, before, v) implies reached_from(g, after, v) by {
            let j = choose|j: int|
                0 <= j < before.len() && reaches(g, (#[trigger] before[j]) as int, v);
            assert(after[j] == before[j]);
        }
        assert(self.traced(g, after));
        if self.colors[root as int] is White {
            let opened = self.open(root);
            self.lemma_open_wf(g, root);
            self.lemma_open_root_sound(g, root);
            assert forall|v: int|
                0 <= v < g.len() && !(#[trigger] opened.colors[v] is White) implies reached_from(
                g,
                after,
                v,
            ) by {
                if v == root {
                    lemma_reaches_self(g, v);
                    assert(after[k] == root);
                } else {
                    assert(!(self.colors[v] is White));
                }
            }
            opened.lemma_drain_detects(g, after);
        }
    }

    /// The walk from start nodes of the graph ends in such a state.
    pub proof fn lemma_walked_done(g: Inputs, starts: Seq<usize>)
        requires
            graph_wf(g),
            start_nodes_in_range(g, starts),
        ensures
            Walk::walked(g, starts).done(g, starts),
        decreases starts.len(),
    {
        if starts.len() == 0 {
            Walk::lemma_init_done(g);
            assert(starts =~= Seq::empty());
        } else {
            let k = starts.len() - 1;
            let before = starts.drop_last();
            assert(before =~= starts.take(k));
            assert forall|i: int| 0 <= i < before.len() implies (#[trigger] before[i]) < g.len() by {
                assert(before[i] == starts[i]);
            }
            Walk::lemma_walked_done(g, before);
            Walk::walked(g, before).lemma_visit_done(g, starts, k);
            assert(starts.take(k + 1) =~= starts);
        }
    }

    /// The walk from the start nodes up to the `k`-th is the walk from
    /// those before it and the visit of the `k`-th. That visit never
    /// restores `ok`, and where it takes `ok` away, the `k`-th start node
    /// is the first at fault.
    pub proof fn lemma_walked_next(g: Inputs, starts: Seq<usize>, k: int)
        requires
            graph_wf(g),
            start_nodes_in_range(g, starts),
            0 <= k < starts.len(),
        ensures
            Walk::walked(g, starts.take(k + 1)) == Walk::walked(g, starts.take(k)).visit(
                g,
                starts[k],
            ),
            Walk::walked(g, starts.take(k + 1)).ok ==> Walk::walked(g, starts.take(k)).ok,
            Walk::walked(g, starts.take(k)).ok && !Walk::walked(g, starts.take(k + 1)).ok
                ==> first_on_cycle(g, starts, k),
    {
        let before = starts.take(k);
        let after = starts.take(k + 1);
        assert(after.drop_last() =~= before);
        assert(after.last() == starts[k]);
        assert forall|i: int| 0 <= i < before.len() implies (#[trigger] before[i]) < g.len() by {
            assert(before[i] == starts[i]);
        }
        Walk::lemma_walked_done(g, before);
        Walk::walked(g, before).lemma_visit_fault(g, starts, k);
    }
}

/// Where the start nodes up to the `k`-th meet the condition on cycles,
/// those before the `k`-th do, and the `k`-th, where no earlier one
/// reaches it, lies on no cycle.
proof fn lemma_acyclic_shorter(g: Inputs, starts: Seq<usize>, k: int)
    requires
        0 <= k < starts.len(),
        start_nodes_acyclic(g, starts.take(k + 1)),
    ensures
        start_nodes_acyclic(g, starts.take(k)),
        is_fresh_start(g, starts, k) ==> !on_cycle(g, starts[k] as int),
{
    let before = starts.take(k);
    let after = starts.take(k + 1);
    assert forall|j: int| 0 <= j < before.len() && is_fresh_start(g, before, j) implies !on_cycle(
        g,
        (#[trigger] before[j]) as int,
    ) by {
        lemma_fresh_prefix(g, starts, k, j);
        lemma_fresh_prefix(g, starts, k + 1, j);
        assert(after[j] == before[j]);
    }
    if is_fresh_start(g, starts, k) {
        lemma_fresh_prefix(g, starts, k + 1, k);
        assert(after[k] == starts[k]);
    }
}

/// Where the start nodes before the `k`-th meet the condition on cycles,
/// and the `k`-th, where no earlier one reaches it, lies on no cycle,
/// the start nodes up to the `k`-th meet the condition.
proof fn lemma_acyclic_longer(g: Inputs, starts: Seq<usize>, k: int)
    requires
        0 <= k < starts.len(),
        start_nodes_acyclic(g, starts.take(k)),
        is_fresh_start(g, starts, k) ==> !on_cycle(g, starts[k] as int),
    ensures
        start_nodes_acyclic(g, starts.take(k + 1)),
{
    let before = starts.take(k);
    let after = starts.take(k + 1);
    assert forall|j: int| 0 <= j < after.len() && is_fresh_start(g, after, j) implies !on_cycle(
        g,
        (#[trigger] after[j]) as int,
    ) by {
        lemma_fresh_prefix(g, starts, k + 1, j);
        if j < k {
            lemma_fresh_prefix(g, starts, k, j);
            assert(after[j] == before[j]);
        } else {
            assert(after[j] == starts[k]);
        }
    }
}

/// The start nodes up to the `k`-th meet the condition on cycles exactly
/// if those before the `k`-th do and the `k`-th, where no earlier one
/// reaches it, lies on no cycle.
pub proof fn lemma_acyclic_extend(g: Inputs, starts: Seq<usize>, k: int)
    requires
        0 <= k < starts.len(),
    ensures
        start_nodes_acyclic(g, starts.take(k + 1)) <==> start_nodes_acyclic(g, starts.take(k)) && (
        is_fresh_start(g, starts, k) ==> !on_cycle(g, starts[k] as int)),
{
    if start_nodes_acyclic(g, starts.take(k + 1)) {
        lemma_acyclic_shorter(g, starts, k);
    }
    if start_nodes_acyclic(g, starts.take(k)) && (is_fresh_start(g, starts, k) ==> !on_cycle(
        g,
        starts[k] as int,
    )) {
        lemma_acyclic_longer(g, starts, k);
    }
}

/// Where the start nodes before the `k`-th meet the condition on cycles
/// and those up to the `k`-th do not, the `k`-th is the first at fault.
pub proof fn lemma_first_on_cycle(g: Inputs, starts: Seq<usize>, k: int)
    requires
        0 <= k < starts.len(),
        start_nodes_acyclic(g, starts.take(k)),
        !start_nodes_acyclic(g, starts.take(k + 1)),
    ensures
        first_on_cycle(g, starts, k),
{
    let before = starts.take(k);
    lemma_acyclic_extend(g, starts, k);
    assert forall|j: int| 0 <= j < k && is_fresh_start(g, starts, j) implies !on_cycle(
        g,
        (#[trigger] starts[j]) as int,
    ) by {
        lemma_fresh_prefix(g, starts, k, j);
        assert(before[j] == starts[j]);
    }
}

/// Whether a start node is reached by an earlier one does not depend on
/// the start nodes after it.
pub proof fn lemma_fresh_prefix(g: Inputs, starts: Seq<usize>, len: int, j: int)
    requires
        0 <= j < len <= starts.len(),
    ensures
        is_fresh_start(g, starts.take(len), j) <==> is_fresh_start(g, starts, j),
{
    let prefix = starts.take(len);
    assert(prefix[j] == starts[j]);
    if is_fresh_start(g, starts, j) {
        assert forall|i: int| 0 <= i < j implies !reaches(
            g,
            (#[trigger] prefix[i]) as int,
            prefix[j] as int,
        ) by {
            assert(prefix[i] == starts[i]);
        }
    }
    if is_fresh_start(g, prefix, j) {
        assert forall|i: int| 0 <= i < j implies !reaches(
            g,
            (#[trigger] starts[i]) as int,
            starts[j] as int,
        ) by {
            assert(prefix[i] == starts[i]);
        }
    }
}

/// The sets that `remaining` counts are finite and no larger than the graph.
pub proof fn lemma_color_sets_finite(colors: Seq<Color>)
    ensures
        white_set(colors).finite(),
        unfinished_set(colors).finite(),
        white_set(colors).len() <= unfinished_set(colors).len() <= colors.len(),
{
    let all = set_int_range(0, colors.len() as int);
    lemma_int_range(0, colors.len() as int);
    assert(unfinished_set(colors).subset_of(all));
    lemma_len_subset(unfinished_set(colors), all);
    assert(white_set(colors).subset_of(unfinished_set(colors)));
    lemma_len_subset(white_set(colors), unfinished_set(colors));
}

} // verus!
