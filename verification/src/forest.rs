//! The shape of what the walk records: the parents form a forest, and
//! every class of nodes is a connected piece of one of its trees, below a
//! single topmost node.

use vstd::prelude::*;

use crate::graph::{graph_wf, Inputs};
use crate::unify::Partition;
use crate::walk::{start_nodes_in_range, Color, Walk};

verus! {

impl Partition {
    /// `x` lies in one class with one of `keys`.
    pub open spec fn meets(self, keys: Seq<usize>, x: int) -> bool {
        exists|j: int| 0 <= j < keys.len() && #[trigger] self.same(x, keys[j] as int)
    }

    /// After merging each of `keys` with the last of them, two keys lie in
    /// one class exactly if they did before or each lay with one of
    /// `keys`.
    pub proof fn lemma_union_all_same(self, keys: Seq<usize>, u: int, v: int)
        requires
            self.wf(),
            keys.len() > 0,
            forall|i: int| 0 <= i < keys.len() ==> keys[i] < self.len(),
            0 <= u < self.len(),
            0 <= v < self.len(),
        ensures
            self.union_all(keys, keys.last()).same(u, v) <==> (self.same(u, v) || (self.meets(
                keys,
                u,
            ) && self.meets(keys, v))),
    {
        self.lemma_union_all_with(keys, keys.last(), u, v);
        let with = keys.last();
        assert(self.same(with as int, keys[keys.len() - 1] as int));
        if self.same(u, with as int) {
            assert(self.same(u, keys[keys.len() - 1] as int));
        }
        if self.same(v, with as int) {
            assert(self.same(v, keys[keys.len() - 1] as int));
        }
    }

    /// After merging each of `keys` with `with`, two keys lie in one
    /// class exactly if they did before or each lay with `with` or with
    /// one of `keys`.
    pub proof fn lemma_union_all_with(self, keys: Seq<usize>, with: usize, u: int, v: int)
        requires
            self.wf(),
            with < self.len(),
            forall|i: int| 0 <= i < keys.len() ==> keys[i] < self.len(),
            0 <= u < self.len(),
            0 <= v < self.len(),
        ensures
            self.union_all(keys, with).same(u, v) <==> (self.same(u, v) || (keys.len() > 0 && (
            self.same(u, with as int) || self.meets(keys, u)) && (self.same(v, with as int)
                || self.meets(keys, v)))),
        decreases keys.len(),
    {
        if keys.len() > 0 {
            let rest = keys.drop_last();
            let last = keys.last();
            let before = self.union_all(rest, with);
            self.lemma_union_all_wf(rest, with);
            self.lemma_union_all_with(rest, with, u, v);
            self.lemma_union_all_with(rest, with, u, last as int);
            self.lemma_union_all_with(rest, with, u, with as int);
            self.lemma_union_all_with(rest, with, v, last as int);
            self.lemma_union_all_with(rest, with, v, with as int);
            before.lemma_union_same(last as int, with as int, u, v);
            assert(keys[keys.len() - 1] == last);
            assert forall|x: int| self.meets(rest, x) implies self.meets(keys, x) by {
                let j = choose|j: int| 0 <= j < rest.len() && #[trigger] self.same(x, rest[j] as int);
                assert(self.same(x, keys[j] as int));
            }
            assert forall|x: int| self.meets(keys, x) implies self.meets(rest, x) || self.same(
                x,
                last as int,
            ) by {
                let j = choose|j: int| 0 <= j < keys.len() && #[trigger] self.same(x, keys[j] as int);
                if j < rest.len() {
                    assert(self.same(x, rest[j] as int));
                }
            }
            assert(self.same(last as int, keys[keys.len() - 1] as int));
            if self.same(u, last as int) {
                assert(self.same(u, keys[keys.len() - 1] as int));
            }
            if self.same(v, last as int) {
                assert(self.same(v, keys[keys.len() - 1] as int));
            }
            if self.meets(rest, last as int) {
                assert(self.meets(keys, last as int));
            }
        }
    }
}

impl Walk {
    /// `v` was opened.
    pub open spec fn visited(self, v: int) -> bool {
        !(self.colors[v] is White)
    }

    /// `v` is the topmost node of its class: it has no parent, or its
    /// parent lies in another class.
    pub open spec fn is_top(self, v: int) -> bool {
        self.parents[v] == v || !self.classes.same(self.parents[v] as int, v)
    }

    /// The parents form a forest with its roots among `roots`, the stack
    /// is a branch of it, and every class is a connected piece of a tree
    /// below a single topmost node.
    pub open spec fn forest(self, g: Inputs, roots: Seq<usize>) -> bool {
        let n = g.len();
        // a white node has no parent and a class of its own
        &&& forall|v: int| 0 <= v < n && self.colors[v] is White ==> #[trigger] self.parents[v] == v
        &&& forall|u: int, v: int|
            0 <= u < n && 0 <= v < n && self.colors[v] is White && #[trigger] self.classes.same(u, v)
                ==> u == v
        // the stack is a branch
        &&& self.stack.len() > 0 ==> self.parents[self.stack[0] as int] == self.stack[0]
        &&& forall|i: int|
            0 < i < self.stack.len() ==> self.parents[(#[trigger] self.stack[i]) as int]
                == self.stack[i - 1]
        &&& forall|i: int|
            0 <= i < self.stack.len() ==> self.depth[(#[trigger] self.stack[i]) as int] == i
        // the parents form a forest
        &&& forall|v: int|
            0 <= v < n && self.visited(v) && (#[trigger] self.parents[v]) != v ==> self.visited(
                self.parents[v] as int,
            ) && self.depth[v] == self.depth[self.parents[v] as int] + 1
        &&& forall|v: int|
            0 <= v < n && self.visited(v) && #[trigger] self.parents[v] == v ==> roots.contains(
                v as usize,
            ) && self.depth[v] == 0
        &&& forall|v: int| 0 <= v < n ==> #[trigger] self.depth[v] < n
        // the topmost node of a class is higher than the others
        &&& forall|u: int, v: int|
            0 <= u < n && 0 <= v < n && u != v && #[trigger] self.classes.same(u, v) && self.is_top(
                u,
            ) ==> self.depth[u] < self.depth[v]
        // the nodes of a class that are on the stack are neighbours
        &&& forall|i: int, j: int|
            0 <= i < j < self.stack.len() && #[trigger] self.classes.same(
                self.stack[i] as int,
                self.stack[j] as int,
            ) ==> self.classes.same(self.stack[j - 1] as int, self.stack[j] as int)
        // cross edges join visited nodes
        &&& forall|e: int|
            0 <= e < self.cross_edges.len() ==> self.visited(
                (#[trigger] self.cross_edges[e]).0 as int,
            ) && self.visited(self.cross_edges[e].1 as int)
    }

    /// Between two nodes of one class on the stack, every node is of that
    /// class.
    pub proof fn lemma_stack_neighbours(self, g: Inputs, roots: Seq<usize>, i: int, j: int, k: int)
        requires
            self.wf(g),
            self.forest(g, roots),
            0 <= i <= j <= k < self.stack.len(),
            self.classes.same(self.stack[i] as int, self.stack[k] as int),
        ensures
            self.classes.same(self.stack[j] as int, self.stack[k] as int),
        decreases k,
    {
        if j < k {
            assert(self.classes.same(self.stack[k - 1] as int, self.stack[k] as int));
            assert(self.classes.same(self.stack[i] as int, self.stack[k - 1] as int));
            self.lemma_stack_neighbours(g, roots, i, j, k - 1);
        }
    }

    /// The lowest position on the stack of a node in the class of the
    /// node at position `j`.
    pub open spec fn class_start(self, j: int) -> int
        decreases j,
    {
        if j <= 0 || !self.classes.same(self.stack[j - 1] as int, self.stack[j] as int) {
            j
        } else {
            self.class_start(j - 1)
        }
    }

    /// The node at `class_start(j)` is the topmost node of the class of
    /// the node at `j`, and no node of that class is lower on the stack.
    pub proof fn lemma_class_start(self, g: Inputs, roots: Seq<usize>, j: int)
        requires
            self.wf(g),
            self.forest(g, roots),
            0 <= j < self.stack.len(),
        ensures
            0 <= self.class_start(j) <= j,
            self.classes.same(self.stack[self.class_start(j)] as int, self.stack[j] as int),
            self.is_top(self.stack[self.class_start(j)] as int),
            forall|i: int|
                0 <= i < self.class_start(j) ==> !self.classes.same(
                    self.stack[i] as int,
                    self.stack[j] as int,
                ),
        decreases j,
    {
        let a = self.class_start(j);
        if j <= 0 || !self.classes.same(self.stack[j - 1] as int, self.stack[j] as int) {
            assert forall|i: int| 0 <= i < j implies !self.classes.same(
                self.stack[i] as int,
                self.stack[j] as int,
            ) by {
                if self.classes.same(self.stack[i] as int, self.stack[j] as int) {
                    assert(self.classes.same(self.stack[j - 1] as int, self.stack[j] as int));
                }
            }
            if j > 0 {
                assert(self.parents[self.stack[j] as int] == self.stack[j - 1]);
            }
        } else {
            self.lemma_class_start(g, roots, j - 1);
            assert forall|i: int| 0 <= i < a implies !self.classes.same(
                self.stack[i] as int,
                self.stack[j] as int,
            ) by {
                assert(!self.classes.same(self.stack[i] as int, self.stack[j - 1] as int));
            }
        }
    }

    /// A node in the class of the node at position `j` of the stack is
    /// the class's topmost node, at `class_start(j)`, or deeper.
    pub proof fn lemma_below_class_start(self, g: Inputs, roots: Seq<usize>, j: int, x: int)
        requires
            self.wf(g),
            self.forest(g, roots),
            0 <= j < self.stack.len(),
            0 <= x < g.len(),
            self.classes.same(x, self.stack[j] as int),
        ensures
            x == self.stack[self.class_start(j)] || self.depth[x] > self.class_start(j),
    {
        self.lemma_class_start(g, roots, j);
        let a = self.class_start(j);
        let top = self.stack[a] as int;
        assert(self.depth[top] == a);
        if x != top {
            assert(self.classes.same(top, x));
        }
    }

    /// Two nodes of one class on the stack have one `class_start`; of
    /// two nodes of different classes the upper one has the greater, above
    /// the lower node.
    pub proof fn lemma_class_start_order(self, g: Inputs, roots: Seq<usize>, i: int, j: int)
        requires
            self.wf(g),
            self.forest(g, roots),
            0 <= i <= j < self.stack.len(),
        ensures
            self.classes.same(self.stack[i] as int, self.stack[j] as int) ==> self.class_start(j)
                == self.class_start(i),
            !self.classes.same(self.stack[i] as int, self.stack[j] as int) ==> self.class_start(j)
                > i,
    {
        self.lemma_class_start(g, roots, i);
        self.lemma_class_start(g, roots, j);
        let a = self.class_start(i);
        let b = self.class_start(j);
        if self.classes.same(self.stack[i] as int, self.stack[j] as int) {
            if a < b {
                assert(self.classes.same(self.stack[a] as int, self.stack[j] as int));
            }
            if b < a {
                assert(self.classes.same(self.stack[b] as int, self.stack[i] as int));
            }
        } else {
            if b <= i {
                self.lemma_stack_neighbours(g, roots, b, i, j);
            }
        }
    }
}

impl Walk {
    /// The state after every node on the stack from position `pos`
    /// upwards was merged with the top node.
    pub open spec fn merged(self, pos: int) -> Walk {
        Walk {
            classes: self.classes.union_all(
                self.stack.subrange(pos, self.stack.len() as int),
                self.top(),
            ),
            ok: self.ok && pos > 0,
            ..self
        }
    }

    /// A node lies in one class with a node on the stack at `pos` or
    /// above exactly if it does so with one of the nodes merged.
    pub proof fn lemma_meets_stack(self, pos: int, x: int) -> (j: int)
        requires
            0 <= pos < self.stack.len(),
            self.classes.meets(self.stack.subrange(pos, self.stack.len() as int), x),
        ensures
            pos <= j < self.stack.len(),
            self.classes.same(x, self.stack[j] as int),
    {
        let keys = self.stack.subrange(pos, self.stack.len() as int);
        let i = choose|i: int| 0 <= i < keys.len() && #[trigger] self.classes.same(x, keys[i] as int);
        assert(keys[i] == self.stack[pos + i]);
        pos + i
    }

    /// What is merged lies at the depth of the topmost node of the class
    /// of the node at `pos`, or deeper; and but for that node, what was
    /// topmost in its class has its parent among what is merged.
    pub proof fn lemma_merged_depth(self, g: Inputs, roots: Seq<usize>, pos: int, x: int)
        requires
            self.wf(g),
            self.forest(g, roots),
            0 <= pos < self.stack.len(),
            0 <= x < g.len(),
            self.classes.meets(self.stack.subrange(pos, self.stack.len() as int), x),
        ensures
            x == self.stack[self.class_start(pos)] || self.depth[x] > self.class_start(pos),
            x != self.stack[self.class_start(pos)] && self.is_top(x) ==> self.parents[x] != x
                && self.classes.meets(
                self.stack.subrange(pos, self.stack.len() as int),
                self.parents[x] as int,
            ),
    {
        let keys = self.stack.subrange(pos, self.stack.len() as int);
        let j = self.lemma_meets_stack(pos, x);
        let a = self.class_start(pos);
        let b = self.class_start(j);
        self.lemma_class_start(g, roots, pos);
        self.lemma_class_start(g, roots, j);
        self.lemma_below_class_start(g, roots, j, x);
        self.lemma_class_start_order(g, roots, pos, j);
        let top = self.stack[b] as int;
        if x != self.stack[a] && self.is_top(x) {
            if x != top {
                assert(self.classes.same(top, x));
                assert(self.classes.same(x, top));
            }
            assert(x == top);
            assert(b > pos);
            assert(self.parents[self.stack[b] as int] == self.stack[b - 1]);
            assert(self.stack[b - 1] != self.stack[b]) by {
                assert(self.colors[self.stack[b - 1] as int] == Color::Grey((b - 1) as usize));
                assert(self.colors[self.stack[b] as int] == Color::Grey(b as usize));
            }
            assert(keys[b - 1 - pos] == self.stack[b - 1]);
            assert(self.classes.same(self.stack[b - 1] as int, keys[b - 1 - pos] as int));
        }
    }

    /// Merging the nodes on the stack from `pos` upwards keeps the shape
    /// of the forest.
    pub proof fn lemma_merged_forest(self, g: Inputs, roots: Seq<usize>, pos: int)
        requires
            self.wf(g),
            self.forest(g, roots),
            0 <= pos < self.stack.len(),
        ensures
            self.merged(pos).forest(g, roots),
    {
        let n = g.len();
        let t = self.merged(pos);
        let len = self.stack.len() as int;
        let keys = self.stack.subrange(pos, len);
        assert(keys.last() == self.top());
        assert forall|i: int| 0 <= i < keys.len() implies keys[i] < self.classes.len() by {
            assert(keys[i] == self.stack[pos + i]);
        }
        let a = self.class_start(pos);
        self.lemma_class_start(g, roots, pos);

        assert forall|u: int, v: int|
            0 <= u < n && 0 <= v < n && t.colors[v] is White && #[trigger] t.classes.same(
                u,
                v,
            ) implies u == v by {
            self.classes.lemma_union_all_same(keys, u, v);
            if !self.classes.same(u, v) {
                let j = self.lemma_meets_stack(pos, v);
                assert(self.classes.same(self.stack[j] as int, v));
            }
        }

        assert forall|u: int, v: int|
            0 <= u < n && 0 <= v < n && u != v && #[trigger] t.classes.same(u, v) && t.is_top(
                u,
            ) implies t.depth[u] < t.depth[v] by {
            self.classes.lemma_union_all_same(keys, u, v);
            self.classes.lemma_union_all_same(keys, self.parents[u] as int, u);
            assert(self.is_top(u));
            if self.classes.same(u, v) {
            } else {
                self.lemma_merged_depth(g, roots, pos, u);
                self.lemma_merged_depth(g, roots, pos, v);
            }
        }

        assert forall|i: int, j: int|
            0 <= i < j < t.stack.len() && #[trigger] t.classes.same(
                t.stack[i] as int,
                t.stack[j] as int,
            ) implies t.classes.same(t.stack[j - 1] as int, t.stack[j] as int) by {
            let x = self.stack[i] as int;
            let y = self.stack[j] as int;
            let z = self.stack[j - 1] as int;
            self.classes.lemma_union_all_same(keys, x, y);
            self.classes.lemma_union_all_same(keys, z, y);
            if self.classes.same(x, y) {
                assert(self.classes.same(z, y));
            } else if j > pos {
                assert(keys[j - 1 - pos] == self.stack[j - 1]);
                assert(self.classes.same(z, keys[j - 1 - pos] as int));
            } else {
                let jx = self.lemma_meets_stack(pos, x);
                let jy = self.lemma_meets_stack(pos, y);
                self.lemma_stack_neighbours(g, roots, i, pos, jx);
                self.lemma_stack_neighbours(g, roots, j, pos, jy);
                assert(self.classes.same(x, y));
            }
        }
    }
}

impl Walk {
    /// The walk begins with a forest without trees.
    pub proof fn lemma_init_forest(g: Inputs)
        requires
            graph_wf(g),
        ensures
            Walk::init(g.len()).forest(g, Seq::empty()),
    {
        Partition::lemma_singletons(g.len());
    }

    /// A forest with its roots among `roots` has them among any list that
    /// holds `roots`.
    pub proof fn lemma_forest_more_roots(self, g: Inputs, roots: Seq<usize>, more: Seq<usize>)
        requires
            self.forest(g, roots),
            forall|r: usize| roots.contains(r) ==> more.contains(r),
        ensures
            self.forest(g, more),
    {
    }

    /// Opening a white node as a root, on an empty stack, keeps the shape
    /// of the forest.
    pub proof fn lemma_open_root_forest(self, g: Inputs, roots: Seq<usize>, root: usize)
        requires
            self.wf(g),
            self.forest(g, roots),
            self.stack.len() == 0,
            root < g.len(),
            self.colors[root as int] is White,
            roots.contains(root),
        ensures
            self.open(root).forest(g, roots),
    {
        let t = self.open(root);
        self.lemma_open_wf(g, root);
        assert(self.parents[root as int] == root);
        assert forall|v: int|
            0 <= v < g.len() && t.visited(v) && (#[trigger] t.parents[v]) != v implies t.visited(
            t.parents[v] as int,
        ) && t.depth[v] == t.depth[t.parents[v] as int] + 1 by {
            assert(v != root);
            assert(self.visited(v));
            assert(self.visited(self.parents[v] as int));
        }
        assert forall|u: int, v: int|
            0 <= u < g.len() && 0 <= v < g.len() && u != v && #[trigger] t.classes.same(u, v)
                && t.is_top(u) implies t.depth[u] < t.depth[v] by {
            assert(self.classes.same(u, v));
            if v == root {
            } else if u == root {
                assert(self.classes.same(v, u));
            } else {
                assert(self.is_top(u));
            }
        }
    }

    /// Opening a white input of the top node, with the top node as its
    /// parent, keeps the shape of the forest.
    pub proof fn lemma_open_child_forest(self, g: Inputs, roots: Seq<usize>, child: usize)
        requires
            self.wf(g),
            self.forest(g, roots),
            self.stack.len() > 0,
            child < g.len(),
            self.colors[child as int] is White,
        ensures
            (Walk { parents: self.parents.update(child as int, self.top()), ..self }).open(
                child,
            ).forest(g, roots),
    {
        let parent = self.top();
        let top = self.stack.len() - 1;
        let with_parent = Walk { parents: self.parents.update(child as int, parent), ..self };
        let t = with_parent.open(child);
        with_parent.lemma_open_wf(g, child);
        assert(self.stack[top] == parent);
        assert(parent != child);
        assert(self.depth[parent as int] == top);
        assert forall|v: int| 0 <= v < g.len() && t.colors[v] is White implies #[trigger] t.parents[v]
            == v by {
            assert(self.colors[v] is White);
        }
        assert forall|i: int| 0 < i < t.stack.len() implies t.parents[(#[trigger] t.stack[i]) as int]
            == t.stack[i - 1] by {
            if i < self.stack.len() {
                assert(t.stack[i] == self.stack[i]);
                assert(self.stack[i] != child);
            }
        }
        assert forall|i: int| 0 <= i < t.stack.len() implies t.depth[(#[trigger] t.stack[i]) as int]
            == i by {
            if i < self.stack.len() {
                assert(t.stack[i] == self.stack[i]);
                assert(self.stack[i] != child);
            }
        }
        assert(t.parents[t.stack[0] as int] == t.stack[0]) by {
            assert(t.stack[0] == self.stack[0]);
            assert(self.stack[0] != child);
        }
        assert forall|v: int|
            0 <= v < g.len() && t.visited(v) && (#[trigger] t.parents[v]) != v implies t.visited(
            t.parents[v] as int,
        ) && t.depth[v] == t.depth[t.parents[v] as int] + 1 by {
            if v != child {
                assert(self.visited(v));
                assert(self.parents[v] != v);
                assert(self.visited(self.parents[v] as int));
                assert(self.parents[v] != child);
            }
        }
        assert forall|v: int|
            0 <= v < g.len() && t.visited(v) && #[trigger] t.parents[v] == v implies roots.contains(
            v as usize,
        ) && t.depth[v] == 0 by {
            assert(v != child);
            assert(self.visited(v));
            assert(self.parents[v] == v);
        }
        assert forall|u: int, v: int|
            0 <= u < g.len() && 0 <= v < g.len() && u != v && #[trigger] t.classes.same(u, v)
                && t.is_top(u) implies t.depth[u] < t.depth[v] by {
            assert(self.classes.same(u, v));
            if v == child {
            } else if u == child {
                assert(self.classes.same(v, u));
            } else {
                assert(self.is_top(u));
            }
        }
        assert forall|i: int, j: int|
            0 <= i < j < t.stack.len() && #[trigger] t.classes.same(
                t.stack[i] as int,
                t.stack[j] as int,
            ) implies t.classes.same(t.stack[j - 1] as int, t.stack[j] as int) by {
            if j < self.stack.len() {
                assert(self.classes.same(self.stack[i] as int, self.stack[j] as int));
            } else {
                assert(self.classes.same(self.stack[i] as int, child as int));
            }
        }
        assert forall|e: int| 0 <= e < t.cross_edges.len() implies t.visited(
            (#[trigger] t.cross_edges[e]).0 as int,
        ) && t.visited(t.cross_edges[e].1 as int) by {
            assert(self.visited(self.cross_edges[e].0 as int));
            assert(self.visited(self.cross_edges[e].1 as int));
        }
    }

    /// Closing the top node keeps the shape of the forest.
    pub proof fn lemma_close_forest(self, g: Inputs, roots: Seq<usize>)
        requires
            self.wf(g),
            self.forest(g, roots),
            self.stack.len() > 0,
        ensures
            self.close(g).forest(g, roots),
    {
        let t = self.close(g);
        let node = self.top();
        assert(self.stack[self.stack.len() - 1] == node);
        assert forall|v: int|
            0 <= v < g.len() && t.visited(v) && (#[trigger] t.parents[v]) != v implies t.visited(
            t.parents[v] as int,
        ) && t.depth[v] == t.depth[t.parents[v] as int] + 1 by {
            assert(self.visited(v));
            assert(self.visited(self.parents[v] as int));
        }
        assert forall|v: int|
            0 <= v < g.len() && t.visited(v) && #[trigger] t.parents[v] == v implies roots.contains(
            v as usize,
        ) && t.depth[v] == 0 by {
            assert(self.visited(v));
        }
        assert forall|i: int| 0 < i < t.stack.len() implies t.parents[(#[trigger] t.stack[i]) as int]
            == t.stack[i - 1] by {
            assert(t.stack[i] == self.stack[i]);
            assert(t.stack[i - 1] == self.stack[i - 1]);
        }
        assert forall|i: int| 0 <= i < t.stack.len() implies t.depth[(#[trigger] t.stack[i]) as int]
            == i by {
            assert(t.stack[i] == self.stack[i]);
        }
        if t.stack.len() > 0 {
            assert(t.stack[0] == self.stack[0]);
        }
        assert forall|i: int, j: int|
            0 <= i < j < t.stack.len() && #[trigger] t.classes.same(
                t.stack[i] as int,
                t.stack[j] as int,
            ) implies t.classes.same(t.stack[j - 1] as int, t.stack[j] as int) by {
            assert(self.classes.same(self.stack[i] as int, self.stack[j] as int));
        }
        assert forall|e: int| 0 <= e < t.cross_edges.len() implies t.visited(
            (#[trigger] t.cross_edges[e]).0 as int,
        ) && t.visited(t.cross_edges[e].1 as int) by {
            assert(self.visited(self.cross_edges[e].0 as int));
            assert(self.visited(self.cross_edges[e].1 as int));
        }
        assert forall|u: int, v: int|
            0 <= u < g.len() && 0 <= v < g.len() && t.colors[v] is White && #[trigger] t.classes.same(
                u,
                v,
            ) implies u == v by {
            assert(self.colors[v] is White);
        }
    }

    /// A step keeps the shape of the forest.
    pub proof fn lemma_step_forest(self, g: Inputs, roots: Seq<usize>)
        requires
            self.wf(g),
            self.forest(g, roots),
            self.stack.len() > 0,
        ensures
            self.step(g).forest(g, roots),
    {
        let node = self.top();
        let k = self.cursor.last();
        let top = self.stack.len() - 1;
        assert(self.stack[top] == node);
        if k < g[node as int].len() {
            let child = g[node as int][k as int];
            let a = self.advance();
            assert(a.wf(g)) by {
                self.lemma_step_wf(g);
                assert(a.colors == self.colors);
            }
            assert(a.forest(g, roots));
            assert(a.top() == node);
            if child != node {
                match self.colors[child as int] {
                    Color::White => {
                        a.lemma_open_child_forest(g, roots, child);
                    },
                    Color::Grey(pos) => {
                        a.lemma_merged_forest(g, roots, pos as int);
                        assert(a.walk_edge(node, child) == a.merged(pos as int));
                    },
                    Color::Black => {
                        let t = a.walk_edge(node, child);
                        assert forall|e: int| 0 <= e < t.cross_edges.len() implies t.visited(
                            (#[trigger] t.cross_edges[e]).0 as int,
                        ) && t.visited(t.cross_edges[e].1 as int) by {
                            if e < a.cross_edges.len() {
                                assert(t.cross_edges[e] == a.cross_edges[e]);
                            }
                        }
                    },
                }
            }
        } else {
            self.lemma_close_forest(g, roots);
        }
    }

    /// The walk until the stack is empty keeps the shape of the forest.
    pub proof fn lemma_drain_forest(self, g: Inputs, roots: Seq<usize>)
        requires
            self.wf(g),
            self.forest(g, roots),
        ensures
            self.drain(g).forest(g, roots),
        decreases self.remaining(), self.remaining_top(g),
    {
        if self.stack.len() > 0 {
            self.lemma_step_wf(g);
            self.lemma_step_forest(g, roots);
            self.step(g).lemma_drain_forest(g, roots);
        }
    }

    /// After the walk from start nodes of the graph the parents form a
    /// forest with its roots among the start nodes.
    pub proof fn lemma_walked_forest(g: Inputs, starts: Seq<usize>)
        requires
            graph_wf(g),
            start_nodes_in_range(g, starts),
        ensures
            Walk::walked(g, starts).forest(g, starts),
        decreases starts.len(),
    {
        if starts.len() == 0 {
            Walk::lemma_init_forest(g);
            assert(starts =~= Seq::empty());
        } else {
            let before = starts.drop_last();
            let root = starts.last();
            let s = Walk::walked(g, before);
            assert forall|i: int| 0 <= i < before.len() implies (#[trigger] before[i]) < g.len() by {
                assert(before[i] == starts[i]);
            }
            Walk::lemma_walked_forest(g, before);
            Walk::lemma_walked_done(g, before);
            assert forall|r: usize| before.contains(r) implies starts.contains(r) by {
                let i = choose|i: int| 0 <= i < before.len() && before[i] == r;
                assert(starts[i] == r);
            }
            s.lemma_forest_more_roots(g, before, starts);
            if s.colors[root as int] is White {
                assert(starts[starts.len() - 1] == root);
                s.lemma_open_root_forest(g, starts, root);
                s.lemma_open_wf(g, root);
                s.open(root).lemma_drain_forest(g, starts);
            }
        }
    }
}

} // verus!
