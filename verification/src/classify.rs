//! First phase: the walk that finds the cycles and the cross edges.

use vstd::prelude::*;

use crate::graph::{graph_wf, Inputs};
use crate::unify::Partition;
use crate::walk::{
    first_on_cycle, start_nodes_acyclic, start_nodes_in_range, start_nodes_ok, Color, Walk,
};
use crate::Dag;
use crate::GraphReduce;
use crate::StartError;

verus! {

impl Dag {
    /// The record holds what the walk `w` has recorded.
    pub open spec fn records(&self, w: Walk) -> bool {
        &&& self.parents@ == w.parents
        &&& self.cross_edges@ == w.cross_edges
        &&& self.leaf_nodes@ == w.leaf_nodes
    }
}

/// The classifier: a depth-first walk from the start nodes that keeps its
/// own stack.
pub struct Classify<'a, 'g: 'a> {
    r: &'a mut GraphReduce<'g>,
    stack: Vec<usize>,
    cursor: Vec<usize>,
    colors: Vec<Color>,
    dag: Dag,
    depth: Ghost<Seq<nat>>,
    ok: bool,
}

impl<'a, 'g> Classify<'a, 'g> {
    /// The reducer that the classifier works on.
    pub closed spec fn reducer(&self) -> &'a mut GraphReduce<'g> {
        self.r
    }

    /// The graph that is walked.
    pub closed spec fn graph(&self) -> Inputs {
        self.r.graph()
    }

    /// The start nodes.
    pub closed spec fn starts(&self) -> Seq<usize> {
        self.r.starts()
    }

    /// The state of the walk.
    pub closed spec fn view(&self) -> Walk {
        Walk {
            colors: self.colors@,
            stack: self.stack@,
            cursor: self.cursor@,
            parents: self.dag.parents@,
            cross_edges: self.dag.cross_edges@,
            leaf_nodes: self.dag.leaf_nodes@,
            classes: self.r.classes(),
            depth: self.depth@,
            ok: self.ok,
        }
    }

    /// The classifier holds a state of a walk through its graph.
    pub closed spec fn wf(&self) -> bool {
        &&& self.r.wf()
        &&& self@.wf(self.r.graph())
    }

    /// A classifier at the beginning of the walk.
    pub fn new(r: &'a mut GraphReduce<'g>) -> (c: Self)
        requires
            old(r).wf(),
            old(r).classes() == Partition::singletons(old(r).graph().len()),
        ensures
            c.wf(),
            c@ == Walk::init(old(r).graph().len()),
            c.graph() == old(r).graph(),
            c.starts() == old(r).starts(),
            *final(c.reducer()) == *final(r),
    {
        let n = r.len_nodes();
        let mut colors: Vec<Color> = Vec::new();
        let mut parents: Vec<usize> = Vec::new();
        let mut i: usize = 0;
        while i < n
            invariant
                i <= n,
                colors@.len() == i,
                parents@.len() == i,
                forall|v: int| 0 <= v < i ==> colors@[v] is White,
                forall|v: int| 0 <= v < i ==> parents@[v] == v,
            decreases n - i,
        {
            colors.push(Color::White);
            parents.push(i);
            i = i + 1;
        }
        let ghost depth = Seq::new(n as nat, |v: int| 0nat);
        let c = Classify {
            r,
            stack: Vec::new(),
            cursor: Vec::new(),
            colors,
            dag: Dag { parents, cross_edges: Vec::new(), leaf_nodes: Vec::new() },
            depth: Ghost(depth),
            ok: true,
        };
        proof {
            old(r).lemma_wf();
            Walk::lemma_init_wf(old(r).graph());
            assert(c@.colors =~= Walk::init(n as nat).colors);
            assert(c@.parents =~= Walk::init(n as nat).parents);
            assert(c@.stack =~= Walk::init(n as nat).stack);
            assert(c@.cursor =~= Walk::init(n as nat).cursor);
            assert(c@.cross_edges =~= Walk::init(n as nat).cross_edges);
            assert(c@.leaf_nodes =~= Walk::init(n as nat).leaf_nodes);
        }
        c
    }

    /// Walks the graph from each start node in turn, and returns what was
    /// recorded. The classes found are left in the reducer.
    ///
    /// The start nodes must be nodes of the graph, and a start node that
    /// no earlier start node reaches must not lie on a cycle.
    pub fn walk(self) -> (dag: Dag)
        requires
            self.wf(),
            self@ == Walk::init(self.graph().len()),
            start_nodes_ok(self.graph(), self.starts()),
        ensures
            dag.records(Walk::walked(self.graph(), self.starts())),
            final(self.reducer()).wf(),
            final(self.reducer()).graph() == self.graph(),
            final(self.reducer()).starts() == self.starts(),
            final(self.reducer()).classes() == Walk::walked(self.graph(), self.starts()).classes,
    {
        let mut this = self;
        let _ = this.walk_all();
        this.dag
    }

    /// Walks the graph from each start node in turn, and returns what was
    /// recorded, unless a start node that the walk had to open lies on a
    /// cycle: then the first such start node is returned. The classes
    /// found are left in the reducer either way.
    pub fn try_walk(self) -> (dag: Result<Dag, StartError>)
        requires
            self.wf(),
            self@ == Walk::init(self.graph().len()),
            start_nodes_in_range(self.graph(), self.starts()),
        ensures
            dag is Ok <==> start_nodes_acyclic(self.graph(), self.starts()),
            dag matches Ok(dag) ==> dag.records(Walk::walked(self.graph(), self.starts())),
            dag matches Err(e) ==> e matches StartError::OnCycle(k) && first_on_cycle(
                self.graph(),
                self.starts(),
                k as int,
            ),
            final(self.reducer()).wf(),
            final(self.reducer()).graph() == self.graph(),
            final(self.reducer()).starts() == self.starts(),
            final(self.reducer()).classes() == Walk::walked(self.graph(), self.starts()).classes,
    {
        let mut this = self;
        match this.walk_all() {
            None => Ok(this.dag),
            Some(k) => Err(StartError::OnCycle(k)),
        }
    }

    /// Walks the graph from each start node in turn. The result is the
    /// place of the first start node that the walk had to open and that
    /// lies on a cycle, if there is one.
    fn walk_all(&mut self) -> (fault: Option<usize>)
        requires
            old(self).wf(),
            old(self)@ == Walk::init(old(self).graph().len()),
            start_nodes_in_range(old(self).graph(), old(self).starts()),
        ensures
            final(self)@ == Walk::walked(old(self).graph(), old(self).starts()),
            fault is None <==> start_nodes_acyclic(old(self).graph(), old(self).starts()),
            fault matches Some(k) ==> first_on_cycle(
                old(self).graph(),
                old(self).starts(),
                k as int,
            ),
            final(self).reducer().wf(),
            final(self).graph() == old(self).graph(),
            final(self).starts() == old(self).starts(),
            *final(final(self).reducer()) == *final(old(self).reducer()),
    {
        let ghost g = self.graph();
        let start_nodes = self.r.start_nodes();
        proof {
            self.r.lemma_wf();
            assert(start_nodes@.take(0) =~= Seq::empty());
        }
        let mut fault: Option<usize> = None;
        let mut k: usize = 0;
        while k < start_nodes.len()
            invariant
                k <= start_nodes.len(),
                start_nodes@ == old(self).starts(),
                graph_wf(g),
                start_nodes_in_range(g, start_nodes@),
                self.wf(),
                self.graph() == g,
                g == old(self).graph(),
                self.starts() == old(self).starts(),
                *final(self.reducer()) == *final(old(self).reducer()),
                self@ == Walk::walked(g, start_nodes@.take(k as int)),
                fault is None <==> self@.ok,
                fault matches Some(at) ==> first_on_cycle(g, start_nodes@, at as int),
            decreases start_nodes.len() - k,
        {
            let start_node = start_nodes[k];
            let was_ok = self.ok;
            proof {
                Walk::lemma_walked_next(g, start_nodes@, k as int);
            }
            self.visit(start_node);
            if was_ok && !self.ok {
                fault = Some(k);
            }
            k = k + 1;
        }
        proof {
            assert(start_nodes@.take(k as int) =~= start_nodes@);
            Walk::lemma_walked_done(g, start_nodes@);
        }
        fault
    }

    /// Visits `start_node` and all that it reaches, unless it was visited
    /// before.
    fn visit(&mut self, start_node: usize)
        requires
            old(self).wf(),
            start_node < old(self).graph().len(),
        ensures
            final(self).wf(),
            final(self)@ == old(self)@.visit(old(self).graph(), start_node),
            final(self).graph() == old(self).graph(),
            final(self).starts() == old(self).starts(),
            *final(final(self).reducer()) == *final(old(self).reducer()),
    {
        match self.colors[start_node] {
            Color::White => {
                self.open(start_node);
                self.walk_from_top();
            },
            _ => {},
        }
    }

    /// Opens `node`: it turns grey and goes on top of the stack.
    fn open(&mut self, node: usize)
        requires
            old(self).wf(),
            node < old(self).graph().len(),
            old(self)@.colors[node as int] is White,
        ensures
            final(self).wf(),
            final(self)@ == old(self)@.open(node),
            final(self).graph() == old(self).graph(),
            final(self).starts() == old(self).starts(),
            *final(final(self).reducer()) == *final(old(self).reducer()),
    {
        let index = self.stack.len();
        self.stack.push(node);
        self.cursor.push(0);
        self.colors[node] = Color::Grey(index);
        proof {
            self.depth@ = self.depth@.update(node as int, index as nat);
            old(self)@.lemma_open_wf(old(self).graph(), node);
        }
    }

    /// Handles the inputs of the nodes on the stack until the stack is
    /// empty.
    fn walk_from_top(&mut self)
        requires
            old(self).wf(),
        ensures
            final(self).wf(),
            final(self)@ == old(self)@.drain(old(self).graph()),
            final(self).graph() == old(self).graph(),
            final(self).starts() == old(self).starts(),
            *final(final(self).reducer()) == *final(old(self).reducer()),
    {
        let ghost g = self.graph();
        while self.stack.len() > 0
            invariant
                self.wf(),
                self.graph() == g,
                g == old(self).graph(),
                self.starts() == old(self).starts(),
                *final(self.reducer()) == *final(old(self).reducer()),
                old(self)@.wf(g),
                self@.drain(g) == old(self)@.drain(g),
            decreases self@.remaining(), self@.remaining_top(g),
        {
            let ghost at = self@;
            let top = self.stack.len() - 1;
            let node = self.stack[top];
            let next = self.cursor[top];
            let inputs = self.r.inputs(node);
            proof {
                at.lemma_step_wf(g);
            }
            if next < inputs.len() {
                let child = inputs[next];
                self.cursor[top] = next + 1;
                assert(self@ == at.advance()) by {
                    assert(self@.cursor =~= at.advance().cursor);
                }
                self.walk_edge(node, child);
            } else {
                self.close();
            }
        }
    }

    /// Classifies the edge from `parent`, the node on top of the stack, to
    /// its input `child`.
    fn walk_edge(&mut self, parent: usize, child: usize)
        requires
            old(self).wf(),
            old(self)@.stack.len() > 0,
            parent == old(self)@.top(),
            child < old(self).graph().len(),
        ensures
            final(self)@ == old(self)@.walk_edge(parent, child),
            final(self).wf(),
            final(self).graph() == old(self).graph(),
            final(self).starts() == old(self).starts(),
            *final(final(self).reducer()) == *final(old(self).reducer()),
    {
        // Ignore self-edges, just in case they exist.
        if child == parent {
            return ;
        }
        let ghost g = self.graph();
        let ghost before = self@;
        proof {
            before.lemma_walk_edge_wf(g, child);
        }
        match self.colors[child] {
            Color::White => {
                // Not yet visited this node; start walking it.
                self.dag.parents[child] = parent;
                self.open(child);
            },
            Color::Grey(stack_index) => {
                // Back-edge; unify everything on the stack from
                // `stack_index` upwards, since it all lies on one cycle.
                let mut i = stack_index;
                while i < self.stack.len()
                    invariant
                        stack_index <= i <= self.stack@.len(),
                        self.r.wf(),
                        self.graph() == g,
                        self.starts() == old(self).starts(),
                        *final(self.reducer()) == *final(old(self).reducer()),
                        before.wf(g),
                        before.stack.len() > 0,
                        parent == before.top(),
                        self@ == (Walk {
                            classes: before.classes.union_all(
                                before.stack.subrange(stack_index as int, i as int),
                                parent,
                            ),
                            ..before
                        }),
                    decreases self.stack@.len() - i,
                {
                    let n = self.stack[i];
                    proof {
                        let keys = before.stack.subrange(stack_index as int, i + 1);
                        assert(keys.drop_last() =~= before.stack.subrange(
                            stack_index as int,
                            i as int,
                        ));
                        assert(keys.last() == n);
                        assert(before.stack[before.stack.len() - 1] == parent);
                    }
                    self.r.mark_cycle(n, parent);
                    i = i + 1;
                }
                // A start node is not to take part in a cycle.
                if stack_index == 0 {
                    self.ok = false;
                }
            },
            Color::Black => {
                // Cross-edge, record and ignore.
                self.dag.cross_edges.push((parent, child));
            },
        }
    }

    /// Closes the node on top of the stack: it is recorded as a leaf if it
    /// has no inputs, turns black and leaves the stack.
    fn close(&mut self)
        requires
            old(self).wf(),
            old(self)@.stack.len() > 0,
        ensures
            final(self)@ == old(self)@.close(old(self).graph()),
            final(self).wf(),
            final(self).graph() == old(self).graph(),
            final(self).starts() == old(self).starts(),
            *final(final(self).reducer()) == *final(old(self).reducer()),
    {
        proof {
            old(self)@.lemma_close_wf(old(self).graph());
        }
        let top = self.stack.len() - 1;
        let node = self.stack[top];
        self.stack.pop();
        self.cursor.pop();
        if self.r.inputs(node).len() == 0 {
            self.dag.leaf_nodes.push(node);
        }
        self.colors[node] = Color::Black;
    }
}

} // verus!
