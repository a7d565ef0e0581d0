//! Reduction of a dependency graph to the part that matters for a chosen
//! set of output nodes.
//!
//! The input is a directed graph and a list of start nodes, the outputs
//! whose dependencies are of interest. The reducer walks the graph from
//! the start nodes against the direction of its edges, merges the nodes of
//! each cycle it finds into one class, and keeps of the result only the
//! start nodes, the leaves, and the nodes in which several paths meet.
//!
//! The executable code is in `graph`, `unify`, `classify` and `construct`,
//! and in [`GraphReduce`] here. `walk` holds the walk as a mathematical
//! function, against which the classifier is specified, and `construct`
//! the reduced graph as a function of what the walk records. `laws` states
//! what holds of every walk and of every reduced graph; the remaining
//! modules hold the invariants of the walk and the lemmas that lead
//! there.

use vstd::prelude::*;

pub mod chains;
pub mod classify;
pub mod construct;
pub mod cycles;
pub mod edges;
pub mod fixpoint;
pub mod forest;
pub mod graph;
pub mod knots;
pub mod laws;
pub mod leaves;
pub mod quotient;
pub mod reach;
pub mod unify;
pub mod walk;

use crate::classify::Classify;
use crate::construct::{construct_graph, Reduced};
use crate::graph::{graph_wf, Graph, Inputs};
use crate::unify::{Partition, UnionFind};
use crate::walk::{
    first_on_cycle, first_out_of_range, start_nodes_in_range, start_nodes_ok, Walk,
};

verus! {

/// What the walk records of the graph besides the classes.
pub struct Dag {
    /// The parent of a node is the node from which the walk first reached
    /// it. A node that the walk did not reach from another node is its own
    /// parent.
    pub parents: Vec<usize>,
    /// The edges, other than those to a node from its parent, that led to
    /// a node already finished.
    pub cross_edges: Vec<(usize, usize)>,
    /// The visited nodes without inputs.
    pub leaf_nodes: Vec<usize>,
}

/// Why a graph cannot be reduced for a list of start nodes. Each error
/// gives the place in the list of the first start node at fault.
#[derive(Clone, Copy, Debug, PartialEq, Eq)]
pub enum StartError {
    /// The start node at this place is no node of the graph.
    OutOfRange(usize),
    /// The start node at this place, which no earlier start node reaches,
    /// lies on a cycle.
    OnCycle(usize),
}

/// A graph to be reduced, the start nodes, and the classes of nodes found
/// to lie on common cycles.
pub struct GraphReduce<'g> {
    in_graph: &'g Graph,
    start_nodes: &'g [usize],
    unify: UnionFind,
}

impl<'g> GraphReduce<'g> {
    /// The graph to be reduced.
    pub closed spec fn graph(&self) -> Inputs {
        self.in_graph@
    }

    /// The start nodes.
    pub closed spec fn starts(&self) -> Seq<usize> {
        self.start_nodes@
    }

    /// The classes found so far.
    pub closed spec fn classes(&self) -> Partition {
        self.unify@
    }

    /// The graph is well formed and every node has a class.
    pub closed spec fn wf(&self) -> bool {
        &&& graph_wf(self.in_graph@)
        &&& self.unify.wf()
        &&& self.unify@.wf()
        &&& self.unify@.len() == self.in_graph@.len()
    }

    /// A well-formed reducer has a well-formed graph and partition.
    pub proof fn lemma_wf(&self)
        requires
            self.wf(),
        ensures
            graph_wf(self.graph()),
            self.classes().wf(),
            self.classes().len() == self.graph().len(),
    {
    }

    /// A reducer for `in_graph` and `start_nodes`, with every node in a
    /// class of its own.
    pub fn new(in_graph: &'g Graph, start_nodes: &'g [usize]) -> (r: Self)
        requires
            in_graph.wf(),
        ensures
            r.wf(),
            r.graph() == in_graph@,
            r.starts() == start_nodes@,
            r.classes() == Partition::singletons(in_graph@.len()),
    {
        let unify = UnionFind::new(in_graph.len_nodes());
        proof {
            unify.lemma_view_wf();
        }
        GraphReduce { in_graph, start_nodes, unify }
    }

    /// The reduced graph: the walk from the start nodes, and then the
    /// construction from what the walk recorded.
    ///
    /// The start nodes must be nodes of the graph, and a start node that
    /// no earlier start node reaches must not lie on a cycle. The result
    /// is a function of the graph and the start nodes alone.
    pub fn compute(self) -> (reduced: Reduced)
        requires
            self.wf(),
            self.classes() == Partition::singletons(self.graph().len()),
            start_nodes_ok(self.graph(), self.starts()),
        ensures
            reduced@ == crate::construct::reduced(self.graph(), self.starts()),
            reduced@.wf(),
    {
        let mut this = self;
        proof {
            self.lemma_wf();
            Walk::lemma_walked_reducible(self.graph(), self.starts());
        }
        let dag = Classify::new(&mut this).walk();
        construct_graph(&mut this, dag)
    }

    /// The reduced graph, or the first start node that does not meet the
    /// conditions of `compute`: the first that is no node of the graph,
    /// or else the first that no earlier start node reaches and that lies
    /// on a cycle.
    pub fn try_compute(self) -> (reduced: Result<Reduced, StartError>)
        requires
            self.wf(),
            self.classes() == Partition::singletons(self.graph().len()),
        ensures
            reduced is Ok <==> start_nodes_ok(self.graph(), self.starts()),
            reduced matches Ok(reduced) ==> reduced@ == crate::construct::reduced(
                self.graph(),
                self.starts(),
            ) && reduced@.wf(),
            reduced matches Err(StartError::OutOfRange(k)) ==> first_out_of_range(
                self.graph(),
                self.starts(),
                k as int,
            ),
            reduced matches Err(StartError::OnCycle(k)) ==> start_nodes_in_range(
                self.graph(),
                self.starts(),
            ) && first_on_cycle(self.graph(), self.starts(), k as int),
    {
        let mut this = self;
        let n = this.len_nodes();
        let start_nodes = this.start_nodes();
        let mut k: usize = 0;
        while k < start_nodes.len()
            invariant
                k <= start_nodes@.len(),
                start_nodes@ == self.starts(),
                n == self.graph().len(),
                forall|j: int| 0 <= j < k ==> (#[trigger] start_nodes@[j]) < n,
            decreases start_nodes@.len() - k,
        {
            if start_nodes[k] >= n {
                assert(!(self.starts()[k as int] < self.graph().len()));
                return Err(StartError::OutOfRange(k));
            }
            k = k + 1;
        }
        proof {
            self.lemma_wf();
            Walk::lemma_walked_reducible(self.graph(), self.starts());
        }
        match Classify::new(&mut this).try_walk() {
            Ok(dag) => Ok(construct_graph(&mut this, dag)),
            Err(e) => Err(e),
        }
    }

    /// The number of nodes of the graph.
    pub(crate) fn len_nodes(&self) -> (n: usize)
        ensures
            n == self.graph().len(),
    {
        self.in_graph.len_nodes()
    }

    /// The start nodes.
    pub(crate) fn start_nodes(&self) -> (starts: &'g [usize])
        ensures
            starts@ == self.starts(),
    {
        self.start_nodes
    }

    /// The inputs of `in_node`, in the order in which the walk handles
    /// them.
    pub(crate) fn inputs(&self, in_node: usize) -> (inputs: &'g Vec<usize>)
        requires
            in_node < self.graph().len(),
        ensures
            inputs@ == self.graph()[in_node as int],
    {
        self.in_graph.predecessor_nodes(in_node)
    }

    /// Records that `in_node1` and `in_node2` lie on a common cycle.
    pub(crate) fn mark_cycle(&mut self, in_node1: usize, in_node2: usize)
        requires
            old(self).wf(),
            in_node1 < old(self).graph().len(),
            in_node2 < old(self).graph().len(),
        ensures
            final(self).wf(),
            final(self).graph() == old(self).graph(),
            final(self).starts() == old(self).starts(),
            final(self).classes() == old(self).classes().union(in_node1 as int, in_node2 as int),
    {
        self.unify.union(in_node1, in_node2);
        proof {
            self.unify.lemma_view_wf();
            old(self).classes().lemma_union_wf(in_node1 as int, in_node2 as int);
        }
    }

    /// The cycle head of `in_node`: the node that stands for its class.
    /// This is `in_node` itself unless it lies on a cycle.
    pub fn cycle_head(&mut self, in_node: usize) -> (head: usize)
        requires
            old(self).wf(),
            in_node < old(self).graph().len(),
        ensures
            final(self).wf(),
            final(self).graph() == old(self).graph(),
            final(self).starts() == old(self).starts(),
            final(self).classes() == old(self).classes(),
            head == old(self).classes().find(in_node as int),
            head < old(self).graph().len(),
    {
        self.unify.find(in_node)
    }

    /// Whether `ni1` and `ni2` were found to lie on a common cycle.
    pub fn in_cycle(&mut self, ni1: usize, ni2: usize) -> (same: bool)
        requires
            old(self).wf(),
            ni1 < old(self).graph().len(),
            ni2 < old(self).graph().len(),
        ensures
            final(self).wf(),
            final(self).graph() == old(self).graph(),
            final(self).starts() == old(self).starts(),
            final(self).classes() == old(self).classes(),
            same == old(self).classes().same(ni1 as int, ni2 as int),
    {
        self.cycle_head(ni1) == self.cycle_head(ni2)
    }
}

} // verus!
