//! Union-find over dense node indices.
//!
//! The abstract state is a [`Partition`]: the representative of every key
//! and the rank of every key. The executable [`UnionFind`] keeps a forest of
//! parent pointers with union by rank and path compression, and every
//! operation is specified as a function on the `Partition` it stands for.

use vstd::prelude::*;
use vstd::set_lib::*;

verus! {

/// The abstract state of a union-find: which key represents each class,
/// and the ranks by which `union` chooses the surviving representative.
pub struct Partition {
    /// `head[k]` is the representative of the class of `k`.
    pub head: Seq<usize>,
    /// `rank[k]` is the rank of `k`; it only matters for representatives.
    pub rank: Seq<usize>,
}

impl Partition {
    /// The number of keys.
    pub open spec fn len(self) -> nat {
        self.head.len()
    }

    /// Every key has a representative in range, and a representative
    /// represents itself.
    pub open spec fn wf(self) -> bool {
        &&& self.rank.len() == self.head.len()
        &&& forall|k: int| 0 <= k < self.head.len() ==> (#[trigger] self.head[k]) < self.head.len()
        &&& forall|k: int|
            0 <= k < self.head.len() ==> self.head[(#[trigger] self.head[k]) as int]
                == self.head[k]
    }

    /// `n` classes of one key each, all of rank zero.
    pub open spec fn singletons(n: nat) -> Partition {
        Partition { head: Seq::new(n, |k: int| k as usize), rank: Seq::new(n, |k: int| 0usize) }
    }

    /// The representative of the class of `a`.
    pub open spec fn find(self, a: int) -> usize {
        self.head[a]
    }

    /// Whether `a` and `b` lie in one class.
    pub open spec fn same(self, a: int, b: int) -> bool {
        self.head[a] == self.head[b]
    }

    /// Every key represented by `loser` becomes represented by `winner`,
    /// whose rank becomes `rank`.
    pub open spec fn link(self, loser: usize, winner: usize, rank: usize) -> Partition {
        Partition {
            head: Seq::new(
                self.head.len(),
                |k: int|
                    if self.head[k] == loser {
                        winner
                    } else {
                        self.head[k]
                    },
            ),
            rank: self.rank.update(winner as int, rank),
        }
    }

    /// The partition after merging the classes of `a` and `b`. The
    /// representative of higher rank survives; on a tie the representative
    /// of `b` survives and its rank grows by one.
    pub open spec fn union(self, a: int, b: int) -> Partition {
        let ra = self.head[a];
        let rb = self.head[b];
        if ra == rb {
            self
        } else if self.rank[ra as int] > self.rank[rb as int] {
            self.link(rb, ra, self.rank[ra as int])
        } else if self.rank[ra as int] < self.rank[rb as int] {
            self.link(ra, rb, self.rank[rb as int])
        } else {
            self.link(ra, rb, (self.rank[rb as int] + 1) as usize)
        }
    }

    /// Merging keeps the partition well formed and the number of keys.
    pub proof fn lemma_union_wf(self, a: int, b: int)
        requires
            self.wf(),
            0 <= a < self.len(),
            0 <= b < self.len(),
        ensures
            self.union(a, b).wf(),
            self.union(a, b).len() == self.len(),
    {
    }

    /// After `union(a, b)` two keys lie in one class exactly if they did
    /// before, or one lay with `a` and the other with `b`. In particular a
    /// second `union(a, b)` changes no class.
    pub proof fn lemma_union_same(self, a: int, b: int, x: int, y: int)
        requires
            self.wf(),
            0 <= a < self.len(),
            0 <= b < self.len(),
            0 <= x < self.len(),
            0 <= y < self.len(),
        ensures
            self.union(a, b).same(x, y) <==> (self.same(x, y) || (self.same(x, a) && self.same(
                y,
                b,
            )) || (self.same(x, b) && self.same(y, a))),
            self.union(a, b).same(a, b),
    {
    }

    /// Merging two keys that already lie in one class changes nothing.
    pub proof fn lemma_union_idempotent(self, a: int, b: int)
        requires
            self.wf(),
            0 <= a < self.len(),
            0 <= b < self.len(),
        ensures
            self.union(a, b).union(a, b) == self.union(a, b),
    {
        self.lemma_union_same(a, b, a, b);
    }

    /// In the initial partition every key represents itself.
    pub proof fn lemma_singletons(n: nat)
        ensures
            Self::singletons(n).wf(),
            Self::singletons(n).len() == n,
            forall|a: int, b: int|
                0 <= a < n && 0 <= b < n && n <= usize::MAX ==> (Self::singletons(n).same(a, b)
                    <==> a == b),
    {
    }
}

/// The keys that represent themselves.
pub open spec fn head_set(head: Seq<usize>) -> Set<int> {
    Set::new(|k: int| 0 <= k < head.len() && head[k] == k)
}

proof fn lemma_head_set_finite(head: Seq<usize>)
    ensures
        head_set(head).finite(),
        head_set(head).len() <= head.len(),
{
    lemma_int_range(0, head.len() as int);
    assert(head_set(head).subset_of(set_int_range(0, head.len() as int)));
    lemma_len_subset(head_set(head), set_int_range(0, head.len() as int));
}

/// A union-find over the keys `0..n`, with union by rank and path
/// compression.
pub struct UnionFind {
    parent: Vec<usize>,
    rank: Vec<usize>,
    head: Ghost<Seq<usize>>,
}

impl View for UnionFind {
    type V = Partition;

    closed spec fn view(&self) -> Partition {
        Partition { head: self.head@, rank: self.rank@ }
    }
}

impl UnionFind {
    /// The forest of parent pointers stands for the partition `self@`.
    pub closed spec fn wf(&self) -> bool {
        let n = self.parent@.len();
        &&& self.rank@.len() == n
        &&& self.head@.len() == n
        &&& forall|k: int| 0 <= k < n ==> (#[trigger] self.parent@[k]) < n
        &&& forall|k: int| 0 <= k < n ==> (#[trigger] self.head@[k]) < n
        &&& forall|k: int|
            0 <= k < n ==> self.head@[(#[trigger] self.parent@[k]) as int] == self.head@[k]
        &&& forall|k: int| 0 <= k < n ==> (#[trigger] self.parent@[k] == k <==> self.head@[k] == k)
        &&& forall|k: int|
            0 <= k < n && self.parent@[k] != k ==> self.rank@[k] < self.rank@[(
            #[trigger] self.parent@[k]) as int]
        &&& forall|k: int|
            0 <= k < n && self.head@[k] != k ==> self.rank@[k] < self.rank@[(
            #[trigger] self.head@[k]) as int]
        &&& forall|k: int|
            0 <= k < n ==> (#[trigger] self.rank@[k]) + head_set(self.head@).len() <= n
    }

    /// A well-formed union-find stands for a well-formed partition.
    pub proof fn lemma_view_wf(&self)
        requires
            self.wf(),
        ensures
            self@.wf(),
    {
        assert forall|k: int| 0 <= k < self.head@.len() implies self.head@[(
        #[trigger] self.head@[k]) as int] == self.head@[k] by {
            let h = self.head@[k] as int;
            if h != k {
                // a representative outranks every other key of its class,
                // so it cannot itself be represented by another key
                if self.head@[h] != h {
                    let hh = self.head@[h] as int;
                    assert(self.rank@[h] < self.rank@[hh]);
                    assert(self.head@[self.parent@[h] as int] == self.head@[h]);
                    self.lemma_head_of_head(k);
                }
            }
        }
    }

    proof fn lemma_head_of_head(&self, k: int)
        requires
            self.wf(),
            0 <= k < self.head@.len(),
        ensures
            self.head@[self.head@[k] as int] == self.head@[k],
        decreases self.head@.len() - self.rank@[k],
    {
        let n = self.head@.len();
        lemma_head_set_finite(self.head@);
        if self.parent@[k] == k {
        } else {
            let p = self.parent@[k] as int;
            assert(self.head@[p] == self.head@[k]);
            assert(self.rank@[p] + head_set(self.head@).len() <= n);
            self.lemma_head_of_head(p);
        }
    }

    /// A union-find of `n` classes of one key each.
    pub fn new(n: usize) -> (table: UnionFind)
        ensures
            table.wf(),
            table@ == Partition::singletons(n as nat),
    {
        let mut parent: Vec<usize> = Vec::new();
        let mut rank: Vec<usize> = Vec::new();
        let mut k: usize = 0;
        while k < n
            invariant
                k <= n,
                parent@.len() == k,
                rank@.len() == k,
                forall|j: int| 0 <= j < k ==> parent@[j] == j,
                forall|j: int| 0 <= j < k ==> rank@[j] == 0,
            decreases n - k,
        {
            parent.push(k);
            rank.push(0);
            k = k + 1;
        }
        let ghost head = Seq::new(n as nat, |j: int| j as usize);
        let table = UnionFind { parent, rank, head: Ghost(head) };
        proof {
            lemma_head_set_finite(head);
            assert(table.rank@ =~= Partition::singletons(n as nat).rank);
            assert(table.head@ =~= Partition::singletons(n as nat).head);
        }
        table
    }

    /// The number of keys.
    pub fn len(&self) -> (n: usize)
        requires
            self.wf(),
        ensures
            n == self@.len(),
    {
        self.parent.len()
    }

    /// The representative of the class of `a`. The paths walked are
    /// shortened; the partition stays as it was.
    pub fn find(&mut self, a: usize) -> (root: usize)
        requires
            old(self).wf(),
            a < old(self)@.len(),
        ensures
            final(self).wf(),
            final(self)@ == old(self)@,
            root == old(self)@.find(a as int),
    {
        let n = self.parent.len();
        proof {
            lemma_head_set_finite(self.head@);
        }
        let mut root = a;
        while self.parent[root] != root
            invariant
                self.wf(),
                *self == *old(self),
                n == self.parent@.len(),
                root < n,
                self.head@[root as int] == self.head@[a as int],
                head_set(self.head@).len() <= n,
            decreases n - self.rank@[root as int],
        {
            root = self.parent[root];
        }
        let mut cur = a;
        while cur != root
            invariant
                self.wf(),
                self@ == old(self)@,
                n == self.parent@.len(),
                cur < n,
                root < n,
                self.head@[cur as int] == root,
                self.head@[root as int] == root,
                head_set(self.head@).len() <= n,
            decreases n - self.rank@[cur as int],
        {
            let next = self.parent[cur];
            self.parent[cur] = root;
            cur = next;
        }
        root
    }

    /// Merges the classes of `a` and `b`.
    pub fn union(&mut self, a: usize, b: usize)
        requires
            old(self).wf(),
            a < old(self)@.len(),
            b < old(self)@.len(),
        ensures
            final(self).wf(),
            final(self)@ == old(self)@.union(a as int, b as int),
    {
        let root_a = self.find(a);
        let root_b = self.find(b);
        if root_a == root_b {
            return ;
        }
        let n = self.parent.len();
        let rank_a = self.rank[root_a];
        let rank_b = self.rank[root_b];
        proof {
            lemma_head_set_finite(self.head@);
            self.lemma_view_wf();
            // two distinct representatives leave room for one more rank
            let heads = head_set(self.head@);
            assert(heads.contains(root_a as int) && heads.contains(root_b as int));
            assert(heads.remove(root_a as int).contains(root_b as int));
            assert(heads.len() >= 2);
            assert(self.rank@[root_b as int] + heads.len() <= n);
        }
        if rank_a > rank_b {
            self.redirect(root_b, root_a, rank_a);
        } else if rank_a < rank_b {
            self.redirect(root_a, root_b, rank_b);
        } else {
            self.redirect(root_a, root_b, rank_b + 1);
        }
    }

    /// Hangs the representative `loser` below the representative `winner`
    /// and gives `winner` the rank `rank`.
    fn redirect(&mut self, loser: usize, winner: usize, rank: usize)
        requires
            old(self).wf(),
            loser < old(self)@.len(),
            winner < old(self)@.len(),
            loser != winner,
            old(self)@.head[loser as int] == loser,
            old(self)@.head[winner as int] == winner,
            old(self)@.rank[winner as int] <= rank,
            old(self)@.rank[loser as int] < rank,
            rank <= old(self)@.rank[winner as int] + 1,
            rank + head_set(old(self)@.head).len() <= old(self)@.len() + 1,
        ensures
            final(self).wf(),
            final(self)@ == old(self)@.link(loser, winner, rank),
    {
        let ghost before = self@;
        let ghost after = before.link(loser, winner, rank);
        proof {
            lemma_head_set_finite(before.head);
            assert(head_set(after.head) =~= head_set(before.head).remove(loser as int));
        }
        self.parent[loser] = winner;
        self.rank[winner] = rank;
        self.head = Ghost(after.head);
    }

    /// Whether `a` and `b` lie in one class.
    pub fn same(&mut self, a: usize, b: usize) -> (same: bool)
        requires
            old(self).wf(),
            a < old(self)@.len(),
            b < old(self)@.len(),
        ensures
            final(self).wf(),
            final(self)@ == old(self)@,
            same == old(self)@.same(a as int, b as int),
    {
        let root_a = self.find(a);
        let root_b = self.find(b);
        root_a == root_b
    }
}

} // verus!
