//! The merge relation on nodes, as a union-find structure.

use vstd::prelude::*;
use crate::ids::HNode;
use crate::util::copy_vec;

verus! {

/// Which node each node was merged into. The abstract value is the map from
/// each node to its canonical representative.
pub struct UnionFind {
    pub(crate) parent: Vec<HNode>,
    pub(crate) root: Ghost<Seq<HNode>>,
    pub(crate) rank: Ghost<Seq<nat>>,
}

/// Every representative is in range and represents itself.
pub open spec fn canonical(root: Seq<HNode>) -> bool {
    forall|i: int|
        0 <= i < root.len() ==> {
            &&& (#[trigger] root[i]).at() < root.len()
            &&& root[root[i].at()] == root[i]
        }
}

/// Every node of the class of `j` moved to the class of `i`.
pub open spec fn linked(root: Seq<HNode>, i: HNode, j: HNode) -> Seq<HNode> {
    Seq::new(
        root.len(),
        |x: int|
            if root[x] == j {
                i
            } else {
                root[x]
            },
    )
}

/// The first `n` nodes, none of them merged.
pub open spec fn discrete(n: nat) -> Seq<HNode> {
    Seq::new(n, |i: int| HNode(i as u32))
}

impl View for UnionFind {
    type V = Seq<HNode>;

    open(crate) spec fn view(&self) -> Seq<HNode> {
        self.root@
    }
}

impl UnionFind {
    /// Parents lead, with growing rank, to the representatives.
    pub open(crate) spec fn wf(self) -> bool {
        let p = self.parent@;
        let root = self.root@;
        let rank = self.rank@;
        &&& p.len() == root.len()
        &&& p.len() == rank.len()
        &&& p.len() <= u32::MAX + 1
        &&& canonical(root)
        &&& forall|i: int|
            0 <= i < p.len() ==> {
                &&& (#[trigger] p[i]).at() < p.len()
                &&& root[p[i].at()] == root[i]
                &&& p[i].at() == i <==> root[i].at() == i
                &&& p[i].at() != i ==> rank[i] < rank[p[i].at()]
                &&& rank[i] <= rank[root[i].at()]
            }
    }

    pub fn len(&self) -> (n: usize)
        requires
            self.wf(),
        ensures
            n == self@.len(),
    {
        self.parent.len()
    }

    /// `n` nodes, none of them merged.
    pub fn fresh(n: usize) -> (r: UnionFind)
        requires
            n <= u32::MAX + 1,
        ensures
            r.wf(),
            r@ == discrete(n as nat),
    {
        let mut r = UnionFind {
            parent: Vec::new(),
            root: Ghost(Seq::empty()),
            rank: Ghost(Seq::empty()),
        };
        let mut i: usize = 0;
        while i < n
            invariant
                i <= n,
                n <= u32::MAX + 1,
                r.wf(),
                r@ =~= discrete(i as nat),
            decreases n - i,
        {
            r.push();
            i += 1;
        }
        r
    }

    /// Adds a node that represents itself.
    pub fn push(&mut self)
        requires
            old(self).wf(),
            old(self)@.len() <= u32::MAX,
        ensures
            final(self).wf(),
            final(self)@ == old(self)@.push(HNode(old(self)@.len() as u32)),
    {
        let n = HNode(self.parent.len() as u32);
        self.parent.push(n);
        self.root = Ghost(self.root@.push(n));
        self.rank = Ghost(self.rank@.push(0));
    }

    /// The canonical representative of `n`.
    pub fn find(&self, n: HNode) -> (r: HNode)
        requires
            self.wf(),
            n.at() < self@.len(),
        ensures
            r == self@[n.at()],
            r.at() < self@.len(),
            self@[r.at()] == r,
    {
        let mut r = n;
        while self.parent[r.index()] != r
            invariant
                self.wf(),
                n.at() < self@.len(),
                r.at() < self@.len(),
                self.root@[r.at()] == self.root@[n.at()],
            decreases self.rank@[self.root@[r.at()].at()] - self.rank@[r.at()],
        {
            r = self.parent[r.index()];
            assert(self.parent@[r.at()].at() < self.parent@.len());
        }
        r
    }

    /// Merges the class of the representative `j` into that of the
    /// representative `i`.
    pub fn link(&mut self, i: HNode, j: HNode)
        requires
            old(self).wf(),
            i.at() < old(self)@.len(),
            j.at() < old(self)@.len(),
            old(self)@[i.at()] == i,
            old(self)@[j.at()] == j,
            i != j,
        ensures
            final(self).wf(),
            final(self)@ == linked(old(self)@, i, j),
    {
        self.parent.set(j.index(), i);
        self.root = Ghost(linked(self.root@, i, j));
        self.rank = Ghost(
            self.rank@.update(
                i.at(),
                if self.rank@[i.at()] > self.rank@[j.at()] {
                    self.rank@[i.at()]
                } else {
                    self.rank@[j.at()] + 1
                },
            ),
        );
    }

    /// A copy.
    pub fn duplicate(&self) -> (r: UnionFind)
        requires
            self.wf(),
        ensures
            r.wf(),
            r@ == self@,
    {
        UnionFind {
            parent: copy_vec(&self.parent),
            root: Ghost(self.root@),
            rank: Ghost(self.rank@),
        }
    }
}

/// Merging two classes leaves every representative representing itself.
pub proof fn lemma_linked_canonical(root: Seq<HNode>, i: HNode, j: HNode)
    requires
        canonical(root),
        i.at() < root.len(),
        root[i.at()] == i,
        i != j,
    ensures
        canonical(linked(root, i, j)),
        linked(root, i, j)[i.at()] == i,
{
}

/// After a merge the two classes coincide, and classes that coincided
/// before still do.
pub proof fn lemma_linked_coarser(root: Seq<HNode>, i: HNode, j: HNode, a: int, b: int)
    requires
        canonical(root),
        0 <= a < root.len(),
        0 <= b < root.len(),
    ensures
        root[a] == root[b] ==> linked(root, i, j)[a] == linked(root, i, j)[b],
        root[a] == j && root[b] == i ==> linked(root, i, j)[a] == linked(root, i, j)[b],
{
}

} // verus!
