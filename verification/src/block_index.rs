//! Generated nodes, filed by the role of the edge that leads to them.

use vstd::prelude::*;
use crate::ids::{HNode, Role};
use crate::util::copy_vec;

verus! {

/// A list of nodes for each role.
#[derive(Debug)]
pub struct BlockIndex {
    pub(crate) roles: Vec<Role>,
    pub(crate) buckets: Vec<Vec<HNode>>,
}

/// Where `r` stands in `roles`.
pub open spec fn role_at(roles: Seq<Role>, r: Role) -> int {
    choose|i: int| 0 <= i < roles.len() && roles[i] == r
}

impl View for BlockIndex {
    type V = Map<Role, Seq<HNode>>;

    open(crate) spec fn view(&self) -> Map<Role, Seq<HNode>> {
        Map::new(
            |r: Role| self.roles@.contains(r),
            |r: Role| self.buckets@[role_at(self.roles@, r)]@,
        )
    }
}

/// The map with `n` filed under `r`.
pub open spec fn file_under(m: Map<Role, Seq<HNode>>, r: Role, n: HNode) -> Map<Role, Seq<HNode>> {
    m.insert(
        r,
        if m.dom().contains(r) {
            m[r].push(n)
        } else {
            seq![n]
        },
    )
}

impl BlockIndex {
    pub open(crate) spec fn wf(self) -> bool {
        &&& self.roles@.len() == self.buckets@.len()
        &&& forall|i: int, j: int|
            0 <= i < j < self.roles@.len() ==> self.roles@[i] != self.roles@[j]
    }

    pub fn new() -> (r: BlockIndex)
        ensures
            r.wf(),
            r@ == Map::<Role, Seq<HNode>>::empty(),
    {
        let r = BlockIndex { roles: Vec::new(), buckets: Vec::new() };
        assert(r@ =~= Map::<Role, Seq<HNode>>::empty());
        r
    }

    /// The position of `r`, or the number of roles if it has none.
    fn find(&self, r: Role) -> (i: usize)
        requires
            self.wf(),
        ensures
            i <= self.roles@.len(),
            self.roles@.contains(r) <==> i < self.roles@.len(),
            i < self.roles@.len() ==> self.roles@[i as int] == r && role_at(self.roles@, r) == i,
    {
        let mut i: usize = 0;
        while i < self.roles.len()
            invariant
                self.wf(),
                i <= self.roles@.len(),
                forall|j: int| 0 <= j < i ==> self.roles@[j] != r,
            decreases self.roles@.len() - i,
        {
            if self.roles[i] == r {
                assert(self.roles@[i as int] == r);
                return i;
            }
            i += 1;
        }
        i
    }

    /// The nodes filed under `r`.
    pub fn get(&self, r: Role) -> (v: Vec<HNode>)
        requires
            self.wf(),
        ensures
            v@ == if self@.dom().contains(r) {
                self@[r]
            } else {
                Seq::<HNode>::empty()
            },
    {
        let i = self.find(r);
        if i < self.roles.len() {
            copy_vec(&self.buckets[i])
        } else {
            Vec::new()
        }
    }

    /// Files `n` under `r`.
    pub fn push(&mut self, r: Role, n: HNode)
        requires
            old(self).wf(),
        ensures
            final(self).wf(),
            final(self)@ == file_under(old(self)@, r, n),
    {
        let i = self.find(r);
        let ghost before = *self;
        if i < self.roles.len() {
            self.buckets[i].push(n);
        } else {
            let mut b: Vec<HNode> = Vec::new();
            b.push(n);
            self.roles.push(r);
            self.buckets.push(b);
            assert(b@ =~= seq![n]);
            assert(self.roles@[i as int] == r);
        }
        assert forall|q: Role| before.roles@.contains(q) implies {
            &&& self.roles@.contains(q)
            &&& role_at(self.roles@, q) == role_at(before.roles@, q)
        } by {
            let j = role_at(before.roles@, q);
            assert(before.roles@[j] == q);
            assert(self.roles@[j] == q);
        }
        assert forall|q: Role| self.roles@.contains(q) && q != r implies before.roles@.contains(q) by {
            let j = role_at(self.roles@, q);
            assert(self.roles@[j] == q);
            assert(before.roles@[j] == q);
        }
        assert(self@ =~= file_under(before@, r, n));
    }

    /// A copy.
    pub fn duplicate(&self) -> (r: BlockIndex)
        requires
            self.wf(),
        ensures
            r.wf(),
            r@ == self@,
    {
        let mut buckets: Vec<Vec<HNode>> = Vec::new();
        let mut i: usize = 0;
        while i < self.buckets.len()
            invariant
                i <= self.buckets@.len(),
                buckets@.len() == i,
                forall|j: int| 0 <= j < i ==> (#[trigger] buckets@[j])@ == self.buckets@[j]@,
            decreases self.buckets@.len() - i,
        {
            let b = copy_vec(&self.buckets[i]);
            buckets.push(b);
            i += 1;
        }
        let r = BlockIndex { roles: copy_vec(&self.roles), buckets };
        assert(r@ =~= self@) by {
            assert forall|q: Role| r.roles@.contains(q) implies r@[q] == self@[q] by {
                let j = role_at(self.roles@, q);
                assert(self.roles@[j] == q);
                assert(r.buckets@[j]@ == self.buckets@[j]@);
            }
        }
        r
    }
}

} // verus!
