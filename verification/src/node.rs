//! A node of the completion graph.

use vstd::prelude::*;
use crate::dep_set::DepSet;
use crate::ids::{ClassId, HNode, Role};
use crate::util::copy_vec;

verus! {

/// A number restriction: role, optional qualifying class, bound.
pub type Card = (Role, Option<ClassId>, u32);

/// A node: what holds at it, and on which decisions that depends.
#[derive(Debug)]
pub struct HyperNode {
    /// Class atoms true at this node, by increasing id.
    pub(crate) labels: Vec<ClassId>,
    /// The dependency set of each label, at the same position.
    pub(crate) label_deps: Vec<DepSet>,
    /// Outgoing role edges.
    pub(crate) edges: Vec<(Role, HNode)>,
    /// Incoming role edges, each with its source.
    pub(crate) preds: Vec<(Role, HNode)>,
    /// `≤n` constraints on this node.
    pub(crate) at_most: Vec<Card>,
    /// Union of the dependency sets of the `≤n` constraints.
    pub(crate) at_most_dep: DepSet,
    /// Whether a merge brought a `≤n` constraint here.
    pub(crate) at_most_tainted: bool,
    /// `≥n` constraints whose witnesses were already generated here.
    pub(crate) at_least_done: Vec<Card>,
    /// Creation order.
    pub(crate) order: u32,
    /// The decisions that the node's existence and edges depend on.
    pub(crate) birth_deps: DepSet,
    /// The node that generated this one.
    pub(crate) parent: Option<HNode>,
    /// The role of the edge from `parent`.
    pub(crate) parent_role: Option<Role>,
    /// Whether a nominal merge brought labels here.
    pub(crate) nn_tainted: bool,
}

/// What a node holds.
#[verifier::ext_equal]
pub struct NodeView {
    pub labels: Seq<ClassId>,
    pub label_deps: Seq<DepSet>,
    pub edges: Seq<(Role, HNode)>,
    pub preds: Seq<(Role, HNode)>,
    pub at_most: Seq<Card>,
    pub at_most_dep: DepSet,
    pub at_most_tainted: bool,
    pub at_least_done: Seq<Card>,
    pub order: u32,
    pub birth_deps: DepSet,
    pub parent: Option<HNode>,
    pub parent_role: Option<Role>,
    pub nn_tainted: bool,
}

/// By strictly increasing class id.
pub open spec fn sorted(labels: Seq<ClassId>) -> bool {
    forall|i: int, j: int| 0 <= i < j < labels.len() ==> labels[i].0 < labels[j].0
}

/// How many labels have a smaller id than `c`: where `c` stands, or would.
pub open spec fn slot(labels: Seq<ClassId>, c: ClassId) -> int
    decreases labels.len(),
{
    if labels.len() == 0 {
        0
    } else {
        slot(labels.drop_last(), c) + if labels.last().0 < c.0 {
            1int
        } else {
            0
        }
    }
}

/// Every label of `a` is one of `b`.
pub open spec fn label_subset(a: Seq<ClassId>, b: Seq<ClassId>) -> bool {
    forall|c: ClassId| a.contains(c) ==> b.contains(c)
}

impl NodeView {
    /// A node about which nothing is known.
    pub open spec fn blank(order: u32) -> NodeView {
        NodeView {
            labels: Seq::empty(),
            label_deps: Seq::empty(),
            edges: Seq::empty(),
            preds: Seq::empty(),
            at_most: Seq::empty(),
            at_most_dep: DepSet::empty(),
            at_most_tainted: false,
            at_least_done: Seq::empty(),
            order,
            birth_deps: DepSet::empty(),
            parent: None,
            parent_role: None,
            nn_tainted: false,
        }
    }

    pub open spec fn wf(self) -> bool {
        &&& sorted(self.labels)
        &&& self.labels.len() == self.label_deps.len()
        &&& self.parent is Some ==> self.parent_role is Some
    }

    pub open spec fn has(self, c: ClassId) -> bool {
        self.labels.contains(c)
    }

    /// The dependency set of label `c`, empty if the label is absent.
    pub open spec fn deps_of(self, c: ClassId) -> DepSet {
        if self.has(c) {
            self.label_deps[slot(self.labels, c)]
        } else {
            DepSet::empty()
        }
    }

    /// The node with label `c`; a label that is there already keeps its
    /// dependency set.
    pub open spec fn with_label(self, c: ClassId, deps: DepSet) -> NodeView {
        if self.has(c) {
            self
        } else {
            NodeView {
                labels: self.labels.insert(slot(self.labels, c), c),
                label_deps: self.label_deps.insert(slot(self.labels, c), deps),
                ..self
            }
        }
    }

    /// The node with the dependency set of label `c`, if present, widened.
    pub open spec fn widened(self, c: ClassId, extra: DepSet) -> NodeView {
        if self.has(c) {
            let p = slot(self.labels, c);
            NodeView {
                label_deps: self.label_deps.update(p, self.label_deps[p].joined(extra)),
                ..self
            }
        } else {
            self
        }
    }

    pub open spec fn with_edge(self, r: Role, t: HNode) -> NodeView {
        NodeView { edges: self.edges.push((r, t)), ..self }
    }

    pub open spec fn with_pred(self, r: Role, s: HNode) -> NodeView {
        NodeView { preds: self.preds.push((r, s)), ..self }
    }
}

/// On sorted labels, `p` is the slot of `c` if it splits smaller from others.
pub proof fn lemma_slot(labels: Seq<ClassId>, c: ClassId, p: int)
    requires
        0 <= p <= labels.len(),
        forall|i: int| 0 <= i < p ==> labels[i].0 < c.0,
        forall|i: int| p <= i < labels.len() ==> labels[i].0 >= c.0,
    ensures
        slot(labels, c) == p,
    decreases labels.len(),
{
    if labels.len() > 0 {
        let rest = labels.drop_last();
        if p == labels.len() {
            lemma_slot(rest, c, p - 1);
        } else {
            lemma_slot(rest, c, p);
        }
    }
}

/// On sorted labels, the slot splits smaller labels from the others.
pub proof fn lemma_slot_splits(labels: Seq<ClassId>, c: ClassId)
    requires
        sorted(labels),
    ensures
        0 <= slot(labels, c) <= labels.len(),
        forall|i: int| 0 <= i < slot(labels, c) ==> labels[i].0 < c.0,
        forall|i: int| slot(labels, c) <= i < labels.len() ==> labels[i].0 >= c.0,
        labels.contains(c) <==> slot(labels, c) < labels.len() && labels[slot(labels, c)] == c,
    decreases labels.len(),
{
    if labels.len() > 0 {
        let rest = labels.drop_last();
        assert(sorted(rest));
        lemma_slot_splits(rest, c);
        let p = slot(rest, c);
        if labels.last().0 < c.0 {
            if p < rest.len() {
                assert(rest[p].0 >= c.0);
                assert(labels[p].0 < labels[labels.len() - 1].0);
            }
        }
        assert forall|i: int| 0 <= i < slot(labels, c) implies labels[i].0 < c.0 by {
            if i < rest.len() {
                assert(rest[i].0 < c.0);
            }
        }
        assert forall|i: int| slot(labels, c) <= i < labels.len() implies labels[i].0 >= c.0 by {
            if i < rest.len() {
                assert(rest[i].0 >= c.0);
            }
        }
        if labels.contains(c) {
            let k = choose|k: int| 0 <= k < labels.len() && labels[k] == c;
            assert(labels[k] == c);
            let q = slot(labels, c);
            if q < k {
                assert(labels[q].0 < labels[k].0);
            }
        }
    }
}

/// A slot of a label that is present is the label's position.
pub proof fn lemma_slot_at(labels: Seq<ClassId>, i: int)
    requires
        sorted(labels),
        0 <= i < labels.len(),
    ensures
        slot(labels, labels[i]) == i,
{
    lemma_slot(labels, labels[i], i);
}

/// Adding a label keeps the labels sorted and is what it says: exactly one
/// more label, the others with the dependency sets that they had.
pub proof fn lemma_with_label(n: NodeView, c: ClassId, deps: DepSet)
    requires
        n.wf(),
    ensures
        n.with_label(c, deps).wf(),
        forall|d: ClassId| n.with_label(c, deps).has(d) <==> n.has(d) || d == c,
        forall|d: ClassId|
            #![trigger n.with_label(c, deps).deps_of(d)]
            n.with_label(c, deps).deps_of(d) == if d == c && !n.has(c) {
                deps
            } else {
                n.deps_of(d)
            },
{
    if !n.has(c) {
        let m = n.with_label(c, deps);
        lemma_slot_splits(n.labels, c);
        let p = slot(n.labels, c);
        assert forall|i: int, j: int| 0 <= i < j < m.labels.len() implies m.labels[i].0
            < m.labels[j].0 by {
            let a = if i < p {
                i
            } else {
                i - 1
            };
            let b = if j < p {
                j
            } else {
                j - 1
            };
            if i == p {
                assert(n.labels[b].0 >= c.0);
                assert(n.labels[b] != c);
            } else if j == p {
            } else {
                assert(n.labels[a].0 < n.labels[b].0);
            }
        }
        assert(m.labels[p] == c);
        assert forall|d: ClassId| m.has(d) <==> n.has(d) || d == c by {
            if n.has(d) {
                let k = choose|k: int| 0 <= k < n.labels.len() && n.labels[k] == d;
                if k < p {
                    assert(m.labels[k] == d);
                } else {
                    assert(m.labels[k + 1] == d);
                }
            }
            if m.has(d) && d != c {
                let k = choose|k: int| 0 <= k < m.labels.len() && m.labels[k] == d;
                if k < p {
                    assert(n.labels[k] == d);
                } else {
                    assert(n.labels[k - 1] == d);
                }
            }
        }
        assert forall|d: ClassId| #![trigger m.deps_of(d)]
            m.deps_of(d) == if d == c {
                deps
            } else {
                n.deps_of(d)
            } by {
            if d == c {
                lemma_slot_at(m.labels, p);
            } else if n.has(d) {
                let k = choose|k: int| 0 <= k < n.labels.len() && n.labels[k] == d;
                lemma_slot_at(n.labels, k);
                if k < p {
                    lemma_slot_at(m.labels, k);
                } else {
                    lemma_slot_at(m.labels, k + 1);
                }
            }
        }
    }
}

impl View for HyperNode {
    type V = NodeView;

    open(crate) spec fn view(&self) -> NodeView {
        NodeView {
            labels: self.labels@,
            label_deps: self.label_deps@,
            edges: self.edges@,
            preds: self.preds@,
            at_most: self.at_most@,
            at_most_dep: self.at_most_dep,
            at_most_tainted: self.at_most_tainted,
            at_least_done: self.at_least_done@,
            order: self.order,
            birth_deps: self.birth_deps,
            parent: self.parent,
            parent_role: self.parent_role,
            nn_tainted: self.nn_tainted,
        }
    }
}

/// Where `c` stands in sorted labels, or would stand; and whether it does.
pub fn find_label(labels: &Vec<ClassId>, c: ClassId) -> (r: (bool, usize))
    requires
        sorted(labels@),
    ensures
        r.0 == labels@.contains(c),
        r.1 == slot(labels@, c),
        r.1 <= labels@.len(),
        r.0 ==> r.1 < labels@.len() && labels@[r.1 as int] == c,
{
    let mut lo: usize = 0;
    let mut hi: usize = labels.len();
    while lo < hi
        invariant
            sorted(labels@),
            0 <= lo <= hi <= labels@.len(),
            forall|i: int| 0 <= i < lo ==> labels@[i].0 < c.0,
            forall|i: int| hi <= i < labels@.len() ==> labels@[i].0 >= c.0,
        decreases hi - lo,
    {
        let mid: usize = lo + (hi - lo) / 2;
        if labels[mid].index() < c.index() {
            assert forall|i: int| 0 <= i < mid + 1 implies labels@[i].0 < c.0 by {
                if i < mid {
                    assert(labels@[i].0 < labels@[mid as int].0);
                }
            }
            lo = mid + 1;
        } else {
            assert forall|i: int| mid <= i < labels@.len() implies labels@[i].0 >= c.0 by {
                if i > mid {
                    assert(labels@[mid as int].0 < labels@[i].0);
                }
            }
            hi = mid;
        }
    }
    proof {
        lemma_slot(labels@, c, lo as int);
        lemma_slot_splits(labels@, c);
    }
    let found = lo < labels.len() && labels[lo] == c;
    (found, lo)
}

/// Whether `k` is among `v`.
pub fn card_among(v: &Vec<Card>, k: Card) -> (b: bool)
    ensures
        b == v@.contains(k),
{
    let mut i: usize = 0;
    while i < v.len()
        invariant
            i <= v.len(),
            forall|j: int| 0 <= j < i ==> v@[j] != k,
        decreases v.len() - i,
    {
        if v[i].0 == k.0 && v[i].1 == k.1 && v[i].2 == k.2 {
            assert(v@[i as int] == k);
            return true;
        }
        i += 1;
    }
    false
}

/// Whether two label lists are the same.
pub(crate) fn same_labels(a: &[ClassId], b: &[ClassId]) -> (r: bool)
    ensures
        r == (a@ == b@),
{
    if a.len() != b.len() {
        return false;
    }
    let mut i: usize = 0;
    while i < a.len()
        invariant
            a@.len() == b@.len(),
            i <= a@.len(),
            forall|j: int| 0 <= j < i ==> #[trigger] a@[j] == b@[j],
        decreases a@.len() - i,
    {
        if a[i].0 != b[i].0 {
            assert(a@[i as int] != b@[i as int]);
            return false;
        }
        i += 1;
    }
    assert(a@ =~= b@);
    true
}

/// `a ⊆ b` for sorted labels.
pub fn subset_sorted(a: &Vec<ClassId>, b: &Vec<ClassId>) -> (r: bool)
    requires
        sorted(a@),
        sorted(b@),
    ensures
        r == label_subset(a@, b@),
{
    let mut i: usize = 0;
    let mut k: usize = 0;
    while i < a.len()
        invariant
            sorted(a@),
            sorted(b@),
            i <= a@.len(),
            k <= b@.len(),
            forall|j: int| 0 <= j < i ==> b@.contains(#[trigger] a@[j]),
            i < a@.len() ==> forall|j: int| 0 <= j < k ==> (#[trigger] b@[j]).0 < a@[i as int].0,
        decreases a@.len() - i,
    {
        let x = a[i];
        while k < b.len() && b[k].index() < x.index()
            invariant
                sorted(b@),
                k <= b@.len(),
                forall|j: int| 0 <= j < k ==> (#[trigger] b@[j]).0 < x.0,
            decreases b@.len() - k,
        {
            k += 1;
        }
        if k >= b.len() || b[k].index() > x.index() {
            assert(!b@.contains(x)) by {
                if b@.contains(x) {
                    let q = choose|q: int| 0 <= q < b@.len() && b@[q] == x;
                    if q > k {
                        assert(b@[k as int].0 < b@[q].0);
                    }
                }
            }
            assert(a@.contains(a@[i as int]));
            return false;
        }
        assert(b@[k as int] == x);
        k += 1;
        i += 1;
        if i < a.len() {
            assert(a@[i - 1].0 < a@[i as int].0);
            assert forall|j: int| 0 <= j < k implies (#[trigger] b@[j]).0 < a@[i as int].0 by {
                if j < k - 1 {
                    assert(b@[j].0 < b@[k - 1].0);
                }
            }
        }
    }
    true
}

impl HyperNode {
    /// A node about which nothing is known.
    pub(crate) fn blank(order: u32) -> (r: HyperNode)
        ensures
            r@ == NodeView::blank(order),
    {
        HyperNode {
            labels: Vec::new(),
            label_deps: Vec::new(),
            edges: Vec::new(),
            preds: Vec::new(),
            at_most: Vec::new(),
            at_most_dep: DepSet::empty(),
            at_most_tainted: false,
            at_least_done: Vec::new(),
            order,
            birth_deps: DepSet::empty(),
            parent: None,
            parent_role: None,
            nn_tainted: false,
        }
    }

    pub fn has(&self, c: ClassId) -> (r: bool)
        requires
            self@.wf(),
        ensures
            r == self@.has(c),
    {
        find_label(&self.labels, c).0
    }

    /// Inserts a label with its dependency set; `true` if it is new. A label
    /// that is there already keeps the dependency set that it has.
    pub fn add(&mut self, c: ClassId, deps: DepSet) -> (r: bool)
        requires
            old(self)@.wf(),
        ensures
            r == !old(self)@.has(c),
            final(self)@ == old(self)@.with_label(c, deps),
            final(self)@.wf(),
    {
        proof {
            lemma_with_label(self@, c, deps);
        }
        let (found, pos) = find_label(&self.labels, c);
        if found {
            false
        } else {
            self.labels.insert(pos, c);
            self.label_deps.insert(pos, deps);
            true
        }
    }

    /// The dependency set of label `c`, empty if the label is absent.
    pub fn deps_of(&self, c: ClassId) -> (r: DepSet)
        requires
            self@.wf(),
        ensures
            r == self@.deps_of(c),
    {
        let (found, pos) = find_label(&self.labels, c);
        if found {
            self.label_deps[pos]
        } else {
            DepSet::empty()
        }
    }

    /// Widens the dependency set of label `c`, if present, by `extra`.
    pub fn widen(&mut self, c: ClassId, extra: DepSet)
        requires
            old(self)@.wf(),
        ensures
            final(self)@ == old(self)@.widened(c, extra),
            final(self)@.wf(),
    {
        let (found, pos) = find_label(&self.labels, c);
        if found {
            let d = self.label_deps[pos].union(extra);
            self.label_deps.set(pos, d);
        }
    }

    /// A copy.
    pub fn duplicate(&self) -> (r: HyperNode)
        ensures
            r@ == self@,
    {
        HyperNode {
            labels: copy_vec(&self.labels),
            label_deps: copy_vec(&self.label_deps),
            edges: copy_vec(&self.edges),
            preds: copy_vec(&self.preds),
            at_most: copy_vec(&self.at_most),
            at_most_dep: self.at_most_dep,
            at_most_tainted: self.at_most_tainted,
            at_least_done: copy_vec(&self.at_least_done),
            order: self.order,
            birth_deps: self.birth_deps,
            parent: self.parent,
            parent_role: self.parent_role,
            nn_tainted: self.nn_tainted,
        }
    }
}

} // verus!
