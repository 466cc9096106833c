//! Measuring how often node label sets recur.
//!
//! Across every saturated completion that a search reaches, this counts the
//! nodes and the distinct hashes of their label sets. It is instrumentation
//! only.

use std::collections::HashSet;
use vstd::prelude::*;
use crate::graph::{tick, GcView, Graph};
use crate::ids::{ClassId, HNode};
use crate::matching::node_views;
use crate::node::HyperNode;
use crate::union_find::UnionFind;

verus! {

broadcast use vstd::std_specs::hash::group_hash_axioms;

/// A measurement window: nodes seen, and the hashes of their label sets.
#[derive(Debug)]
pub struct GcWindow {
    pub(crate) total: u64,
    pub(crate) distinct: HashSet<u64>,
}

impl View for GcWindow {
    type V = GcView;

    open(crate) spec fn view(&self) -> GcView {
        GcView { total: self.total, distinct: self.distinct@ }
    }
}

impl GcWindow {
    /// There are no more hashes than nodes were seen, as far as the counter
    /// reaches.
    #[verifier::type_invariant]
    pub(crate) closed spec fn fits(self) -> bool {
        self.distinct@.finite() && (self.distinct@.len() <= self.total || self.total == u64::MAX)
    }
}

/// What an optional window holds.
pub open spec fn window_view(w: Option<GcWindow>) -> Option<GcView> {
    match w {
        Some(w) => Some(w@),
        None => None,
    }
}

pub const FNV_OFFSET: u64 = 0xcbf2_9ce4_8422_2325;

pub const FNV_PRIME: u64 = 0x0100_0000_01b3;

/// The hash `h` continued over the labels from `i` on.
pub open spec fn fnv_from(labels: Seq<ClassId>, i: int, h: u64) -> u64
    decreases labels.len() - i,
{
    if i < 0 || i >= labels.len() {
        h
    } else {
        fnv_from(labels, i + 1, (h ^ (labels[i].0 as u64)).wrapping_mul(FNV_PRIME))
    }
}

/// The FNV-1a hash of a label set, over the label ids in order.
pub open spec fn label_hash(labels: Seq<ClassId>) -> u64 {
    fnv_from(labels, 0, FNV_OFFSET)
}

/// The window with the canonical nodes from `i` on recorded.
pub open spec fn recorded_from(g: Graph, i: int, w: GcView) -> GcView
    decreases g.nodes.len() - i,
{
    if i < 0 || i >= g.nodes.len() {
        w
    } else if g.root[i].at() != i {
        recorded_from(g, i + 1, w)
    } else {
        recorded_from(
            g,
            i + 1,
            GcView {
                total: tick(w.total),
                distinct: w.distinct.insert(label_hash(g.nodes[i].labels)),
            },
        )
    }
}

/// The window, if there is one, with the completion recorded.
pub open spec fn recorded(g: Graph, w: Option<GcView>) -> Option<GcView> {
    match w {
        Some(w) => Some(recorded_from(g, 0, w)),
        None => None,
    }
}

/// The hash starts at the offset basis of FNV-1a, and each label in turn is
/// mixed in with its prime.
pub proof fn lemma_label_hash(labels: Seq<ClassId>, c: ClassId)
    ensures
        label_hash(Seq::empty()) == 0xcbf2_9ce4_8422_2325u64,
        label_hash(labels.push(c)) == (label_hash(labels) ^ (c.0 as u64)).wrapping_mul(
            0x0100_0000_01b3u64,
        ),
{
    lemma_fnv_push(labels, c, 0, FNV_OFFSET);
}

proof fn lemma_fnv_push(labels: Seq<ClassId>, c: ClassId, i: int, h: u64)
    requires
        0 <= i <= labels.len(),
    ensures
        fnv_from(labels.push(c), i, h) == (fnv_from(labels, i, h) ^ (c.0 as u64)).wrapping_mul(
            FNV_PRIME,
        ),
    decreases labels.len() - i,
{
    if i < labels.len() {
        assert(labels.push(c)[i] == labels[i]);
        lemma_fnv_push(labels, c, i + 1, (h ^ (labels[i].0 as u64)).wrapping_mul(FNV_PRIME));
    } else {
        let h1 = (h ^ (c.0 as u64)).wrapping_mul(FNV_PRIME);
        assert(labels.push(c)[i] == c);
        assert(fnv_from(labels.push(c), i + 1, h1) == h1);
    }
}

/// The nodes among those from `i` on that were not merged away.
pub open spec fn kept_from(g: Graph, i: int) -> nat
    decreases g.nodes.len() - i,
{
    if i < 0 || i >= g.nodes.len() {
        0
    } else {
        kept_from(g, i + 1) + if g.root[i].at() == i {
            1nat
        } else {
            0
        }
    }
}

/// What is recorded of a completion: the hash of the labels of each node that
/// was not merged away, and no other; and as many more nodes as there are such
/// nodes, as far as the counter reaches.
pub proof fn lemma_recorded(g: Graph, i: int, w: GcView)
    requires
        0 <= i,
    ensures
        forall|h: u64| #[trigger]
            recorded_from(g, i, w).distinct.contains(h) <==> w.distinct.contains(h) || exists|j: int|
                i <= j < g.nodes.len() && g.root[j].at() == j && h == label_hash(
                    (#[trigger] g.nodes[j]).labels,
                ),
        recorded_from(g, i, w).total == if w.total + kept_from(g, i) > u64::MAX {
            u64::MAX as int
        } else {
            w.total + kept_from(g, i)
        },
    decreases g.nodes.len() - i,
{
    if i < g.nodes.len() {
        let w1 = if g.root[i].at() != i {
            w
        } else {
            GcView {
                total: tick(w.total),
                distinct: w.distinct.insert(label_hash(g.nodes[i].labels)),
            }
        };
        lemma_recorded(g, i + 1, w1);
        let out = recorded_from(g, i, w);
        assert forall|h: u64| #[trigger] out.distinct.contains(h) <==> w.distinct.contains(h)
            || exists|j: int|
            i <= j < g.nodes.len() && g.root[j].at() == j && h == label_hash(
                (#[trigger] g.nodes[j]).labels,
            ) by {
            assert(out.distinct.contains(h) <==> w1.distinct.contains(h) || exists|j: int|
                i + 1 <= j < g.nodes.len() && g.root[j].at() == j && h == label_hash(
                    (#[trigger] g.nodes[j]).labels,
                ));
            if g.root[i].at() == i && h == label_hash(g.nodes[i].labels) {
                assert(w1.distinct.contains(h));
            }
        }
    }
}

fn hash_labels(labels: &Vec<ClassId>) -> (r: u64)
    ensures
        r == label_hash(labels@),
{
    let mut h: u64 = FNV_OFFSET;
    let mut i: usize = 0;
    while i < labels.len()
        invariant
            i <= labels@.len(),
            label_hash(labels@) == fnv_from(labels@, i as int, h),
        decreases labels@.len() - i,
    {
        h = (h ^ (labels[i].index() as u64)).wrapping_mul(FNV_PRIME);
        i += 1;
    }
    h
}

impl GcWindow {
    /// An empty window.
    pub fn new() -> (r: GcWindow)
        ensures
            r@ == (GcView { total: 0, distinct: Set::empty() }),
    {
        GcWindow { total: 0, distinct: HashSet::new() }
    }

    /// Records the canonical nodes of a completion.
    pub(crate) fn record(&mut self, nodes: &Vec<HyperNode>, reps: &UnionFind, Ghost(g): Ghost<Graph>)
        requires
            reps.wf(),
            reps@ == g.root,
            node_views(nodes@) == g.nodes,
            g.root.len() == g.nodes.len(),
        ensures
            final(self)@ == recorded_from(g, 0, old(self)@),
    {
        proof {
            use_type_invariant(&*self);
        }
        let ghost w0 = self@;
        let mut total: u64 = self.total;
        let mut distinct: HashSet<u64> = HashSet::new();
        std::mem::swap(&mut distinct, &mut self.distinct);
        let mut i: usize = 0;
        while i < nodes.len()
            invariant
                i <= nodes@.len(),
                reps.wf(),
                reps@ == g.root,
                node_views(nodes@) == g.nodes,
                g.root.len() == g.nodes.len(),
                distinct@.finite(),
                distinct@.len() <= total || total == u64::MAX,
                recorded_from(g, 0, w0) == recorded_from(
                    g,
                    i as int,
                    (GcView { total, distinct: distinct@ }),
                ),
            decreases nodes@.len() - i,
        {
            let n = HNode(i as u32);
            assert(n.at() == i);
            let r = reps.find(n);
            if r == n {
                let h = hash_labels(&nodes[i].labels);
                assert(g.nodes[i as int] == nodes@[i as int]@);
                total = tick(total);
                distinct.insert(h);
            }
            i += 1;
        }
        *self = GcWindow { total, distinct };
    }
}

/// The nodes recorded in the window and the distinct hashes of their label
/// sets, of which there are no more, or `None` if nothing is being measured.
#[must_use]
pub fn gc_measure_report(window: &Option<GcWindow>) -> (r: Option<(u64, u64)>)
    ensures
        match window_view(*window) {
            Some(w) => r == Some((w.total, w.distinct.len() as u64)),
            None => r is None,
        },
        r matches Some((total, distinct)) ==> distinct <= total,
{
    match window {
        Some(w) => {
            proof {
                use_type_invariant(w);
            }
            Some((w.total, w.distinct.len() as u64))
        },
        None => None,
    }
}

} // verus!
