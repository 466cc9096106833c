//! Merging nodes that stand for the same element keeps a true graph true.

use vstd::prelude::*;
use crate::dep_set::DepSet;
use crate::graph::{Config, Event, Graph, State};
use crate::ids::{ClassId, HNode, Role};
use crate::node::{lemma_slot_at, Card, NodeView};
use crate::queries::{apart, apart_by, nominal};
use crate::rules::{
    bearer_from, cards_merged, constraints_merged, edge_in, edges_copied, joined_nodes, labelled,
    labels_copied, merged, nominal_cause, nominal_marked, nominal_merged, relinked, widened_birth,
};
use crate::rules_wf::{
    lemma_bearer, lemma_edge_in, lemma_edges_copied, lemma_labelled, lemma_labels_copied,
    lemma_linked_wf, lemma_merged, lemma_push_contains, lemma_widened_wf, lemma_with,
    lemma_work_grows, lemma_work_push,
};
use crate::truth::{
    alive, bounded, lemma_alive, lemma_empty, lemma_full_active, lemma_joined, node_true, owed,
    reached, true_in, World,
};
use crate::truth_rules::{
    lemma_edge_valid, lemma_node_edges_kept, lemma_owed_later, lemma_owed_same, lemma_true_birth,
    lemma_true_edge, lemma_true_labelled, lemma_true_widened, lemma_true_with, lemma_with_edge_wf,
};

verus! {

/// Where the node that stays is alive only if the other is, and only if what
/// the other depends on is true, edges are owed no sooner.
proof fn lemma_relinked_later<D>(w: World<D>, g: Graph, i: HNode, j: HNode)
    requires
        g.wf(),
        g.valid(i),
        g.valid(j),
        g.rep(i) == i,
        g.rep(j) == j,
        alive(w, g, i) ==> alive(w, g, j) && w.active(g.at(j).birth_deps),
    ensures
        forall|m: HNode| #[trigger] alive(w, relinked(g, i, j), m) == alive(w, g, m),
        forall|m: HNode|
            g.valid(m) && reached(w, relinked(g, i, j), m) ==> #[trigger] reached(w, g, m),
{
    let g1 = relinked(g, i, j);
    assert forall|m: HNode| #[trigger] alive(w, g1, m) == alive(w, g, m) by {}
    assert forall|m: HNode| g.valid(m) && reached(w, g1, m) implies #[trigger] reached(w, g, m) by {
        assert(g1.root[m.at()] == if g.root[m.at()] == j {
            i
        } else {
            g.root[m.at()]
        });
        assert(alive(w, g1, i) == alive(w, g, i));
    }
}

proof fn lemma_true_relinked<D>(w: World<D>, g: Graph, h: Seq<D>, i: HNode, j: HNode)
    requires
        g.wf(),
        true_in(w, g, h),
        g.valid(i),
        g.valid(j),
        g.rep(i) == i,
        g.rep(j) == j,
        alive(w, g, i) ==> alive(w, g, j) && w.active(g.at(j).birth_deps) && h[i.at()] == h[j.at()],
    ensures
        true_in(w, relinked(g, i, j), h),
{
    let g1 = relinked(g, i, j);
    lemma_relinked_later(w, g, i, j);
    assert forall|x: int| 0 <= x < h.len() implies h[x] == h[(#[trigger] g1.root[x]).at()] || !alive(
        w,
        g1,
        g1.root[x],
    ) by {
        assert(h[x] == h[g.root[x].at()] || !alive(w, g, g.root[x]));
        assert(alive(w, g1, g1.root[x]) == alive(w, g, g1.root[x]));
    }
    assert forall|x: int| 0 <= x < g1.nodes.len() implies #[trigger] node_true(w, g1, h, x) by {
        assert(node_true(w, g, h, x));
        lemma_node_edges_kept(w, g, g1, h, x);
    }
}

proof fn lemma_true_labels_copied<D>(
    w: World<D>,
    s: State,
    h: Seq<D>,
    n: HNode,
    labels: Seq<ClassId>,
    deps: Seq<DepSet>,
    cause: DepSet,
    i: int,
)
    requires
        s.wf(),
        s.g.valid(n),
        true_in(w, s.g, h),
        0 <= i,
        labels.len() == deps.len(),
        forall|q: int|
            0 <= q < labels.len() && w.active((#[trigger] deps[q]).joined(cause)) ==> w.i.in_class(
                labels[q],
                h[n.at()],
            ),
    ensures
        true_in(w, labels_copied(s, n, labels, deps, cause, i).g, h),
    decreases labels.len() - i,
{
    if i < labels.len() {
        let d = deps[i].joined(cause);
        lemma_labelled(s, n, labels[i], d);
        lemma_true_labelled(w, s, h, n, labels[i], d);
        let (s1, new) = labelled(s, n, labels[i], d);
        lemma_widened_wf(s1.g, n, labels[i], cause);
        lemma_true_widened(w, s1.g, h, n, labels[i], cause);
        let s2 = if !new && cause != DepSet::empty() {
            State { g: s1.g.with(n, s1.g.at(n).widened(labels[i], cause)), ..s1 }
        } else {
            s1
        };
        lemma_work_grows(s1.g, s2.g, s1.work);
        lemma_true_labels_copied(w, s2, h, n, labels, deps, cause, i + 1);
    }
}

proof fn lemma_true_edges_copied<D>(
    w: World<D>,
    s: State,
    h: Seq<D>,
    n: HNode,
    edges: Seq<(Role, HNode)>,
    i: int,
)
    requires
        s.wf(),
        s.g.valid(n),
        true_in(w, s.g, h),
        0 <= i,
        forall|j: int| 0 <= j < edges.len() ==> s.g.valid((#[trigger] edges[j]).1),
        forall|j: int|
            0 <= j < edges.len() && owed(w, s.g, n, (#[trigger] edges[j]).1) ==> w.i.role(
                edges[j].0,
                h[n.at()],
                h[edges[j].1.at()],
            ),
    ensures
        true_in(w, edges_copied(s, n, edges, i).g, h),
    decreases edges.len() - i,
{
    if i < edges.len() {
        let (r, t) = edges[i];
        assert(s.g.valid(edges[i].1));
        lemma_edge_in(s.g, n, r, t);
        lemma_true_edge(w, s.g, h, n, r, t);
        let s1 = State {
            g: edge_in(s.g, n, r, t),
            work: s.work.push(Event::Edge(n, r, t)),
            ..s
        };
        lemma_work_grows(s.g, s1.g, s.work);
        lemma_work_push(s1.g, s.work, Event::Edge(n, r, t));
        assert forall|j: int| 0 <= j < edges.len() implies s1.g.valid((#[trigger] edges[j]).1) by {
            assert(s.g.valid(edges[j].1));
        }
        let g1 = s.g.with(n, s.g.at(n).with_edge(r, t));
        lemma_with_edge_wf(s.g, n, r, t);
        lemma_owed_same(w, s.g, n, s.g.at(n).with_edge(r, t));
        lemma_owed_same(w, g1, t, g1.at(t).with_pred(r, n));
        assert forall|j: int|
            0 <= j < edges.len() && owed(w, s1.g, n, (#[trigger] edges[j]).1) implies w.i.role(
            edges[j].0,
            h[n.at()],
            h[edges[j].1.at()],
        ) by {
            let m = edges[j].1;
            assert(s.g.valid(edges[j].1));
            assert(g1.valid(m));
            assert(reached(w, g1, m) == reached(w, s.g, m));
            assert(alive(w, g1, n) == alive(w, s.g, n));
            assert(alive(w, s1.g, n) == alive(w, g1, n));
            assert(owed(w, s.g, n, m));
        }
        lemma_true_edges_copied(w, s1, h, n, edges, i + 1);
    }
}

proof fn lemma_cards_merged(a: Seq<Card>, b: Seq<Card>)
    ensures
        forall|c: Card| #[trigger] cards_merged(a, b).contains(c) ==> a.contains(c) || b.contains(c),
    decreases b.len(),
{
    if b.len() > 0 {
        let r = b.drop_last();
        lemma_cards_merged(a, r);
        let m = cards_merged(a, r);
        lemma_push_contains(m, b.last());
        assert(b =~= r.push(b.last()));
        lemma_push_contains(r, b.last());
    }
}

proof fn lemma_true_constraints<D>(w: World<D>, g: Graph, h: Seq<D>, i: HNode, j: HNode)
    requires
        g.wf(),
        g.valid(i),
        g.valid(j),
        true_in(w, g, h),
        w.full() ==> h[i.at()] == h[j.at()],
    ensures
        true_in(w, g.with(i, constraints_merged(g.at(i), g.at(j))), h),
{
    let (vi, vj) = (g.at(i), g.at(j));
    let u = constraints_merged(vi, vj);
    let g1 = g.with(i, u);
    assert(node_true(w, g, h, i.at()));
    assert(node_true(w, g, h, j.at()));
    lemma_cards_merged(vi.at_most, vj.at_most);
    lemma_joined(w, vi.at_most_dep, vj.at_most_dep);
    lemma_joined(w, vi.birth_deps, vj.birth_deps);
    lemma_owed_later(w, g, i, u);
    assert forall|c: ClassId| #[trigger] u.has(c) implies vi.has(c) && u.deps_of(c) == vi.deps_of(c) by {}
    lemma_node_edges_kept(w, g, g1, h, i.at());
    assert forall|c: Card| #[trigger] u.at_most.contains(c) && bounded(w, u) implies w.i.at_most(
        c.0,
        c.1,
        c.2,
        h[i.at()],
    ) by {
        if !vi.at_most.contains(c) {
            assert(vj.at_most.contains(c));
        }
    }
    assert(node_true(w, g1, h, i.at()));
    lemma_true_with(w, g, h, i, u);
}

/// Copying labels leaves the rest of the nodes as they are.
proof fn lemma_labels_copied_at(
    s: State,
    n: HNode,
    labels: Seq<ClassId>,
    deps: Seq<DepSet>,
    cause: DepSet,
    i: int,
    m: HNode,
)
    requires
        s.wf(),
        s.g.valid(n),
        s.g.valid(m),
        0 <= i,
    ensures
        ({
            let u = s.g.at(m);
            let v = labels_copied(s, n, labels, deps, cause, i).g.at(m);
            v.nn_tainted == u.nn_tainted && v.birth_deps == u.birth_deps
        }),
    decreases labels.len() - i,
{
    if i < labels.len() {
        let d = deps[i].joined(cause);
        lemma_labelled(s, n, labels[i], d);
        let (s1, new) = labelled(s, n, labels[i], d);
        lemma_widened_wf(s1.g, n, labels[i], cause);
        let s2 = if !new && cause != DepSet::empty() {
            State { g: s1.g.with(n, s1.g.at(n).widened(labels[i], cause)), ..s1 }
        } else {
            s1
        };
        lemma_work_grows(s1.g, s2.g, s1.work);
        lemma_labels_copied_at(s2, n, labels, deps, cause, i + 1, m);
    }
}

/// Copying edges leaves the rest of the nodes as they are.
proof fn lemma_edges_copied_at(s: State, n: HNode, edges: Seq<(Role, HNode)>, i: int, m: HNode)
    requires
        s.wf(),
        s.g.valid(n),
        s.g.valid(m),
        0 <= i,
        forall|j: int| 0 <= j < edges.len() ==> s.g.valid((#[trigger] edges[j]).1),
    ensures
        ({
            let u = s.g.at(m);
            let v = edges_copied(s, n, edges, i).g.at(m);
            v.nn_tainted == u.nn_tainted && v.birth_deps == u.birth_deps
        }),
    decreases edges.len() - i,
{
    if i < edges.len() {
        let (r, t) = edges[i];
        assert(s.g.valid(edges[i].1));
        lemma_edge_in(s.g, n, r, t);
        let s1 = State {
            g: edge_in(s.g, n, r, t),
            work: s.work.push(Event::Edge(n, r, t)),
            ..s
        };
        lemma_work_grows(s.g, s1.g, s.work);
        lemma_work_push(s1.g, s.work, Event::Edge(n, r, t));
        assert forall|j: int| 0 <= j < edges.len() implies s1.g.valid((#[trigger] edges[j]).1) by {
            assert(s.g.valid(edges[j].1));
        }
        lemma_edges_copied_at(s1, n, edges, i + 1, m);
    }
}

/// Merging two nodes that stand for the same element, or of which the one that
/// stays is not alive.
proof fn lemma_true_joined<D>(
    w: World<D>,
    s: State,
    h: Seq<D>,
    i: HNode,
    j: HNode,
    cause: DepSet,
)
    requires
        s.wf(),
        true_in(w, s.g, h),
        s.g.valid(i),
        s.g.valid(j),
        s.g.rep(i) == i,
        s.g.rep(j) == j,
        i != j,
        w.active(cause) ==> h[i.at()] == h[j.at()],
        alive(w, s.g, i) ==> alive(w, s.g, j) && w.active(s.g.at(j).birth_deps) && h[i.at()]
            == h[j.at()],
    ensures
        true_in(w, joined_nodes(s, i, j, cause).g, h),
        w.active(joined_nodes(s, i, j, cause).g.at(i).birth_deps) ==> w.active(
            s.g.at(i).birth_deps,
        ) && w.active(cause),
        joined_nodes(s, i, j, cause).g.rep(i) == i,
{
    lemma_linked_wf(s.g, i, j);
    lemma_true_relinked(w, s.g, h, i, j);
    lemma_relinked_later(w, s.g, i, j);
    let g0 = relinked(s.g, i, j);
    assert(g0.node_wf(g0.nodes[i.at()], i.at()));
    lemma_with(g0, i, widened_birth(g0.at(i), cause));
    lemma_true_birth(w, g0, h, i, cause);
    lemma_joined(w, g0.at(i).birth_deps, cause);
    lemma_empty(w);
    lemma_owed_later(w, g0, i, widened_birth(g0.at(i), cause));
    let g1 = if cause != DepSet::empty() {
        g0.with(i, widened_birth(g0.at(i), cause))
    } else {
        g0
    };
    assert(crate::graph::grows(s.g, g0));
    crate::graph::lemma_grows_trans(s.g, g0, g1);
    lemma_work_grows(s.g, g1, s.work);
    let s1 = State { g: g1, ..s };
    let vj = g1.at(j);
    assert(g1.node_wf(g1.nodes[j.at()], j.at()));
    assert(node_true(w, g1, h, j.at()));
    assert forall|q: int| 0 <= q < vj.labels.len() && w.active(
        (#[trigger] vj.label_deps[q]).joined(cause),
    ) implies w.i.in_class(vj.labels[q], h[i.at()]) by {
        lemma_joined(w, vj.label_deps[q], cause);
        lemma_slot_at(vj.labels, q);
        assert(vj.has(vj.labels[q]));
        assert(vj.deps_of(vj.labels[q]) == vj.label_deps[q]);
    }
    lemma_labels_copied(s1, i, vj.labels, vj.label_deps, cause, 0);
    lemma_true_labels_copied(w, s1, h, i, vj.labels, vj.label_deps, cause, 0);
    let s2 = labels_copied(s1, i, vj.labels, vj.label_deps, cause, 0);
    assert forall|m: HNode| s.g.valid(m) implies #[trigger] alive(w, s2.g, m) == alive(w, g1, m) by {
        lemma_labels_copied_at(s1, i, vj.labels, vj.label_deps, cause, 0, m);
    }
    assert forall|m: HNode| s.g.valid(m) && reached(w, s2.g, m) implies #[trigger] reached(
        w,
        s.g,
        m,
    ) by {
        lemma_labels_copied_at(s1, i, vj.labels, vj.label_deps, cause, 0, m);
        assert(g1.root[m.at()].at() < g1.root.len());
        assert(alive(w, s2.g, s2.g.rep(m)) == alive(w, g1, g1.rep(m)));
        assert(reached(w, g1, m));
        assert(reached(w, g0, m));
    }
    assert forall|q: int| 0 <= q < vj.edges.len() implies s2.g.valid((#[trigger] vj.edges[q]).1)
        && (owed(w, s2.g, i, vj.edges[q].1) ==> w.i.role(
        vj.edges[q].0,
        h[i.at()],
        h[vj.edges[q].1.at()],
    )) by {
        let t = vj.edges[q].1;
        assert(g1.valid(vj.edges[q].1));
        assert(s.g.at(j).edges.contains(vj.edges[q]));
        assert(node_true(w, s.g, h, j.at()));
        assert(HNode(j.at() as u32) == j);
        if owed(w, s2.g, i, t) {
            assert(reached(w, s.g, t));
            assert(alive(w, g1, i));
            assert(alive(w, g0, i));
            assert(owed(w, s.g, j, t));
        }
    }
    lemma_edges_copied(s2, i, vj.edges, 0);
    lemma_true_edges_copied(w, s2, h, i, vj.edges, 0);
    let s3 = edges_copied(s2, i, vj.edges, 0);
    lemma_labels_copied_at(s1, i, vj.labels, vj.label_deps, cause, 0, i);
    lemma_edges_copied_at(s2, i, vj.edges, 0, i);
    lemma_joined(w, s3.g.at(i).birth_deps, s3.g.at(j).birth_deps);
    if w.full() {
        lemma_full_active(w, cause);
    }
    lemma_true_constraints(w, s3.g, h, i, j);
    assert(s3.g.root == g0.root);
}

/// Nodes that must not be merged stand for different elements.
pub proof fn lemma_apart_differ<D>(w: World<D>, g: Graph, h: Seq<D>, a: HNode, b: HNode)
    requires
        g.wf(),
        w.full(),
        w.buried is None,
        true_in(w, g, h),
        g.valid(a),
        g.valid(b),
        apart(g, a, b),
    ensures
        h[a.at()] != h[b.at()],
{
    let p = choose|p: int| 0 <= p < g.neq.len() && apart_by(g, #[trigger] g.neq[p], a, b);
    let (x, y) = g.neq[p];
    assert(g.valid(g.neq[p].0));
    assert(h[x.at()] != h[y.at()]);
    lemma_alive(w, g, g.root[x.at()]);
    lemma_alive(w, g, g.root[y.at()]);
    lemma_alive(w, g, g.root[a.at()]);
    lemma_alive(w, g, g.root[b.at()]);
    assert(h[x.at()] == h[g.root[x.at()].at()]);
    assert(h[y.at()] == h[g.root[y.at()].at()]);
    assert(h[a.at()] == h[g.root[a.at()].at()]);
    assert(h[b.at()] == h[g.root[b.at()].at()]);
}

/// Merging what stands for the same element does not clash.
pub proof fn lemma_true_merged<D>(
    w: World<D>,
    k: Config,
    s: State,
    h: Seq<D>,
    i0: HNode,
    j0: HNode,
    cause: DepSet,
)
    requires
        s.wf(),
        w.full(),
        w.buried is None,
        true_in(w, s.g, h),
        s.g.valid(i0),
        s.g.valid(j0),
        h[i0.at()] == h[j0.at()],
    ensures
        true_in(w, merged(k, s, i0, j0, cause).0.g, h),
        !merged(k, s, i0, j0, cause).1,
{
    let g = s.g;
    let (i, j) = (g.rep(i0), g.rep(j0));
    assert(g.root[i0.at()].at() < g.root.len());
    assert(g.root[j0.at()].at() < g.root.len());
    lemma_alive(w, g, i);
    lemma_alive(w, g, j);
    assert(h[i0.at()] == h[g.root[i0.at()].at()]);
    assert(h[j0.at()] == h[g.root[j0.at()].at()]);
    lemma_empty(w);
    if i != j {
        if apart(g, i, j) {
            lemma_apart_differ(w, g, h, i, j);
        }
        let c = if k.nn_taint_disabled {
            DepSet::empty()
        } else {
            cause
        };
        lemma_alive_if_full(w, g, i, j);
        lemma_true_joined(w, s, h, i, j, c);
    }
}

impl<D> World<D> {
    /// Nothing is asked of the edges of `n`.
    pub open spec fn burying(self, n: HNode) -> World<D> {
        World { buried: Some(n), ..self }
    }
}

/// What is true of the decisions does not depend on the rest.
proof fn lemma_same_active<D>(w: World<D>, u: World<D>, ds: DepSet)
    requires
        u.t == w.t,
    ensures
        u.active(ds) == w.active(ds),
        u.full() == w.full(),
{
    assert forall|l: int| #[trigger] u.t.contains(l) == w.t.contains(l) by {}
    assert(u.full() == w.full()) by {
        if u.full() {
            assert forall|l: int| 0 <= l implies w.t.contains(l) by {
                assert(u.t.contains(l));
            }
        }
        if w.full() {
            assert forall|l: int| 0 <= l implies u.t.contains(l) by {
                assert(w.t.contains(l));
            }
        }
    }
    if !ds.overflow {
        if u.active(ds) {
            assert forall|l: u32| #[trigger] crate::dep_set::bit(ds.bits, l) implies w.t.contains(
                l as int,
            ) by {
                assert(u.t.contains(l as int));
            }
        }
        if w.active(ds) {
            assert forall|l: u32| #[trigger] crate::dep_set::bit(ds.bits, l) implies u.t.contains(
                l as int,
            ) by {
                assert(w.t.contains(l as int));
            }
        }
    }
}

/// Less is asked where a node is buried.
proof fn lemma_true_buried<D>(w: World<D>, g: Graph, h: Seq<D>, n: HNode)
    requires
        g.wf(),
        w.buried is None,
        true_in(w, g, h),
    ensures
        true_in(w.burying(n), g, h),
{
    let u = w.burying(n);
    assert forall|ds: DepSet| #[trigger] u.active(ds) == w.active(ds) by {
        lemma_same_active(w, u, ds);
    }
    lemma_same_active(w, u, DepSet::empty());
    assert forall|m: HNode| #[trigger] alive(u, g, m) implies alive(w, g, m) by {}
    assert forall|i: int| 0 <= i < h.len() implies h[i] == h[(#[trigger] g.root[i]).at()] || !alive(
        u,
        g,
        g.root[i],
    ) by {
        assert(h[i] == h[g.root[i].at()] || !alive(w, g, g.root[i]));
    }
    assert forall|i: int| 0 <= i < g.nodes.len() implies #[trigger] node_true(u, g, h, i) by {
        assert(node_true(w, g, h, i));
        lemma_node_asked_less(w, u, g, g, h, i);
    }
}

/// What is owed of a node stays true when less is asked.
proof fn lemma_node_asked_less<D>(w: World<D>, u: World<D>, g: Graph, g1: Graph, h: Seq<D>, i: int)
    requires
        g.wf(),
        0 <= i < g.nodes.len(),
        node_true(w, g, h, i),
        u.i == w.i,
        u.t == w.t,
        g1.nodes[i].labels == g.nodes[i].labels,
        g1.nodes[i].label_deps == g.nodes[i].label_deps,
        g1.nodes[i].edges == g.nodes[i].edges,
        g1.nodes[i].preds == g.nodes[i].preds,
        g1.nodes[i].at_most == g.nodes[i].at_most,
        g1.nodes[i].at_most_dep == g.nodes[i].at_most_dep,
        g1.nodes[i].at_most_tainted == g.nodes[i].at_most_tainted,
        forall|a: HNode, b: HNode|
            g.valid(a) && g.valid(b) && #[trigger] owed(u, g1, a, b) ==> owed(w, g, a, b),
    ensures
        node_true(u, g1, h, i),
{
    assert forall|ds: DepSet| #[trigger] u.active(ds) == w.active(ds) by {
        lemma_same_active(w, u, ds);
    }
    let v = g1.nodes[i];
    assert forall|c: ClassId| #[trigger] v.has(c) && u.active(v.deps_of(c)) implies u.i.in_class(
        c,
        h[i],
    ) by {
        assert(g.nodes[i].has(c));
        assert(w.active(g.nodes[i].deps_of(c)));
    }
    assert forall|e: (Role, HNode)| #[trigger]
        v.edges.contains(e) && owed(u, g1, HNode(i as u32), e.1) implies u.i.role(
        e.0,
        h[i],
        h[e.1.at()],
    ) by {
        assert(g.nodes[i].edges.contains(e));
        lemma_edge_valid(g, i, e);
        assert(g.valid(HNode(i as u32)));
        assert(owed(w, g, HNode(i as u32), e.1));
    }
    assert forall|e: (Role, HNode)| #[trigger]
        v.preds.contains(e) && owed(u, g1, e.1, HNode(i as u32)) implies u.i.role(
        e.0,
        h[e.1.at()],
        h[i],
    ) by {
        assert(g.nodes[i].preds.contains(e));
        lemma_edge_valid(g, i, e);
        assert(g.valid(HNode(i as u32)));
        assert(owed(w, g, e.1, HNode(i as u32)));
    }
    lemma_same_active(w, u, DepSet::empty());
    assert forall|c: Card| #[trigger] v.at_most.contains(c) && bounded(u, v) implies u.i.at_most(
        c.0,
        c.1,
        c.2,
        h[i],
    ) by {
        assert(g.nodes[i].at_most.contains(c));
        assert(bounded(w, g.nodes[i]));
    }
}

/// A node that was merged for a nominal which it bears only by a false
/// decision need not be buried: it is not alive.
proof fn lemma_true_unburied<D>(w: World<D>, g: Graph, h: Seq<D>, n: HNode, v: NodeView)
    requires
        g.wf(),
        g.valid(n),
        w.buried is None,
        true_in(w.burying(n), g, h),
        v == (NodeView { nn_tainted: true, birth_deps: v.birth_deps, ..g.at(n) }),
        !w.active(v.birth_deps),
    ensures
        true_in(w, g.with(n, v), h),
{
    let u = w.burying(n);
    let g1 = g.with(n, v);
    assert forall|ds: DepSet| #[trigger] u.active(ds) == w.active(ds) by {
        lemma_same_active(w, u, ds);
    }
    lemma_same_active(w, u, DepSet::empty());
    assert forall|m: HNode| g.valid(m) && #[trigger] alive(w, g1, m) implies alive(u, g, m) by {
        assert(m != n);
        assert(g1.at(m) == g.at(m));
    }
    assert forall|a: HNode, b: HNode|
        g.valid(a) && g.valid(b) && #[trigger] owed(w, g1, a, b) implies owed(u, g, a, b) by {
        assert(alive(w, g1, a));
        assert(reached(w, g1, b));
        assert(g.root[b.at()].at() < g.root.len());
        assert(alive(w, g1, g1.rep(b)) ==> alive(u, g, g.rep(b)));
        assert(b != n ==> g1.at(b) == g.at(b));
    }
    assert forall|x: int| 0 <= x < h.len() implies h[x] == h[(#[trigger] g1.root[x]).at()] || !alive(
        w,
        g1,
        g1.root[x],
    ) by {
        assert(g.root[x].at() < g.root.len());
        assert(h[x] == h[g.root[x].at()] || !alive(u, g, g.root[x]));
    }
    assert forall|i: int| 0 <= i < g1.nodes.len() implies #[trigger] node_true(w, g1, h, i) by {
        assert(node_true(u, g, h, i));
        lemma_node_asked_less(u, w, g, g1, h, i);
    }
}

/// Marking a node as merged for a nominal that it bears.
proof fn lemma_true_marked<D>(w: World<D>, g: Graph, h: Seq<D>, n: HNode, u: NodeView)
    requires
        g.wf(),
        g.valid(n),
        w.buried is None,
        true_in(w, g, h),
        u == (NodeView { nn_tainted: true, birth_deps: u.birth_deps, ..g.at(n) }),
        w.active(u.birth_deps) ==> w.active(g.at(n).birth_deps),
    ensures
        true_in(w, g.with(n, u), h),
{
    let v = g.at(n);
    let g1 = g.with(n, u);
    assert(node_true(w, g, h, n.at()));
    lemma_owed_later(w, g, n, u);
    assert forall|c: ClassId| #[trigger] u.has(c) implies v.has(c) && u.deps_of(c) == v.deps_of(c) by {}
    lemma_node_edges_kept(w, g, g1, h, n.at());
    assert(node_true(w, g1, h, n.at()));
    lemma_true_with(w, g, h, n, u);
}

/// If all that a merge for a nominal rests on is true, the two nodes stand for
/// the same element.
proof fn lemma_nominal_same<D>(
    w: World<D>,
    k: Config,
    g: Graph,
    h: Seq<D>,
    n: HNode,
    m: HNode,
    c: ClassId,
)
    requires
        g.wf(),
        g.valid(n),
        g.valid(m),
        g.at(n).has(c),
        g.at(m).has(c),
        nominal(k, c),
        true_in(w, g, h),
        w.i.names(k),
        w.buried is None,
        w.active(nominal_cause(g, n, m, c)),
    ensures
        h[g.rep(n).at()] == h[m.at()],
{
    let rn = g.rep(n);
    assert(g.root[n.at()].at() < g.root.len());
    let (d, e) = (g.at(rn).deps_of(c), g.at(m).deps_of(c));
    lemma_joined(w, d, e);
    if rn != n {
        lemma_joined(w, d.joined(e), g.at(n).deps_of(c));
        lemma_joined(w, d.joined(e).joined(g.at(n).deps_of(c)), g.at(rn).birth_deps);
        assert(alive(w, g, rn));
    }
    assert(h[n.at()] == h[g.root[n.at()].at()] || !alive(w, g, g.root[n.at()]));
    assert(node_true(w, g, h, n.at()));
    assert(node_true(w, g, h, m.at()));
    assert(w.i.within(h[n.at()]) && w.i.within(h[m.at()]));
    assert(w.i.in_class(c, h[n.at()]) && w.i.in_class(c, h[m.at()]));
}

/// Merging for a nominal, whether or not it is true of both nodes.
pub proof fn lemma_true_nominal<D>(w: World<D>, k: Config, s: State, h: Seq<D>, n: HNode, c: ClassId)
    requires
        s.wf(),
        s.g.valid(n),
        s.g.at(n).has(c),
        true_in(w, s.g, h),
        w.i.names(k),
        w.buried is None,
        k.nominals is None || !k.nn_taint_disabled || w.full(),
    ensures
        true_in(w, nominal_merged(k, s, n, c).0.g, h),
        nominal_merged(k, s, n, c).1 is Clash ==> !w.active(nominal_merged(k, s, n, c).0.clash),
        nominal_merged(k, s, n, c).1 !is Full,
{
    if nominal(k, c) {
        let i = s.g.rep(n);
        assert(s.g.root[n.at()].at() < s.g.root.len());
        lemma_bearer(s.g, i, c, 0);
        if let Some(j) = bearer_from(s.g, i, c, 0) {
            let cause0 = nominal_cause(s.g, n, j, c);
            let cause = if k.nn_taint_disabled {
                DepSet::empty()
            } else {
                cause0
            };
            lemma_empty(w);
            if w.full() {
                lemma_full_active(w, cause0);
            }
            if w.active(cause0) {
                lemma_nominal_same(w, k, s.g, h, n, j, c);
            }
            if apart(s.g, i, j) {
                if w.full() {
                    lemma_apart_differ(w, s.g, h, i, j);
                }
            } else {
                lemma_merged(k, s, i, j, cause0);
                let s1 = merged(k, s, i, j, cause0).0;
                assert(s1 == joined_nodes(s, i, j, cause));
                let v = nominal_marked(k, s1.g.at(i), s.g.at(j).birth_deps);
                lemma_joined(w, s1.g.at(i).birth_deps, s.g.at(j).birth_deps);
                if w.full() || (w.active(s.g.at(i).birth_deps) && w.active(cause) && w.active(
                    s.g.at(j).birth_deps,
                )) {
                    lemma_alive_if_full(w, s.g, i, j);
                    lemma_true_joined(w, s, h, i, j, cause);
                    lemma_true_marked(w, s1.g, h, i, v);
                } else {
                    lemma_true_buried(w, s.g, h, i);
                    let u = w.burying(i);
                    assert forall|ds: DepSet| #[trigger] u.active(ds) == w.active(ds) by {
                        lemma_same_active(w, u, ds);
                    }
                    lemma_true_joined(u, s, h, i, j, cause);
                    assert(!w.active(v.birth_deps)) by {
                        assert(u.active(s1.g.at(i).birth_deps) == w.active(s1.g.at(i).birth_deps));
                        assert(u.active(s.g.at(i).birth_deps) == w.active(s.g.at(i).birth_deps));
                        assert(u.active(cause) == w.active(cause));
                    }
                    lemma_true_unburied(w, s1.g, h, i, v);
                }
            }
        }
    }
}

/// Where all decisions are true, what both nodes depend on is true.
proof fn lemma_alive_if_full<D>(w: World<D>, g: Graph, i: HNode, j: HNode)
    requires
        w.buried is None,
    ensures
        w.full() ==> alive(w, g, i) && alive(w, g, j) && w.active(g.at(j).birth_deps),
{
    if w.full() {
        lemma_alive(w, g, i);
        lemma_alive(w, g, j);
        lemma_full_active(w, g.at(j).birth_deps);
    }
}

} // verus!
