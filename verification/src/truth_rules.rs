//! The rules keep a true graph true.

use vstd::prelude::*;
use crate::clause::{Atom, Var};
use crate::dep_set::DepSet;
use crate::graph::{Config, Event, FireOutcome, Graph, State};
use crate::ids::{ClassId, HNode, Role};
use crate::matching::{binding_valid, lemma_var_node_valid, var_node};
use crate::node::{lemma_slot_splits, lemma_with_label, Card, NodeView};
use crate::queries::{body_deps, check_blocked};
use crate::rules::{
    all_apart_from, at_least_fired, at_most_added, atom_asserted, edge_derived, edge_in,
    exists_fired, extended, filed_in, generated, grown, head_fired, kept_apart, labelled, next_node,
    sprouted, sprouts, stored_edge, widened_birth,
};
use crate::rules_wf::{
    lemma_edge_in, lemma_extended, lemma_filed_in, lemma_grown, lemma_kept_apart,
    lemma_push_contains, lemma_sprouts, lemma_with, lemma_work_grows,
};
use crate::semantics::lemma_role_flipped;
use crate::truth::{
    alive, bounded, lemma_alive, lemma_body_deps, lemma_body_true, lemma_empty, lemma_full_active,
    lemma_joined, lemma_values_within, node_true, owed, reached, true_in, values, World,
};

verus! {

/// Replacing a node by one whose facts are true and whose edges are owed no
/// sooner.
pub proof fn lemma_true_with<D>(w: World<D>, g: Graph, h: Seq<D>, n: HNode, v: NodeView)
    requires
        g.wf(),
        g.valid(n),
        true_in(w, g, h),
        w.active(v.birth_deps) ==> w.active(g.at(n).birth_deps),
        alive(w, g.with(n, v), n) ==> alive(w, g, n),
        node_true(w, g.with(n, v), h, n.at()),
    ensures
        true_in(w, g.with(n, v), h),
{
    let g1 = g.with(n, v);
    lemma_owed_later(w, g, n, v);
    assert forall|i: int| 0 <= i < h.len() implies h[i] == h[(#[trigger] g1.root[i]).at()]
        || !alive(w, g1, g1.root[i]) by {
        assert(g.root[i].at() < g.root.len());
        assert(h[i] == h[g.root[i].at()] || !alive(w, g, g.root[i]));
    }
    assert forall|i: int| 0 <= i < g1.nodes.len() implies #[trigger] node_true(w, g1, h, i) by {
        if i != n.at() {
            assert(node_true(w, g, h, i));
            assert(g1.nodes[i] == g.nodes[i]);
            lemma_node_edges_kept(w, g, g1, h, i);
        }
    }
}

/// A node that is alive no sooner and depends on no less leaves all edges owed
/// no sooner.
pub proof fn lemma_owed_later<D>(w: World<D>, g: Graph, n: HNode, v: NodeView)
    requires
        g.wf(),
        g.valid(n),
        w.active(v.birth_deps) ==> w.active(g.at(n).birth_deps),
        alive(w, g.with(n, v), n) ==> alive(w, g, n),
    ensures
        forall|m: HNode|
            g.valid(m) && reached(w, g.with(n, v), m) ==> #[trigger] reached(w, g, m),
        forall|m: HNode| g.valid(m) && #[trigger] alive(w, g.with(n, v), m) ==> alive(w, g, m),
{
    let g1 = g.with(n, v);
    assert forall|m: HNode| g.valid(m) && #[trigger] alive(w, g1, m) implies alive(w, g, m) by {
        if m != n {
            assert(g1.at(m) == g.at(m));
        }
    }
    assert forall|m: HNode| g.valid(m) && reached(w, g1, m) implies #[trigger] reached(w, g, m) by {
        assert(g.root[m.at()].at() < g.root.len());
        if m != n {
            assert(g1.at(m) == g.at(m));
        }
        assert(g1.rep(m) == g.rep(m));
        assert(g.valid(g.rep(m)));
        assert(alive(w, g1, g1.rep(m)) ==> alive(w, g, g.rep(m)));
    }
}

/// A node that depends on the same leaves the same edges owed.
pub proof fn lemma_owed_same<D>(w: World<D>, g: Graph, n: HNode, v: NodeView)
    requires
        g.wf(),
        g.valid(n),
        v.birth_deps == g.at(n).birth_deps,
        v.nn_tainted == g.at(n).nn_tainted,
    ensures
        forall|m: HNode|
            g.valid(m) ==> reached(w, g.with(n, v), m) == #[trigger] reached(w, g, m),
        forall|m: HNode| g.valid(m) ==> #[trigger] alive(w, g.with(n, v), m) == alive(w, g, m),
{
    let g1 = g.with(n, v);
    assert forall|m: HNode| g.valid(m) implies #[trigger] alive(w, g1, m) == alive(w, g, m) by {
        if m != n {
            assert(g1.at(m) == g.at(m));
        }
    }
    assert forall|m: HNode| g.valid(m) implies reached(w, g1, m) == #[trigger] reached(w, g, m) by {
        assert(g.root[m.at()].at() < g.root.len());
        if m != n {
            assert(g1.at(m) == g.at(m));
        }
        assert(g1.rep(m) == g.rep(m));
        assert(g.valid(g.rep(m)));
        assert(alive(w, g1, g1.rep(m)) == alive(w, g, g.rep(m)));
    }
}

/// In a well-formed graph an edge's target is a node.
pub proof fn lemma_edge_valid(g: Graph, i: int, e: (Role, HNode))
    requires
        g.wf(),
        0 <= i < g.nodes.len(),
        g.nodes[i].edges.contains(e) || g.nodes[i].preds.contains(e),
    ensures
        g.valid(e.1),
{
    assert(g.node_wf(g.nodes[i], i));
    if g.nodes[i].edges.contains(e) {
        let j = choose|j: int| 0 <= j < g.nodes[i].edges.len() && g.nodes[i].edges[j] == e;
        assert(g.valid(g.nodes[i].edges[j].1));
    } else {
        let j = choose|j: int| 0 <= j < g.nodes[i].preds.len() && g.nodes[i].preds[j] == e;
        assert(g.valid(g.nodes[i].preds[j].1));
    }
}

/// A label that is true if what it depends on is.
pub proof fn lemma_true_labelled<D>(
    w: World<D>,
    s: State,
    h: Seq<D>,
    n: HNode,
    c: ClassId,
    deps: DepSet,
)
    requires
        s.wf(),
        s.g.valid(n),
        true_in(w, s.g, h),
        w.active(deps) ==> w.i.in_class(c, h[n.at()]),
    ensures
        true_in(w, labelled(s, n, c, deps).0.g, h),
{
    let v = s.g.at(n);
    assert(s.g.node_wf(s.g.nodes[n.at()], n.at()));
    if !v.has(c) {
        lemma_with_label(v, c, deps);
        let v1 = v.with_label(c, deps);
        let g1 = s.g.with(n, v1);
        assert(node_true(w, s.g, h, n.at()));
        lemma_owed_later(w, s.g, n, v1);
        lemma_node_edges_kept(w, s.g, g1, h, n.at());
        lemma_true_with(w, s.g, h, n, v1);
    }
}

/// The edge facts of a node stay true when its edges stay and edges are owed
/// no sooner.
pub proof fn lemma_node_edges_kept<D>(w: World<D>, g: Graph, g1: Graph, h: Seq<D>, i: int)
    requires
        g.wf(),
        0 <= i < g.nodes.len(),
        g.nodes.len() <= u32::MAX + 1,
        node_true(w, g, h, i),
        g1.nodes[i].edges == g.nodes[i].edges,
        g1.nodes[i].preds == g.nodes[i].preds,
        forall|m: HNode| g.valid(m) && reached(w, g1, m) ==> #[trigger] reached(w, g, m),
        forall|m: HNode| g.valid(m) && #[trigger] alive(w, g1, m) ==> alive(w, g, m),
    ensures
        forall|e: (Role, HNode)| #[trigger]
            g1.nodes[i].edges.contains(e) && owed(w, g1, HNode(i as u32), e.1) ==> w.i.role(
                e.0,
                h[i],
                h[e.1.at()],
            ),
        forall|e: (Role, HNode)| #[trigger]
            g1.nodes[i].preds.contains(e) && owed(w, g1, e.1, HNode(i as u32)) ==> w.i.role(
                e.0,
                h[e.1.at()],
                h[i],
            ),
{
    assert forall|e: (Role, HNode)| #[trigger]
        g1.nodes[i].edges.contains(e) && owed(w, g1, HNode(i as u32), e.1) implies w.i.role(
        e.0,
        h[i],
        h[e.1.at()],
    ) by {
        lemma_edge_valid(g, i, e);
        assert(g.valid(HNode(i as u32)));
        assert(alive(w, g1, HNode(i as u32)));
        assert(reached(w, g, e.1));
        assert(owed(w, g, HNode(i as u32), e.1));
        assert(g.nodes[i].edges.contains(e));
    }
    assert forall|e: (Role, HNode)| #[trigger]
        g1.nodes[i].preds.contains(e) && owed(w, g1, e.1, HNode(i as u32)) implies w.i.role(
        e.0,
        h[e.1.at()],
        h[i],
    ) by {
        assert(g.valid(HNode(i as u32)));
        lemma_edge_valid(g, i, e);
        assert(alive(w, g1, e.1));
        assert(reached(w, g, HNode(i as u32)));
        assert(owed(w, g, e.1, HNode(i as u32)));
        assert(g.nodes[i].preds.contains(e));
    }
}

/// Widening a label's dependencies changes nothing else.
pub proof fn lemma_widened(v: NodeView, c: ClassId, extra: DepSet)
    requires
        v.wf(),
    ensures
        v.widened(c, extra).wf(),
        forall|d: ClassId| #[trigger] v.widened(c, extra).has(d) <==> v.has(d),
        forall|d: ClassId|
            #![trigger v.widened(c, extra).deps_of(d)]
            v.widened(c, extra).deps_of(d) == if d == c && v.has(c) {
                v.deps_of(d).joined(extra)
            } else {
                v.deps_of(d)
            },
{
    lemma_slot_splits(v.labels, c);
    let u = v.widened(c, extra);
    assert forall|d: ClassId| #![trigger u.deps_of(d)]
        u.deps_of(d) == if d == c && v.has(c) {
            v.deps_of(d).joined(extra)
        } else {
            v.deps_of(d)
        } by {
        lemma_slot_splits(v.labels, d);
    }
}

pub proof fn lemma_true_widened<D>(w: World<D>, g: Graph, h: Seq<D>, n: HNode, c: ClassId, extra: DepSet)
    requires
        g.wf(),
        g.valid(n),
        true_in(w, g, h),
    ensures
        true_in(w, g.with(n, g.at(n).widened(c, extra)), h),
{
    let v = g.at(n);
    assert(g.node_wf(g.nodes[n.at()], n.at()));
    lemma_widened(v, c, extra);
    let u = v.widened(c, extra);
    let g1 = g.with(n, u);
    assert(node_true(w, g, h, n.at()));
    lemma_joined(w, v.deps_of(c), extra);
    lemma_owed_later(w, g, n, u);
    lemma_node_edges_kept(w, g, g1, h, n.at());
    lemma_true_with(w, g, h, n, u);
}

pub proof fn lemma_true_birth<D>(w: World<D>, g: Graph, h: Seq<D>, n: HNode, deps: DepSet)
    requires
        g.wf(),
        g.valid(n),
        true_in(w, g, h),
    ensures
        true_in(w, g.with(n, widened_birth(g.at(n), deps)), h),
{
    let v = g.at(n);
    let u = widened_birth(v, deps);
    let g1 = g.with(n, u);
    lemma_joined(w, v.birth_deps, deps);
    assert(node_true(w, g, h, n.at()));
    lemma_owed_later(w, g, n, u);
    lemma_node_edges_kept(w, g, g1, h, n.at());
    assert forall|c: ClassId| #[trigger] u.has(c) implies v.has(c) && u.deps_of(c) == v.deps_of(c) by {}
    assert(node_true(w, g1, h, n.at()));
    lemma_true_with(w, g, h, n, u);
}

/// An edge that is true if it is owed.
pub proof fn lemma_true_edge<D>(w: World<D>, g: Graph, h: Seq<D>, a: HNode, r: Role, b: HNode)
    requires
        g.wf(),
        g.valid(a),
        g.valid(b),
        true_in(w, g, h),
        owed(w, g, a, b) ==> w.i.role(r, h[a.at()], h[b.at()]),
    ensures
        true_in(w, edge_in(g, a, r, b), h),
{
    let v = g.at(a).with_edge(r, b);
    let g1 = g.with(a, v);
    lemma_push_contains(g.at(a).edges, (r, b));
    assert(node_true(w, g, h, a.at()));
    lemma_owed_later(w, g, a, v);
    lemma_owed_same(w, g, a, v);
    assert forall|c: ClassId| #[trigger] v.has(c) implies g.at(a).has(c) && v.deps_of(c) == g.at(
        a,
    ).deps_of(c) by {}
    assert(node_true(w, g1, h, a.at())) by {
        assert(HNode(a.at() as u32) == a);
        assert forall|e: (Role, HNode)| #[trigger] v.edges.contains(e) && owed(w, g1, HNode(a.at() as u32), e.1) implies w.i.role(
            e.0,
            h[a.at()],
            h[e.1.at()],
        ) by {
            if e != (r, b) {
                lemma_edge_valid(g, a.at(), e);
                assert(owed(w, g, a, e.1));
                assert(g.at(a).edges.contains(e));
            } else {
                assert(owed(w, g, a, b));
            }
        }
        assert(HNode(a.at() as u32) == a);
        assert forall|e: (Role, HNode)| #[trigger]
            v.preds.contains(e) && owed(w, g1, e.1, HNode(a.at() as u32)) implies w.i.role(
            e.0,
            h[e.1.at()],
            h[a.at()],
        ) by {
            lemma_edge_valid(g, a.at(), e);
            assert(owed(w, g, e.1, a));
            assert(g.at(a).preds.contains(e));
        }
    }
    lemma_with_edge_wf(g, a, r, b);
    lemma_true_with(w, g, h, a, v);
    let u = g1.at(b).with_pred(r, a);
    let g2 = g1.with(b, u);
    lemma_push_contains(g1.at(b).preds, (r, a));
    assert(node_true(w, g1, h, b.at()));
    lemma_owed_same(w, g1, b, u);
    assert forall|c: ClassId| #[trigger] u.has(c) implies g1.at(b).has(c) && u.deps_of(c) == g1.at(
        b,
    ).deps_of(c) by {}
    assert(node_true(w, g2, h, b.at())) by {
        assert(HNode(b.at() as u32) == b);
        assert forall|e: (Role, HNode)| #[trigger] u.edges.contains(e) && owed(w, g2, HNode(b.at() as u32), e.1) implies w.i.role(
            e.0,
            h[b.at()],
            h[e.1.at()],
        ) by {
            lemma_edge_valid(g1, b.at(), e);
            assert(owed(w, g1, b, e.1));
            assert(g1.at(b).edges.contains(e));
        }
        assert forall|e: (Role, HNode)| #[trigger]
            u.preds.contains(e) && owed(w, g2, e.1, HNode(b.at() as u32)) implies w.i.role(
            e.0,
            h[e.1.at()],
            h[b.at()],
        ) by {
            if e == (r, a) {
                assert(owed(w, g, a, b));
            } else {
                lemma_edge_valid(g1, b.at(), e);
                assert(owed(w, g1, e.1, b));
            }
            if e != (r, a) {
                assert(g1.at(b).preds.contains(e));
            }
        }
    }
    lemma_true_with(w, g1, h, b, u);
}

pub proof fn lemma_with_edge_wf(g: Graph, a: HNode, r: Role, b: HNode)
    requires
        g.wf(),
        g.valid(a),
        g.valid(b),
    ensures
        g.with(a, g.at(a).with_edge(r, b)).wf(),
{
    assert(g.node_wf(g.nodes[a.at()], a.at()));
    lemma_push_contains(g.at(a).edges, (r, b));
    lemma_with(g, a, g.at(a).with_edge(r, b));
}

/// Nothing is claimed of a new node.
pub proof fn lemma_true_extended<D>(w: World<D>, g: Graph, h: Seq<D>, e: D)
    requires
        g.wf(),
        g.room(1),
        true_in(w, g, h),
        w.i.within(e),
    ensures
        true_in(w, extended(g), h.push(e)),
{
    lemma_extended(g);
    lemma_empty(w);
    let g1 = extended(g);
    let h1 = h.push(e);
    let n = g.nodes.len() as int;
    assert forall|m: HNode| g.valid(m) implies #[trigger] alive(w, g1, m) == alive(w, g, m) by {
        assert(g1.nodes[m.at()] == g.nodes[m.at()]);
    }
    assert forall|m: HNode| g.valid(m) implies #[trigger] reached(w, g1, m) == reached(w, g, m) by {
        assert(g1.nodes[m.at()] == g.nodes[m.at()]);
        assert(g.root[m.at()].at() < g.root.len());
        assert(alive(w, g1, g.rep(m)) == alive(w, g, g.rep(m)));
    }
    assert forall|i: int| 0 <= i < h1.len() implies h1[i] == h1[(#[trigger] g1.root[i]).at()]
        || !alive(w, g1, g1.root[i]) by {
        if i < n {
            assert(g.root[i].at() < g.root.len());
            assert(h[i] == h[g.root[i].at()] || !alive(w, g, g.root[i]));
        }
    }
    assert forall|i: int| 0 <= i < g1.nodes.len() implies #[trigger] node_true(w, g1, h1, i) by {
        if i < n {
            assert(node_true(w, g, h, i));
            assert(g1.nodes[i] == g.nodes[i]);
            assert forall|ed: (Role, HNode)| #[trigger]
                g1.nodes[i].edges.contains(ed) && owed(w, g1, HNode(i as u32), ed.1) implies w.i.role(
                ed.0,
                h1[i],
                h1[ed.1.at()],
            ) by {
                lemma_edge_valid(g, i, ed);
                assert(g.valid(HNode(i as u32)));
                assert(owed(w, g, HNode(i as u32), ed.1));
                assert(g.nodes[i].edges.contains(ed));
            }
            assert forall|ed: (Role, HNode)| #[trigger]
                g1.nodes[i].preds.contains(ed) && owed(w, g1, ed.1, HNode(i as u32)) implies w.i.role(
                ed.0,
                h1[ed.1.at()],
                h1[i],
            ) by {
                lemma_edge_valid(g, i, ed);
                assert(owed(w, g, ed.1, HNode(i as u32)));
                assert(g.nodes[i].preds.contains(ed));
            }
        }
    }
    if w.full() {
        assert forall|p: int| 0 <= p < g1.neq.len() implies h1[(#[trigger] g1.neq[p]).0.at()]
            != h1[g1.neq[p].1.at()] by {
            assert(g.valid(g.neq[p].0));
            assert(h[g.neq[p].0.at()] != h[g.neq[p].1.at()]);
        }
    }
}

/// No edge leads to the node.
spec fn untargeted(g: Graph, n: HNode) -> bool {
    forall|i: int, e: (Role, HNode)|
        0 <= i < g.nodes.len() && #[trigger] g.nodes[i].edges.contains(e) ==> e.1 != n
}

/// A node that nothing leads to may be made to depend on anything.
proof fn lemma_true_generated<D>(
    w: World<D>,
    g: Graph,
    h: Seq<D>,
    n: HNode,
    x: HNode,
    role: Role,
    deps: DepSet,
)
    requires
        g.wf(),
        g.valid(n),
        untargeted(g, n),
        g.at(n).preds.len() == 0,
        !g.at(n).nn_tainted,
        true_in(w, g, h),
    ensures
        true_in(w, g.with(n, generated(g.at(n), x, role, deps)), h),
{
    let v = generated(g.at(n), x, role, deps);
    let g1 = g.with(n, v);
    assert forall|m: HNode| g.valid(m) implies #[trigger] alive(w, g1, m) == alive(w, g, m) by {}
    assert forall|m: HNode| g.valid(m) && m != n implies #[trigger] reached(w, g1, m) == reached(
        w,
        g,
        m,
    ) by {
        assert(g.root[m.at()].at() < g.root.len());
        assert(alive(w, g1, g.rep(m)) == alive(w, g, g.rep(m)));
    }
    assert forall|i: int| 0 <= i < h.len() implies h[i] == h[(#[trigger] g1.root[i]).at()]
        || !alive(w, g1, g1.root[i]) by {
        assert(g.root[i].at() < g.root.len());
        assert(h[i] == h[g.root[i].at()] || !alive(w, g, g.root[i]));
    }
    assert forall|i: int| 0 <= i < g1.nodes.len() implies #[trigger] node_true(w, g1, h, i) by {
        assert(node_true(w, g, h, i));
        assert(g1.nodes[i].edges == g.nodes[i].edges);
        assert(g1.nodes[i].preds == g.nodes[i].preds);
        assert forall|c: ClassId| #[trigger] g1.nodes[i].has(c) implies g.nodes[i].has(c)
            && g1.nodes[i].deps_of(c) == g.nodes[i].deps_of(c) by {}
        assert forall|e: (Role, HNode)| #[trigger]
            g1.nodes[i].edges.contains(e) && owed(w, g1, HNode(i as u32), e.1) implies w.i.role(
            e.0,
            h[i],
            h[e.1.at()],
        ) by {
            assert(g.nodes[i].edges.contains(e));
            assert(e.1 != n);
            lemma_edge_valid(g, i, e);
            assert(g.valid(HNode(i as u32)));
            assert(owed(w, g, HNode(i as u32), e.1));
        }
        assert forall|e: (Role, HNode)| #[trigger]
            g1.nodes[i].preds.contains(e) && owed(w, g1, e.1, HNode(i as u32)) implies w.i.role(
            e.0,
            h[e.1.at()],
            h[i],
        ) by {
            assert(g.nodes[i].preds.contains(e));
            assert(i != n.at());
            lemma_edge_valid(g, i, e);
            assert(owed(w, g, e.1, HNode(i as u32)));
        }
        assert forall|c: Card| #[trigger]
            g1.nodes[i].at_most.contains(c) && bounded(w, g1.nodes[i]) implies w.i.at_most(
            c.0,
            c.1,
            c.2,
            h[i],
        ) by {
            assert(g.nodes[i].at_most.contains(c));
        }
    }
}

/// A truth about nodes is not about how they are filed.
proof fn lemma_true_same_nodes<D>(w: World<D>, g: Graph, g1: Graph, h: Seq<D>)
    requires
        true_in(w, g, h),
        g1.nodes == g.nodes,
        g1.root == g.root,
        w.full() ==> forall|p: int|
            0 <= p < g1.neq.len() ==> h[(#[trigger] g1.neq[p]).0.at()] != h[g1.neq[p].1.at()],
    ensures
        true_in(w, g1, h),
{
    assert forall|m: HNode| #[trigger] alive(w, g1, m) == alive(w, g, m) by {}
    assert forall|i: int| 0 <= i < h.len() implies h[i] == h[(#[trigger] g1.root[i]).at()]
        || !alive(w, g1, g1.root[i]) by {
        assert(h[i] == h[g.root[i].at()] || !alive(w, g, g.root[i]));
    }
    assert forall|i: int| 0 <= i < g1.nodes.len() implies #[trigger] node_true(w, g1, h, i) by {
        assert(node_true(w, g, h, i));
        assert forall|e: (Role, HNode)| #[trigger]
            g1.nodes[i].edges.contains(e) && owed(w, g1, HNode(i as u32), e.1) implies w.i.role(
            e.0,
            h[i],
            h[e.1.at()],
        ) by {
            assert(owed(w, g, HNode(i as u32), e.1));
            assert(g.nodes[i].edges.contains(e));
        }
        assert forall|e: (Role, HNode)| #[trigger]
            g1.nodes[i].preds.contains(e) && owed(w, g1, e.1, HNode(i as u32)) implies w.i.role(
            e.0,
            h[e.1.at()],
            h[i],
        ) by {
            assert(owed(w, g, e.1, HNode(i as u32)));
            assert(g.nodes[i].preds.contains(e));
        }
    }
}

/// A new successor that stands for an element which is one, if what it
/// depends on is true.
pub proof fn lemma_true_sprouted<D>(
    w: World<D>,
    k: Config,
    s: State,
    h: Seq<D>,
    x: HNode,
    role: Role,
    qual: Option<ClassId>,
    deps: DepSet,
    e: D,
)
    requires
        s.wf(),
        s.g.valid(x),
        s.g.room(1),
        true_in(w, s.g, h),
        w.i.within(e),
        w.active(deps) ==> (qual matches Some(q) ==> w.i.in_class(q, e)) && (alive(w, s.g, x)
            ==> w.i.role(role, h[x.at()], e)),
    ensures
        true_in(w, sprouted(k, s, x, role, qual, deps).g, h.push(e)),
{
    let n = next_node(s.g);
    let h1 = h.push(e);
    lemma_extended(s.g);
    lemma_grown(k, s);
    lemma_true_extended(w, s.g, h, e);
    let s1 = grown(k, s);
    let g1 = s1.g;
    assert(untargeted(g1, n)) by {
        assert forall|i: int, ed: (Role, HNode)|
            0 <= i < g1.nodes.len() && #[trigger] g1.nodes[i].edges.contains(ed) implies ed.1 != n by {
            if i < s.g.nodes.len() {
                lemma_edge_valid(s.g, i, ed);
            }
        }
    }
    lemma_true_generated(w, g1, h1, n, x, role, deps);
    let v = generated(g1.at(n), x, role, deps);
    lemma_with(g1, n, v);
    let g2 = g1.with(n, v);
    lemma_filed_in(g2, role, n);
    let g3 = filed_in(g2, role, n);
    lemma_true_same_nodes(w, g2, g3, h1);
    assert(g3.rep(n) == n);
    assert(g3.at(n).birth_deps == deps);
    assert(g3.nodes[x.at()] == s.g.nodes[x.at()]);
    assert(alive(w, g3, x) == alive(w, s.g, x));
    lemma_true_edge(w, g3, h1, x, role, n);
    lemma_edge_in(g3, x, role, n);
    let g4 = edge_in(g3, x, role, n);
    let s2 = State { g: g4, work: s1.work.push(Event::Edge(x, role, n)), ..s1 };
    if let Some(q) = qual {
        lemma_work_grows(s1.g, g4, s1.work);
        crate::rules_wf::lemma_work_push(g4, s1.work, Event::Edge(x, role, n));
        lemma_true_labelled(w, s2, h1, n, q, deps);
    }
}

pub proof fn lemma_true_at_most<D>(
    w: World<D>,
    s: State,
    h: Seq<D>,
    t: HNode,
    c: Card,
    deps: DepSet,
)
    requires
        s.wf(),
        s.g.valid(t),
        true_in(w, s.g, h),
        w.active(deps) ==> w.i.at_most(c.0, c.1, c.2, h[t.at()]),
    ensures
        true_in(w, at_most_added(s, t, c, deps).0.g, h),
{
    let g = s.g;
    let v = g.at(t);
    if !v.at_most.contains(c) {
        let u = NodeView {
            at_most: v.at_most.push(c),
            at_most_dep: v.at_most_dep.joined(deps),
            ..v
        };
        let g1 = g.with(t, u);
        lemma_joined(w, v.at_most_dep, deps);
        lemma_push_contains(v.at_most, c);
        assert(node_true(w, g, h, t.at()));
        lemma_owed_later(w, g, t, u);
        assert forall|c: ClassId| #[trigger] u.has(c) implies v.has(c) && u.deps_of(c) == v.deps_of(c) by {}
        lemma_node_edges_kept(w, g, g1, h, t.at());
        assert(node_true(w, g1, h, t.at()));
        lemma_true_with(w, g, h, t, u);
    }
}

/// A derived edge.
pub proof fn lemma_true_derived<D>(
    w: World<D>,
    s: State,
    h: Seq<D>,
    role: Role,
    src: HNode,
    tgt: HNode,
    deps: DepSet,
)
    requires
        s.wf(),
        s.g.valid(src),
        s.g.valid(tgt),
        true_in(w, s.g, h),
        w.buried is None,
        w.active(deps) ==> w.i.role(role, h[src.at()], h[tgt.at()]),
    ensures
        true_in(w, edge_derived(s, role, src, tgt, deps).0.g, h),
{
    let g = s.g;
    let (from, r, to) = stored_edge(g, role, src, tgt);
    assert(g.root[src.at()].at() < g.root.len());
    assert(g.root[tgt.at()].at() < g.root.len());
    assert(h[src.at()] == h[g.root[src.at()].at()] || !alive(w, g, g.root[src.at()]));
    assert(h[tgt.at()] == h[g.root[tgt.at()].at()] || !alive(w, g, g.root[tgt.at()]));
    assert(g.root[to.at()] == to);
    if !g.at(from).edges.contains((r, to)) {
        lemma_role_flipped(w.i, role, h[src.at()], h[tgt.at()]);
        let a1 = g.with(from, widened_birth(g.at(from), deps));
        lemma_true_birth(w, g, h, from, deps);
        lemma_birth_wf(g, from, deps);
        let a2 = a1.with(to, widened_birth(a1.at(to), deps));
        lemma_true_birth(w, a1, h, to, deps);
        lemma_birth_wf(a1, to, deps);
        assert(node_true(w, a1, h, to.at()));
        lemma_joined(w, a1.at(to).birth_deps, deps);
        lemma_joined(w, g.at(to).birth_deps, deps);
        assert(owed(w, a2, from, to) ==> w.i.role(r, h[from.at()], h[to.at()])) by {
            lemma_joined(w, g.at(from).birth_deps, deps);
            lemma_joined(w, a1.at(from).birth_deps, deps);
            assert(a2.at(from).nn_tainted == g.at(from).nn_tainted);
            assert(alive(w, a2, from) ==> alive(w, g, from));
            assert(a2.rep(to) == to);
        }
        lemma_true_edge(w, a2, h, from, r, to);
        let b1 = edge_in(g, from, r, to);
        let b2 = b1.with(from, widened_birth(b1.at(from), deps));
        let b3 = b2.with(to, widened_birth(b2.at(to), deps));
        let a3 = edge_in(a2, from, r, to);
        assert(a3.nodes =~= b3.nodes) by {
            assert forall|i: int| 0 <= i < g.nodes.len() implies a3.nodes[i] == b3.nodes[i] by {
                assert(a3.nodes[i] =~= b3.nodes[i]);
            }
        }
        assert(a3 == b3);
    }
}

proof fn lemma_birth_wf(g: Graph, n: HNode, deps: DepSet)
    requires
        g.wf(),
        g.valid(n),
    ensures
        g.with(n, widened_birth(g.at(n), deps)).wf(),
{
    assert(g.node_wf(g.nodes[n.at()], n.at()));
    lemma_with(g, n, widened_birth(g.at(n), deps));
}

pub proof fn lemma_true_apart<D>(w: World<D>, g: Graph, h: Seq<D>, a: HNode, b: HNode)
    requires
        g.wf(),
        g.valid(a),
        g.valid(b),
        true_in(w, g, h),
        w.buried is None,
        w.full() ==> h[a.at()] != h[b.at()],
    ensures
        true_in(w, kept_apart(g, a, b), h),
{
    let g1 = kept_apart(g, a, b);
    if w.full() {
        lemma_alive(w, g, g.root[a.at()]);
        lemma_alive(w, g, g.root[b.at()]);
        assert(h[a.at()] == h[g.root[a.at()].at()]);
        assert(h[b.at()] == h[g.root[b.at()].at()]);
        assert forall|p: int| 0 <= p < g1.neq.len() implies h[(#[trigger] g1.neq[p]).0.at()]
            != h[g1.neq[p].1.at()] by {
            if p < g.neq.len() {
                assert(h[g.neq[p].0.at()] != h[g.neq[p].1.at()]);
            }
        }
    }
    lemma_true_same_nodes(w, g, g1, h);
}

pub proof fn lemma_true_all_apart<D>(
    w: World<D>,
    g: Graph,
    h: Seq<D>,
    fresh: Seq<HNode>,
    i: int,
    j: int,
)
    requires
        g.wf(),
        0 <= i < j,
        forall|q: int| 0 <= q < fresh.len() ==> g.valid(#[trigger] fresh[q]),
        true_in(w, g, h),
        w.buried is None,
        w.full() ==> forall|p: int, q: int|
            0 <= p < q < fresh.len() ==> h[(#[trigger] fresh[p]).at()] != h[(
            #[trigger] fresh[q]).at()],
    ensures
        true_in(w, all_apart_from(g, fresh, i, j), h),
    decreases fresh.len() - i, fresh.len() - j,
{
    if i < fresh.len() {
        if j >= fresh.len() {
            lemma_true_all_apart(w, g, h, fresh, i + 1, i + 2);
        } else {
            let g1 = kept_apart(g, fresh[i], fresh[j]);
            assert(g.valid(fresh[i]) && g.valid(fresh[j]));
            lemma_true_apart(w, g, h, fresh[i], fresh[j]);
            lemma_kept_apart(g, fresh[i], fresh[j]);
            lemma_true_all_apart(w, g1, h, fresh, i, j + 1);
        }
    }
}

/// A node that gets successors stays as alive as it was.
proof fn lemma_sprouts_alive<D>(
    w: World<D>,
    k: Config,
    s: State,
    x: HNode,
    role: Role,
    qual: Option<ClassId>,
    deps: DepSet,
    n: nat,
)
    requires
        s.wf(),
        s.g.valid(x),
        s.g.room(n as int),
    ensures
        alive(w, sprouts(k, s, x, role, qual, deps, n).0.g, x) == alive(w, s.g, x),
    decreases n,
{
    if n > 0 {
        let m = (n - 1) as nat;
        lemma_sprouts_alive(w, k, s, x, role, qual, deps, m);
        lemma_sprouts(k, s, x, role, qual, deps, m);
        let s1 = sprouts(k, s, x, role, qual, deps, m).0;
        lemma_extended(s1.g);
        let s2 = sprouted(k, s1, x, role, qual, deps);
        assert(s2.g.at(x).nn_tainted == s1.g.at(x).nn_tainted);
        assert(s2.g.at(x).birth_deps == s1.g.at(x).birth_deps);
    }
}

/// New successors that stand for the elements `es`.
pub proof fn lemma_true_sprouts<D>(
    w: World<D>,
    k: Config,
    s: State,
    h: Seq<D>,
    x: HNode,
    role: Role,
    qual: Option<ClassId>,
    deps: DepSet,
    n: nat,
    es: Seq<D>,
)
    requires
        s.wf(),
        s.g.valid(x),
        s.g.room(n as int),
        true_in(w, s.g, h),
        n <= es.len(),
        forall|i: int| 0 <= i < es.len() ==> w.i.within(#[trigger] es[i]),
        w.active(deps) ==> forall|i: int|
            0 <= i < es.len() ==> (qual matches Some(q) ==> w.i.in_class(q, #[trigger] es[i])) && (
            alive(w, s.g, x) ==> w.i.role(role, h[x.at()], es[i])),
    ensures
        true_in(w, sprouts(k, s, x, role, qual, deps, n).0.g, h + es.take(n as int)),
    decreases n,
{
    if n == 0 {
        assert(h + es.take(0) =~= h);
    } else {
        let m = (n - 1) as nat;
        lemma_true_sprouts(w, k, s, h, x, role, qual, deps, m, es);
        lemma_sprouts(k, s, x, role, qual, deps, m);
        let (s1, fresh) = sprouts(k, s, x, role, qual, deps, m);
        let h1 = h + es.take(m as int);
        assert(h1[x.at()] == h[x.at()]);
        lemma_sprouts_alive(w, k, s, x, role, qual, deps, m);
        lemma_true_sprouted(w, k, s1, h1, x, role, qual, deps, es[m as int]);
        assert(h1.push(es[m as int]) =~= h + es.take(n as int));
    }
}

/// The graph is true for some choice of elements.
pub open spec fn consistent<D>(w: World<D>, g: Graph) -> bool {
    exists|h: Seq<D>| true_in(w, g, h)
}

/// What truth is about is the same for both.
pub open spec fn alike(u: NodeView, v: NodeView) -> bool {
    &&& u.labels == v.labels
    &&& u.label_deps == v.label_deps
    &&& u.edges == v.edges
    &&& u.preds == v.preds
    &&& u.at_most == v.at_most
    &&& u.at_most_dep == v.at_most_dep
    &&& u.at_most_tainted == v.at_most_tainted
    &&& u.birth_deps == v.birth_deps
    &&& u.nn_tainted == v.nn_tainted
}

pub proof fn lemma_true_alike<D>(w: World<D>, g: Graph, h: Seq<D>, n: HNode, u: NodeView)
    requires
        g.wf(),
        g.valid(n),
        true_in(w, g, h),
        alike(u, g.at(n)),
    ensures
        true_in(w, g.with(n, u), h),
{
    let v = g.at(n);
    let g1 = g.with(n, u);
    assert(node_true(w, g, h, n.at()));
    lemma_owed_later(w, g, n, u);
    assert forall|c: ClassId| #[trigger] u.has(c) implies v.has(c) && u.deps_of(c) == v.deps_of(c) by {}
    lemma_node_edges_kept(w, g, g1, h, n.at());
    assert forall|c: Card| #[trigger] u.at_most.contains(c) implies v.at_most.contains(c) by {}
    assert(node_true(w, g1, h, n.at()));
    lemma_true_with(w, g, h, n, u);
}

pub proof fn lemma_true_exists<D>(
    w: World<D>,
    k: Config,
    s: State,
    h: Seq<D>,
    src: HNode,
    role: Role,
    cls: ClassId,
    deps: DepSet,
)
    requires
        s.wf(),
        s.g.valid(src),
        true_in(w, s.g, h),
        w.active(deps) ==> w.i.some(role, cls, h[src.at()]),
    ensures
        consistent(w, exists_fired(k, s, src, role, cls, deps).0.g),
        exists_fired(k, s, src, role, cls, deps).1 !is Clash,
{
    let out = exists_fired(k, s, src, role, cls, deps).0;
    let s1 = check_blocked(k, s, src).0;
    if out.g == s.g {
        assert(true_in(w, out.g, h));
    } else {
        let e = if w.active(deps) {
            choose|b: D|
                w.i.within(b) && #[trigger] w.i.role(role, h[src.at()], b) && w.i.in_class(cls, b)
        } else {
            h[src.at()]
        };
        lemma_true_sprouted(w, k, s1, h, src, role, Some(cls), deps, e);
        assert(true_in(w, out.g, h.push(e)));
    }
}

pub proof fn lemma_true_at_least<D>(
    w: World<D>,
    k: Config,
    s: State,
    h: Seq<D>,
    x0: HNode,
    role: Role,
    qual: Option<ClassId>,
    n: u32,
    deps: DepSet,
)
    requires
        s.wf(),
        s.g.valid(x0),
        true_in(w, s.g, h),
        w.buried is None,
        w.active(deps) ==> w.i.at_least(role, qual, n, h[x0.at()]),
    ensures
        consistent(w, at_least_fired(k, s, x0, role, qual, n, deps).0.g),
        at_least_fired(k, s, x0, role, qual, n, deps).1 !is Clash,
{
    let x = s.g.rep(x0);
    assert(s.g.root[x0.at()].at() < s.g.root.len());
    assert(h[x0.at()] == h[s.g.root[x0.at()].at()] || !alive(w, s.g, x));
    let (out, o) = at_least_fired(k, s, x0, role, qual, n, deps);
    let s1 = check_blocked(k, s, x).0;
    if !(o is Changed) {
        assert(out.g == s.g);
        assert(true_in(w, out.g, h));
    } else {
        let v = s1.g.at(x);
        let done = NodeView { at_least_done: v.at_least_done.push((role, qual, n)), ..v };
        assert(s1.g.node_wf(s1.g.nodes[x.at()], x.at()));
        lemma_with(s1.g, x, done);
        lemma_true_alike(w, s1.g, h, x, done);
        let s2 = State { g: s1.g.with(x, done), ..s1 };
        lemma_work_grows(s1.g, s2.g, s1.work);
        let es = if w.active(deps) {
            choose|es: Seq<D>| #[trigger]
                w.i.counted(role, qual, h[x0.at()], es) && es.len() == n
        } else {
            Seq::new(n as nat, |i: int| h[x.at()])
        };
        assert forall|i: int| 0 <= i < es.len() implies w.i.within(#[trigger] es[i]) by {
            if w.active(deps) {
                assert(w.i.counts(role, qual, h[x0.at()], es[i]));
                assert(w.i.within(es[i]));
            } else {
                assert(es[i] == h[x.at()]);
            }
        }
        assert(alive(w, s2.g, x) == alive(w, s.g, x));
        if w.active(deps) {
            assert forall|i: int| 0 <= i < es.len() implies (qual matches Some(q) ==> w.i.in_class(
                q,
                #[trigger] es[i],
            )) && (alive(w, s2.g, x) ==> w.i.role(role, h[x.at()], es[i])) by {
                assert(w.i.counts(role, qual, h[x0.at()], es[i]));
            }
        }
        lemma_true_sprouts(w, k, s2, h, x, role, qual, deps, n as nat, es);
        lemma_sprouts(k, s2, x, role, qual, deps, n as nat);
        let (s3, fresh) = sprouts(k, s2, x, role, qual, deps, n as nat);
        let h1 = h + es.take(n as int);
        assert forall|q: int| 0 <= q < fresh.len() implies s3.g.valid(#[trigger] fresh[q]) by {}
        if w.full() {
            lemma_full_active(w, deps);
            assert forall|p: int, q: int| 0 <= p < q < fresh.len() implies h1[(
            #[trigger] fresh[p]).at()] != h1[(#[trigger] fresh[q]).at()] by {
                assert(h1[fresh[p].at()] == es[p]);
                assert(h1[fresh[q].at()] == es[q]);
                assert(es.no_duplicates());
            }
        }
        lemma_true_all_apart(w, s3.g, h1, fresh, 0, 1);
        assert(true_in(w, out.g, h1));
    }
}

/// A head atom that is true if what it depends on is.
pub proof fn lemma_true_atom<D>(
    w: World<D>,
    k: Config,
    s: State,
    h: Seq<D>,
    head: Atom,
    x: HNode,
    b: Seq<(Var, HNode)>,
    deps: DepSet,
)
    requires
        s.wf(),
        s.g.valid(x),
        binding_valid(b, s.g.nodes.len() as int),
        true_in(w, s.g, h),
        w.buried is None,
        w.active(deps) ==> w.i.atom(head, values(h, x, b)),
    ensures
        consistent(w, atom_asserted(k, s, head, x, b, deps).0.g),
        atom_asserted(k, s, head, x, b, deps).1 !is Clash,
{
    let n = s.g.nodes.len() as int;
    let out = atom_asserted(k, s, head, x, b, deps).0;
    match head {
        Atom::Class(c, v) => {
            lemma_var_node_valid(v, x, b, n);
            if let Some(t) = var_node(v, x, b) {
                lemma_true_labelled(w, s, h, t, c, deps);
            }
            assert(true_in(w, out.g, h));
        },
        Atom::Exists(role, cls, v) => {
            lemma_var_node_valid(v, x, b, n);
            if let Some(t) = var_node(v, x, b) {
                lemma_true_exists(w, k, s, h, t, role, cls, deps);
            } else {
                assert(true_in(w, out.g, h));
            }
        },
        Atom::AtMost(role, qual, m, v) => {
            lemma_var_node_valid(v, x, b, n);
            if let Some(t) = var_node(v, x, b) {
                lemma_true_at_most(w, s, h, t, (role, qual, m), deps);
            }
            assert(true_in(w, out.g, h));
        },
        Atom::AtLeast(role, qual, m, v) => {
            lemma_var_node_valid(v, x, b, n);
            if let Some(t) = var_node(v, x, b) {
                lemma_true_at_least(w, k, s, h, t, role, qual, m, deps);
            } else {
                assert(true_in(w, out.g, h));
            }
        },
        Atom::Role(role, u, v) => {
            lemma_var_node_valid(u, x, b, n);
            lemma_var_node_valid(v, x, b, n);
            if let (Some(src), Some(tgt)) = (var_node(u, x, b), var_node(v, x, b)) {
                lemma_true_derived(w, s, h, role, src, tgt, deps);
            }
            assert(true_in(w, out.g, h));
        },
        Atom::Equal(u, v) => {
            assert(true_in(w, out.g, h));
        },
    }
}

/// A clash rests on something that is not true.
pub open spec fn refuted<D>(w: World<D>, clash: DepSet) -> bool {
    !w.active(clash)
}

/// What came of a rule: the graph is still true, and a clash is refuted.
pub open spec fn stays_true<D>(w: World<D>, out: (State, FireOutcome)) -> bool {
    &&& consistent(w, out.0.g)
    &&& out.1 is Clash ==> refuted(w, out.0.clash)
}

/// Firing the head of a true Horn clause whose body matches.
pub proof fn lemma_true_head<D>(
    w: World<D>,
    k: Config,
    s: State,
    h: Seq<D>,
    ci: int,
    x: HNode,
    b: Seq<(Var, HNode)>,
)
    requires
        s.wf(),
        s.g.valid(x),
        binding_valid(b, s.g.nodes.len() as int),
        true_in(w, s.g, h),
        w.buried is None,
        w.i.models(k),
        0 <= ci < k.clauses.len(),
        k.clauses[ci].horn(),
        crate::match_laws::body_holds(s.g.nodes, k.roles, k.clauses[ci].body, x, b),
    ensures
        stays_true(
            w,
            head_fired(
                k,
                s,
                k.clauses[ci].head,
                x,
                b,
                body_deps(s.g, k.clauses[ci].body, x, b),
            ),
        ),
{
    let cl = k.clauses[ci];
    let deps = body_deps(s.g, cl.body, x, b);
    lemma_body_deps(w, s.g, h, cl.body, x, b);
    lemma_empty(w);
    let v = values(h, x, b);
    lemma_values_within(w, s.g, h, x, b);
    assert(w.i.clause(cl));
    if w.active(deps) {
        lemma_body_true(w, k, s.g, h, cl.body, x, b);
        assert(w.i.any(cl.head, v));
    }
    if cl.head.len() == 0 {
        assert(!w.active(deps));
        if w.full() {
            lemma_full_active(w, deps);
        }
        assert(true_in(w, head_fired(k, s, cl.head, x, b, deps).0.g, h));
    } else {
        lemma_true_atom(w, k, s, h, cl.head[0], x, b, deps);
    }
}

} // verus!
