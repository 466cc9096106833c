//! The rules keep states well formed, and keep what the graph holds.

use vstd::prelude::*;
use crate::clause::{Atom, HierarchyView, Var};
use crate::dep_set::DepSet;
use crate::engine::lemma_graph_table;
use crate::graph::{
    event_valid, grows, lemma_grows_trans, node_grows, work_wf, Config, Event, Graph, SearchStats,
    State,
};
use crate::ids::{ClassId, HNode, Role};
use crate::matching::{
    binding_valid, lemma_targets_valid, lemma_var_node_valid, matches_from, matches_of,
    matches_over, place, plan_of, sort_binding, table_wf, targets, var_node, PlanView,
};
use crate::node::{lemma_slot_splits, lemma_with_label, Card, NodeView};
use crate::queries::body_deps;
use crate::rules::{
    all_apart_from, at_least_fired, at_most_added, atom_asserted, bearer_from, bindings_fired,
    clause_fired, constraints_merged, edge_derived, edge_in, edges_copied, exists_fired, extended,
    filed_in, generated, grown, head_fired, joined_nodes, kept_apart, labelled, labels_copied,
    merged, next_node, nominal_cause, nominal_marked, nominal_merged, ordered, relinked, sprouted,
    sprouts, stored_edge, widened_birth,
};
use crate::union_find::{lemma_linked_canonical, linked};

verus! {

/// From `s0` to `s1` nothing got lost, `s1` is well formed, and the last
/// answer is the same.
pub open spec fn advances(s0: State, s1: State) -> bool {
    s1.wf() && grows(s0.g, s1.g) && s1.verdict == s0.verdict
}

pub proof fn lemma_advances_trans(a: State, b: State, c: State)
    requires
        advances(a, b),
        advances(b, c),
    ensures
        advances(a, c),
{
    lemma_grows_trans(a.g, b.g, c.g);
}

/// Events stay valid when the graph grows.
pub proof fn lemma_work_grows(g0: Graph, g1: Graph, work: Seq<Event>)
    requires
        work_wf(g0, work),
        grows(g0, g1),
    ensures
        work_wf(g1, work),
{
    assert forall|i: int| 0 <= i < work.len() implies event_valid(g1, #[trigger] work[i]) by {
        assert(event_valid(g0, work[i]));
        if let Event::Label(n, c) = work[i] {
            assert(node_grows(g0.nodes[n.at()], g1.nodes[n.at()]));
        }
    }
}

pub proof fn lemma_work_push(g: Graph, work: Seq<Event>, e: Event)
    requires
        work_wf(g, work),
        event_valid(g, e),
    ensures
        work_wf(g, work.push(e)),
{
}

/// Replacing a node by one that holds as much.
pub proof fn lemma_with(g: Graph, n: HNode, v: NodeView)
    requires
        g.wf(),
        g.valid(n),
        g.node_wf(v, n.at()),
        node_grows(g.at(n), v),
    ensures
        g.with(n, v).wf(),
        grows(g, g.with(n, v)),
        g.with(n, v).at(n) == v,
        g.with(n, v).nodes.len() == g.nodes.len(),
{
    let g1 = g.with(n, v);
    assert forall|i: int| 0 <= i < g1.nodes.len() implies g1.node_wf(#[trigger] g1.nodes[i], i) by {
        assert(g.node_wf(g.nodes[i], i));
    }
    assert forall|i: int| 0 <= i < g1.neq.len() implies {
        &&& g1.valid((#[trigger] g1.neq[i]).0)
        &&& g1.valid(g1.neq[i].1)
    } by {
        assert(g.valid(g.neq[i].0));
    }
    assert forall|r: Role, i: int| 0 <= i < g1.bucket(r).len() implies g1.valid(
        #[trigger] g1.bucket(r)[i],
    ) by {
        assert(g.valid(g.bucket(r)[i]));
    }
}

pub proof fn lemma_labelled(s: State, n: HNode, c: ClassId, deps: DepSet)
    requires
        s.wf(),
        s.g.valid(n),
    ensures
        advances(s, labelled(s, n, c, deps).0),
        labelled(s, n, c, deps).0.g.nodes.len() == s.g.nodes.len(),
        labelled(s, n, c, deps).0.g.root == s.g.root,
{
    let v = s.g.at(n);
    assert(s.g.node_wf(s.g.nodes[n.at()], n.at()));
    lemma_with_label(v, c, deps);
    if !v.has(c) {
        lemma_with(s.g, n, v.with_label(c, deps));
        let g1 = s.g.with(n, v.with_label(c, deps));
        lemma_work_grows(s.g, g1, s.work);
        lemma_work_push(g1, s.work, Event::Label(n, c));
    }
}

pub proof fn lemma_extended(g: Graph)
    requires
        g.wf(),
        g.room(1),
    ensures
        extended(g).wf(),
        grows(g, extended(g)),
        extended(g).valid(next_node(g)),
        next_node(g).at() == g.nodes.len(),
        extended(g).at(next_node(g)) == NodeView::blank(next_node(g).0),
        extended(g).rep(next_node(g)) == next_node(g),
{
    let g1 = extended(g);
    assert forall|i: int| 0 <= i < g1.nodes.len() implies g1.node_wf(#[trigger] g1.nodes[i], i) by {
        if i < g.nodes.len() {
            assert(g.node_wf(g.nodes[i], i));
        }
    }
    assert forall|i: int| 0 <= i < g1.neq.len() implies {
        &&& g1.valid((#[trigger] g1.neq[i]).0)
        &&& g1.valid(g1.neq[i].1)
    } by {
        assert(g.valid(g.neq[i].0));
    }
    assert forall|r: Role, i: int| 0 <= i < g1.bucket(r).len() implies g1.valid(
        #[trigger] g1.bucket(r)[i],
    ) by {
        assert(g.valid(g.bucket(r)[i]));
    }
}

pub proof fn lemma_grown(k: Config, s: State)
    requires
        s.wf(),
        s.g.room(1),
    ensures
        advances(s, grown(k, s)),
        grown(k, s).g.valid(next_node(s.g)),
{
    lemma_extended(s.g);
    lemma_work_grows(s.g, extended(s.g), s.work);
    lemma_work_push(extended(s.g), s.work, Event::NodeNew(next_node(s.g)));
}

pub proof fn lemma_push_contains<T>(s: Seq<T>, x: T)
    ensures
        forall|e: T| #[trigger] s.push(x).contains(e) <==> s.contains(e) || e == x,
{
    assert forall|e: T| #[trigger] s.push(x).contains(e) <==> s.contains(e) || e == x by {
        if s.contains(e) {
            let i = choose|i: int| 0 <= i < s.len() && s[i] == e;
            assert(s.push(x)[i] == e);
        }
        assert(s.push(x)[s.len() as int] == x);
    }
}

pub proof fn lemma_edge_in(g: Graph, a: HNode, r: Role, b: HNode)
    requires
        g.wf(),
        g.valid(a),
        g.valid(b),
    ensures
        edge_in(g, a, r, b).wf(),
        grows(g, edge_in(g, a, r, b)),
        edge_in(g, a, r, b).nodes.len() == g.nodes.len(),
        edge_in(g, a, r, b).root == g.root,
{
    let v = g.at(a).with_edge(r, b);
    assert(g.node_wf(g.nodes[a.at()], a.at()));
    lemma_push_contains(g.at(a).edges, (r, b));
    lemma_with(g, a, v);
    let g1 = g.with(a, v);
    assert(g1.node_wf(g1.nodes[b.at()], b.at()));
    let w = g1.at(b).with_pred(r, a);
    lemma_push_contains(g1.at(b).preds, (r, a));
    lemma_with(g1, b, w);
    lemma_grows_trans(g, g1, g1.with(b, w));
}

pub proof fn lemma_filed_in(g: Graph, role: Role, n: HNode)
    requires
        g.wf(),
        g.valid(n),
    ensures
        filed_in(g, role, n).wf(),
        grows(g, filed_in(g, role, n)),
        filed_in(g, role, n).nodes == g.nodes,
        filed_in(g, role, n).root == g.root,
{
    let g1 = filed_in(g, role, n);
    assert forall|i: int| 0 <= i < g1.nodes.len() implies g1.node_wf(#[trigger] g1.nodes[i], i) by {
        assert(g.node_wf(g.nodes[i], i));
    }
    assert forall|i: int| 0 <= i < g1.neq.len() implies {
        &&& g1.valid((#[trigger] g1.neq[i]).0)
        &&& g1.valid(g1.neq[i].1)
    } by {
        assert(g.valid(g.neq[i].0));
    }
    assert forall|r: Role, i: int| 0 <= i < g1.bucket(r).len() implies g1.valid(
        #[trigger] g1.bucket(r)[i],
    ) by {
        if i < g.bucket(r).len() {
            assert(g.valid(g.bucket(r)[i]));
        }
    }
}

pub proof fn lemma_sprouted(
    k: Config,
    s: State,
    x: HNode,
    role: Role,
    qual: Option<ClassId>,
    deps: DepSet,
)
    requires
        s.wf(),
        s.g.valid(x),
        s.g.room(1),
    ensures
        advances(s, sprouted(k, s, x, role, qual, deps)),
        sprouted(k, s, x, role, qual, deps).g.nodes.len() == s.g.nodes.len() + 1,
        sprouted(k, s, x, role, qual, deps).g.valid(next_node(s.g)),
        sprouted(k, s, x, role, qual, deps).g.root == s.g.root.push(next_node(s.g)),
{
    let n = next_node(s.g);
    lemma_grown(k, s);
    let s1 = grown(k, s);
    lemma_extended(s.g);
    let v = generated(s1.g.at(n), x, role, deps);
    lemma_with(s1.g, n, v);
    let g2 = s1.g.with(n, v);
    lemma_filed_in(g2, role, n);
    let g3 = filed_in(g2, role, n);
    lemma_edge_in(g3, x, role, n);
    let g4 = edge_in(g3, x, role, n);
    lemma_grows_trans(s1.g, g2, g3);
    lemma_grows_trans(s1.g, g3, g4);
    lemma_grows_trans(s.g, s1.g, g4);
    lemma_work_grows(s1.g, g4, s1.work);
    lemma_work_push(g4, s1.work, Event::Edge(x, role, n));
    let s2 = State { g: g4, work: s1.work.push(Event::Edge(x, role, n)), ..s1 };
    if let Some(q) = qual {
        lemma_labelled(s2, n, q, deps);
        lemma_advances_trans(s, s2, labelled(s2, n, q, deps).0);
    }
}

pub proof fn lemma_exists_fired(
    k: Config,
    s: State,
    src: HNode,
    role: Role,
    cls: ClassId,
    deps: DepSet,
)
    requires
        s.wf(),
        s.g.valid(src),
    ensures
        advances(s, exists_fired(k, s, src, role, cls, deps).0),
{
    let s1 = crate::queries::check_blocked(k, s, src).0;
    if s1.g.room(1) {
        lemma_sprouted(k, s1, src, role, Some(cls), deps);
    }
}

pub proof fn lemma_sprouts(
    k: Config,
    s: State,
    x: HNode,
    role: Role,
    qual: Option<ClassId>,
    deps: DepSet,
    n: nat,
)
    requires
        s.wf(),
        s.g.valid(x),
        s.g.room(n as int),
    ensures
        advances(s, sprouts(k, s, x, role, qual, deps, n).0),
        sprouts(k, s, x, role, qual, deps, n).0.g.nodes.len() == s.g.nodes.len() + n,
        sprouts(k, s, x, role, qual, deps, n).1.len() == n,
        forall|i: int|
            0 <= i < n ==> (#[trigger] sprouts(k, s, x, role, qual, deps, n).1[i]).at()
                == s.g.nodes.len() + i,
        forall|i: int|
            0 <= i < s.g.nodes.len() ==> #[trigger] sprouts(k, s, x, role, qual, deps, n).0.g.root[i]
                == s.g.root[i],
        forall|i: int|
            s.g.nodes.len() <= i < s.g.nodes.len() + n ==> #[trigger] sprouts(
                k,
                s,
                x,
                role,
                qual,
                deps,
                n,
            ).0.g.root[i] == HNode(i as u32),
    decreases n,
{
    if n > 0 {
        lemma_sprouts(k, s, x, role, qual, deps, (n - 1) as nat);
        let (s1, fresh) = sprouts(k, s, x, role, qual, deps, (n - 1) as nat);
        lemma_sprouted(k, s1, x, role, qual, deps);
        let s2 = sprouted(k, s1, x, role, qual, deps);
        lemma_advances_trans(s, s1, s2);
    }
}

pub proof fn lemma_kept_apart(g: Graph, a: HNode, b: HNode)
    requires
        g.wf(),
        g.valid(a),
        g.valid(b),
    ensures
        kept_apart(g, a, b).wf(),
        grows(g, kept_apart(g, a, b)),
        kept_apart(g, a, b).nodes == g.nodes,
        kept_apart(g, a, b).root == g.root,
{
    let g1 = kept_apart(g, a, b);
    assert(g.root[a.at()].at() < g.root.len());
    assert(g.root[b.at()].at() < g.root.len());
    assert forall|i: int| 0 <= i < g1.nodes.len() implies g1.node_wf(#[trigger] g1.nodes[i], i) by {
        assert(g.node_wf(g.nodes[i], i));
    }
    assert forall|i: int| 0 <= i < g1.neq.len() implies {
        &&& g1.valid((#[trigger] g1.neq[i]).0)
        &&& g1.valid(g1.neq[i].1)
    } by {
        if i < g.neq.len() {
            assert(g.valid(g.neq[i].0));
        }
    }
    assert forall|r: Role, i: int| 0 <= i < g1.bucket(r).len() implies g1.valid(
        #[trigger] g1.bucket(r)[i],
    ) by {
        assert(g.valid(g.bucket(r)[i]));
    }
}

/// Recording twice that two nodes are different is the same as recording it
/// once.
pub proof fn lemma_kept_apart_again(g: Graph, a: HNode, b: HNode)
    ensures
        kept_apart(kept_apart(g, a, b), a, b) == kept_apart(g, a, b),
        g.rep(a) != g.rep(b) ==> kept_apart(g, a, b).neq.contains(ordered(g.rep(a), g.rep(b))),
{
    let pair = ordered(g.rep(a), g.rep(b));
    lemma_push_contains(g.neq, pair);
}

pub proof fn lemma_all_apart(g: Graph, fresh: Seq<HNode>, i: int, j: int)
    requires
        g.wf(),
        0 <= i,
        0 <= j,
        forall|q: int| 0 <= q < fresh.len() ==> g.valid(#[trigger] fresh[q]),
    ensures
        all_apart_from(g, fresh, i, j).wf(),
        grows(g, all_apart_from(g, fresh, i, j)),
        all_apart_from(g, fresh, i, j).nodes == g.nodes,
        all_apart_from(g, fresh, i, j).root == g.root,
    decreases fresh.len() - i, fresh.len() - j,
{
    if i < fresh.len() {
        if j >= fresh.len() {
            lemma_all_apart(g, fresh, i + 1, i + 2);
        } else {
            lemma_kept_apart(g, fresh[i], fresh[j]);
            lemma_all_apart(kept_apart(g, fresh[i], fresh[j]), fresh, i, j + 1);
        }
    }
}

pub proof fn lemma_at_least_fired(
    k: Config,
    s: State,
    x0: HNode,
    role: Role,
    qual: Option<ClassId>,
    n: u32,
    deps: DepSet,
)
    requires
        s.wf(),
        s.g.valid(x0),
    ensures
        advances(s, at_least_fired(k, s, x0, role, qual, n, deps).0),
{
    let x = s.g.rep(x0);
    assert(s.g.root[x0.at()].at() < s.g.root.len());
    let s1 = crate::queries::check_blocked(k, s, x).0;
    if s1.g.room(n as int) {
        let v = s1.g.at(x);
        assert(s1.g.node_wf(s1.g.nodes[x.at()], x.at()));
        let done = NodeView { at_least_done: v.at_least_done.push((role, qual, n)), ..v };
        lemma_with(s1.g, x, done);
        let s2 = State { g: s1.g.with(x, done), ..s1 };
        lemma_work_grows(s1.g, s2.g, s1.work);
        lemma_sprouts(k, s2, x, role, qual, deps, n as nat);
        let (s3, fresh) = sprouts(k, s2, x, role, qual, deps, n as nat);
        assert forall|q: int| 0 <= q < fresh.len() implies s3.g.valid(#[trigger] fresh[q]) by {}
        lemma_all_apart(s3.g, fresh, 0, 1);
        let g4 = all_apart_from(s3.g, fresh, 0, 1);
        lemma_work_grows(s3.g, g4, s3.work);
        let s4 = State { g: g4, ..s3 };
        lemma_advances_trans(s, s2, s3);
        lemma_advances_trans(s, s3, s4);
    }
}

pub proof fn lemma_edge_derived(s: State, role: Role, src: HNode, tgt: HNode, deps: DepSet)
    requires
        s.wf(),
        s.g.valid(src),
        s.g.valid(tgt),
    ensures
        advances(s, edge_derived(s, role, src, tgt, deps).0),
        edge_derived(s, role, src, tgt, deps).0.g.root == s.g.root,
{
    let (from, r, to) = stored_edge(s.g, role, src, tgt);
    assert(s.g.root[src.at()].at() < s.g.root.len());
    assert(s.g.root[tgt.at()].at() < s.g.root.len());
    if !s.g.at(from).edges.contains((r, to)) {
        let g1 = edge_in(s.g, from, r, to);
        lemma_edge_in(s.g, from, r, to);
        assert(g1.node_wf(g1.nodes[from.at()], from.at()));
        lemma_with(g1, from, widened_birth(g1.at(from), deps));
        let g2 = g1.with(from, widened_birth(g1.at(from), deps));
        assert(g2.node_wf(g2.nodes[to.at()], to.at()));
        lemma_with(g2, to, widened_birth(g2.at(to), deps));
        let g3 = g2.with(to, widened_birth(g2.at(to), deps));
        lemma_grows_trans(s.g, g1, g2);
        lemma_grows_trans(s.g, g2, g3);
        lemma_work_grows(s.g, g3, s.work);
        lemma_work_push(g3, s.work, Event::Edge(from, r, to));
    }
}

pub proof fn lemma_at_most_added(s: State, t: HNode, c: Card, deps: DepSet)
    requires
        s.wf(),
        s.g.valid(t),
    ensures
        advances(s, at_most_added(s, t, c, deps).0),
        at_most_added(s, t, c, deps).0.g.root == s.g.root,
{
    let v = s.g.at(t);
    assert(s.g.node_wf(s.g.nodes[t.at()], t.at()));
    let v1 = NodeView { at_most: v.at_most.push(c), at_most_dep: v.at_most_dep.joined(deps), ..v };
    lemma_with(s.g, t, v1);
    lemma_work_grows(s.g, s.g.with(t, v1), s.work);
}

pub proof fn lemma_atom_asserted(
    k: Config,
    s: State,
    head: Atom,
    x: HNode,
    b: Seq<(Var, HNode)>,
    deps: DepSet,
)
    requires
        s.wf(),
        s.g.valid(x),
        binding_valid(b, s.g.nodes.len() as int),
    ensures
        advances(s, atom_asserted(k, s, head, x, b, deps).0),
{
    let n = s.g.nodes.len() as int;
    match head {
        Atom::Class(c, v) => {
            lemma_var_node_valid(v, x, b, n);
            if let Some(t) = var_node(v, x, b) {
                lemma_labelled(s, t, c, deps);
            }
        },
        Atom::Exists(role, cls, v) => {
            lemma_var_node_valid(v, x, b, n);
            if let Some(t) = var_node(v, x, b) {
                lemma_exists_fired(k, s, t, role, cls, deps);
            }
        },
        Atom::AtMost(role, qual, m, v) => {
            lemma_var_node_valid(v, x, b, n);
            if let Some(t) = var_node(v, x, b) {
                lemma_at_most_added(s, t, (role, qual, m), deps);
            }
        },
        Atom::AtLeast(role, qual, m, v) => {
            lemma_var_node_valid(v, x, b, n);
            if let Some(t) = var_node(v, x, b) {
                lemma_at_least_fired(k, s, t, role, qual, m, deps);
            }
        },
        Atom::Role(role, u, v) => {
            lemma_var_node_valid(u, x, b, n);
            lemma_var_node_valid(v, x, b, n);
            if let (Some(src), Some(tgt)) = (var_node(u, x, b), var_node(v, x, b)) {
                lemma_edge_derived(s, role, src, tgt, deps);
            }
        },
        Atom::Equal(u, v) => {},
    }
}

pub proof fn lemma_head_fired(
    k: Config,
    s: State,
    head: Seq<Atom>,
    x: HNode,
    b: Seq<(Var, HNode)>,
    deps: DepSet,
)
    requires
        s.wf(),
        s.g.valid(x),
        binding_valid(b, s.g.nodes.len() as int),
    ensures
        advances(s, head_fired(k, s, head, x, b, deps).0),
{
    if head.len() > 0 {
        lemma_atom_asserted(k, s, head[0], x, b, deps);
    }
}

/// All bindings bind nodes of the graph only.
pub open spec fn all_valid(bs: Seq<Seq<(Var, HNode)>>, n: int) -> bool {
    forall|i: int| 0 <= i < bs.len() ==> binding_valid(#[trigger] bs[i], n)
}

proof fn lemma_place_valid(b: Seq<(Var, HNode)>, e: (Var, HNode), n: int)
    requires
        binding_valid(b, n),
        e.1.at() < n,
    ensures
        binding_valid(place(b, e), n),
    decreases b.len(),
{
    if b.len() > 0 && b.last().0 > e.0 {
        let r = b.drop_last();
        assert(binding_valid(r, n)) by {
            assert forall|i: int| 0 <= i < r.len() implies (#[trigger] r[i]).1.at() < n by {
                assert(b[i].1.at() < n);
            }
        }
        lemma_place_valid(r, e, n);
        assert(b[b.len() - 1].1.at() < n);
    }
}

proof fn lemma_sort_valid(b: Seq<(Var, HNode)>, n: int)
    requires
        binding_valid(b, n),
    ensures
        binding_valid(sort_binding(b), n),
    decreases b.len(),
{
    if b.len() > 0 {
        let r = b.drop_last();
        assert forall|i: int| 0 <= i < r.len() implies (#[trigger] r[i]).1.at() < n by {
            assert(b[i].1.at() < n);
        }
        lemma_sort_valid(r, n);
        assert(b[b.len() - 1].1.at() < n);
        lemma_place_valid(sort_binding(r), b.last(), n);
    }
}

proof fn lemma_matches_from_valid(
    nodes: Seq<NodeView>,
    h: Option<HierarchyView>,
    x: HNode,
    p: PlanView,
    i: int,
    b: Seq<(Var, HNode)>,
)
    requires
        table_wf(nodes),
        x.at() < nodes.len(),
        binding_valid(b, nodes.len() as int),
        0 <= i,
    ensures
        all_valid(matches_from(nodes, h, x, p, i, b), nodes.len() as int),
    decreases 2 * (p.order.len() - i) + 1, 0int,
{
    let n = nodes.len() as int;
    if i >= p.order.len() {
        lemma_sort_valid(b, n);
    } else {
        let (role, u, v) = p.roles[p.order[i] as int];
        lemma_var_node_valid(u, x, b, n);
        if let Some(src) = var_node(u, x, b) {
            lemma_targets_valid(nodes, src.at(), h, role);
            lemma_matches_over_valid(nodes, h, x, p, i, b, v, targets(nodes[src.at()], h, role), 0);
        }
    }
}

proof fn lemma_matches_over_valid(
    nodes: Seq<NodeView>,
    h: Option<HierarchyView>,
    x: HNode,
    p: PlanView,
    i: int,
    b: Seq<(Var, HNode)>,
    v: Var,
    ts: Seq<HNode>,
    j: int,
)
    requires
        table_wf(nodes),
        x.at() < nodes.len(),
        binding_valid(b, nodes.len() as int),
        0 <= i < p.order.len(),
        0 <= j,
        forall|q: int| 0 <= q < ts.len() ==> (#[trigger] ts[q]).at() < nodes.len(),
    ensures
        all_valid(matches_over(nodes, h, x, p, i, b, v, ts, j), nodes.len() as int),
    decreases 2 * (p.order.len() - i), ts.len() - j,
{
    if j < ts.len() {
        let b1 = b.push((v, ts[j]));
        lemma_matches_from_valid(nodes, h, x, p, i + 1, b1);
        lemma_matches_over_valid(nodes, h, x, p, i, b, v, ts, j + 1);
    }
}

/// Matches bind nodes of the graph.
pub proof fn lemma_matches_valid(g: Graph, h: Option<HierarchyView>, body: Seq<Atom>, x: HNode)
    requires
        g.wf(),
        g.valid(x),
    ensures
        matches_of(g.nodes, h, body, x) matches Some(bs) ==> all_valid(bs, g.nodes.len() as int),
{
    lemma_graph_table(g);
    if let Some(p) = plan_of(body) {
        lemma_matches_from_valid(g.nodes, h, x, p, 0, Seq::empty());
    }
}

pub proof fn lemma_bindings_fired(
    k: Config,
    s: State,
    ci: int,
    x: HNode,
    bs: Seq<Seq<(Var, HNode)>>,
    i: int,
    changed: bool,
)
    requires
        s.wf(),
        s.g.valid(x),
        0 <= i,
        all_valid(bs, s.g.nodes.len() as int),
    ensures
        advances(s, bindings_fired(k, s, ci, x, bs, i, changed).0),
    decreases bs.len() - i,
{
    if i < bs.len() {
        let cl = k.clauses[ci];
        let d = body_deps(s.g, cl.body, x, bs[i]);
        lemma_head_fired(k, s, cl.head, x, bs[i], d);
        let (s1, o) = head_fired(k, s, cl.head, x, bs[i], d);
        lemma_all_valid_grows(bs, s.g.nodes.len() as int, s1.g.nodes.len() as int);
        if o is Changed {
            lemma_bindings_fired(k, s1, ci, x, bs, i + 1, true);
            lemma_advances_trans(s, s1, bindings_fired(k, s1, ci, x, bs, i + 1, true).0);
        } else if o is NoChange {
            lemma_bindings_fired(k, s1, ci, x, bs, i + 1, changed);
            lemma_advances_trans(s, s1, bindings_fired(k, s1, ci, x, bs, i + 1, changed).0);
        }
    }
}

pub proof fn lemma_all_valid_grows(bs: Seq<Seq<(Var, HNode)>>, n: int, m: int)
    requires
        all_valid(bs, n),
        n <= m,
    ensures
        all_valid(bs, m),
{
    assert forall|i: int| 0 <= i < bs.len() implies binding_valid(#[trigger] bs[i], m) by {
        assert(binding_valid(bs[i], n));
    }
}

pub proof fn lemma_clause_fired(k: Config, s: State, ci: int, x: HNode)
    requires
        s.wf(),
        s.g.valid(x),
    ensures
        advances(s, clause_fired(k, s, ci, x).0),
{
    if k.clauses[ci].horn() {
        let s1 = State {
            stats: SearchStats {
                match_attempts: crate::graph::tick(s.stats.match_attempts),
                ..s.stats
            },
            ..s
        };
        lemma_matches_valid(s1.g, k.roles, k.clauses[ci].body, x);
        if let Some(bs) = matches_of(s1.g.nodes, k.roles, k.clauses[ci].body, x) {
            lemma_bindings_fired(k, s1, ci, x, bs, 0, false);
        }
    }
}

pub proof fn lemma_widened_wf(g: Graph, n: HNode, c: ClassId, cause: DepSet)
    requires
        g.wf(),
        g.valid(n),
    ensures
        g.with(n, g.at(n).widened(c, cause)).wf(),
        grows(g, g.with(n, g.at(n).widened(c, cause))),
{
    assert(g.node_wf(g.nodes[n.at()], n.at()));
    lemma_slot_splits(g.at(n).labels, c);
    lemma_with(g, n, g.at(n).widened(c, cause));
}

/// What copying to another node leaves as it was.
pub open spec fn others_same(g0: Graph, g1: Graph, n: HNode) -> bool {
    &&& g1.nodes.len() == g0.nodes.len()
    &&& g1.root == g0.root
    &&& forall|m: HNode| g0.valid(m) && m != n ==> #[trigger] g1.at(m) == g0.at(m)
}

pub proof fn lemma_labels_copied(
    s: State,
    n: HNode,
    labels: Seq<ClassId>,
    deps: Seq<DepSet>,
    cause: DepSet,
    i: int,
)
    requires
        s.wf(),
        s.g.valid(n),
        0 <= i,
    ensures
        advances(s, labels_copied(s, n, labels, deps, cause, i)),
        others_same(s.g, labels_copied(s, n, labels, deps, cause, i).g, n),
    decreases labels.len() - i,
{
    if i < labels.len() {
        lemma_labelled(s, n, labels[i], deps[i].joined(cause));
        let (s1, new) = labelled(s, n, labels[i], deps[i].joined(cause));
        lemma_widened_wf(s1.g, n, labels[i], cause);
        let s2 = if !new && cause != DepSet::empty() {
            State { g: s1.g.with(n, s1.g.at(n).widened(labels[i], cause)), ..s1 }
        } else {
            s1
        };
        lemma_work_grows(s1.g, s2.g, s1.work);
        lemma_advances_trans(s, s1, s2);
        lemma_labels_copied(s2, n, labels, deps, cause, i + 1);
        lemma_advances_trans(s, s2, labels_copied(s2, n, labels, deps, cause, i + 1));
    }
}

pub proof fn lemma_edges_copied(s: State, n: HNode, edges: Seq<(Role, HNode)>, i: int)
    requires
        s.wf(),
        s.g.valid(n),
        0 <= i,
        forall|j: int| 0 <= j < edges.len() ==> s.g.valid((#[trigger] edges[j]).1),
    ensures
        advances(s, edges_copied(s, n, edges, i)),
        edges_copied(s, n, edges, i).g.nodes.len() == s.g.nodes.len(),
        edges_copied(s, n, edges, i).g.root == s.g.root,
    decreases edges.len() - i,
{
    if i < edges.len() {
        let (r, t) = edges[i];
        assert(s.g.valid(edges[i].1));
        lemma_edge_in(s.g, n, r, t);
        let s1 = State {
            g: edge_in(s.g, n, r, t),
            work: s.work.push(Event::Edge(n, r, t)),
            ..s
        };
        lemma_work_grows(s.g, s1.g, s.work);
        lemma_work_push(s1.g, s.work, Event::Edge(n, r, t));
        assert forall|j: int| 0 <= j < edges.len() implies s1.g.valid((#[trigger] edges[j]).1) by {
            assert(s.g.valid(edges[j].1));
        }
        lemma_edges_copied(s1, n, edges, i + 1);
        lemma_advances_trans(s, s1, edges_copied(s1, n, edges, i + 1));
    }
}

pub proof fn lemma_linked_wf(g: Graph, i: HNode, j: HNode)
    requires
        g.wf(),
        g.valid(i),
        g.valid(j),
        g.rep(i) == i,
        g.rep(j) == j,
        i != j,
    ensures
        relinked(g, i, j).wf(),
{
    lemma_linked_canonical(g.root, i, j);
    let g1 = relinked(g, i, j);
    assert forall|q: int| 0 <= q < g1.nodes.len() implies g1.node_wf(#[trigger] g1.nodes[q], q) by {
        assert(g.node_wf(g.nodes[q], q));
    }
    assert forall|q: int| 0 <= q < g1.neq.len() implies {
        &&& g1.valid((#[trigger] g1.neq[q]).0)
        &&& g1.valid(g1.neq[q].1)
    } by {
        assert(g.valid(g.neq[q].0));
    }
    assert forall|r: Role, q: int| 0 <= q < g1.bucket(r).len() implies g1.valid(
        #[trigger] g1.bucket(r)[q],
    ) by {
        assert(g.valid(g.bucket(r)[q]));
    }
}

pub proof fn lemma_joined_nodes(s: State, i: HNode, j: HNode, cause: DepSet)
    requires
        s.wf(),
        s.g.valid(i),
        s.g.valid(j),
        s.g.rep(i) == i,
        s.g.rep(j) == j,
        i != j,
    ensures
        advances(s, joined_nodes(s, i, j, cause)),
        joined_nodes(s, i, j, cause).g.nodes.len() == s.g.nodes.len(),
        joined_nodes(s, i, j, cause).g.root == linked(s.g.root, i, j),
{
    lemma_linked_wf(s.g, i, j);
    let g0 = relinked(s.g, i, j);
    assert(g0.node_wf(g0.nodes[i.at()], i.at()));
    lemma_with(g0, i, widened_birth(g0.at(i), cause));
    let g1 = if cause != DepSet::empty() {
        g0.with(i, widened_birth(g0.at(i), cause))
    } else {
        g0
    };
    assert(grows(s.g, g0));
    lemma_grows_trans(s.g, g0, g1);
    lemma_work_grows(s.g, g1, s.work);
    let s1 = State { g: g1, ..s };
    let vj = g1.at(j);
    assert(g1.node_wf(g1.nodes[j.at()], j.at()));
    lemma_labels_copied(s1, i, vj.labels, vj.label_deps, cause, 0);
    let s2 = labels_copied(s1, i, vj.labels, vj.label_deps, cause, 0);
    assert forall|q: int| 0 <= q < vj.edges.len() implies s2.g.valid((#[trigger] vj.edges[q]).1) by {
        assert(g1.valid(vj.edges[q].1));
    }
    lemma_edges_copied(s2, i, vj.edges, 0);
    let s3 = edges_copied(s2, i, vj.edges, 0);
    assert(s3.g.node_wf(s3.g.nodes[i.at()], i.at()));
    let v = constraints_merged(s3.g.at(i), s3.g.at(j));
    lemma_with(s3.g, i, v);
    let s4 = State { g: s3.g.with(i, v), ..s3 };
    lemma_work_grows(s3.g, s4.g, s3.work);
    lemma_advances_trans(s, s1, s2);
    lemma_advances_trans(s, s2, s3);
    lemma_advances_trans(s, s3, s4);
}

pub proof fn lemma_merged(k: Config, s: State, i0: HNode, j0: HNode, cause: DepSet)
    requires
        s.wf(),
        s.g.valid(i0),
        s.g.valid(j0),
    ensures
        advances(s, merged(k, s, i0, j0, cause).0),
        merged(k, s, i0, j0, cause).0.g.nodes.len() == s.g.nodes.len(),
{
    let i = s.g.rep(i0);
    let j = s.g.rep(j0);
    assert(s.g.root[i0.at()].at() < s.g.root.len());
    assert(s.g.root[j0.at()].at() < s.g.root.len());
    let c = if k.nn_taint_disabled {
        DepSet::empty()
    } else {
        cause
    };
    if i != j {
        lemma_joined_nodes(s, i, j, c);
    }
}

pub proof fn lemma_bearer(g: Graph, n: HNode, c: ClassId, i: int)
    requires
        g.wf(),
        0 <= i,
    ensures
        bearer_from(g, n, c, i) matches Some(m) ==> {
            &&& g.valid(m)
            &&& g.rep(m) == m
            &&& m != n
            &&& g.at(m).has(c)
        },
    decreases g.nodes.len() - i,
{
    if i < g.nodes.len() {
        lemma_bearer(g, n, c, i + 1);
    }
}

pub proof fn lemma_nominal_merged(k: Config, s: State, n: HNode, c: ClassId)
    requires
        s.wf(),
        s.g.valid(n),
    ensures
        advances(s, nominal_merged(k, s, n, c).0),
{
    let rn = s.g.rep(n);
    assert(s.g.root[n.at()].at() < s.g.root.len());
    lemma_bearer(s.g, rn, c, 0);
    if let Some(m) = bearer_from(s.g, rn, c, 0) {
        let cause = nominal_cause(s.g, n, m, c);
        lemma_merged(k, s, rn, m, cause);
        let (s1, clash) = merged(k, s, rn, m, cause);
        if !clash {
            let surv = s1.g.rep(rn);
            assert(s1.g.root[rn.at()].at() < s1.g.root.len());
            assert(s1.g.node_wf(s1.g.nodes[surv.at()], surv.at()));
            let v = nominal_marked(k, s1.g.at(surv), s.g.at(m).birth_deps);
            lemma_with(s1.g, surv, v);
            let s2 = State { g: s1.g.with(surv, v), ..s1 };
            lemma_work_grows(s1.g, s2.g, s1.work);
            lemma_advances_trans(s, s1, s2);
        }
    }
}

} // verus!
