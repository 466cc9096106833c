//! What every step of saturation keeps of the graph.

use vstd::prelude::*;
use crate::clause::{Atom, Var};
use crate::dep_set::DepSet;
use crate::fixpoint::{
    drained, event_done, lemma_row_below, lemma_seeds, lemma_sources_valid, list_fired,
    list_fired_at, reseeded, saturated, sources, stops,
};
use crate::graph::{event_valid, tick, Config, Event, Graph, SearchStats, State};
use crate::ids::{ClassId, HNode, Role};
use crate::index::row;
use crate::matching::{binding_valid, matches_of, var_node};
use crate::node::NodeView;
use crate::queries::{body_deps, check_blocked};
use crate::rules::{
    all_apart_from, atom_asserted, bearer_from, bindings_fired, clause_fired, edges_copied,
    head_fired, kept_apart, labels_copied, merged, nominal_cause, nominal_marked, nominal_merged,
    relinked, sprouts, widened_birth,
};
use crate::rules_wf::{
    advances, all_valid, lemma_advances_trans, lemma_atom_asserted, lemma_bearer,
    lemma_matches_valid, lemma_merged, lemma_nominal_merged, lemma_push_contains,
};
use crate::unfolding::{
    along_named, forward_atom, forward_only, lemma_merged_in_order, lemma_mirrored_same,
    lemma_named_same, lemma_unfolds_atom, mirrored,
};

verus! {

/// From `s0` to `s1` no node, label, edge or pair of different nodes got
/// lost, and edges are still recorded at both ends.
pub open spec fn keeps(s0: State, s1: State) -> bool {
    &&& advances(s0, s1)
    &&& mirrored(s0.g) ==> mirrored(s1.g)
    &&& forall|p: (HNode, HNode)| #[trigger] s0.g.neq.contains(p) ==> s1.g.neq.contains(p)
}

proof fn lemma_keeps_refl(s: State)
    requires
        s.wf(),
    ensures
        keeps(s, s),
{
}

proof fn lemma_keeps_trans(a: State, b: State, c: State)
    requires
        keeps(a, b),
        keeps(b, c),
    ensures
        keeps(a, c),
{
    lemma_advances_trans(a, b, c);
}

/// Recording more pairs loses none.
pub proof fn lemma_apart_neq(g: Graph, fresh: Seq<HNode>, i: int, j: int)
    ensures
        forall|p: (HNode, HNode)| #[trigger]
            g.neq.contains(p) ==> all_apart_from(g, fresh, i, j).neq.contains(p),
    decreases fresh.len() - i, fresh.len() - j,
{
    if 0 <= i < fresh.len() {
        if 0 <= j < fresh.len() {
            let g1 = kept_apart(g, fresh[i], fresh[j]);
            lemma_push_contains(g.neq, crate::rules::ordered(g.rep(fresh[i]), g.rep(fresh[j])));
            lemma_apart_neq(g1, fresh, i, j + 1);
            assert forall|p: (HNode, HNode)| #[trigger] g.neq.contains(p) implies all_apart_from(
                g,
                fresh,
                i,
                j,
            ).neq.contains(p) by {
                assert(g1.neq.contains(p));
            }
        } else {
            lemma_apart_neq(g, fresh, i + 1, i + 2);
        }
    }
}

proof fn lemma_sprouts_neq(
    k: Config,
    s: State,
    x: HNode,
    role: Role,
    qual: Option<ClassId>,
    deps: DepSet,
    n: nat,
)
    ensures
        sprouts(k, s, x, role, qual, deps, n).0.g.neq == s.g.neq,
    decreases n,
{
    if n > 0 {
        lemma_sprouts_neq(k, s, x, role, qual, deps, (n - 1) as nat);
    }
}

proof fn lemma_atom_keeps(
    k: Config,
    s: State,
    head: Atom,
    x: HNode,
    b: Seq<(Var, HNode)>,
    deps: DepSet,
)
    requires
        s.wf(),
        s.g.valid(x),
        binding_valid(b, s.g.nodes.len() as int),
        forward_only(k) ==> forward_atom(head),
    ensures
        keeps(s, atom_asserted(k, s, head, x, b, deps).0),
{
    lemma_atom_asserted(k, s, head, x, b, deps);
    lemma_unfolds_atom(k, s, head, x, b, deps);
    if let Atom::AtLeast(role, qual, n, v) = head {
        if let Some(t) = var_node(v, x, b) {
            let y = s.g.rep(t);
            let s1 = check_blocked(k, s, y).0;
            let v1 = s1.g.at(y);
            let done = NodeView { at_least_done: v1.at_least_done.push((role, qual, n)), ..v1 };
            let s2 = State { g: s1.g.with(y, done), ..s1 };
            lemma_sprouts_neq(k, s2, y, role, qual, deps, n as nat);
            let (s3, fresh) = sprouts(k, s2, y, role, qual, deps, n as nat);
            lemma_apart_neq(s3.g, fresh, 0, 1);
        }
    }
}

proof fn lemma_bindings_keep(
    k: Config,
    s: State,
    ci: int,
    x: HNode,
    bs: Seq<Seq<(Var, HNode)>>,
    i: int,
    changed: bool,
)
    requires
        s.wf(),
        0 <= ci < k.clauses.len(),
        s.g.valid(x),
        0 <= i,
        all_valid(bs, s.g.nodes.len() as int),
    ensures
        keeps(s, bindings_fired(k, s, ci, x, bs, i, changed).0),
    decreases bs.len() - i,
{
    if i < bs.len() {
        let cl = k.clauses[ci];
        let deps = body_deps(s.g, cl.body, x, bs[i]);
        let (s1, o) = head_fired(k, s, cl.head, x, bs[i], deps);
        if cl.head.len() > 0 {
            lemma_atom_keeps(k, s, cl.head[0], x, bs[i], deps);
        }
        assert(keeps(s, s1));
        assert(all_valid(bs, s1.g.nodes.len() as int)) by {
            assert forall|q: int| 0 <= q < bs.len() implies binding_valid(
                #[trigger] bs[q],
                s1.g.nodes.len() as int,
            ) by {
                assert(binding_valid(bs[q], s.g.nodes.len() as int));
            }
        }
        lemma_bindings_keep(k, s1, ci, x, bs, i + 1, true);
        lemma_bindings_keep(k, s1, ci, x, bs, i + 1, changed);
        lemma_keeps_trans(s, s1, bindings_fired(k, s1, ci, x, bs, i + 1, true).0);
        lemma_keeps_trans(s, s1, bindings_fired(k, s1, ci, x, bs, i + 1, changed).0);
    }
}

/// Firing a clause keeps the graph in order.
pub proof fn lemma_clause_keeps(k: Config, s: State, ci: int, x: HNode)
    requires
        s.wf(),
        0 <= ci < k.clauses.len(),
        s.g.valid(x),
    ensures
        keeps(s, clause_fired(k, s, ci, x).0),
{
    let s1 = State {
        stats: SearchStats { match_attempts: tick(s.stats.match_attempts), ..s.stats },
        ..s
    };
    lemma_matches_valid(s1.g, k.roles, k.clauses[ci].body, x);
    if let Some(bs) = matches_of(s1.g.nodes, k.roles, k.clauses[ci].body, x) {
        lemma_bindings_keep(k, s1, ci, x, bs, 0, false);
    }
}

proof fn lemma_list_keeps(k: Config, s: State, cis: Seq<usize>, i: int, n: HNode)
    requires
        s.wf(),
        s.g.valid(n),
        0 <= i,
        forall|q: int| 0 <= q < cis.len() ==> #[trigger] cis[q] < k.clauses.len(),
    ensures
        keeps(s, list_fired(k, s, cis, i, n).0),
    decreases cis.len() - i,
{
    if i < cis.len() {
        lemma_clause_keeps(k, s, cis[i] as int, n);
        let (s1, o) = clause_fired(k, s, cis[i] as int, n);
        if !stops(o) {
            lemma_list_keeps(k, s1, cis, i + 1, n);
            lemma_keeps_trans(s, s1, list_fired(k, s1, cis, i + 1, n).0);
        }
    }
}

proof fn lemma_list_at_keeps(k: Config, s: State, cis: Seq<usize>, ns: Seq<HNode>, j: int)
    requires
        s.wf(),
        0 <= j,
        forall|i: int| 0 <= i < ns.len() ==> s.g.valid(#[trigger] ns[i]),
        forall|q: int| 0 <= q < cis.len() ==> #[trigger] cis[q] < k.clauses.len(),
    ensures
        keeps(s, list_fired_at(k, s, cis, ns, j).0),
    decreases ns.len() - j,
{
    if j < ns.len() {
        assert(s.g.valid(ns[j]));
        lemma_list_keeps(k, s, cis, 0, ns[j]);
        let (s1, o) = list_fired(k, s, cis, 0, ns[j]);
        if !stops(o) {
            assert forall|i: int| 0 <= i < ns.len() implies s1.g.valid(#[trigger] ns[i]) by {
                assert(s.g.valid(ns[i]));
            }
            lemma_list_at_keeps(k, s1, cis, ns, j + 1);
            lemma_keeps_trans(s, s1, list_fired_at(k, s1, cis, ns, j + 1).0);
        }
    }
}

proof fn lemma_labels_copied_neq(
    s: State,
    n: HNode,
    labels: Seq<ClassId>,
    deps: Seq<DepSet>,
    cause: DepSet,
    i: int,
)
    requires
        0 <= i,
    ensures
        labels_copied(s, n, labels, deps, cause, i).g.neq == s.g.neq,
    decreases labels.len() - i,
{
    if i < labels.len() {
        let d = deps[i].joined(cause);
        let (s1, new) = crate::rules::labelled(s, n, labels[i], d);
        let s2 = if !new && cause != DepSet::empty() {
            State { g: s1.g.with(n, s1.g.at(n).widened(labels[i], cause)), ..s1 }
        } else {
            s1
        };
        lemma_labels_copied_neq(s2, n, labels, deps, cause, i + 1);
    }
}

proof fn lemma_edges_copied_neq(s: State, n: HNode, edges: Seq<(Role, HNode)>, i: int)
    requires
        0 <= i,
    ensures
        edges_copied(s, n, edges, i).g.neq == s.g.neq,
    decreases edges.len() - i,
{
    if i < edges.len() {
        let (r, t) = edges[i];
        let s1 = State {
            g: crate::rules::edge_in(s.g, n, r, t),
            work: s.work.push(Event::Edge(n, r, t)),
            ..s
        };
        lemma_edges_copied_neq(s1, n, edges, i + 1);
    }
}

pub proof fn lemma_merged_neq(k: Config, s: State, i0: HNode, j0: HNode, cause0: DepSet)
    ensures
        merged(k, s, i0, j0, cause0).0.g.neq == s.g.neq,
{
    let cause = if k.nn_taint_disabled {
        DepSet::empty()
    } else {
        cause0
    };
    let i = s.g.rep(i0);
    let j = s.g.rep(j0);
    let g0 = relinked(s.g, i, j);
    let g1 = if cause != DepSet::empty() {
        g0.with(i, widened_birth(g0.at(i), cause))
    } else {
        g0
    };
    let s1 = State { g: g1, ..s };
    let vj = g1.at(j);
    lemma_labels_copied_neq(s1, i, vj.labels, vj.label_deps, cause, 0);
    let s2 = labels_copied(s1, i, vj.labels, vj.label_deps, cause, 0);
    lemma_edges_copied_neq(s2, i, vj.edges, 0);
}

pub proof fn lemma_nominal_keeps(k: Config, s: State, n: HNode, c: ClassId)
    requires
        s.wf(),
        s.g.valid(n),
    ensures
        keeps(s, nominal_merged(k, s, n, c).0),
        along_named(s.g) ==> along_named(nominal_merged(k, s, n, c).0.g),
{
    lemma_nominal_merged(k, s, n, c);
    let rn = s.g.rep(n);
    assert(s.g.root[n.at()].at() < s.g.root.len());
    lemma_bearer(s.g, rn, c, 0);
    if let Some(m) = bearer_from(s.g, rn, c, 0) {
        let cause = nominal_cause(s.g, n, m, c);
        lemma_merged_keeps(k, s, rn, m, cause);
        lemma_merged_in_order(k, s, rn, m, cause);
        let (s1, clash) = merged(k, s, rn, m, cause);
        let surv = s1.g.rep(rn);
        let v = nominal_marked(k, s1.g.at(surv), s.g.at(m).birth_deps);
        if !clash && mirrored(s1.g) {
            lemma_mirrored_same(s1.g, s1.g.with(surv, v));
        }
        if !clash && along_named(s1.g) {
            lemma_named_same(s1.g, s1.g.with(surv, v));
        }
    }
}

/// Merging two nodes keeps the graph in order.
pub proof fn lemma_merged_keeps(k: Config, s: State, i0: HNode, j0: HNode, cause: DepSet)
    requires
        s.wf(),
        s.g.valid(i0),
        s.g.valid(j0),
    ensures
        keeps(s, merged(k, s, i0, j0, cause).0),
{
    lemma_merged(k, s, i0, j0, cause);
    lemma_merged_in_order(k, s, i0, j0, cause);
    lemma_merged_neq(k, s, i0, j0, cause);
}

/// What an event leads to keeps the graph in order. The labels of every node
/// stay sorted, each once and each with what it depends on; every edge stays
/// recorded at its target, and nothing else is recorded there; there is one
/// entry of the merge relation and one mark for every node; and no node,
/// label, edge or pair of different nodes is lost.
pub proof fn lemma_event_keeps(k: Config, s: State, ev: Event)
    requires
        k.wf(),
        s.wf(),
        event_valid(s.g, ev),
    ensures
        keeps(s, event_done(k, s, ev).0),
        event_done(k, s, ev).0.wf(),
        ({
            let g = event_done(k, s, ev).0.g;
            &&& g.root.len() == g.nodes.len() && g.origin.len() == g.nodes.len()
            &&& forall|n: HNode|
                #![trigger g.at(n)]
                g.valid(n) ==> crate::node::sorted(g.at(n).labels) && g.at(n).labels.len() == g.at(
                    n,
                ).label_deps.len()
            &&& mirrored(s.g) ==> forall|a: HNode, r: Role, b: HNode|
                g.valid(a) && g.valid(b) ==> (#[trigger] g.at(a).edges.contains((r, b)) <==> g.at(
                    b,
                ).preds.contains((r, a)))
        }),
{
    let n0 = k.clauses.len() as int;
    match ev {
        Event::Label(n, c) => {
            lemma_row_below(k.index.x, c.0 as int, n0);
            lemma_row_below(k.index.succ, c.0 as int, n0);
            lemma_nominal_keeps(k, s, n, c);
            let (s1, o1) = nominal_merged(k, s, n, c);
            if !stops(o1) {
                let xs = row(k.index.x, c.0 as int);
                lemma_list_keeps(k, s1, xs, 0, n);
                let (s2, o2) = list_fired(k, s1, xs, 0, n);
                lemma_keeps_trans(s, s1, s2);
                if !stops(o2) {
                    let ss = row(k.index.succ, c.0 as int);
                    lemma_sources_valid(s2.g, n);
                    lemma_list_at_keeps(k, s2, ss, sources(s2.g, n), 0);
                    lemma_keeps_trans(s, s2, list_fired_at(k, s2, ss, sources(s2.g, n), 0).0);
                }
            }
        },
        Event::Edge(src, role, tgt) => {
            let key = role.id().0 as int;
            let rs = row(k.index.role, key);
            let bs = row(k.index.back, key);
            let is = row(k.index.inverse_first, key);
            lemma_row_below(k.index.role, key, n0);
            lemma_row_below(k.index.back, key, n0);
            lemma_row_below(k.index.inverse_first, key, n0);
            lemma_list_keeps(k, s, rs, 0, src);
            let (s1, o1) = list_fired(k, s, rs, 0, src);
            if !stops(o1) {
                lemma_sources_valid(s1.g, src);
                lemma_list_at_keeps(k, s1, bs, sources(s1.g, src), 0);
                let (s2, o2) = list_fired_at(k, s1, bs, sources(s1.g, src), 0);
                lemma_keeps_trans(s, s1, s2);
                if !stops(o2) {
                    lemma_list_keeps(k, s2, is, 0, tgt);
                    lemma_keeps_trans(s, s2, list_fired(k, s2, is, 0, tgt).0);
                }
            }
        },
        Event::NodeNew(n) => lemma_list_keeps(k, s, k.index.empty, 0, n),
    }
    let g = event_done(k, s, ev).0.g;
    assert forall|n: HNode|
        #![trigger g.at(n)]
        g.valid(n) implies crate::node::sorted(g.at(n).labels) && g.at(n).labels.len() == g.at(
        n,
    ).label_deps.len() by {
        assert(g.node_wf(g.nodes[n.at()], n.at()));
    }
}

proof fn lemma_drained_keeps(k: Config, s: State, left: nat)
    requires
        k.wf(),
        s.wf(),
    ensures
        keeps(s, drained(k, s, left).0),
    decreases left,
{
    lemma_keeps_refl(s);
    if s.work.len() > 0 && left > 0 {
        let s1 = State { work: s.work.drop_last(), ..s };
        assert(event_valid(s.g, s.work[s.work.len() - 1]));
        lemma_event_keeps(k, s1, s.work.last());
        let (s2, o) = event_done(k, s1, s.work.last());
        lemma_keeps_trans(s, s1, s2);
        if !stops(o) {
            lemma_drained_keeps(k, s2, (left - 1) as nat);
            lemma_keeps_trans(s, s2, drained(k, s2, (left - 1) as nat).0);
        }
    }
}

/// Saturation keeps the graph in order.
pub proof fn lemma_saturation_keeps(k: Config, s: State, max_iters: nat)
    requires
        k.wf(),
        s.wf(),
    ensures
        keeps(s, saturated(k, s, max_iters).0),
{
    lemma_seeds(k, s.g, 0, Seq::empty());
    lemma_drained_keeps(k, reseeded(k, s), max_iters);
    lemma_keeps_trans(s, reseeded(k, s), saturated(k, s, max_iters).0);
}

} // verus!
