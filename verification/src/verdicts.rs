//! What a verdict says.

use vstd::prelude::*;
use crate::clause::horn_only;
use crate::dep_set::DepSet;
use crate::fixpoint::saturated;
use crate::graph::{Config, Graph, HyperResult, State};
use crate::ids::{ClassId, HNode, Role};
use crate::refutation::{coherent, heeded, lemma_solves_refuted};
use crate::rules::{edge_in, merged};
use crate::rules_wf::{lemma_edge_in, lemma_merged};
use crate::search::solves;
use crate::seed::{asserted, lemma_seed_nodes, same_merged, AboxSeed};
use crate::semantics::Interp;
use crate::setup::{bare_graph, fresh_state, lemma_seed_node, root_graph, seed_node};
use crate::snapshot::{
    all_linked, canon, canonicals, captured, edges_linked, lemma_canon, lemma_replayed_bare,
    replayed_graph, replayed_node, replayed_nodes, snap_id, SnapView, SnapshotEdge,
};
use crate::truth::{lemma_full_active, node_true, owed, reached, true_in, World};
use crate::truth_horn::lemma_true_saturated;
use crate::truth_merge::lemma_true_merged;
use crate::truth_rules::{consistent, lemma_true_edge};
use crate::unfolding::{lemma_mirrored_edge, lemma_merged_in_order, mirrored};
use crate::union_find::discrete;

verus! {

/// All that the graph holds is true, with nodes standing for elements as `h`
/// says.
pub open spec fn pictures<D>(i: Interp<D>, g: Graph, h: Seq<D>) -> bool {
    true_in(certain(i), g, h)
}

/// The interpretation, with no decision in doubt.
pub open spec fn certain<D>(i: Interp<D>) -> World<D> {
    World { i, t: Set::full(), buried: None }
}

/// What a search refutes is refuted: there are no nominals, or merges for them
/// tell what they rest on, or there are no disjunctions to jump over.
pub open spec fn reliable(k: Config) -> bool {
    heeded(k) || horn_only(k.clauses)
}

/// `Unsat` is right: if the search refutes a graph, no model of the clauses
/// is pictured by it. This is for all clauses, with nominals and `≤n`.
pub proof fn lemma_unsat_sound<D>(i: Interp<D>, k: Config, s0: State, s1: State, h: Seq<D>)
    requires
        coherent(k),
        s0.wf(),
        reliable(k),
        solves(k, s0, k.init_depth as nat, s1, HyperResult::Unsat),
        i.models(k),
    ensures
        !pictures(i, s0.g, h),
{
    let w = certain(i);
    if true_in(w, s0.g, h) {
        assert(w.full());
        assert(consistent(w, s0.g));
        lemma_solves_refuted(w, k, s0, k.init_depth as nat, s1, HyperResult::Unsat);
        lemma_full_active(w, s1.clash);
    }
}

/// `Unsat` of Horn saturation alone is right, for all clauses and nominals.
pub proof fn lemma_saturation_unsat_sound<D>(
    i: Interp<D>,
    k: Config,
    s0: State,
    max_iters: nat,
    h: Seq<D>,
)
    requires
        k.wf(),
        s0.wf(),
        saturated(k, s0, max_iters).1 is Unsat,
        i.models(k),
    ensures
        !pictures(i, s0.g, h),
{
    let w = certain(i);
    if true_in(w, s0.g, h) {
        assert(consistent(w, s0.g));
        lemma_true_saturated(w, k, s0, max_iters);
        lemma_full_active(w, saturated(k, s0, max_iters).0.clash);
    }
}

/// The graph holds what the graph of a single root labelled `c` holds.
pub open spec fn is_root_graph(g: Graph, c: ClassId) -> bool {
    let r = root_graph(c);
    g.nodes == r.nodes && g.root == r.root && g.neq == r.neq
}

proof fn lemma_root_pictures<D>(i: Interp<D>, g: Graph, c: ClassId, e: D)
    requires
        is_root_graph(g, c),
        i.within(e),
        i.in_class(c, e),
    ensures
        pictures(i, g, seq![e]),
{
    let w = certain(i);
    let h = seq![e];
    lemma_seed_node(0, c);
    assert(node_true(w, g, h, 0)) by {
        let v = g.nodes[0];
        assert(v.labels =~= seq![c]);
    }
    assert forall|q: int| 0 <= q < g.nodes.len() implies #[trigger] node_true(w, g, h, q) by {
        assert(q == 0);
    }
}

/// A class that is found unsatisfiable is empty in every model of the
/// clauses.
pub proof fn lemma_class_unsat_sound<D>(
    i: Interp<D>,
    k: Config,
    c: ClassId,
    s0: State,
    s1: State,
    e: D,
)
    requires
        coherent(k),
        s0.wf(),
        is_root_graph(s0.g, c),
        reliable(k),
        solves(k, s0, k.init_depth as nat, s1, HyperResult::Unsat),
        i.models(k),
        i.within(e),
    ensures
        !i.in_class(c, e),
{
    if i.in_class(c, e) {
        lemma_root_pictures(i, s0.g, c, e);
        lemma_unsat_sound(i, k, s0, s1, seq![e]);
    }
}

impl AboxSeed {
    /// The assertions are true when individual `q` stands for `h[q]`. Those
    /// that name an unknown individual say nothing.
    pub open spec fn holds<D>(self, i: Interp<D>, h: Seq<D>) -> bool {
        &&& h.len() == self.num_individuals
        &&& forall|q: int| 0 <= q < h.len() ==> i.within(#[trigger] h[q])
        &&& forall|q: int|
            0 <= q < h.len() ==> i.in_class(
                ClassId((self.nominal_base + q) as u32),
                #[trigger] h[q],
            )
        &&& forall|p: int|
            0 <= p < self.property_assertions@.len() ==> ({
                let (from, role, to) = #[trigger] self.property_assertions@[p];
                from < h.len() && to < h.len() ==> i.role(role, h[from as int], h[to as int])
            })
        &&& forall|p: int|
            0 <= p < self.same_pairs@.len() ==> ({
                let (a, b) = #[trigger] self.same_pairs@[p];
                a < h.len() && b < h.len() ==> h[a as int] == h[b as int]
            })
    }
}

proof fn lemma_seed_pictures<D>(i: Interp<D>, seed: AboxSeed, h: Seq<D>)
    requires
        seed.wf(),
        seed.num_individuals > 0,
        seed.holds(i, h),
    ensures
        pictures(i, bare_graph(seed.nodes(), discrete(seed.num_individuals as nat), false), h),
{
    let w = certain(i);
    let g = bare_graph(seed.nodes(), discrete(seed.num_individuals as nat), false);
    assert forall|q: int| 0 <= q < g.nodes.len() implies #[trigger] node_true(w, g, h, q) by {
        let c = ClassId((seed.nominal_base + q) as u32);
        lemma_seed_node(q as u32, c);
        assert(g.nodes[q] == seed_node(q as u32, c));
        assert(i.in_class(c, h[q]));
    }
    assert forall|q: int| 0 <= q < h.len() implies h[q] == h[(#[trigger] g.root[q]).at()] by {
        assert(g.root[q] == HNode(q as u32));
    }
}

proof fn lemma_asserted_pictures<D>(
    i: Interp<D>,
    g: Graph,
    h: Seq<D>,
    ps: Seq<(u32, Role, u32)>,
    p: int,
)
    requires
        g.wf(),
        pictures(i, g, h),
        0 <= p,
        forall|q: int|
            0 <= q < ps.len() ==> ({
                let (from, role, to) = #[trigger] ps[q];
                from < h.len() && to < h.len() ==> i.role(role, h[from as int], h[to as int])
            }),
    ensures
        asserted(g, ps, p).wf(),
        pictures(i, asserted(g, ps, p), h),
    decreases ps.len() - p,
{
    if p < ps.len() {
        let (from, role, to) = ps[p];
        if g.valid(HNode(from)) && g.valid(HNode(to)) {
            lemma_edge_in(g, HNode(from), role, HNode(to));
            lemma_true_edge(certain(i), g, h, HNode(from), role, HNode(to));
            let g1 = edge_in(g, HNode(from), role, HNode(to));
            lemma_asserted_pictures(i, g1, h, ps, p + 1);
        } else {
            lemma_asserted_pictures(i, g, h, ps, p + 1);
        }
    }
}

proof fn lemma_same_pictures<D>(
    i: Interp<D>,
    k: Config,
    s: State,
    h: Seq<D>,
    ps: Seq<(u32, u32)>,
    p: int,
)
    requires
        s.wf(),
        pictures(i, s.g, h),
        0 <= p,
        forall|q: int|
            0 <= q < ps.len() ==> ({
                let (a, b) = #[trigger] ps[q];
                a < h.len() && b < h.len() ==> h[a as int] == h[b as int]
            }),
    ensures
        same_merged(k, s, ps, p).wf(),
        pictures(i, same_merged(k, s, ps, p).g, h),
    decreases ps.len() - p,
{
    if p < ps.len() {
        let (a, b) = ps[p];
        if s.g.valid(HNode(a)) && s.g.valid(HNode(b)) {
            lemma_true_merged(certain(i), k, s, h, HNode(a), HNode(b), DepSet::empty());
            lemma_merged(k, s, HNode(a), HNode(b), DepSet::empty());
            let s1 = merged(k, s, HNode(a), HNode(b), DepSet::empty()).0;
            lemma_same_pictures(i, k, s1, h, ps, p + 1);
        } else {
            lemma_same_pictures(i, k, s, h, ps, p + 1);
        }
    }
}

/// The state that a seeded search begins in pictures every interpretation in
/// which the assertions are true.
pub proof fn lemma_seed_state<D>(i: Interp<D>, k: Config, seed: AboxSeed, h: Seq<D>)
    requires
        seed.wf(),
        seed.num_individuals > 0,
        seed.holds(i, h),
    ensures
        seed.state(k).wf(),
        pictures(i, seed.state(k).g, h),
{
    let g0 = bare_graph(seed.nodes(), discrete(seed.num_individuals as nat), false);
    lemma_seed_nodes(seed);
    lemma_seed_pictures(i, seed, h);
    lemma_asserted_pictures(i, g0, h, seed.property_assertions@, 0);
    lemma_same_pictures(i, k, fresh_state(seed.graph()), h, seed.same_pairs@, 0);
}

proof fn lemma_same_merged_alike(k0: Config, k: Config, s: State, ps: Seq<(u32, u32)>, p: int)
    requires
        0 <= p,
    ensures
        same_merged(k0, s, ps, p) == same_merged(k, s, ps, p),
    decreases ps.len() - p,
{
    if p < ps.len() {
        let (a, b) = ps[p];
        let s1 = if s.g.valid(HNode(a)) && s.g.valid(HNode(b)) {
            merged(k, s, HNode(a), HNode(b), DepSet::empty()).0
        } else {
            s
        };
        lemma_same_merged_alike(k0, k, s1, ps, p + 1);
    }
}

/// What a seeded search begins with does not depend on how it is configured
/// later.
pub proof fn lemma_seed_state_alike(k0: Config, k: Config, seed: AboxSeed)
    ensures
        seed.state(k0) == seed.state(k),
{
    lemma_same_merged_alike(k0, k, fresh_state(seed.graph()), seed.same_pairs@, 0);
}

/// Assertions that are found inconsistent are true in no model of the
/// clauses.
pub proof fn lemma_abox_unsat_sound<D>(
    i: Interp<D>,
    k: Config,
    seed: AboxSeed,
    s0: State,
    s1: State,
    h: Seq<D>,
)
    requires
        coherent(k),
        seed.wf(),
        seed.num_individuals > 0,
        s0.wf(),
        s0.g.nodes == seed.state(k).g.nodes,
        s0.g.root == seed.state(k).g.root,
        s0.g.neq == seed.state(k).g.neq,
        reliable(k),
        solves(k, s0, k.init_depth as nat, s1, HyperResult::Unsat),
        i.models(k),
    ensures
        !seed.holds(i, h),
{
    if seed.holds(i, h) {
        lemma_seed_state(i, k, seed, h);
        let g = seed.state(k).g;
        let w = certain(i);
        assert(pictures(i, s0.g, h)) by {
            assert forall|q: int| 0 <= q < s0.g.nodes.len() implies #[trigger] node_true(
                w,
                s0.g,
                h,
                q,
            ) by {
                assert(node_true(w, g, h, q));
                assert forall|e: (Role, HNode)| #[trigger]
                    s0.g.nodes[q].edges.contains(e) && owed(
                        w,
                        s0.g,
                        HNode(q as u32),
                        e.1,
                    ) implies w.i.role(e.0, h[q], h[e.1.at()]) by {
                    assert(owed(w, g, HNode(q as u32), e.1));
                    assert(g.nodes[q].edges.contains(e));
                }
                assert forall|e: (Role, HNode)| #[trigger]
                    s0.g.nodes[q].preds.contains(e) && owed(
                        w,
                        s0.g,
                        e.1,
                        HNode(q as u32),
                    ) implies w.i.role(e.0, h[e.1.at()], h[q]) by {
                    assert(owed(w, g, e.1, HNode(q as u32)));
                    assert(g.nodes[q].preds.contains(e));
                }
            }
        }
        lemma_unsat_sound(i, k, s0, s1, h);
    }
}

/// In the graph of a single root each edge is recorded at its target: there
/// is none.
pub proof fn lemma_root_mirrored(g: Graph, c: ClassId)
    requires
        is_root_graph(g, c),
    ensures
        mirrored(g),
{
    lemma_seed_node(0, c);
    assert forall|a: HNode, r: Role, t: HNode|
        g.valid(a) && #[trigger] g.at(a).edges.contains((r, t)) implies g.valid(t) && g.at(
        t,
    ).preds.contains((r, a)) by {
        assert(g.at(a) == seed_node(0, c));
    }
}

proof fn lemma_asserted_mirrored(g: Graph, ps: Seq<(u32, Role, u32)>, p: int)
    requires
        g.wf(),
        mirrored(g),
        0 <= p,
    ensures
        asserted(g, ps, p).wf(),
        mirrored(asserted(g, ps, p)),
    decreases ps.len() - p,
{
    if p < ps.len() {
        let (from, role, to) = ps[p];
        if g.valid(HNode(from)) && g.valid(HNode(to)) {
            lemma_edge_in(g, HNode(from), role, HNode(to));
            lemma_mirrored_edge(g, HNode(from), role, HNode(to));
            lemma_asserted_mirrored(edge_in(g, HNode(from), role, HNode(to)), ps, p + 1);
        } else {
            lemma_asserted_mirrored(g, ps, p + 1);
        }
    }
}

proof fn lemma_same_mirrored(k: Config, s: State, ps: Seq<(u32, u32)>, p: int)
    requires
        s.wf(),
        mirrored(s.g),
        0 <= p,
    ensures
        mirrored(same_merged(k, s, ps, p).g),
    decreases ps.len() - p,
{
    if p < ps.len() {
        let (a, b) = ps[p];
        if s.g.valid(HNode(a)) && s.g.valid(HNode(b)) {
            lemma_merged(k, s, HNode(a), HNode(b), DepSet::empty());
            lemma_merged_in_order(k, s, HNode(a), HNode(b), DepSet::empty());
            lemma_same_mirrored(
                k,
                merged(k, s, HNode(a), HNode(b), DepSet::empty()).0,
                ps,
                p + 1,
            );
        } else {
            lemma_same_mirrored(k, s, ps, p + 1);
        }
    }
}

/// A seeded search begins with each edge recorded at its target.
pub proof fn lemma_seed_mirrored(k: Config, seed: AboxSeed)
    requires
        seed.num_individuals > 0,
    ensures
        mirrored(seed.state(k).g),
{
    let g0 = bare_graph(seed.nodes(), discrete(seed.num_individuals as nat), false);
    lemma_seed_nodes(seed);
    assert(mirrored(g0)) by {
        assert forall|a: HNode, r: Role, t: HNode|
            g0.valid(a) && #[trigger] g0.at(a).edges.contains((r, t)) implies g0.valid(t) && g0.at(
            t,
        ).preds.contains((r, a)) by {
            let c = ClassId((seed.nominal_base + a.at()) as u32);
            lemma_seed_node(a.0, c);
            assert(g0.at(a) == seed_node(a.0, c));
        }
    }
    lemma_asserted_mirrored(g0, seed.property_assertions@, 0);
    lemma_same_mirrored(k, fresh_state(seed.graph()), seed.same_pairs@, 0);
}

/// What a snapshot holds is true, with its nodes standing for elements as `h`
/// says.
pub open spec fn snapshot_true<D>(i: Interp<D>, s: SnapView, h: Seq<D>) -> bool {
    &&& h.len() == s.nodes.len()
    &&& forall|m: int| 0 <= m < h.len() ==> i.within(#[trigger] h[m])
    &&& forall|m: int, c: ClassId|
        0 <= m < s.nodes.len() && #[trigger] s.nodes[m].labels.contains(c) ==> i.in_class(c, h[m])
    &&& forall|m: int, j: int|
        0 <= m < s.edges.len() && 0 <= j < s.edges[m].len() ==> i.role(
            (#[trigger] s.edges[m][j]).role,
            h[m],
            h[s.edges[m][j].target as int],
        )
}

proof fn lemma_edges_linked_pictures<D>(
    i: Interp<D>,
    g: Graph,
    h: Seq<D>,
    m: int,
    es: Seq<SnapshotEdge>,
    j: int,
)
    requires
        g.wf(),
        pictures(i, g, h),
        0 <= m < g.nodes.len(),
        0 <= j,
        forall|q: int|
            0 <= q < es.len() ==> (#[trigger] es[q]).target < g.nodes.len() && i.role(
                es[q].role,
                h[m],
                h[es[q].target as int],
            ),
    ensures
        edges_linked(g, m, es, j).wf(),
        edges_linked(g, m, es, j).nodes.len() == g.nodes.len(),
        pictures(i, edges_linked(g, m, es, j), h),
    decreases es.len() - j,
{
    if j < es.len() {
        let a = HNode(m as u32);
        let b = HNode(es[j].target);
        assert(g.valid(a) && g.valid(b));
        lemma_edge_in(g, a, es[j].role, b);
        lemma_true_edge(certain(i), g, h, a, es[j].role, b);
        lemma_edges_linked_pictures(i, edge_in(g, a, es[j].role, b), h, m, es, j + 1);
    }
}

proof fn lemma_all_linked_pictures<D>(
    i: Interp<D>,
    g: Graph,
    h: Seq<D>,
    edges: Seq<Seq<SnapshotEdge>>,
    m: int,
)
    requires
        g.wf(),
        pictures(i, g, h),
        0 <= m,
        edges.len() <= g.nodes.len(),
        forall|p: int, q: int|
            0 <= p < edges.len() && 0 <= q < edges[p].len() ==> (#[trigger] edges[p][q]).target
                < g.nodes.len() && i.role(
                edges[p][q].role,
                h[p],
                h[edges[p][q].target as int],
            ),
    ensures
        pictures(i, all_linked(g, edges, m), h),
    decreases edges.len() - m,
{
    if m < edges.len() {
        let es = edges[m];
        assert forall|q: int| 0 <= q < es.len() implies (#[trigger] es[q]).target < g.nodes.len()
            && i.role(es[q].role, h[m], h[es[q].target as int]) by {
            assert(edges[m][q].target < g.nodes.len());
        }
        lemma_edges_linked_pictures(i, g, h, m, es, 0);
        lemma_all_linked_pictures(i, edges_linked(g, m, es, 0), h, edges, m + 1);
    }
}

/// A graph made from a snapshot pictures what the snapshot is true of.
pub proof fn lemma_replayed_pictures<D>(i: Interp<D>, s: SnapView, h: Seq<D>)
    requires
        s.wf(),
        snapshot_true(i, s, h),
    ensures
        pictures(i, replayed_graph(s), h),
{
    let w = certain(i);
    lemma_replayed_bare(s);
    let g = bare_graph(replayed_nodes(s), discrete(s.nodes.len()), true);
    assert(pictures(i, g, h)) by {
        assert forall|m: int| 0 <= m < g.nodes.len() implies #[trigger] node_true(w, g, h, m) by {
            assert(g.nodes[m] == replayed_node(m, s.nodes[m]));
            assert forall|c: ClassId| #[trigger] g.nodes[m].has(c) implies w.i.in_class(
                c,
                h[m],
            ) by {
                assert(s.nodes[m].labels.contains(c));
            }
        }
        assert forall|m: int| 0 <= m < h.len() implies h[m] == h[(#[trigger] g.root[m]).at()] by {
            assert(g.root[m] == HNode(m as u32));
        }
    }
    assert forall|p: int, q: int| 0 <= p < s.edges.len() && 0 <= q < s.edges[p].len() implies (
    #[trigger] s.edges[p][q]).target < g.nodes.len() && i.role(
        s.edges[p][q].role,
        h[p],
        h[s.edges[p][q].target as int],
    ) by {}
    lemma_all_linked_pictures(i, g, h, s.edges, 0);
}

/// A snapshot is true of what its graph pictured.
pub proof fn lemma_captured_true<D>(i: Interp<D>, g: Graph, seed: ClassId, h: Seq<D>)
    requires
        g.wf(),
        pictures(i, g, h),
    ensures
        snapshot_true(i, captured(g, seed), canonicals(g).map_values(|n: HNode| h[n.at()])),
{
    let w = certain(i);
    let s = captured(g, seed);
    let hs = canonicals(g);
    let hh = hs.map_values(|n: HNode| h[n.at()]);
    lemma_canon(g, g.nodes.len() as int);
    assert forall|m: int| 0 <= m < hh.len() implies i.within(#[trigger] hh[m]) by {
        assert(hs[m].at() < h.len());
        assert(w.i.within(h[hs[m].at()]));
    }
    assert forall|m: int, c: ClassId|
        0 <= m < s.nodes.len() && #[trigger] s.nodes[m].labels.contains(c) implies i.in_class(
        c,
        hh[m],
    ) by {
        let n = hs[m];
        assert(node_true(w, g, h, n.at()));
        assert(g.nodes[n.at()].has(c));
        lemma_full_active(w, g.nodes[n.at()].deps_of(c));
    }
    assert forall|m: int, j: int|
        0 <= m < s.edges.len() && 0 <= j < s.edges[m].len() implies i.role(
        (#[trigger] s.edges[m][j]).role,
        hh[m],
        hh[s.edges[m][j].target as int],
    ) by {
        let n = hs[m];
        assert(node_true(w, g, h, n.at()));
        assert(g.node_wf(g.nodes[n.at()], n.at()));
        let (r, t) = g.at(n).edges[j];
        assert(g.valid(g.at(n).edges[j].1));
        assert(g.nodes[n.at()].edges.contains((r, t)));
        lemma_full_active(w, g.at(t).birth_deps);
        assert(reached(w, g, t));
        let rt = g.root[t.at()];
        assert(rt.at() < g.root.len());
        assert(g.rep(rt) == rt);
        assert(h[t.at()] == h[g.root[t.at()].at()]);
        assert(canon(g, rt.at()).len() < hs.len());
        assert(hs[canon(g, rt.at()).len() as int] == rt);
        assert(s.edges[m][j] == SnapshotEdge { role: r, target: snap_id(g, rt) });
    }
}

/// `Unsat` from a replayed snapshot is right: the snapshot is true in no
/// model of the clauses.
pub proof fn lemma_replay_unsat_sound<D>(
    i: Interp<D>,
    k: Config,
    s: SnapView,
    s0: State,
    s1: State,
    h: Seq<D>,
)
    requires
        coherent(k),
        s.wf(),
        s0.wf(),
        s0.g == replayed_graph(s),
        reliable(k),
        solves(k, s0, k.init_depth as nat, s1, HyperResult::Unsat),
        i.models(k),
    ensures
        !snapshot_true(i, s, h),
{
    if snapshot_true(i, s, h) {
        lemma_replayed_pictures(i, s, h);
        lemma_unsat_sound(i, k, s0, s1, h);
    }
}

} // verus!
