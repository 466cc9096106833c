//! Too many successors that no merge can bring together refute a graph.

use vstd::prelude::*;
use crate::clause::{role_sat, HierarchyView, Var};
use crate::dep_set::DepSet;
use crate::graph::{Config, Graph};
use crate::ids::{ClassId, HNode, Role};
use crate::index::{lemma_pairs_of, pairs_of, says_disjoint};
use crate::node::{lemma_slot_at, Card};
use crate::queries::{
    apart, card_deps, clique, join_nodes, labels_clash, open_at_most_from, qualifies, role_succ,
    successors, unmergeable,
};
use crate::semantics::lemma_role_sat;
use crate::truth::{
    alive, bounded, lemma_alive, lemma_empty, lemma_full_active, lemma_join_all, lemma_joined,
    node_true, owed, reached, true_in, World,
};
use crate::truth_merge::lemma_apart_differ;
use crate::truth_rules::refuted;

verus! {

/// All that the node depends on is true.
pub open spec fn present<D>(w: World<D>, g: Graph, n: HNode) -> bool {
    &&& w.active(g.at(n).birth_deps)
    &&& forall|c: ClassId| #[trigger] g.at(n).has(c) ==> w.active(g.at(n).deps_of(c))
}

/// If all decisions are true, all that a node depends on is.
pub proof fn lemma_full_present<D>(w: World<D>, g: Graph, h: Seq<D>, n: HNode)
    requires
        w.full(),
        g.valid(n),
        true_in(w, g, h),
    ensures
        present(w, g, n),
{
    assert(node_true(w, g, h, n.at()));
    assert forall|c: ClassId| #[trigger] g.at(n).has(c) implies w.active(g.at(n).deps_of(c)) by {
        lemma_full_active(w, g.at(n).deps_of(c));
    }
}

/// Nodes with disjoint labels stand for different elements.
pub proof fn lemma_labels_differ<D>(w: World<D>, k: Config, g: Graph, h: Seq<D>, a: HNode, b: HNode)
    requires
        g.wf(),
        g.valid(a),
        g.valid(b),
        true_in(w, g, h),
        w.buried is None,
        w.i.satisfies(k.clauses),
        pairs_of(k.disjoint, k.clauses, k.clauses.len() as int),
        labels_clash(k, g, a, b),
        present(w, g, g.rep(a)),
        present(w, g, g.rep(b)),
    ensures
        h[a.at()] != h[b.at()],
{
    let (ra, rb) = (g.rep(a), g.rep(b));
    assert(g.root[a.at()].at() < g.root.len());
    assert(g.root[b.at()].at() < g.root.len());
    assert(h[a.at()] == h[g.root[a.at()].at()]);
    assert(h[b.at()] == h[g.root[b.at()].at()]);
    let (ca, cb) = choose|ca: ClassId, cb: ClassId|
        #![trigger g.at(g.rep(a)).has(ca), g.at(g.rep(b)).has(cb)]
        {
            &&& g.at(g.rep(a)).has(ca)
            &&& g.at(g.rep(b)).has(cb)
            &&& ca != cb
            &&& crate::index::disjoint_in(k.disjoint, ca, cb)
        };
    assert(node_true(w, g, h, ra.at()));
    assert(node_true(w, g, h, rb.at()));
    assert(w.i.in_class(ca, h[ra.at()]));
    assert(w.i.in_class(cb, h[rb.at()]));
    if h[a.at()] == h[b.at()] {
        lemma_pairs_of(k.disjoint, k.clauses, ca, cb);
        let i = choose|i: int| 0 <= i < k.clauses.len() && #[trigger] says_disjoint(
            k.clauses[i],
            ca,
            cb,
        );
        let cl = k.clauses[i];
        let e = h[a.at()];
        let v = |z: Var| e;
        assert(w.i.within(h[a.at()]));
        assert(w.i.valuation(v));
        assert(w.i.clause(cl));
        assert(w.i.all(cl.body, v)) by {
            assert forall|q: int| 0 <= q < cl.body.len() implies w.i.atom(#[trigger] cl.body[q], v) by {
                assert(q == 0 || q == 1);
            }
        }
        assert(w.i.any(cl.head, v));
    }
}

/// The edges along which the successors were found.
pub proof fn lemma_role_succ_from(
    g: Graph,
    h: Option<HierarchyView>,
    edges: Seq<(Role, HNode)>,
    role: Role,
    qual: Option<ClassId>,
    s: HNode,
)
    requires
        role_succ(g, h, edges, role, qual).contains(s),
    ensures
        exists|e: (Role, HNode)| #[trigger]
            edges.contains(e) && role_sat(e.0, role, h) && g.rep(e.1) == s && qualifies(
                g.at(s),
                qual,
            ),
    decreases edges.len(),
{
    if edges.len() > 0 {
        let r = edges.drop_last();
        let seen = role_succ(g, h, r, role, qual);
        if seen.contains(s) {
            lemma_role_succ_from(g, h, r, role, qual, s);
            let e = choose|e: (Role, HNode)| #[trigger]
                r.contains(e) && role_sat(e.0, role, h) && g.rep(e.1) == s && qualifies(
                    g.at(s),
                    qual,
                );
            let j = r.index_of(e);
            assert(edges[j] == e);
            assert(edges.contains(e));
        } else {
            let e = edges.last();
            let all = role_succ(g, h, edges, role, qual);
            let p = choose|p: int| 0 <= p < all.len() && all[p] == s;
            assert(all == seen.push(g.rep(e.1)));
            if p < seen.len() {
                assert(seen[p] == s);
            }
            assert(edges[edges.len() - 1] == e);
            assert(edges.contains(e));
        }
    }
}

/// A successor whose dependencies are true counts at the node's element.
pub proof fn lemma_successor_counts<D>(
    w: World<D>,
    k: Config,
    g: Graph,
    h: Seq<D>,
    n: HNode,
    role: Role,
    qual: Option<ClassId>,
    s: HNode,
)
    requires
        g.wf(),
        g.valid(n),
        true_in(w, g, h),
        w.buried is None,
        w.i.respects(k.roles),
        successors(k, g, n, role, qual).contains(s),
        alive(w, g, n),
        present(w, g, s),
    ensures
        g.valid(s),
        w.i.counts(role, qual, h[n.at()], h[s.at()]),
{
    let edges = g.at(n).edges;
    lemma_role_succ_from(g, k.roles, edges, role, qual, s);
    let e = choose|e: (Role, HNode)| #[trigger]
        edges.contains(e) && role_sat(e.0, role, k.roles) && g.rep(e.1) == s && qualifies(
            g.at(s),
            qual,
        );
    let j = edges.index_of(e);
    assert(g.node_wf(g.nodes[n.at()], n.at()));
    assert(g.valid(edges[j].1));
    assert(g.root[e.1.at()].at() < g.root.len());
    assert(alive(w, g, s));
    assert(h[e.1.at()] == h[g.root[e.1.at()].at()]);
    assert(node_true(w, g, h, n.at()));
    assert(reached(w, g, e.1));
    assert(HNode(n.at() as u32) == n);
    assert(owed(w, g, n, e.1));
    assert(w.i.role(e.0, h[n.at()], h[e.1.at()]));
    lemma_role_sat(w.i, k.roles, e.0, role, h[n.at()], h[s.at()]);
    assert(node_true(w, g, h, s.at()));
    if let Some(q) = qual {
        assert(g.at(s).has(q));
        assert(w.active(g.at(s).deps_of(q)));
    }
}

/// The nodes picked are successors, and no two of them can be merged.
proof fn lemma_clique(k: Config, g: Graph, succs: Seq<HNode>)
    ensures
        forall|i: int|
            0 <= i < clique(k, g, succs).len() ==> succs.contains(
                #[trigger] clique(k, g, succs)[i],
            ),
        forall|i: int, j: int|
            0 <= i < j < clique(k, g, succs).len() ==> unmergeable(
                k,
                g,
                #[trigger] clique(k, g, succs)[i],
                #[trigger] clique(k, g, succs)[j],
            ),
    decreases succs.len(),
{
    if succs.len() > 0 {
        let r = succs.drop_last();
        lemma_clique(k, g, r);
        let c = clique(k, g, r);
        let all = clique(k, g, succs);
        assert forall|i: int| 0 <= i < all.len() implies succs.contains(#[trigger] all[i]) by {
            if i < c.len() {
                assert(all[i] == c[i]);
                assert(r.contains(c[i]));
                let p = r.index_of(c[i]);
                assert(succs[p] == c[i]);
            } else {
                assert(succs[succs.len() - 1] == all[i]);
            }
        }
        assert forall|i: int, j: int| 0 <= i < j < all.len() implies unmergeable(
            k,
            g,
            #[trigger] all[i],
            #[trigger] all[j],
        ) by {
            assert(all[i] == c[i]);
            if j < c.len() {
                assert(all[j] == c[j]);
            }
        }
    }
}

/// What the union of dependencies of nodes says of them.
proof fn lemma_join_nodes<D>(w: World<D>, g: Graph, h: Seq<D>, acc: DepSet, ns: Seq<HNode>)
    requires
        g.wf(),
        true_in(w, g, h),
        forall|i: int| 0 <= i < ns.len() ==> g.valid(#[trigger] ns[i]),
    ensures
        w.active(join_nodes(g, acc, ns)) ==> w.active(acc) && forall|i: int|
            0 <= i < ns.len() ==> present(w, g, g.rep(#[trigger] ns[i])),
    decreases ns.len(),
{
    if ns.len() > 0 {
        let r = ns.drop_last();
        assert forall|i: int| 0 <= i < r.len() implies g.valid(#[trigger] r[i]) by {
            assert(g.valid(ns[i]));
        }
        lemma_join_nodes(w, g, h, acc, r);
        let l = ns.last();
        assert(g.valid(ns[ns.len() - 1]));
        assert(g.root[l.at()].at() < g.root.len());
        let m = g.rep(l);
        let v = g.at(m);
        assert(node_true(w, g, h, m.at()));
        assert(g.node_wf(g.nodes[m.at()], m.at()));
        let a0 = join_nodes(g, acc, r);
        lemma_joined(w, a0, v.birth_deps);
        lemma_join_all(w, a0.joined(v.birth_deps), v.label_deps);
        if w.active(join_nodes(g, acc, ns)) {
            assert(present(w, g, m)) by {
                assert forall|c: ClassId| #[trigger] v.has(c) implies w.active(v.deps_of(c)) by {
                    let i = v.labels.index_of(c);
                    lemma_slot_at(v.labels, i);
                    assert(w.active(v.label_deps[i]));
                }
            }
            assert forall|i: int| 0 <= i < ns.len() implies present(
                w,
                g,
                g.rep(#[trigger] ns[i]),
            ) by {
                if i < r.len() {
                    assert(r[i] == ns[i]);
                }
            }
        }
    }
}

/// `succs` are the successors of `n` that its constraint `c` counts.
pub open spec fn counted_by(k: Config, g: Graph, n: HNode, c: Card, succs: Seq<HNode>) -> bool {
    g.at(n).at_most.contains(c) && succs == successors(k, g, n, c.0, c.1)
}

/// What is found is a node that was not merged away, and the successors that
/// one of its constraints counts.
pub proof fn lemma_open_at_most(k: Config, g: Graph, i: int, j: int)
    requires
        g.wf(),
        0 <= i,
        0 <= j,
    ensures
        open_at_most_from(k, g, i, j) matches Some((n, s, bound)) ==> g.valid(n) && g.rep(n) == n
            && exists|c: Card| c.2 == bound && #[trigger] counted_by(k, g, n, c, s),
    decreases g.nodes.len() - i, g.nodes[i].at_most.len() - j,
{
    if i < g.nodes.len() {
        if g.root[i].at() != i || j >= g.nodes[i].at_most.len() {
            lemma_open_at_most(k, g, i + 1, 0);
        } else {
            let c = g.nodes[i].at_most[j];
            let m = HNode(i as u32);
            let s = successors(k, g, m, c.0, c.1);
            if s.len() > c.2 {
                assert(g.rep(m) == m);
                let (found, counted, bound) = open_at_most_from(k, g, i, j)->0;
                assert(found == m && bound == c.2);
                assert(counted_by(k, g, found, c, counted));
            } else {
                lemma_open_at_most(k, g, i, j + 1);
            }
        }
    }
}

/// A bound that pairwise different successors exceed is not true.
pub proof fn lemma_card_refuted<D>(
    w: World<D>,
    k: Config,
    g: Graph,
    h: Seq<D>,
    n: HNode,
    role: Role,
    qual: Option<ClassId>,
    bound: u32,
)
    requires
        g.wf(),
        g.valid(n),
        g.rep(n) == n,
        true_in(w, g, h),
        w.buried is None,
        w.i.models(k),
        pairs_of(k.disjoint, k.clauses, k.clauses.len() as int),
        g.at(n).at_most.contains((role, qual, bound)),
        clique(k, g, successors(k, g, n, role, qual)).len() > bound,
    ensures
        refuted(w, card_deps(k, g, n, successors(k, g, n, role, qual))),
{
    let succs = successors(k, g, n, role, qual);
    let c = clique(k, g, succs);
    let cd = card_deps(k, g, n, succs);
    assert(g.node_wf(g.nodes[n.at()], n.at()));
    crate::queries::lemma_role_succ_valid(g, k.roles, g.at(n).edges, role, qual);
    assert forall|i: int| 0 <= i < succs.len() implies g.valid(#[trigger] succs[i]) && g.rep(
        succs[i],
    ) == succs[i] by {}
    lemma_clique(k, g, succs);
    lemma_empty(w);
    assert(node_true(w, g, h, n.at()));
    let ns = seq![n] + succs;
    assert forall|i: int| 0 <= i < ns.len() implies g.valid(#[trigger] ns[i]) by {
        if i > 0 {
            assert(ns[i] == succs[i - 1]);
        }
    }
    lemma_join_nodes(w, g, h, g.at(n).at_most_dep, ns);
    if w.active(cd) {
        assert forall|i: int| 0 <= i < succs.len() implies present(w, g, #[trigger] succs[i]) by {
            if cd == DepSet::all() {
                lemma_full_present(w, g, h, succs[i]);
            } else {
                assert(ns[i + 1] == succs[i]);
                assert(present(w, g, g.rep(ns[i + 1])));
            }
        }
        assert(bounded(w, g.at(n)) && alive(w, g, n)) by {
            if cd == DepSet::all() {
                lemma_full_active(w, g.at(n).at_most_dep);
                lemma_alive(w, g, n);
            } else {
                assert(ns[0] == n);
                assert(present(w, g, g.rep(ns[0])));
            }
        }
        assert(w.i.at_most(role, qual, bound, h[n.at()]));
        let es = c.map_values(|m: HNode| h[m.at()]);
        assert(es.no_duplicates()) by {
            assert forall|i: int, j: int| 0 <= i < j < es.len() implies es[i] != es[j] by {
                let (a, b) = (c[i], c[j]);
                assert(unmergeable(k, g, a, b));
                assert(succs.contains(c[i]) && succs.contains(c[j]));
                let p = succs.index_of(a);
                let q = succs.index_of(b);
                assert(succs[p] == a && succs[q] == b);
                if labels_clash(k, g, a, b) {
                    lemma_labels_differ(w, k, g, h, a, b);
                } else {
                    assert(apart(g, a, b));
                    if cd == DepSet::all() {
                        lemma_apart_differ(w, g, h, a, b);
                    } else {
                        lemma_apart_sym(k, g, a, b);
                        assert(p != q);
                        assert(crate::queries::apart_only(k, g, succs));
                    }
                }
            }
        }
        assert forall|i: int| 0 <= i < es.len() implies w.i.counts(
            role,
            qual,
            h[n.at()],
            #[trigger] es[i],
        ) by {
            assert(succs.contains(c[i]));
            let p = succs.index_of(c[i]);
            assert(present(w, g, succs[p]));
            lemma_successor_counts(w, k, g, h, n, role, qual, c[i]);
        }
        assert(w.i.counted(role, qual, h[n.at()], es));
    }
}

proof fn lemma_apart_sym(k: Config, g: Graph, a: HNode, b: HNode)
    ensures
        apart(g, a, b) == apart(g, b, a),
        labels_clash(k, g, a, b) == labels_clash(k, g, b, a),
{
    assert forall|x: HNode, y: HNode| #[trigger] apart(g, x, y) implies apart(g, y, x) by {
        let i = choose|i: int| 0 <= i < g.neq.len() && crate::queries::apart_by(g, #[trigger] g.neq[i], x, y);
        assert(crate::queries::apart_by(g, g.neq[i], y, x));
    }
    assert forall|x: HNode, y: HNode| #[trigger] labels_clash(k, g, x, y) implies labels_clash(k, g, y, x) by {
        let (ca, cb) = choose|ca: ClassId, cb: ClassId|
            #![trigger g.at(g.rep(x)).has(ca), g.at(g.rep(y)).has(cb)]
            {
                &&& g.at(g.rep(x)).has(ca)
                &&& g.at(g.rep(y)).has(cb)
                &&& ca != cb
                &&& crate::index::disjoint_in(k.disjoint, ca, cb)
            };
        assert(crate::index::disjoint_in(k.disjoint, cb, ca));
        assert(g.at(g.rep(y)).has(cb) && g.at(g.rep(x)).has(ca));
    }
}

} // verus!
