//! Successors that were made for a `≥n` are never merged with each other, so
//! that what was made to hold goes on holding.

use vstd::prelude::*;
use crate::clause::role_sat;
use crate::dep_set::DepSet;
use crate::graph::{node_grows, Config, Event, Graph, State};
use crate::ids::{ClassId, HNode, Role};
use crate::invariants::lemma_merged_neq;
use crate::joining::lemma_joined_takes_in;
use crate::node::Card;
use crate::queries::{apart, apart_by, nominal};
use crate::rules::{
    bearer_from, cards_merged, edge_in, edges_copied, joined_nodes, labelled, labels_copied, merged,
    nominal_cause, nominal_marked, nominal_merged, relinked, widened_birth,
};
use crate::rules_wf::{lemma_bearer, lemma_joined_nodes, lemma_merged, lemma_push_contains};
use crate::unfolding::{
    all_assured, assured, assures, coarser, lemma_merged_coarser, served, told_apart,
};

verus! {

/// The same `≤n` are asked for, and the same `≥n` are recorded as having been
/// made to hold.
spec fn same_records(g0: Graph, g1: Graph) -> bool {
    &&& g1.nodes.len() == g0.nodes.len()
    &&& forall|i: int|
        0 <= i < g0.nodes.len() ==> (#[trigger] g1.nodes[i]).at_least_done
            == g0.nodes[i].at_least_done && g1.nodes[i].at_most == g0.nodes[i].at_most
}

proof fn lemma_labels_copied_records(
    s: State,
    n: HNode,
    labels: Seq<ClassId>,
    deps: Seq<DepSet>,
    cause: DepSet,
    i: int,
)
    requires
        s.g.valid(n),
        0 <= i,
    ensures
        same_records(s.g, labels_copied(s, n, labels, deps, cause, i).g),
    decreases labels.len() - i,
{
    if i < labels.len() {
        let (s1, new) = labelled(s, n, labels[i], deps[i].joined(cause));
        let s2 = if !new && cause != DepSet::empty() {
            State { g: s1.g.with(n, s1.g.at(n).widened(labels[i], cause)), ..s1 }
        } else {
            s1
        };
        assert(same_records(s.g, s2.g));
        lemma_labels_copied_records(s2, n, labels, deps, cause, i + 1);
        let out = labels_copied(s, n, labels, deps, cause, i);
        assert forall|q: int| 0 <= q < s.g.nodes.len() implies (
        #[trigger] out.g.nodes[q]).at_least_done == s.g.nodes[q].at_least_done && out.g.nodes[q].at_most
            == s.g.nodes[q].at_most by {
            assert(s2.g.nodes[q].at_least_done == s.g.nodes[q].at_least_done);
        }
    }
}

proof fn lemma_edges_copied_records(s: State, n: HNode, edges: Seq<(Role, HNode)>, i: int)
    requires
        s.g.valid(n),
        0 <= i,
        forall|q: int| 0 <= q < edges.len() ==> s.g.valid((#[trigger] edges[q]).1),
    ensures
        same_records(s.g, edges_copied(s, n, edges, i).g),
    decreases edges.len() - i,
{
    if i < edges.len() {
        let (r, t) = edges[i];
        assert(s.g.valid(edges[i].1));
        let s2 = State {
            g: edge_in(s.g, n, r, t),
            work: s.work.push(Event::Edge(n, r, t)),
            ..s
        };
        assert(same_records(s.g, s2.g));
        assert forall|q: int| 0 <= q < edges.len() implies s2.g.valid((#[trigger] edges[q]).1) by {
            assert(s.g.valid(edges[q].1));
        }
        lemma_edges_copied_records(s2, n, edges, i + 1);
        let out = edges_copied(s, n, edges, i);
        assert forall|q: int| 0 <= q < s.g.nodes.len() implies (
        #[trigger] out.g.nodes[q]).at_least_done == s.g.nodes[q].at_least_done && out.g.nodes[q].at_most
            == s.g.nodes[q].at_most by {
            assert(s2.g.nodes[q].at_least_done == s.g.nodes[q].at_least_done);
        }
    }
}

/// The merged constraints are those of both.
proof fn lemma_cards_merged(a: Seq<Card>, b: Seq<Card>, c: Card)
    ensures
        cards_merged(a, b).contains(c) <==> a.contains(c) || b.contains(c),
    decreases b.len(),
{
    if b.len() > 0 {
        let r = b.drop_last();
        lemma_cards_merged(a, r, c);
        lemma_push_contains(cards_merged(a, r), b.last());
        assert(b =~= r.push(b.last()));
        lemma_push_contains(r, b.last());
    }
}

/// A node that takes another in is bound by the `≤n` of both, and has the
/// `≥n` of both recorded as made to hold. Nothing changes for others.
pub proof fn lemma_joined_constraints(s: State, i: HNode, j: HNode, cause: DepSet, n: HNode, c: Card)
    requires
        s.wf(),
        s.g.valid(i),
        s.g.valid(j),
        s.g.rep(i) == i,
        s.g.rep(j) == j,
        i != j,
        s.g.valid(n),
    ensures
        ({
            let g = joined_nodes(s, i, j, cause).g;
            &&& g.at(n).at_most.contains(c) <==> s.g.at(n).at_most.contains(c) || (n == i && s.g.at(
                j,
            ).at_most.contains(c))
            &&& g.at(n).at_least_done.contains(c) <==> s.g.at(n).at_least_done.contains(c) || (n
                == i && s.g.at(j).at_least_done.contains(c))
        }),
{
    let g0 = relinked(s.g, i, j);
    let g1 = if cause != DepSet::empty() {
        g0.with(i, widened_birth(g0.at(i), cause))
    } else {
        g0
    };
    let s1 = State { g: g1, ..s };
    let vj = g1.at(j);
    assert(s.g.node_wf(s.g.nodes[j.at()], j.at()));
    assert(same_records(s.g, g1));
    lemma_labels_copied_records(s1, i, vj.labels, vj.label_deps, cause, 0);
    let s2 = labels_copied(s1, i, vj.labels, vj.label_deps, cause, 0);
    assert forall|q: int| 0 <= q < vj.edges.len() implies s2.g.valid((#[trigger] vj.edges[q]).1) by {
        assert(s.g.valid(s.g.at(j).edges[q].1));
    }
    lemma_edges_copied_records(s2, i, vj.edges, 0);
    let s3 = edges_copied(s2, i, vj.edges, 0);
    assert forall|q: int| 0 <= q < s.g.nodes.len() implies (
    #[trigger] s3.g.nodes[q]).at_least_done == s.g.nodes[q].at_least_done && s3.g.nodes[q].at_most
        == s.g.nodes[q].at_most by {
        assert(s2.g.nodes[q].at_least_done == g1.nodes[q].at_least_done);
        assert(g1.nodes[q].at_least_done == s.g.nodes[q].at_least_done);
    }
    if n == i {
        lemma_cards_merged(s3.g.at(i).at_least_done, s3.g.at(j).at_least_done, c);
        lemma_cards_merged(s3.g.at(i).at_most, s3.g.at(j).at_most, c);
    }
}

/// Successors that will not be merged go on counting through a merge of
/// others, at the node that takes their source in.
proof fn lemma_assured_joined(
    k: Config,
    s: State,
    i: HNode,
    j: HNode,
    cause: DepSet,
    from: HNode,
    to: HNode,
    c: Card,
)
    requires
        s.wf(),
        s.g.valid(i),
        s.g.valid(j),
        s.g.rep(i) == i,
        s.g.rep(j) == j,
        i != j,
        !apart(s.g, i, j),
        joined_nodes(s, i, j, cause).g.neq == s.g.neq,
        coarser(s.g, joined_nodes(s, i, j, cause).g),
        s.g.valid(from),
        to == from || (from == j && to == i),
        assured(k, s.g, from, c),
    ensures
        assured(k, joined_nodes(s, i, j, cause).g, to, c),
{
    let g1 = joined_nodes(s, i, j, cause).g;
    lemma_joined_nodes(s, i, j, cause);
    lemma_joined_takes_in(s, i, j, cause);
    let ts = choose|ts: Seq<HNode>| #[trigger] assures(k, s.g, from, c, ts);
    assert forall|q: int| 0 <= q < ts.len() implies served(k, g1, to, c.0, c.1, #[trigger] ts[q]) by {
        let t = ts[q];
        assert(served(k, s.g, from, c.0, c.1, t));
        let e = choose|e: Role| #[trigger]
            s.g.at(from).edges.contains((e, t)) && role_sat(e, c.0, k.roles);
        assert(node_grows(s.g.nodes[from.at()], g1.nodes[from.at()]));
        assert(g1.at(to).edges.contains((e, t)));
        assert(g1.root[t.at()].at() < g1.root.len());
        if let Some(x) = c.1 {
            assert(s.g.at(s.g.rep(t)).has(x));
        }
    }
    assert forall|p: int, q: int| 0 <= p < q < ts.len() implies told_apart(
        g1,
        #[trigger] ts[p],
        #[trigger] ts[q],
    ) by {
        let (a, b) = (ts[p], ts[q]);
        assert(told_apart(s.g, a, b));
        assert(served(k, s.g, from, c.0, c.1, a) && served(k, s.g, from, c.0, c.1, b));
        let w = choose|w: (HNode, HNode)| #[trigger]
            s.g.neq.contains(w) && w.0.at() < s.g.root.len() && w.1.at() < s.g.root.len()
                && apart_by(s.g, w, a, b);
        let m = s.g.neq.index_of(w);
        assert(s.g.neq[m] == w);
        if g1.rep(a) == g1.rep(b) {
            assert(apart_by(s.g, s.g.neq[m], i, j));
            assert(apart(s.g, i, j));
        }
        assert(g1.neq.contains(w));
        assert(apart_by(g1, w, a, b));
    }
    assert(assures(k, g1, to, c, ts));
}

/// A merge leaves every `≥n` that was made to hold holding: nodes that were
/// made to be different are not merged.
pub proof fn lemma_merged_assured(k: Config, s: State, i0: HNode, j0: HNode, cause0: DepSet)
    requires
        s.wf(),
        s.g.valid(i0),
        s.g.valid(j0),
        all_assured(k, s.g),
    ensures
        all_assured(k, merged(k, s, i0, j0, cause0).0.g),
{
    let i = s.g.rep(i0);
    let j = s.g.rep(j0);
    assert(s.g.root[i0.at()].at() < s.g.root.len());
    assert(s.g.root[j0.at()].at() < s.g.root.len());
    let cause = if k.nn_taint_disabled {
        DepSet::empty()
    } else {
        cause0
    };
    if i != j && !apart(s.g, i, j) {
        let g1 = joined_nodes(s, i, j, cause).g;
        lemma_joined_nodes(s, i, j, cause);
        lemma_merged_neq(k, s, i0, j0, cause0);
        lemma_merged_coarser(k, s, i0, j0, cause0);
        assert forall|n: HNode, c: Card|
            g1.valid(n) && #[trigger] g1.at(n).at_least_done.contains(c) implies assured(
            k,
            g1,
            n,
            c,
        ) by {
            lemma_joined_constraints(s, i, j, cause, n, c);
            if s.g.at(n).at_least_done.contains(c) {
                lemma_assured_joined(k, s, i, j, cause, n, n, c);
            } else {
                lemma_assured_joined(k, s, i, j, cause, j, i, c);
            }
        }
    }
}

/// As [`lemma_merged_assured`], for a merge for a nominal.
pub proof fn lemma_nominal_assured(k: Config, s: State, n: HNode, c: ClassId)
    requires
        s.wf(),
        s.g.valid(n),
        all_assured(k, s.g),
    ensures
        all_assured(k, nominal_merged(k, s, n, c).0.g),
{
    let rn = s.g.rep(n);
    assert(s.g.root[n.at()].at() < s.g.root.len());
    lemma_bearer(s.g, rn, c, 0);
    if let Some(m) = bearer_from(s.g, rn, c, 0) {
        let cause = nominal_cause(s.g, n, m, c);
        lemma_merged_assured(k, s, rn, m, cause);
        lemma_merged(k, s, rn, m, cause);
        let (s1, clash) = merged(k, s, rn, m, cause);
        if nominal(k, c) && !clash {
            let surv = s1.g.rep(rn);
            let g2 = s1.g.with(surv, nominal_marked(k, s1.g.at(surv), s.g.at(m).birth_deps));
            assert forall|x: HNode, d: Card|
                g2.valid(x) && #[trigger] g2.at(x).at_least_done.contains(d) implies assured(
                k,
                g2,
                x,
                d,
            ) by {
                assert(s1.g.at(x).at_least_done.contains(d));
                let ts = choose|ts: Seq<HNode>| #[trigger] assures(k, s1.g, x, d, ts);
                assert forall|q: int| 0 <= q < ts.len() implies served(
                    k,
                    g2,
                    x,
                    d.0,
                    d.1,
                    #[trigger] ts[q],
                ) by {
                    assert(served(k, s1.g, x, d.0, d.1, ts[q]));
                    let e = choose|e: Role| #[trigger]
                        s1.g.at(x).edges.contains((e, ts[q])) && role_sat(e, d.0, k.roles);
                    assert(g2.at(x).edges.contains((e, ts[q])));
                }
                assert forall|p: int, q: int| 0 <= p < q < ts.len() implies told_apart(
                    g2,
                    #[trigger] ts[p],
                    #[trigger] ts[q],
                ) by {
                    assert(told_apart(s1.g, ts[p], ts[q]));
                    let w = choose|w: (HNode, HNode)| #[trigger]
                        s1.g.neq.contains(w) && w.0.at() < s1.g.root.len() && w.1.at()
                            < s1.g.root.len() && apart_by(s1.g, w, ts[p], ts[q]);
                    assert(g2.neq.contains(w) && apart_by(g2, w, ts[p], ts[q]));
                }
                assert(assures(k, g2, x, d, ts));
            }
        }
    }
}

} // verus!
