//! What merging does to the graph and the worklist.

use vstd::prelude::*;
use crate::dep_set::DepSet;
use crate::graph::{grows, lemma_grows_trans, node_grows, Config, Event, State};
use crate::ids::{ClassId, HNode, Role};
use crate::node::{lemma_with_label, Card, NodeView};
use crate::queries::{apart, nominal};
use crate::rules::{
    bearer_from, cards_merged, constraints_merged, edge_in, edges_copied, joined_nodes, labelled,
    labels_copied, merged, nominal_cause, nominal_marked, nominal_merged, relinked, widened_birth,
};
use crate::rules_wf::{
    lemma_bearer, lemma_edge_in, lemma_edges_copied, lemma_labelled, lemma_labels_copied,
    lemma_linked_wf, lemma_merged, lemma_push_contains, lemma_widened_wf, lemma_with,
    lemma_work_grows, lemma_work_push,
};
use crate::unfolding::fact;
use crate::union_find::linked;

verus! {

/// Between the same nodes, nothing is lost from the graph or the worklist,
/// nothing is merged, and what is new is queued.
spec fn spreads(s0: State, s1: State) -> bool {
    &&& s1.g.nodes.len() == s0.g.nodes.len()
    &&& s1.g.root == s0.g.root
    &&& kept(s0, s1)
}

/// Nothing is lost from the graph or the worklist, and what is new is queued.
pub open spec fn kept(s0: State, s1: State) -> bool {
    &&& grows(s0.g, s1.g)
    &&& s1.stats == s0.stats
    &&& forall|n: HNode, c: Card|
        s0.g.valid(n) && #[trigger] s0.g.at(n).at_most.contains(c) ==> s1.g.at(n).at_most.contains(c)
    &&& s0.work.len() <= s1.work.len()
    &&& forall|i: int| 0 <= i < s0.work.len() ==> #[trigger] s1.work[i] == s0.work[i]
    &&& forall|e: Event| #[trigger] fact(s1.g, e) && !fact(s0.g, e) ==> s1.work.contains(e)
}

/// Node `j` was merged into node `i`. Neither had been merged away. Nothing is
/// lost, and what is new is queued.
pub open spec fn takes_in(s0: State, s1: State, i: HNode, j: HNode) -> bool {
    &&& s0.g.valid(i) && s0.g.valid(j)
    &&& s0.g.rep(i) == i && s0.g.rep(j) == j && i != j
    &&& s1.g.nodes.len() == s0.g.nodes.len()
    &&& s1.g.root == linked(s0.g.root, i, j)
    &&& kept(s0, s1)
}

/// What is queued stays queued.
pub proof fn lemma_kept_queued(s0: State, s1: State, e: Event)
    requires
        kept(s0, s1),
        s0.work.contains(e),
    ensures
        s1.work.contains(e),
{
    let q = choose|q: int| 0 <= q < s0.work.len() && s0.work[q] == e;
    assert(s1.work[q] == e);
}

proof fn lemma_kept_trans(a: State, b: State, c: State)
    requires
        a.g.nodes.len() <= b.g.nodes.len(),
        kept(a, b),
        kept(b, c),
    ensures
        kept(a, c),
{
    lemma_grows_trans(a.g, b.g, c.g);
    assert forall|n: HNode, x: Card|
        a.g.valid(n) && #[trigger] a.g.at(n).at_most.contains(x) implies c.g.at(n).at_most.contains(
        x,
    ) by {
        assert(b.g.at(n).at_most.contains(x));
    }
    assert forall|q: int| 0 <= q < a.work.len() implies #[trigger] c.work[q] == a.work[q] by {
        assert(b.work[q] == a.work[q]);
    }
    assert forall|e: Event| #[trigger] fact(c.g, e) && !fact(a.g, e) implies c.work.contains(e) by {
        if fact(b.g, e) {
            lemma_kept_queued(b, c, e);
        }
    }
}

proof fn lemma_labels_spread(
    s: State,
    n: HNode,
    labels: Seq<ClassId>,
    deps: Seq<DepSet>,
    cause: DepSet,
    i: int,
)
    requires
        s.wf(),
        s.g.valid(n),
        0 <= i,
    ensures
        spreads(s, labels_copied(s, n, labels, deps, cause, i)),
        forall|q: int|
            i <= q < labels.len() ==> labels_copied(s, n, labels, deps, cause, i).g.at(n).has(
                #[trigger] labels[q],
            ),
    decreases labels.len() - i,
{
    if i < labels.len() {
        let c = labels[i];
        let d = deps[i].joined(cause);
        lemma_labelled(s, n, c, d);
        let (s1, new) = labelled(s, n, c, d);
        assert(s.g.node_wf(s.g.nodes[n.at()], n.at()));
        lemma_with_label(s.g.at(n), c, d);
        lemma_push_contains(s.work, Event::Label(n, c));
        assert(spreads(s, s1)) by {
            assert forall|e: Event| #[trigger] fact(s1.g, e) && !fact(s.g, e) implies s1.work.contains(
                e,
            ) by {
                match e {
                    Event::Label(m, x) => {
                        assert(m == n && x == c);
                    },
                    Event::Edge(a, r, t) => {
                        assert(s1.g.at(a).edges == s.g.at(a).edges);
                    },
                    Event::NodeNew(m) => {},
                }
            }
        }
        lemma_widened_wf(s1.g, n, c, cause);
        let s2 = if !new && cause != DepSet::empty() {
            State { g: s1.g.with(n, s1.g.at(n).widened(c, cause)), ..s1 }
        } else {
            s1
        };
        lemma_work_grows(s1.g, s2.g, s1.work);
        assert(spreads(s1, s2)) by {
            assert forall|e: Event| #[trigger] fact(s2.g, e) implies fact(s1.g, e) by {
                match e {
                    Event::Label(m, x) => {
                        assert(s2.g.at(m).labels == s1.g.at(m).labels);
                    },
                    Event::Edge(a, r, t) => {
                        assert(s2.g.at(a).edges == s1.g.at(a).edges);
                    },
                    Event::NodeNew(m) => {},
                }
            }
        }
        lemma_kept_trans(s, s1, s2);
        lemma_labels_spread(s2, n, labels, deps, cause, i + 1);
        lemma_kept_trans(s, s2, labels_copied(s2, n, labels, deps, cause, i + 1));
        assert(s2.g.at(n).has(c));
        assert(node_grows(
            s2.g.nodes[n.at()],
            labels_copied(s2, n, labels, deps, cause, i + 1).g.nodes[n.at()],
        ));
    } else {
        lemma_spreads_refl(s);
    }
}

proof fn lemma_spreads_refl(s: State)
    ensures
        spreads(s, s),
{
}

proof fn lemma_edges_spread(s: State, n: HNode, edges: Seq<(Role, HNode)>, i: int)
    requires
        s.wf(),
        s.g.valid(n),
        0 <= i,
        forall|j: int| 0 <= j < edges.len() ==> s.g.valid((#[trigger] edges[j]).1),
    ensures
        spreads(s, edges_copied(s, n, edges, i)),
        forall|q: int|
            i <= q < edges.len() ==> edges_copied(s, n, edges, i).g.at(n).edges.contains(
                #[trigger] edges[q],
            ),
    decreases edges.len() - i,
{
    if i < edges.len() {
        let (r, t) = edges[i];
        assert(s.g.valid(edges[i].1));
        lemma_edge_in(s.g, n, r, t);
        let f = Event::Edge(n, r, t);
        let s1 = State { g: edge_in(s.g, n, r, t), work: s.work.push(f), ..s };
        lemma_work_grows(s.g, s1.g, s.work);
        lemma_work_push(s1.g, s.work, f);
        lemma_push_contains(s.work, f);
        lemma_push_contains(s.g.at(n).edges, (r, t));
        assert(spreads(s, s1)) by {
            assert forall|e: Event| #[trigger] fact(s1.g, e) && !fact(s.g, e) implies s1.work.contains(
                e,
            ) by {
                match e {
                    Event::Label(m, x) => {
                        assert(s1.g.at(m).labels == s.g.at(m).labels);
                    },
                    Event::Edge(a, q, b) => {
                        if a == n {
                            assert(s1.g.at(a).edges == s.g.at(a).edges.push((r, t)));
                            assert((q, b) == (r, t));
                        } else {
                            assert(s1.g.at(a).edges == s.g.at(a).edges);
                        }
                    },
                    Event::NodeNew(m) => {},
                }
            }
        }
        assert forall|j: int| 0 <= j < edges.len() implies s1.g.valid((#[trigger] edges[j]).1) by {
            assert(s.g.valid(edges[j].1));
        }
        lemma_edges_spread(s1, n, edges, i + 1);
        lemma_kept_trans(s, s1, edges_copied(s1, n, edges, i + 1));
        assert(s1.g.at(n).edges.contains((r, t)));
        assert(node_grows(
            s1.g.nodes[n.at()],
            edges_copied(s1, n, edges, i + 1).g.nodes[n.at()],
        ));
    } else {
        lemma_spreads_refl(s);
    }
}

proof fn lemma_cards_kept(a: Seq<Card>, b: Seq<Card>)
    ensures
        forall|c: Card| #[trigger] a.contains(c) ==> cards_merged(a, b).contains(c),
    decreases b.len(),
{
    if b.len() > 0 {
        let r = b.drop_last();
        lemma_cards_kept(a, r);
        lemma_push_contains(cards_merged(a, r), b.last());
    }
}

/// Replacing a node by one with the same labels and edges, and no fewer
/// constraints.
proof fn lemma_node_spread(s: State, n: HNode, u: NodeView)
    requires
        s.g.valid(n),
        u.labels == s.g.at(n).labels,
        u.edges == s.g.at(n).edges,
        u.preds == s.g.at(n).preds,
        s.g.at(n).nn_tainted ==> u.nn_tainted,
        s.g.at(n).parent is Some ==> u.parent == s.g.at(n).parent && u.parent_role == s.g.at(
            n,
        ).parent_role,
        forall|c: Card| #[trigger] s.g.at(n).at_most.contains(c) ==> u.at_most.contains(c),
    ensures
        spreads(s, State { g: s.g.with(n, u), ..s }),
{
    let s1 = State { g: s.g.with(n, u), ..s };
    assert forall|e: Event| #[trigger] fact(s1.g, e) implies fact(s.g, e) by {
        match e {
            Event::Label(m, x) => {
                assert(s1.g.at(m).labels == s.g.at(m).labels);
            },
            Event::Edge(a, r, t) => {
                assert(s1.g.at(a).edges == s.g.at(a).edges);
            },
            Event::NodeNew(m) => {},
        }
    }
    assert forall|m: HNode, c: Card|
        s.g.valid(m) && #[trigger] s.g.at(m).at_most.contains(c) implies s1.g.at(
        m,
    ).at_most.contains(c) by {}
}

/// Merging two nodes that were not merged away gives the one the labels and
/// edges of the other.
pub proof fn lemma_joined_takes_in(s: State, i: HNode, j: HNode, cause: DepSet)
    requires
        s.wf(),
        s.g.valid(i),
        s.g.valid(j),
        s.g.rep(i) == i,
        s.g.rep(j) == j,
        i != j,
    ensures
        takes_in(s, joined_nodes(s, i, j, cause), i, j),
        forall|c: ClassId| #[trigger]
            s.g.at(j).has(c) ==> joined_nodes(s, i, j, cause).g.at(i).has(c),
        forall|e: (Role, HNode)| #[trigger]
            s.g.at(j).edges.contains(e) ==> joined_nodes(s, i, j, cause).g.at(i).edges.contains(e),
{
    lemma_linked_wf(s.g, i, j);
    let g0 = relinked(s.g, i, j);
    let sr = State { g: g0, ..s };
    assert(kept(s, sr)) by {
        assert forall|e: Event| #[trigger] fact(g0, e) implies fact(s.g, e) by {
            let m = match e {
                Event::Label(m, c) => m,
                Event::Edge(m, r, t) => m,
                Event::NodeNew(m) => m,
            };
            assert(g0.root[m.at()] == if s.g.root[m.at()] == j {
                i
            } else {
                s.g.root[m.at()]
            });
        }
    }
    assert(g0.node_wf(g0.nodes[i.at()], i.at()));
    lemma_with(g0, i, widened_birth(g0.at(i), cause));
    let g1 = if cause != DepSet::empty() {
        g0.with(i, widened_birth(g0.at(i), cause))
    } else {
        g0
    };
    assert(grows(s.g, g0));
    lemma_grows_trans(s.g, g0, g1);
    lemma_work_grows(s.g, g1, s.work);
    let s1 = State { g: g1, ..s };
    lemma_node_spread(sr, i, widened_birth(g0.at(i), cause));
    lemma_spreads_refl(sr);
    lemma_kept_trans(s, sr, s1);
    let vj = g1.at(j);
    assert(g1.node_wf(g1.nodes[j.at()], j.at()));
    lemma_labels_copied(s1, i, vj.labels, vj.label_deps, cause, 0);
    lemma_labels_spread(s1, i, vj.labels, vj.label_deps, cause, 0);
    let s2 = labels_copied(s1, i, vj.labels, vj.label_deps, cause, 0);
    lemma_kept_trans(s, s1, s2);
    assert forall|q: int| 0 <= q < vj.edges.len() implies s2.g.valid((#[trigger] vj.edges[q]).1) by {
        assert(g1.valid(vj.edges[q].1));
    }
    lemma_edges_copied(s2, i, vj.edges, 0);
    lemma_edges_spread(s2, i, vj.edges, 0);
    let s3 = edges_copied(s2, i, vj.edges, 0);
    lemma_kept_trans(s, s2, s3);
    lemma_cards_kept(s3.g.at(i).at_most, s3.g.at(j).at_most);
    lemma_node_spread(s3, i, constraints_merged(s3.g.at(i), s3.g.at(j)));
    let s4 = State { g: s3.g.with(i, constraints_merged(s3.g.at(i), s3.g.at(j))), ..s3 };
    lemma_kept_trans(s, s3, s4);
    assert(s4 == joined_nodes(s, i, j, cause));
    assert(node_grows(s2.g.nodes[i.at()], s4.g.nodes[i.at()]));
    assert forall|c: ClassId| #[trigger] s.g.at(j).has(c) implies s4.g.at(i).has(c) by {
        let q = vj.labels.index_of(c);
        assert(vj.labels[q] == c);
    }
    assert forall|e: (Role, HNode)| #[trigger] s.g.at(j).edges.contains(e) implies s4.g.at(
        i,
    ).edges.contains(e) by {
        let q = vj.edges.index_of(e);
        assert(vj.edges[q] == e);
    }
}

/// Merging for a nominal merges another node that bears it into the node, or
/// none, if there is no other.
pub proof fn lemma_nominal_takes_in(k: Config, s: State, n: HNode, c: ClassId)
    requires
        s.wf(),
        s.g.valid(n),
        nominal_merged(k, s, n, c).1 !is Clash,
    ensures
        ({
            let s1 = nominal_merged(k, s, n, c).0;
            let i = s.g.rep(n);
            let other = bearer_from(s.g, i, c, 0);
            if nominal(k, c) && other is Some {
                takes_in(s, s1, i, other->0) && s.g.at(other->0).has(c)
            } else {
                s1 == s
            }
        }),
{
    if nominal(k, c) {
        let i = s.g.rep(n);
        assert(s.g.root[n.at()].at() < s.g.root.len());
        lemma_bearer(s.g, i, c, 0);
        if let Some(j) = bearer_from(s.g, i, c, 0) {
            let cause0 = nominal_cause(s.g, n, j, c);
            let cause = if k.nn_taint_disabled {
                DepSet::empty()
            } else {
                cause0
            };
            assert(!apart(s.g, i, j));
            lemma_merged(k, s, i, j, cause0);
            let s1 = merged(k, s, i, j, cause0).0;
            assert(s1 == joined_nodes(s, i, j, cause));
            lemma_joined_takes_in(s, i, j, cause);
            let surv = s1.g.rep(i);
            assert(s1.g.root[i.at()] == i);
            lemma_node_spread(s1, surv, nominal_marked(k, s1.g.at(surv), s.g.at(j).birth_deps));
            lemma_kept_trans(s, s1, nominal_merged(k, s, n, c).0);
        }
    }
}

} // verus!
