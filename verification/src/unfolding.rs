//! The rules of Horn saturation only add to the graph, and queue what they
//! add.

use vstd::prelude::*;
use crate::clause::{role_sat, Atom, Var};
use crate::counting::lemma_block_counts;
use crate::dep_set::DepSet;
use crate::graph::{grows, lemma_grows_trans, node_grows, Config, Event, Graph, State};
use crate::ids::{ClassId, HNode, Role};
use crate::invariants::lemma_apart_neq;
use crate::joining::lemma_joined_takes_in;
use crate::matching::{binding_valid, lemma_var_node_valid, var_node};
use crate::node::{lemma_with_label, Card, NodeView};
use crate::queries::{apart_by, check_blocked, qualifies};
use crate::rules::{
    all_apart_from, at_least_fired, at_most_added, atom_asserted, constraints_merged, edge_derived,
    edge_in, edges_copied, exists_fired, generated, kept_apart, labelled, labels_copied, merged,
    next_node, ordered, relinked, sprouted, sprouts, stored_edge, widened_birth,
};
use crate::rules_wf::{
    lemma_all_apart, lemma_edge_in, lemma_extended, lemma_kept_apart, lemma_kept_apart_again,
    lemma_labelled, lemma_push_contains, lemma_sprouted, lemma_sprouts, lemma_with,
    lemma_work_grows,
};
use crate::union_find::{lemma_linked_coarser, linked};

verus! {

/// The event is about something that is in the graph, at a node that was not
/// merged away.
pub open spec fn fact(g: Graph, e: Event) -> bool {
    match e {
        Event::Label(n, c) => g.valid(n) && g.rep(n) == n && g.at(n).has(c),
        Event::Edge(a, r, t) => g.valid(a) && g.rep(a) == a && g.at(a).edges.contains((r, t)),
        Event::NodeNew(n) => g.valid(n) && g.rep(n) == n,
    }
}

/// Each edge is recorded at its target, and nothing else is.
pub open spec fn mirrored(g: Graph) -> bool {
    &&& forall|a: HNode, r: Role, t: HNode|
        g.valid(a) && #[trigger] g.at(a).edges.contains((r, t)) ==> g.valid(t) && g.at(
            t,
        ).preds.contains((r, a))
    &&& forall|a: HNode, r: Role, t: HNode|
        g.valid(t) && #[trigger] g.at(t).preds.contains((r, a)) ==> g.valid(a) && g.at(
            a,
        ).edges.contains((r, t))
}

/// The atom makes no node that an inverse role leads to.
pub open spec fn forward_atom(at: Atom) -> bool {
    at matches Atom::Exists(r, c, v) ==> r is Named
}

/// No head makes a node that an inverse role leads to.
pub open spec fn forward_only(k: Config) -> bool {
    forall|ci: int, j: int|
        0 <= ci < k.clauses.len() && 0 <= j < k.clauses[ci].head.len() ==> forward_atom(
            #[trigger] k.clauses[ci].head[j],
        )
}

/// An edge that satisfies the role leads from `x` to `t`, which carries the
/// class, if one is asked for.
pub open spec fn served(k: Config, g: Graph, x: HNode, role: Role, qual: Option<ClassId>, t: HNode) -> bool {
    &&& g.valid(t) && t.at() < g.root.len() && g.valid(g.rep(t))
    &&& exists|e: Role| #[trigger] g.at(x).edges.contains((e, t)) && role_sat(e, role, k.roles)
    &&& qualifies(g.at(g.rep(t)), qual)
}

/// `ts` are different successors of `x` that count for `c`, as many as `c`
/// asks for.
pub open spec fn supply(k: Config, g: Graph, x: HNode, c: Card, ts: Seq<HNode>) -> bool {
    &&& ts.len() == c.2
    &&& forall|i: int| 0 <= i < ts.len() ==> served(k, g, x, c.0, c.1, #[trigger] ts[i])
    &&& forall|i: int, j: int|
        0 <= i < j < ts.len() ==> g.rep(#[trigger] ts[i]) != g.rep(#[trigger] ts[j])
}

/// `≥n` holds at `x`.
pub open spec fn supplied(k: Config, g: Graph, x: HNode, c: Card) -> bool {
    exists|ts: Seq<HNode>| #[trigger] supply(k, g, x, c, ts)
}

/// It is recorded that the two nodes are different.
pub open spec fn told_apart(g: Graph, a: HNode, b: HNode) -> bool {
    g.rep(a) != g.rep(b) && exists|p: (HNode, HNode)| #[trigger]
        g.neq.contains(p) && p.0.at() < g.root.len() && p.1.at() < g.root.len() && apart_by(
            g,
            p,
            a,
            b,
        )
}

/// `ts` are successors as [`supply`] has them, and it is recorded that they are
/// different.
pub open spec fn assures(k: Config, g: Graph, x: HNode, c: Card, ts: Seq<HNode>) -> bool {
    &&& supply(k, g, x, c, ts)
    &&& forall|i: int, j: int|
        0 <= i < j < ts.len() ==> told_apart(g, #[trigger] ts[i], #[trigger] ts[j])
}

/// `≥n` holds at `x`, with successors that will not be merged.
pub open spec fn assured(k: Config, g: Graph, x: HNode, c: Card) -> bool {
    exists|ts: Seq<HNode>| #[trigger] assures(k, g, x, c, ts)
}

/// Every `≥n` that was made to hold does, with successors that will not be
/// merged.
pub open spec fn all_assured(k: Config, g: Graph) -> bool {
    forall|n: HNode, c: Card|
        g.valid(n) && #[trigger] g.at(n).at_least_done.contains(c) ==> assured(k, g, n, c)
}

/// Nothing is lost from the graph or the worklist, nothing is merged, and
/// what is new is queued. Edges are stored along named roles, where no head
/// asks for others.
pub open spec fn unfolds(k: Config, s0: State, s1: State) -> bool {
    &&& s0.stats.blocks_fired <= s1.stats.blocks_fired
    &&& forall|i: int|
        s0.g.root.len() <= i < s1.g.root.len() ==> (#[trigger] s1.g.root[i]).at() == i
    &&& forward_only(k) ==> forall|a: HNode, r: Role, t: HNode|
        s1.g.valid(a) && #[trigger] s1.g.at(a).edges.contains((r, t)) ==> r is Named || (s0.g.valid(
            a,
        ) && s0.g.at(a).edges.contains((r, t)))
    &&& forall|n: HNode, c: Card|
        s0.g.valid(n) && #[trigger] s0.g.at(n).at_least_done.contains(c) ==> s1.g.at(
            n,
        ).at_least_done.contains(c)
    &&& forall|n: HNode, c: Card|
        s1.g.valid(n) && #[trigger] s1.g.at(n).at_least_done.contains(c) ==> (s0.g.valid(n)
            && s0.g.at(n).at_least_done.contains(c)) || assured(k, s1.g, n, c)
    &&& forall|p: (HNode, HNode)| #[trigger] s0.g.neq.contains(p) ==> s1.g.neq.contains(p)
    &&& grows(s0.g, s1.g)
    &&& s0.g.root.len() <= s1.g.root.len()
    &&& forall|i: int| 0 <= i < s0.g.root.len() ==> #[trigger] s1.g.root[i] == s0.g.root[i]
    &&& forall|n: HNode, c: Card|
        s0.g.valid(n) && #[trigger] s0.g.at(n).at_most.contains(c) ==> s1.g.at(n).at_most.contains(c)
    &&& mirrored(s0.g) ==> mirrored(s1.g)
    &&& s0.work.len() <= s1.work.len()
    &&& forall|i: int| 0 <= i < s0.work.len() ==> #[trigger] s1.work[i] == s0.work[i]
    &&& forall|e: Event| #[trigger]
        fact(s1.g, e) && !fact(s0.g, e) && (e is NodeNew ==> k.index.empty.len() > 0)
            ==> s1.work.contains(e)
}

/// No node was merged into another.
pub open spec fn unmerged(g: Graph) -> bool {
    forall|i: int| 0 <= i < g.root.len() ==> (#[trigger] g.root[i]).at() == i
}

/// What was merged stays merged. The labels and edges of the node that a node
/// was merged into are with the node that it is merged into now.
pub open spec fn coarser(g0: Graph, g1: Graph) -> bool {
    &&& g0.nodes.len() <= g1.nodes.len()
    &&& g0.root.len() <= g1.root.len()
    &&& forall|a: HNode, c: ClassId|
        g0.valid(a) && #[trigger] g0.at(g0.rep(a)).has(c) ==> g1.at(g1.rep(a)).has(c)
    &&& forall|a: HNode, e: (Role, HNode)|
        g0.valid(a) && #[trigger] g0.at(g0.rep(a)).edges.contains(e) ==> g1.at(
            g1.rep(a),
        ).edges.contains(e)
    &&& forall|a: int, b: int|
        0 <= a < g0.root.len() && 0 <= b < g0.root.len() && #[trigger] g0.root[a]
            == #[trigger] g0.root[b] ==> g1.root[a] == g1.root[b]
}

pub proof fn lemma_coarser_trans(a: Graph, b: Graph, c: Graph)
    requires
        coarser(a, b),
        coarser(b, c),
    ensures
        coarser(a, c),
{
    assert forall|p: int, q: int|
        0 <= p < a.root.len() && 0 <= q < a.root.len() && #[trigger] a.root[p]
            == #[trigger] a.root[q] implies c.root[p] == c.root[q] by {
        assert(b.root[p] == b.root[q]);
    }
    assert forall|n: HNode, x: ClassId|
        a.valid(n) && #[trigger] a.at(a.rep(n)).has(x) implies c.at(c.rep(n)).has(x) by {
        assert(b.at(b.rep(n)).has(x));
    }
    assert forall|n: HNode, e: (Role, HNode)|
        a.valid(n) && #[trigger] a.at(a.rep(n)).edges.contains(e) implies c.at(
        c.rep(n),
    ).edges.contains(e) by {
        assert(b.at(b.rep(n)).edges.contains(e));
    }
}

/// If nothing is merged in the end, nothing was before.
pub proof fn lemma_unmerged_before(g0: Graph, g1: Graph)
    requires
        g0.wf(),
        coarser(g0, g1),
        unmerged(g1),
    ensures
        unmerged(g0),
{
    assert forall|i: int| 0 <= i < g0.root.len() implies (#[trigger] g0.root[i]).at() == i by {
        let j = g0.root[i].at();
        assert(j < g0.root.len());
        assert(g0.root[j] == g0.root[i]);
        assert(g1.root[j] == g1.root[i]);
        assert(g1.root[j].at() == j && g1.root[i].at() == i);
    }
}

pub proof fn lemma_unfolds_coarser(k: Config, s0: State, s1: State)
    requires
        s0.wf(),
        unfolds(k, s0, s1),
    ensures
        coarser(s0.g, s1.g),
{
    assert forall|a: int, b: int|
        0 <= a < s0.g.root.len() && 0 <= b < s0.g.root.len() && #[trigger] s0.g.root[a]
            == #[trigger] s0.g.root[b] implies s1.g.root[a] == s1.g.root[b] by {
        assert(s1.g.root[a] == s0.g.root[a] && s1.g.root[b] == s0.g.root[b]);
    }
    assert forall|a: HNode| #[trigger] s0.g.valid(a) implies s1.g.rep(a) == s0.g.rep(a)
        && node_grows(s0.g.at(s0.g.rep(a)), s1.g.at(s1.g.rep(a))) by {
        assert(s1.g.root[a.at()] == s0.g.root[a.at()]);
        let r = s0.g.rep(a);
        assert(node_grows(s0.g.nodes[r.at()], s1.g.nodes[r.at()]));
    }
}

/// Merging merges, unless there is nothing to merge.
pub proof fn lemma_merged_coarser(k: Config, s: State, i0: HNode, j0: HNode, cause0: DepSet)
    requires
        s.wf(),
        s.g.valid(i0),
        s.g.valid(j0),
    ensures
        coarser(s.g, merged(k, s, i0, j0, cause0).0.g),
        unmerged(merged(k, s, i0, j0, cause0).0.g) ==> merged(k, s, i0, j0, cause0).0.g == s.g,
{
    let i = s.g.rep(i0);
    let j = s.g.rep(j0);
    assert(s.g.root[i0.at()].at() < s.g.root.len());
    assert(s.g.root[j0.at()].at() < s.g.root.len());
    let c = if k.nn_taint_disabled {
        DepSet::empty()
    } else {
        cause0
    };
    if i != j && !crate::queries::apart(s.g, i, j) {
        crate::rules_wf::lemma_joined_nodes(s, i, j, c);
        let g1 = merged(k, s, i0, j0, cause0).0.g;
        assert(g1.root == linked(s.g.root, i, j));
        assert(g1.root[j.at()] == i);
        assert forall|a: int, b: int|
            0 <= a < s.g.root.len() && 0 <= b < s.g.root.len() && #[trigger] s.g.root[a]
                == #[trigger] s.g.root[b] implies g1.root[a] == g1.root[b] by {
            lemma_linked_coarser(s.g.root, i, j, a, b);
        }
        lemma_joined_takes_in(s, i, j, c);
        assert forall|a: HNode| #[trigger] s.g.valid(a) implies {
            &&& forall|x: ClassId| s.g.at(s.g.rep(a)).has(x) ==> g1.at(g1.rep(a)).has(x)
            &&& forall|e: (Role, HNode)|
                s.g.at(s.g.rep(a)).edges.contains(e) ==> g1.at(g1.rep(a)).edges.contains(e)
        } by {
            let r = s.g.rep(a);
            assert(g1.root[a.at()] == if r == j {
                i
            } else {
                r
            });
            assert(node_grows(s.g.nodes[r.at()], g1.nodes[r.at()]));
        }
    }
}

/// Edges run along named roles.
pub open spec fn along_named(g: Graph) -> bool {
    forall|a: HNode, r: Role, t: HNode|
        g.valid(a) && #[trigger] g.at(a).edges.contains((r, t)) ==> r is Named
}

/// Each edge is recorded at its target and runs along a named role, no node
/// was merged into another, and every `≥n` that was made to hold does.
pub open spec fn tidy(k: Config, g: Graph) -> bool {
    &&& mirrored(g)
    &&& unmerged(g)
    &&& along_named(g)
    &&& forall|n: HNode, c: Card|
        g.valid(n) && #[trigger] g.at(n).at_least_done.contains(c) ==> supplied(k, g, n, c)
}

/// A tidy graph stays tidy.
pub proof fn lemma_tidy_unfolds(k: Config, s0: State, s1: State)
    requires
        forward_only(k),
        tidy(k, s0.g),
        unfolds(k, s0, s1),
    ensures
        tidy(k, s1.g),
{
    assert forall|i: int| 0 <= i < s1.g.root.len() implies (#[trigger] s1.g.root[i]).at() == i by {
        if i < s0.g.root.len() {
            assert(s1.g.root[i] == s0.g.root[i]);
        }
    }
    assert forall|n: HNode, c: Card|
        s1.g.valid(n) && #[trigger] s1.g.at(n).at_least_done.contains(c) implies supplied(
        k,
        s1.g,
        n,
        c,
    ) by {
        if s0.g.valid(n) && s0.g.at(n).at_least_done.contains(c) {
            lemma_supply_stays(k, s0, s1, n, c);
        } else {
            lemma_assured_supplied(k, s1.g, n, c);
        }
    }
}

pub proof fn lemma_assured_supplied(k: Config, g: Graph, x: HNode, c: Card)
    requires
        assured(k, g, x, c),
    ensures
        supplied(k, g, x, c),
{
    let ts = choose|ts: Seq<HNode>| #[trigger] assures(k, g, x, c, ts);
    assert(supply(k, g, x, c, ts));
}

/// What was made to hold goes on holding.
pub proof fn lemma_assured_unfolds(k: Config, s0: State, s1: State)
    requires
        all_assured(k, s0.g),
        unfolds(k, s0, s1),
    ensures
        all_assured(k, s1.g),
{
    assert forall|n: HNode, c: Card|
        s1.g.valid(n) && #[trigger] s1.g.at(n).at_least_done.contains(c) implies assured(
        k,
        s1.g,
        n,
        c,
    ) by {
        if s0.g.valid(n) && s0.g.at(n).at_least_done.contains(c) {
            lemma_assured_stays(k, s0, s1, n, c);
        }
    }
}

/// Successors that will not be merged go on counting.
proof fn lemma_assured_stays(k: Config, s0: State, s1: State, x: HNode, c: Card)
    requires
        s0.g.valid(x),
        grows(s0.g, s1.g),
        s0.g.root.len() <= s1.g.root.len(),
        forall|i: int| 0 <= i < s0.g.root.len() ==> #[trigger] s1.g.root[i] == s0.g.root[i],
        forall|p: (HNode, HNode)| #[trigger] s0.g.neq.contains(p) ==> s1.g.neq.contains(p),
        assured(k, s0.g, x, c),
    ensures
        assured(k, s1.g, x, c),
{
    let ts = choose|ts: Seq<HNode>| #[trigger] assures(k, s0.g, x, c, ts);
    assert forall|i: int| 0 <= i < ts.len() implies served(k, s1.g, x, c.0, c.1, #[trigger] ts[i])
        && s1.g.rep(ts[i]) == s0.g.rep(ts[i]) by {
        lemma_served_stays(k, s0, s1, x, c.0, c.1, ts[i]);
    }
    assert forall|i: int, j: int| 0 <= i < j < ts.len() implies told_apart(
        s1.g,
        #[trigger] ts[i],
        #[trigger] ts[j],
    ) by {
        assert(told_apart(s0.g, ts[i], ts[j]));
        let p = choose|p: (HNode, HNode)| #[trigger]
            s0.g.neq.contains(p) && p.0.at() < s0.g.root.len() && p.1.at() < s0.g.root.len()
                && apart_by(s0.g, p, ts[i], ts[j]);
        assert(s1.g.neq.contains(p));
        assert(s1.g.root[p.0.at()] == s0.g.root[p.0.at()]);
        assert(s1.g.root[p.1.at()] == s0.g.root[p.1.at()]);
    }
    assert(assures(k, s1.g, x, c, ts));
}

pub proof fn lemma_unfolds_refl(k: Config, s: State)
    ensures
        unfolds(k, s, s),
{
}

/// Successors that count go on counting.
pub proof fn lemma_supply_stays(k: Config, s0: State, s1: State, x: HNode, c: Card)
    requires
        s0.g.valid(x),
        grows(s0.g, s1.g),
        s0.g.root.len() <= s1.g.root.len(),
        forall|i: int| 0 <= i < s0.g.root.len() ==> #[trigger] s1.g.root[i] == s0.g.root[i],
        supplied(k, s0.g, x, c),
    ensures
        supplied(k, s1.g, x, c),
{
    let ts = choose|ts: Seq<HNode>| #[trigger] supply(k, s0.g, x, c, ts);
    assert forall|i: int| 0 <= i < ts.len() implies served(k, s1.g, x, c.0, c.1, #[trigger] ts[i])
        && s1.g.rep(ts[i]) == s0.g.rep(ts[i]) by {
        lemma_served_stays(k, s0, s1, x, c.0, c.1, ts[i]);
    }
    assert(supply(k, s1.g, x, c, ts));
}

/// What is queued stays queued.
pub proof fn lemma_stays_queued(k: Config, s0: State, s1: State, e: Event)
    requires
        unfolds(k, s0, s1),
        s0.work.contains(e),
    ensures
        s1.work.contains(e),
{
    let i = choose|i: int| 0 <= i < s0.work.len() && s0.work[i] == e;
    assert(s1.work[i] == e);
}

pub proof fn lemma_unfolds_trans(k: Config, a: State, b: State, c: State)
    requires
        unfolds(k, a, b),
        unfolds(k, b, c),
    ensures
        unfolds(k, a, c),
{
    lemma_grows_trans(a.g, b.g, c.g);
    assert forall|i: int| 0 <= i < a.g.root.len() implies #[trigger] c.g.root[i] == a.g.root[i] by {
        assert(b.g.root[i] == a.g.root[i]);
    }
    assert forall|n: HNode, x: Card|
        a.g.valid(n) && #[trigger] a.g.at(n).at_most.contains(x) implies c.g.at(n).at_most.contains(
        x,
    ) by {
        assert(b.g.at(n).at_most.contains(x));
    }
    assert forall|i: int| 0 <= i < a.work.len() implies #[trigger] c.work[i] == a.work[i] by {
        assert(b.work[i] == a.work[i]);
    }
    assert forall|n: HNode, x: Card|
        c.g.valid(n) && #[trigger] c.g.at(n).at_least_done.contains(x) implies (a.g.valid(n)
        && a.g.at(n).at_least_done.contains(x)) || assured(k, c.g, n, x) by {
        if b.g.valid(n) && b.g.at(n).at_least_done.contains(x) && !(a.g.valid(n) && a.g.at(
            n,
        ).at_least_done.contains(x)) {
            lemma_assured_stays(k, b, c, n, x);
        }
    }
    assert forall|n: HNode, x: Card|
        a.g.valid(n) && #[trigger] a.g.at(n).at_least_done.contains(x) implies c.g.at(
        n,
    ).at_least_done.contains(x) by {
        assert(b.g.at(n).at_least_done.contains(x));
    }
    assert forall|i: int| a.g.root.len() <= i < c.g.root.len() implies (#[trigger] c.g.root[i]).at()
        == i by {
        if i < b.g.root.len() {
            assert(c.g.root[i] == b.g.root[i]);
        }
    }
    assert forall|e: Event| #[trigger]
        fact(c.g, e) && !fact(a.g, e) && (e is NodeNew ==> k.index.empty.len() > 0) implies c.work.contains(
        e,
    ) by {
        if fact(b.g, e) {
            assert(b.work.contains(e));
            lemma_stays_queued(k, b, c, e);
        }
    }
}

/// Changing what labels, edges and constraints are not about.
proof fn lemma_unfolds_alike(k: Config, s0: State, s1: State)
    requires
        s1.g.nodes.len() == s0.g.nodes.len(),
        s1.g.root == s0.g.root,
        s1.work == s0.work,
        s0.stats.blocks_fired <= s1.stats.blocks_fired,
        forall|p: (HNode, HNode)| #[trigger] s0.g.neq.contains(p) ==> s1.g.neq.contains(p),
        forall|i: int|
            0 <= i < s0.g.nodes.len() ==> {
                let (u, v) = (s0.g.nodes[i], #[trigger] s1.g.nodes[i]);
                &&& v.labels == u.labels
                &&& v.edges == u.edges
                &&& v.preds == u.preds
                &&& v.at_least_done == u.at_least_done
                &&& v.nn_tainted == u.nn_tainted
                &&& u.parent is Some ==> v.parent == u.parent && v.parent_role == u.parent_role
                &&& forall|c: Card| u.at_most.contains(c) ==> v.at_most.contains(c)
            },
    ensures
        unfolds(k, s0, s1),
{
    assert forall|e: Event| #[trigger] fact(s1.g, e) implies fact(s0.g, e) by {
        match e {
            Event::Label(n, c) => {
                assert(s1.g.nodes[n.at()].labels == s0.g.nodes[n.at()].labels);
            },
            Event::Edge(a, r, t) => {
                assert(s1.g.nodes[a.at()].edges == s0.g.nodes[a.at()].edges);
            },
            Event::NodeNew(n) => {},
        }
    }
    assert forall|i: int| 0 <= i < s0.g.nodes.len() implies node_grows(
        #[trigger] s0.g.nodes[i],
        s1.g.nodes[i],
    ) by {
        assert(s1.g.nodes[i].labels == s0.g.nodes[i].labels);
    }
    assert forall|n: HNode, c: Card|
        s0.g.valid(n) && #[trigger] s0.g.at(n).at_most.contains(c) implies s1.g.at(
        n,
    ).at_most.contains(c) by {
        assert(s1.g.nodes[n.at()].labels == s0.g.nodes[n.at()].labels);
    }
    if mirrored(s0.g) {
        lemma_mirrored_same(s0.g, s1.g);
    }
}

proof fn lemma_unfolds_labelled(k: Config, s: State, n: HNode, c: ClassId, deps: DepSet)
    requires
        s.wf(),
        s.g.valid(n),
    ensures
        unfolds(k, s, labelled(s, n, c, deps).0),
{
    let s1 = labelled(s, n, c, deps).0;
    lemma_labelled(s, n, c, deps);
    if !s.g.at(n).has(c) {
        let v = s.g.at(n);
        assert(s.g.node_wf(s.g.nodes[n.at()], n.at()));
        lemma_with_label(v, c, deps);
        lemma_push_contains(s.work, Event::Label(n, c));
        assert forall|i: int| 0 <= i < s.g.nodes.len() implies (#[trigger] s1.g.nodes[i]).edges
            == s.g.nodes[i].edges && s1.g.nodes[i].preds == s.g.nodes[i].preds
            && s1.g.nodes[i].at_most == s.g.nodes[i].at_most by {}
        assert forall|e: Event| #[trigger]
            fact(s1.g, e) && !fact(s.g, e) implies e == Event::Label(n, c) by {
            match e {
                Event::Label(m, d) => {},
                Event::Edge(a, r, t) => {
                    assert(s1.g.nodes[a.at()].edges == s.g.nodes[a.at()].edges);
                },
                Event::NodeNew(m) => {},
            }
        }
        if mirrored(s.g) {
            lemma_mirrored_same(s.g, s1.g);
        }
    }
}

/// A new edge, queued.
proof fn lemma_unfolds_edge(k: Config, s: State, a: HNode, r: Role, b: HNode)
    requires
        s.wf(),
        s.g.valid(a),
        s.g.valid(b),
        forward_only(k) ==> r is Named,
    ensures
        unfolds(
            k,
            s,
            (State { g: edge_in(s.g, a, r, b), work: s.work.push(Event::Edge(a, r, b)), ..s }),
        ),
{
    let e = Event::Edge(a, r, b);
    let s1 = State { g: edge_in(s.g, a, r, b), work: s.work.push(e), ..s };
    lemma_edge_in(s.g, a, r, b);
    lemma_push_contains(s.work, e);
    lemma_push_contains(s.g.at(a).edges, (r, b));
    lemma_push_contains(s.g.at(b).preds, (r, a));
    assert forall|i: int| 0 <= i < s.g.nodes.len() implies {
        let (u, v) = (s.g.nodes[i], #[trigger] s1.g.nodes[i]);
        &&& v.labels == u.labels
        &&& v.at_most == u.at_most
        &&& v.edges == if i == a.at() {
            u.edges.push((r, b))
        } else {
            u.edges
        }
        &&& v.preds == if i == b.at() {
            u.preds.push((r, a))
        } else {
            u.preds
        }
    } by {}
    assert forall|f: Event| #[trigger] fact(s1.g, f) && !fact(s.g, f) implies f == e by {
        match f {
            Event::Label(m, d) => {
                assert(s1.g.nodes[m.at()].labels == s.g.nodes[m.at()].labels);
            },
            Event::Edge(x, q, t) => {
                assert(s1.g.nodes[x.at()].labels == s.g.nodes[x.at()].labels);
            },
            Event::NodeNew(m) => {},
        }
    }
    if mirrored(s.g) {
        lemma_mirrored_edge(s.g, a, r, b);
    }
    assert forall|n: HNode, c: Card|
        s.g.valid(n) && #[trigger] s.g.at(n).at_most.contains(c) implies s1.g.at(
        n,
    ).at_most.contains(c) by {
        assert(s1.g.nodes[n.at()].at_most == s.g.nodes[n.at()].at_most);
    }
}

proof fn lemma_unfolds_grown(k: Config, s: State)
    requires
        s.wf(),
        s.g.room(1),
    ensures
        unfolds(k, s, crate::rules::grown(k, s)),
{
    let s1 = crate::rules::grown(k, s);
    let n = next_node(s.g);
    lemma_extended(s.g);
    lemma_push_contains(s.work, Event::NodeNew(n));
    assert forall|e: Event| #[trigger] fact(s1.g, e) && !fact(s.g, e) implies e == Event::NodeNew(
        n,
    ) by {
        match e {
            Event::Label(m, d) => {
                if m.at() < s.g.nodes.len() {
                    assert(s1.g.nodes[m.at()] == s.g.nodes[m.at()]);
                    assert(s1.g.root[m.at()] == s.g.root[m.at()]);
                } else {
                    assert(m == n);
                }
            },
            Event::Edge(a, r, t) => {
                if a.at() < s.g.nodes.len() {
                    assert(s1.g.nodes[a.at()] == s.g.nodes[a.at()]);
                    assert(s1.g.root[a.at()] == s.g.root[a.at()]);
                } else {
                    assert(a == n);
                }
            },
            Event::NodeNew(m) => {
                if m.at() < s.g.nodes.len() {
                    assert(s1.g.root[m.at()] == s.g.root[m.at()]);
                } else {
                    assert(m == n);
                }
            },
        }
    }
    if mirrored(s.g) {
        assert forall|x: HNode, q: Role, t: HNode|
            s1.g.valid(x) && #[trigger] s1.g.at(x).edges.contains((q, t)) implies s1.g.valid(t)
            && s1.g.at(t).preds.contains((q, x)) by {
            if x.at() < s.g.nodes.len() {
                assert(s1.g.nodes[x.at()] == s.g.nodes[x.at()]);
                assert(s.g.at(x).edges.contains((q, t)));
                assert(s1.g.nodes[t.at()] == s.g.nodes[t.at()]);
            } else {
                assert(x == n);
            }
        }
        assert forall|x: HNode, q: Role, t: HNode|
            s1.g.valid(t) && #[trigger] s1.g.at(t).preds.contains((q, x)) implies s1.g.valid(x)
            && s1.g.at(x).edges.contains((q, t)) by {
            if t.at() < s.g.nodes.len() {
                assert(s1.g.nodes[t.at()] == s.g.nodes[t.at()]);
                assert(s.g.at(t).preds.contains((q, x)));
                assert(s1.g.nodes[x.at()] == s.g.nodes[x.at()]);
            } else {
                assert(t == n);
            }
        }
    }
    assert forall|m: HNode, c: Card|
        s.g.valid(m) && #[trigger] s.g.at(m).at_most.contains(c) implies s1.g.at(
        m,
    ).at_most.contains(c) by {
        assert(s1.g.nodes[m.at()] == s.g.nodes[m.at()]);
    }
}

proof fn lemma_unfolds_sprouted(
    k: Config,
    s: State,
    x: HNode,
    role: Role,
    qual: Option<ClassId>,
    deps: DepSet,
)
    requires
        s.wf(),
        s.g.valid(x),
        s.g.room(1),
        forward_only(k) ==> role is Named,
    ensures
        unfolds(k, s, sprouted(k, s, x, role, qual, deps)),
{
    let n = next_node(s.g);
    let s1 = crate::rules::grown(k, s);
    lemma_unfolds_grown(k, s);
    crate::rules_wf::lemma_grown(k, s);
    lemma_extended(s.g);
    let v = generated(s1.g.at(n), x, role, deps);
    assert(s1.g.node_wf(s1.g.nodes[n.at()], n.at()));
    lemma_with(s1.g, n, v);
    let g2 = s1.g.with(n, v);
    crate::rules_wf::lemma_filed_in(g2, role, n);
    let g3 = crate::rules::filed_in(g2, role, n);
    let s3 = State { g: g3, ..s1 };
    lemma_unfolds_alike(k, s1, s3);
    lemma_unfolds_trans(k, s, s1, s3);
    lemma_work_grows(s1.g, g3, s1.work);
    lemma_unfolds_edge(k, s3, x, role, n);
    lemma_sprouted(k, s, x, role, None, deps);
    let s4 = sprouted(k, s, x, role, None, deps);
    lemma_unfolds_trans(k, s, s3, s4);
    if let Some(q) = qual {
        lemma_unfolds_labelled(k, s4, n, q, deps);
        lemma_unfolds_trans(k, s, s4, labelled(s4, n, q, deps).0);
    }
}

proof fn lemma_unfolds_sprouts(
    k: Config,
    s: State,
    x: HNode,
    role: Role,
    qual: Option<ClassId>,
    deps: DepSet,
    n: nat,
)
    requires
        s.wf(),
        s.g.valid(x),
        s.g.room(n as int),
        forward_only(k) ==> role is Named,
    ensures
        unfolds(k, s, sprouts(k, s, x, role, qual, deps, n).0),
    decreases n,
{
    if n > 0 {
        let m = (n - 1) as nat;
        lemma_unfolds_sprouts(k, s, x, role, qual, deps, m);
        lemma_sprouts(k, s, x, role, qual, deps, m);
        let s1 = sprouts(k, s, x, role, qual, deps, m).0;
        lemma_unfolds_sprouted(k, s1, x, role, qual, deps);
        lemma_unfolds_trans(k, s, s1, sprouted(k, s1, x, role, qual, deps));
    }
}

/// What comes after a `≥n` was recorded, when the successors are there in the
/// end.
proof fn lemma_unfolds_recorded(k: Config, s: State, s2: State, out: State, x: HNode, c: Card)
    requires
        s.wf(),
        s.g.valid(x),
        s2.g.nodes == s.g.nodes.update(
            x.at(),
            (NodeView { at_least_done: s.g.at(x).at_least_done.push(c), ..s.g.at(x) }),
        ),
        s2.g.root == s.g.root,
        s2.work == s.work,
        s2.g.neq == s.g.neq,
        s.stats.blocks_fired <= s2.stats.blocks_fired,
        unfolds(k, s2, out),
        assured(k, out.g, x, c),
    ensures
        unfolds(k, s, out),
{
    lemma_push_contains(s.g.at(x).at_least_done, c);
    assert forall|i: int| 0 <= i < s.g.nodes.len() implies {
        let (u, v) = (s.g.nodes[i], #[trigger] s2.g.nodes[i]);
        &&& v.labels == u.labels
        &&& v.edges == u.edges
        &&& v.preds == u.preds
        &&& v.at_most == u.at_most
    } by {}
    assert forall|i: int| 0 <= i < s.g.nodes.len() implies node_grows(
        #[trigger] s.g.nodes[i],
        s2.g.nodes[i],
    ) by {
        assert(s2.g.nodes[i].labels == s.g.nodes[i].labels);
    }
    lemma_grows_trans(s.g, s2.g, out.g);
    assert forall|e: Event| #[trigger] fact(s2.g, e) implies fact(s.g, e) by {
        match e {
            Event::Label(n, c) => {
                assert(s2.g.nodes[n.at()].labels == s.g.nodes[n.at()].labels);
            },
            Event::Edge(a, r, t) => {
                assert(s2.g.nodes[a.at()].edges == s.g.nodes[a.at()].edges);
            },
            Event::NodeNew(n) => {},
        }
    }
    assert forall|n: HNode, q: Card|
        out.g.valid(n) && #[trigger] out.g.at(n).at_least_done.contains(q) implies (s.g.valid(n)
        && s.g.at(n).at_least_done.contains(q)) || assured(k, out.g, n, q) by {
        if s2.g.valid(n) && s2.g.at(n).at_least_done.contains(q) && n.at() == x.at() {
            assert(n == x);
        }
    }
    assert forall|n: HNode, q: Card|
        s.g.valid(n) && #[trigger] s.g.at(n).at_least_done.contains(q) implies out.g.at(
        n,
    ).at_least_done.contains(q) by {
        assert(s2.g.at(n).at_least_done.contains(q));
    }
    assert forall|n: HNode, q: Card|
        s.g.valid(n) && #[trigger] s.g.at(n).at_most.contains(q) implies out.g.at(
        n,
    ).at_most.contains(q) by {
        assert(s2.g.nodes[n.at()].at_most == s.g.nodes[n.at()].at_most);
        assert(s2.g.at(n).at_most.contains(q));
    }
    if forward_only(k) {
        assert forall|a: HNode, r: Role, t: HNode|
            out.g.valid(a) && #[trigger] out.g.at(a).edges.contains((r, t)) implies r is Named || (
        s.g.valid(a) && s.g.at(a).edges.contains((r, t))) by {
            if s.g.valid(a) {
                assert(s2.g.nodes[a.at()].edges == s.g.nodes[a.at()].edges);
            }
        }
    }
    if mirrored(s.g) {
        lemma_mirrored_same(s.g, s2.g);
    }
}

/// New successors supply what they were made for.
proof fn lemma_sprouts_supply(
    k: Config,
    s: State,
    x: HNode,
    role: Role,
    qual: Option<ClassId>,
    deps: DepSet,
    n: nat,
)
    requires
        s.wf(),
        s.g.valid(x),
        s.g.room(n as int),
        role_sat(role, role, k.roles),
        forward_only(k) ==> role is Named,
    ensures
        forall|i: int|
            0 <= i < n ==> served(
                k,
                sprouts(k, s, x, role, qual, deps, n).0.g,
                x,
                role,
                qual,
                #[trigger] sprouts(k, s, x, role, qual, deps, n).1[i],
            ),
    decreases n,
{
    if n > 0 {
        let m = (n - 1) as nat;
        lemma_sprouts_supply(k, s, x, role, qual, deps, m);
        lemma_sprouts(k, s, x, role, qual, deps, m);
        lemma_sprouts(k, s, x, role, qual, deps, n);
        let (s1, fresh) = sprouts(k, s, x, role, qual, deps, m);
        let (out, all) = sprouts(k, s, x, role, qual, deps, n);
        lemma_sprouted(k, s1, x, role, None, deps);
        lemma_sprouted(k, s1, x, role, qual, deps);
        lemma_unfolds_sprouted(k, s1, x, role, qual, deps);
        let t = next_node(s1.g);
        let s2 = sprouted(k, s1, x, role, None, deps);
        assert(s2.g.node_wf(s2.g.nodes[t.at()], t.at()));
        if let Some(q) = qual {
            lemma_with_label(s2.g.at(t), q, deps);
        }
        let p = s1.g.at(x).edges.len() as int;
        assert(s2.g.at(x).edges[p] == (role, t));
        assert(out.g.at(x).edges[p] == (role, t));
        assert(out.g.at(x).edges.contains((role, t)));
        assert(out.g.rep(t) == t);
        assert(served(k, out.g, x, role, qual, t));
        assert forall|i: int| 0 <= i < n implies served(k, out.g, x, role, qual, #[trigger] all[i]) by {
            if i < m {
                assert(all[i] == fresh[i]);
                lemma_served_stays(k, s1, out, x, role, qual, fresh[i]);
            } else {
                assert(all[i] == t);
            }
        }
    }
}

proof fn lemma_served_stays(
    k: Config,
    s0: State,
    s1: State,
    x: HNode,
    role: Role,
    qual: Option<ClassId>,
    t: HNode,
)
    requires
        s0.g.valid(x),
        grows(s0.g, s1.g),
        s0.g.root.len() <= s1.g.root.len(),
        forall|i: int| 0 <= i < s0.g.root.len() ==> #[trigger] s1.g.root[i] == s0.g.root[i],
        served(k, s0.g, x, role, qual, t),
    ensures
        served(k, s1.g, x, role, qual, t),
        s1.g.rep(t) == s0.g.rep(t),
{
    let e = choose|e: Role| #[trigger]
        s0.g.at(x).edges.contains((e, t)) && role_sat(e, role, k.roles);
    assert(node_grows(s0.g.nodes[x.at()], s1.g.nodes[x.at()]));
    assert(s1.g.at(x).edges.contains((e, t)));
    assert(s1.g.root[t.at()] == s0.g.root[t.at()]);
    let r = s0.g.rep(t);
    assert(node_grows(s0.g.nodes[r.at()], s1.g.nodes[r.at()]));
}

/// All pairs are recorded as different.
proof fn lemma_all_told_apart(g: Graph, fresh: Seq<HNode>, i: int, j: int)
    requires
        g.wf(),
        0 <= i < j,
        forall|q: int| 0 <= q < fresh.len() ==> g.valid(#[trigger] fresh[q]),
    ensures
        forall|p: int, q: int|
            0 <= p < q < fresh.len() && (i < p || (i == p && j <= q)) && g.rep(
                #[trigger] fresh[p],
            ) != g.rep(#[trigger] fresh[q]) ==> told_apart(
                all_apart_from(g, fresh, i, j),
                fresh[p],
                fresh[q],
            ),
    decreases fresh.len() - i, fresh.len() - j,
{
    let out = all_apart_from(g, fresh, i, j);
    lemma_all_apart(g, fresh, i, j);
    if i < fresh.len() {
        if j >= fresh.len() {
            lemma_all_told_apart(g, fresh, i + 1, i + 2);
        } else {
            let g1 = kept_apart(g, fresh[i], fresh[j]);
            lemma_kept_apart(g, fresh[i], fresh[j]);
            lemma_kept_apart_again(g, fresh[i], fresh[j]);
            lemma_all_told_apart(g1, fresh, i, j + 1);
            lemma_apart_neq(g1, fresh, i, j + 1);
            assert forall|p: int, q: int|
                0 <= p < q < fresh.len() && (i < p || (i == p && j <= q)) && g.rep(
                    #[trigger] fresh[p],
                ) != g.rep(#[trigger] fresh[q]) implies told_apart(out, fresh[p], fresh[q]) by {
                if i == p && j == q {
                    let (a, b) = (g.rep(fresh[i]), g.rep(fresh[j]));
                    let pair = ordered(a, b);
                    assert(out.neq.contains(pair));
                    assert(g.root[fresh[i].at()].at() < g.root.len());
                    assert(g.root[fresh[j].at()].at() < g.root.len());
                    assert(g.root[a.at()] == a && g.root[b.at()] == b);
                    assert(apart_by(out, pair, fresh[p], fresh[q]));
                }
            }
        }
    }
}

pub proof fn lemma_unfolds_at_least(
    k: Config,
    s: State,
    x0: HNode,
    role: Role,
    qual: Option<ClassId>,
    n: u32,
    deps: DepSet,
)
    requires
        s.wf(),
        s.g.valid(x0),
    ensures
        unfolds(k, s, at_least_fired(k, s, x0, role, qual, n, deps).0),
        at_least_fired(k, s, x0, role, qual, n, deps).1 is Changed ==> supplied(
            k,
            at_least_fired(k, s, x0, role, qual, n, deps).0.g,
            s.g.rep(x0),
            (role, qual, n),
        ) && assured(
            k,
            at_least_fired(k, s, x0, role, qual, n, deps).0.g,
            s.g.rep(x0),
            (role, qual, n),
        ),
{
    let x = s.g.rep(x0);
    assert(s.g.root[x0.at()].at() < s.g.root.len());
    let (out, o) = at_least_fired(k, s, x0, role, qual, n, deps);
    let s1 = check_blocked(k, s, x).0;
    lemma_block_counts(k, s, x);
    lemma_unfolds_alike(k, s, s1);
    if o is Changed {
        let v = s1.g.at(x);
        let done = NodeView { at_least_done: v.at_least_done.push((role, qual, n)), ..v };
        assert(s1.g.node_wf(s1.g.nodes[x.at()], x.at()));
        lemma_with(s1.g, x, done);
        let s2 = State { g: s1.g.with(x, done), ..s1 };
        lemma_work_grows(s1.g, s2.g, s1.work);
        lemma_unfolds_sprouts(k, s2, x, role, qual, deps, n as nat);
        lemma_sprouts(k, s2, x, role, qual, deps, n as nat);
        lemma_sprouts_supply(k, s2, x, role, qual, deps, n as nat);
        let (s3, fresh) = sprouts(k, s2, x, role, qual, deps, n as nat);
        assert(supply(k, s3.g, x, (role, qual, n), fresh));
        assert forall|q: int| 0 <= q < fresh.len() implies s3.g.valid(#[trigger] fresh[q]) by {}
        lemma_all_apart(s3.g, fresh, 0, 1);
        lemma_apart_neq(s3.g, fresh, 0, 1);
        lemma_unfolds_alike(k, s3, out);
        lemma_supply_stays(k, s3, out, x, (role, qual, n));
        lemma_all_told_apart(s3.g, fresh, 0, 1);
        assert forall|i: int| 0 <= i < fresh.len() implies served(
            k,
            out.g,
            x,
            role,
            qual,
            #[trigger] fresh[i],
        ) && out.g.rep(fresh[i]) == s3.g.rep(fresh[i]) by {
            lemma_served_stays(k, s3, out, x, role, qual, fresh[i]);
        }
        assert forall|i: int, j: int| 0 <= i < j < fresh.len() implies told_apart(
            out.g,
            #[trigger] fresh[i],
            #[trigger] fresh[j],
        ) by {
            assert(s3.g.rep(fresh[i]) != s3.g.rep(fresh[j]));
        }
        assert(assures(k, out.g, x, (role, qual, n), fresh));
        lemma_unfolds_trans(k, s2, s3, out);
        lemma_unfolds_recorded(k, s, s2, out, x, (role, qual, n));
    }
}

pub proof fn lemma_unfolds_atom(
    k: Config,
    s: State,
    head: Atom,
    x: HNode,
    b: Seq<(Var, HNode)>,
    deps: DepSet,
)
    requires
        s.wf(),
        s.g.valid(x),
        binding_valid(b, s.g.nodes.len() as int),
        forward_only(k) ==> forward_atom(head),
    ensures
        unfolds(k, s, atom_asserted(k, s, head, x, b, deps).0),
{
    let n = s.g.nodes.len() as int;
    lemma_unfolds_refl(k, s);
    match head {
        Atom::Class(c, v) => {
            lemma_var_node_valid(v, x, b, n);
            if let Some(t) = var_node(v, x, b) {
                lemma_unfolds_labelled(k, s, t, c, deps);
            }
        },
        Atom::Exists(role, cls, v) => {
            lemma_var_node_valid(v, x, b, n);
            if let Some(t) = var_node(v, x, b) {
                let (out, o) = exists_fired(k, s, t, role, cls, deps);
                let s1 = check_blocked(k, s, t).0;
                lemma_block_counts(k, s, t);
                lemma_unfolds_alike(k, s, s1);
                if o is Changed {
                    lemma_unfolds_sprouted(k, s1, t, role, Some(cls), deps);
                    lemma_unfolds_trans(k, s, s1, out);
                }
            }
        },
        Atom::AtMost(role, qual, m, v) => {
            lemma_var_node_valid(v, x, b, n);
            if let Some(t) = var_node(v, x, b) {
                lemma_push_contains(s.g.at(t).at_most, (role, qual, m));
                lemma_unfolds_alike(k, s, at_most_added(s, t, (role, qual, m), deps).0);
            }
        },
        Atom::AtLeast(role, qual, m, v) => {
            lemma_var_node_valid(v, x, b, n);
            if let Some(t) = var_node(v, x, b) {
                lemma_unfolds_at_least(k, s, t, role, qual, m, deps);
            }
        },
        Atom::Role(role, u, v) => {
            lemma_var_node_valid(u, x, b, n);
            lemma_var_node_valid(v, x, b, n);
            if let (Some(src), Some(tgt)) = (var_node(u, x, b), var_node(v, x, b)) {
                assert(s.g.root[src.at()].at() < s.g.root.len());
                assert(s.g.root[tgt.at()].at() < s.g.root.len());
                let (from, r, to) = stored_edge(s.g, role, src, tgt);
                if !s.g.at(from).edges.contains((r, to)) {
                    lemma_unfolds_edge(k, s, from, r, to);
                    let s1 = State {
                        g: edge_in(s.g, from, r, to),
                        work: s.work.push(Event::Edge(from, r, to)),
                        ..s
                    };
                    let s2 = edge_derived(s, role, src, tgt, deps).0;
                    lemma_unfolds_alike(k, s1, s2);
                    lemma_unfolds_trans(k, s, s1, s2);
                }
            }
        },
        Atom::Equal(u, v) => {},
    }
}

/// The same edges, recorded in the same way.
pub open spec fn same_edges(g0: Graph, g1: Graph) -> bool {
    &&& g1.nodes.len() == g0.nodes.len()
    &&& forall|i: int|
        0 <= i < g0.nodes.len() ==> (#[trigger] g1.nodes[i]).edges == g0.nodes[i].edges
            && g1.nodes[i].preds == g0.nodes[i].preds
}

pub proof fn lemma_mirrored_same(g0: Graph, g1: Graph)
    requires
        mirrored(g0),
        same_edges(g0, g1),
    ensures
        mirrored(g1),
{
    assert forall|a: HNode, r: Role, t: HNode|
        g1.valid(a) && #[trigger] g1.at(a).edges.contains((r, t)) implies g1.valid(t) && g1.at(
        t,
    ).preds.contains((r, a)) by {
        assert(g1.nodes[a.at()].edges == g0.nodes[a.at()].edges);
        assert(g0.at(a).edges.contains((r, t)));
        assert(g1.nodes[t.at()].preds == g0.nodes[t.at()].preds);
    }
    assert forall|a: HNode, r: Role, t: HNode|
        g1.valid(t) && #[trigger] g1.at(t).preds.contains((r, a)) implies g1.valid(a) && g1.at(
        a,
    ).edges.contains((r, t)) by {
        assert(g1.nodes[t.at()].preds == g0.nodes[t.at()].preds);
        assert(g0.at(t).preds.contains((r, a)));
        assert(g1.nodes[a.at()].edges == g0.nodes[a.at()].edges);
    }
}

proof fn lemma_labels_copied_edges(
    s: State,
    n: HNode,
    labels: Seq<ClassId>,
    deps: Seq<DepSet>,
    cause: DepSet,
    i: int,
)
    requires
        s.wf(),
        s.g.valid(n),
        0 <= i,
    ensures
        same_edges(s.g, labels_copied(s, n, labels, deps, cause, i).g),
    decreases labels.len() - i,
{
    if i < labels.len() {
        let d = deps[i].joined(cause);
        lemma_labelled(s, n, labels[i], d);
        let (s1, new) = labelled(s, n, labels[i], d);
        crate::rules_wf::lemma_widened_wf(s1.g, n, labels[i], cause);
        let s2 = if !new && cause != DepSet::empty() {
            State { g: s1.g.with(n, s1.g.at(n).widened(labels[i], cause)), ..s1 }
        } else {
            s1
        };
        lemma_work_grows(s1.g, s2.g, s1.work);
        assert(same_edges(s.g, s2.g));
        lemma_labels_copied_edges(s2, n, labels, deps, cause, i + 1);
        let out = labels_copied(s, n, labels, deps, cause, i).g;
        assert forall|q: int| 0 <= q < s.g.nodes.len() implies (#[trigger] out.nodes[q]).edges
            == s.g.nodes[q].edges && out.nodes[q].preds == s.g.nodes[q].preds by {
            assert(s2.g.nodes[q].edges == s.g.nodes[q].edges);
        }
    }
}

proof fn lemma_edges_copied_in_order(s: State, n: HNode, edges: Seq<(Role, HNode)>, i: int)
    requires
        s.wf(),
        s.g.valid(n),
        0 <= i,
        forall|j: int| 0 <= j < edges.len() ==> s.g.valid((#[trigger] edges[j]).1),
    ensures
        mirrored(s.g) ==> mirrored(edges_copied(s, n, edges, i).g),
        along_named(s.g) && (forall|j: int| 0 <= j < edges.len() ==> (#[trigger] edges[j]).0 is Named)
            ==> along_named(edges_copied(s, n, edges, i).g),
    decreases edges.len() - i,
{
    if i < edges.len() {
        let (r, t) = edges[i];
        assert(s.g.valid(edges[i].1));
        lemma_edge_in(s.g, n, r, t);
        let s1 = State {
            g: edge_in(s.g, n, r, t),
            work: s.work.push(Event::Edge(n, r, t)),
            ..s
        };
        lemma_work_grows(s.g, s1.g, s.work);
        crate::rules_wf::lemma_work_push(s1.g, s.work, Event::Edge(n, r, t));
        if mirrored(s.g) {
            lemma_mirrored_edge(s.g, n, r, t);
        }
        lemma_push_contains(s.g.at(n).edges, (r, t));
        if along_named(s.g) && r is Named {
            assert forall|a: HNode, e: Role, m: HNode|
                s1.g.valid(a) && #[trigger] s1.g.at(a).edges.contains((e, m)) implies e is Named by {
                assert(s.g.at(a).edges.contains((e, m)) || (e, m) == (r, t));
            }
        }
        assert forall|j: int| 0 <= j < edges.len() implies s1.g.valid((#[trigger] edges[j]).1) by {
            assert(s.g.valid(edges[j].1));
        }
        lemma_edges_copied_in_order(s1, n, edges, i + 1);
    }
}

pub proof fn lemma_mirrored_edge(g: Graph, a: HNode, r: Role, b: HNode)
    requires
        mirrored(g),
        g.valid(a),
        g.valid(b),
    ensures
        mirrored(edge_in(g, a, r, b)),
{
    let g1 = edge_in(g, a, r, b);
    lemma_push_contains(g.at(a).edges, (r, b));
    lemma_push_contains(g.at(b).preds, (r, a));
    assert forall|x: HNode, q: Role, t: HNode|
        g1.valid(x) && #[trigger] g1.at(x).edges.contains((q, t)) implies g1.valid(t) && g1.at(
        t,
    ).preds.contains((q, x)) by {
        if g.at(x).edges.contains((q, t)) {
            assert(g.at(t).preds.contains((q, x)));
        } else {
            assert(x == a && q == r && t == b);
        }
    }
    assert forall|x: HNode, q: Role, t: HNode|
        g1.valid(t) && #[trigger] g1.at(t).preds.contains((q, x)) implies g1.valid(x) && g1.at(
        x,
    ).edges.contains((q, t)) by {
        if g.at(t).preds.contains((q, x)) {
            assert(g.at(x).edges.contains((q, t)));
        } else {
            assert(x == a && q == r && t == b);
        }
    }
}

/// A merge keeps each edge recorded at its target, and along a named role.
pub proof fn lemma_merged_in_order(k: Config, s: State, i0: HNode, j0: HNode, cause0: DepSet)
    requires
        s.wf(),
        s.g.valid(i0),
        s.g.valid(j0),
    ensures
        mirrored(s.g) ==> mirrored(merged(k, s, i0, j0, cause0).0.g),
        along_named(s.g) ==> along_named(merged(k, s, i0, j0, cause0).0.g),
{
    let i = s.g.rep(i0);
    let j = s.g.rep(j0);
    assert(s.g.root[i0.at()].at() < s.g.root.len());
    assert(s.g.root[j0.at()].at() < s.g.root.len());
    if i != j && !crate::queries::apart(s.g, i, j) {
        let cause = if k.nn_taint_disabled {
            DepSet::empty()
        } else {
            cause0
        };
        let g0 = relinked(s.g, i, j);
        crate::rules_wf::lemma_linked_wf(s.g, i, j);
        assert(g0.node_wf(g0.nodes[i.at()], i.at()));
        lemma_with(g0, i, widened_birth(g0.at(i), cause));
        let g1 = if cause != DepSet::empty() {
            g0.with(i, widened_birth(g0.at(i), cause))
        } else {
            g0
        };
        assert(grows(s.g, g0));
        lemma_grows_trans(s.g, g0, g1);
        lemma_work_grows(s.g, g1, s.work);
        let s1 = State { g: g1, ..s };
        let vj = g1.at(j);
        assert(g1.node_wf(g1.nodes[j.at()], j.at()));
        crate::rules_wf::lemma_labels_copied(s1, i, vj.labels, vj.label_deps, cause, 0);
        lemma_labels_copied_edges(s1, i, vj.labels, vj.label_deps, cause, 0);
        let s2 = labels_copied(s1, i, vj.labels, vj.label_deps, cause, 0);
        assert(same_edges(s.g, g1));
        if mirrored(s.g) {
            lemma_mirrored_same(s.g, g1);
            lemma_mirrored_same(g1, s2.g);
        }
        if along_named(s.g) {
            lemma_named_same(s.g, g1);
            lemma_named_same(g1, s2.g);
            assert forall|q: int| 0 <= q < vj.edges.len() implies (
            #[trigger] vj.edges[q]).0 is Named by {
                assert(g1.at(j).edges.contains((vj.edges[q].0, vj.edges[q].1)));
            }
        }
        assert forall|q: int| 0 <= q < vj.edges.len() implies s2.g.valid((#[trigger] vj.edges[q]).1) by {
            assert(g1.valid(vj.edges[q].1));
        }
        lemma_edges_copied_in_order(s2, i, vj.edges, 0);
        let s3 = edges_copied(s2, i, vj.edges, 0);
        crate::rules_wf::lemma_edges_copied(s2, i, vj.edges, 0);
        let g4 = s3.g.with(i, constraints_merged(s3.g.at(i), s3.g.at(j)));
        if mirrored(s.g) {
            lemma_mirrored_same(s3.g, g4);
        }
        if along_named(s.g) {
            lemma_named_same(s3.g, g4);
        }
    }
}

pub proof fn lemma_named_same(g0: Graph, g1: Graph)
    requires
        along_named(g0),
        same_edges(g0, g1),
    ensures
        along_named(g1),
{
    assert forall|a: HNode, r: Role, t: HNode|
        g1.valid(a) && #[trigger] g1.at(a).edges.contains((r, t)) implies r is Named by {
        assert(g1.nodes[a.at()].edges == g0.nodes[a.at()].edges);
        assert(g0.at(a).edges.contains((r, t)));
    }
}

} // verus!
