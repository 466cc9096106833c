//! A snapshot that is replayed lazily ends up as closed as one that is
//! replayed in full.

use vstd::prelude::*;
use crate::clause::{Atom, Var, X};
use crate::completion::{attended, lemma_sat_decided};
use crate::graph::{Config, Graph, HyperResult, State};
use crate::horn_closure::{
    due, head_done, horn_closed, individual, lemma_fired_weaker, primed, quiet, skipped,
};
use crate::ids::{ClassId, HNode, Role};
use crate::listening::{lemma_listening_closed, listening};
use crate::match_laws::{atom_holds, body_holds};
use crate::matching::var_node;
use crate::rules::edge_in;
use crate::rules_wf::lemma_edge_in;
use crate::search::solves;
use crate::setup::bare_graph;
use crate::snapshot::{
    all_linked, as_edges, canonicals, captured, edges_linked, lemma_replayed_bare,
    lemma_replayed_graph, replayed_graph, replayed_node, replayed_nodes, snap_node, SnapNodeView,
    SnapView, SnapshotEdge,
};
use crate::unfolding::{along_named, forward_only, lemma_mirrored_edge, mirrored};
use crate::union_find::discrete;

verus! {

/// The labels that were captured are labels of the nodes.
pub open spec fn faithful(s: SnapView) -> bool {
    forall|m: int, c: ClassId|
        0 <= m < s.nodes.len() && #[trigger] s.nodes[m].captured.contains(c)
            ==> s.nodes[m].labels.contains(c)
}

/// `k` replays the snapshot lazily. Its clauses are those of `k0`, and others
/// that were added since: every class that the bodies of these ask for is a
/// trigger.
pub open spec fn replays(k: Config, k0: Config, s: SnapView) -> bool {
    &&& k0.roles == k.roles
    &&& k0.clauses.len() <= k.clauses.len()
    &&& forall|ci: int|
        0 <= ci < k0.clauses.len() ==> #[trigger] k.clauses[ci] == k0.clauses[ci]
    &&& k.lazy matches Some(l) && {
        &&& l.captured == s.nodes.map_values(|n: SnapNodeView| n.captured)
        &&& forall|ci: int, q: int|
            k0.clauses.len() <= ci < k.clauses.len() && 0 <= q < k.clauses[ci].body.len() ==> (
            #[trigger] k.clauses[ci].body[q] matches Atom::Class(c, v) ==> l.triggers.contains(c.0))
    }
}

/// Horn clauses that ask of a node only that it is in certain classes have
/// heads that a snapshot captures: a class, or a successor.
pub open spec fn captures(k: Config) -> bool {
    forall|ci: int|
        0 <= ci < k.clauses.len() && k.clauses[ci].horn() && k.clauses[ci].head.len() > 0 && (
        forall|q: int|
            0 <= q < k.clauses[ci].body.len() ==> (
            #[trigger] k.clauses[ci].body[q]) is Class) ==> (
        #[trigger] k.clauses[ci].head)[0] is Class || k.clauses[ci].head[0] is Exists
}

/// A snapshot of a graph is faithful.
pub proof fn lemma_captured_faithful(g: Graph, seed: ClassId)
    requires
        g.wf(),
    ensures
        faithful(captured(g, seed)),
{
    let s = captured(g, seed);
    assert forall|m: int, c: ClassId|
        0 <= m < s.nodes.len() && #[trigger] s.nodes[m].captured.contains(
            c,
        ) implies s.nodes[m].labels.contains(c) by {
        assert(s.nodes[m] == snap_node(g, canonicals(g)[m]));
    }
}

proof fn lemma_edges_linked_mirrored(g: Graph, i: int, es: Seq<SnapshotEdge>, j: int)
    requires
        g.wf(),
        mirrored(g),
        0 <= i < g.nodes.len(),
        0 <= j,
        forall|q: int| 0 <= q < es.len() ==> (#[trigger] es[q]).target < g.nodes.len(),
    ensures
        edges_linked(g, i, es, j).wf(),
        edges_linked(g, i, es, j).nodes.len() == g.nodes.len(),
        mirrored(edges_linked(g, i, es, j)),
    decreases es.len() - j,
{
    if j < es.len() {
        let a = HNode(i as u32);
        let b = HNode(es[j].target);
        assert(g.valid(a) && g.valid(b));
        lemma_edge_in(g, a, es[j].role, b);
        lemma_mirrored_edge(g, a, es[j].role, b);
        lemma_edges_linked_mirrored(edge_in(g, a, es[j].role, b), i, es, j + 1);
    }
}

proof fn lemma_all_linked_mirrored(g: Graph, edges: Seq<Seq<SnapshotEdge>>, i: int)
    requires
        g.wf(),
        mirrored(g),
        0 <= i,
        edges.len() <= g.nodes.len(),
        forall|p: int, q: int|
            0 <= p < edges.len() && 0 <= q < edges[p].len() ==> (#[trigger] edges[p][q]).target
                < g.nodes.len(),
    ensures
        mirrored(all_linked(g, edges, i)),
    decreases edges.len() - i,
{
    if i < edges.len() {
        let es = edges[i];
        assert forall|q: int| 0 <= q < es.len() implies (#[trigger] es[q]).target
            < g.nodes.len() by {
            assert(edges[i][q].target < g.nodes.len());
        }
        lemma_edges_linked_mirrored(g, i, es, 0);
        lemma_all_linked_mirrored(edges_linked(g, i, es, 0), edges, i + 1);
    }
}

/// A snapshot is replayed with each edge recorded at its target.
pub proof fn lemma_replayed_mirrored(s: SnapView)
    requires
        s.wf(),
    ensures
        mirrored(replayed_graph(s)),
{
    let g = bare_graph(replayed_nodes(s), discrete(s.nodes.len()), true);
    lemma_replayed_bare(s);
    assert(mirrored(g)) by {
        assert forall|a: HNode, r: Role, t: HNode|
            g.valid(a) && #[trigger] g.at(a).edges.contains((r, t)) implies false by {
            assert(g.nodes[a.at()] == replayed_node(a.at(), s.nodes[a.at()]));
        }
        assert forall|a: HNode, r: Role, t: HNode|
            g.valid(t) && #[trigger] g.at(t).preds.contains((r, a)) implies false by {
            assert(g.nodes[t.at()] == replayed_node(t.at(), s.nodes[t.at()]));
        }
    }
    lemma_all_linked_mirrored(g, s.edges, 0);
}

/// What a lazily replayed snapshot passes over asks for nothing new, if the
/// snapshot was closed under the clauses of its time.
pub proof fn lemma_replay_primed(k: Config, k0: Config, s: SnapView)
    requires
        s.wf(),
        faithful(s),
        replays(k, k0, s),
        captures(k0),
        horn_closed(k0, replayed_graph(s), true),
    ensures
        primed(k, replayed_graph(s)),
{
    let g = replayed_graph(s);
    let l = k.lazy->0;
    lemma_replayed_graph(s);
    assert forall|ci: int, x: HNode| #[trigger] skipped(k, ci, x) implies {
        let head = k.clauses[ci].head;
        &&& head.len() > 0 && (head[0] is Class || head[0] is Exists)
        &&& head_done(k, g, head, x, Seq::empty(), true)
    } by {
        let cl = k.clauses[ci];
        let b = Seq::<(Var, HNode)>::empty();
        assert(cl.body[0] is Class);
        assert(x.at() < s.nodes.len());
        assert(ci < k0.clauses.len()) by {
            if ci >= k0.clauses.len() {
                assert(k.clauses[ci].body[0] is Class);
            }
        }
        assert(k.clauses[ci] == k0.clauses[ci]);
        assert(body_holds(g.nodes, k0.roles, cl.body, x, b)) by {
            assert forall|q: int| 0 <= q < cl.body.len() implies atom_holds(
                g.nodes,
                k0.roles,
                #[trigger] cl.body[q],
                x,
                b,
            ) by {
                if let Atom::Class(c, v) = cl.body[q] {
                    assert(l.captured[x.at()] == s.nodes[x.at()].captured);
                    assert(s.nodes[x.at()].captured.contains(c));
                    assert(g.nodes[x.at()].labels == s.nodes[x.at()].labels);
                    assert(var_node(X, x, b) == Some(x));
                }
            }
        }
        assert(g.root[x.at()] == HNode(x.at() as u32));
        assert(due(k0, g, ci, x, b));
        assert(head_done(k0, g, cl.head, x, b, true));
        assert forall|q: int| 0 <= q < k0.clauses[ci].body.len() implies (
        #[trigger] k0.clauses[ci].body[q]) is Class by {
            assert(cl.body[q] is Class);
        }
        assert(k0.clauses[ci].head[0] is Class || k0.clauses[ci].head[0] is Exists);
    }
}

/// Replaying a snapshot lazily is right: if the snapshot was closed under the
/// clauses of its time, and every class that the bodies of the added clauses
/// ask for is a trigger, a search that ends in `Sat` leaves a graph that is
/// closed under all of them, as a search that processes every label again
/// does. Clauses that generate nodes are among them if no node was found to be
/// blocked and no `≥n` could be undone.
///
/// All Horn clauses are attentive, and the edges run along named roles. What
/// is passed over asks for classes and successors: a snapshot does not hold a
/// node's `≤n`, so that one that is asked for by labels that are passed over is
/// not there in the end.
pub proof fn lemma_lazy_closed(k: Config, k0: Config, s: SnapView, s0: State, s1: State)
    requires
        k.wf(),
        k.index.of(k.clauses, k.roles),
        listening(k),
        forward_only(k),
        s.wf(),
        faithful(s),
        replays(k, k0, s),
        captures(k0),
        horn_closed(k0, replayed_graph(s), true),
        forall|m: int, q: int|
            0 <= m < s.edges.len() && 0 <= q < s.edges[m].len() ==> (
            #[trigger] s.edges[m][q]).role is Named,
        s0.wf(),
        s0.g == replayed_graph(s),
        solves(k, s0, k.init_depth as nat, s1, HyperResult::Sat),
    ensures
        horn_closed(k, s1.g, false),
        quiet(s0, s1) && individual(k, s1.g) ==> horn_closed(k, s1.g, true),
{
    let g = replayed_graph(s);
    lemma_replayed_graph(s);
    lemma_replayed_mirrored(s);
    lemma_replay_primed(k, k0, s);
    assert(along_named(g)) by {
        assert forall|a: HNode, r: Role, t: HNode|
            g.valid(a) && #[trigger] g.at(a).edges.contains((r, t)) implies r is Named by {
            let es = g.nodes[a.at()].edges;
            assert(a.at() < s.edges.len());
            let q = es.index_of((r, t));
            assert(es[q] == (r, t));
            assert(as_edges(s.edges[a.at()])[q] == (s.edges[a.at()][q].role, HNode(
                s.edges[a.at()][q].target,
            )));
        }
    }
    assert(attended(k, s0.g));
    lemma_sat_decided(k, s0, k.init_depth as nat, s1);
    let all = quiet(s0, s1) && individual(k, s1.g);
    lemma_listening_closed(k, s1.g, all);
    lemma_fired_weaker(k, s1.g, all, false);
    lemma_listening_closed(k, s1.g, false);
}

} // verus!
