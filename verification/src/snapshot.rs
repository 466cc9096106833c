//! Capturing a completion graph, and starting a search from a captured one.

use std::collections::HashSet;
use std::sync::Arc;
use vstd::prelude::*;
use crate::clause::{clause_views, DlClause};
use crate::dep_set::DepSet;
use crate::engine::{HyperEngine, LazyReplayState};
use crate::graph::{Config, Graph, LazyView, State};
use crate::ids::{ClassId, HNode, Role};
use crate::index::{build_clause_indexes, build_disjoint_pairs};
use crate::matching::node_views;
use crate::node::{sorted, HyperNode, NodeView};
use crate::rules::edge_in;
use crate::rules_wf::lemma_edge_in;
use crate::setup::{bare_graph, fresh_state, lemma_bare_graph, plain_for};
use crate::union_find::discrete;
use crate::util::{copy_vec, filled};

verus! {

broadcast use vstd::std_specs::hash::group_hash_axioms;

/// A node of a snapshot.
#[derive(Debug)]
pub struct SnapshotNode {
    pub labels: Vec<ClassId>,
    pub is_root: bool,
    pub birth_deps: DepSet,
    /// The labels at the time of capture.
    pub pre_capture_labels: Vec<ClassId>,
}

/// An edge of a snapshot, to the node at position `target`.
#[derive(Debug, Clone, Copy, PartialEq, Eq, Structural)]
pub struct SnapshotEdge {
    pub role: Role,
    pub target: u32,
}

/// Whether consequences may flow back into a snapshot when clauses are
/// added to it.
#[derive(Debug, Clone, Copy, PartialEq, Eq, Structural)]
pub enum BackPropRisk {
    Safe,
    Hazard,
}

/// A captured completion graph.
#[derive(Debug)]
pub struct GraphSnapshot {
    nodes: Vec<SnapshotNode>,
    edges: Vec<Vec<SnapshotEdge>>,
    fired: Vec<u64>,
    seed: ClassId,
    risk: BackPropRisk,
}

/// What a snapshot node holds.
#[verifier::ext_equal]
pub struct SnapNodeView {
    pub labels: Seq<ClassId>,
    pub is_root: bool,
    pub birth_deps: DepSet,
    pub captured: Seq<ClassId>,
}

/// What a snapshot holds.
#[verifier::ext_equal]
pub struct SnapView {
    pub nodes: Seq<SnapNodeView>,
    pub edges: Seq<Seq<SnapshotEdge>>,
    pub fired: Seq<u64>,
    pub seed: ClassId,
    pub risk: BackPropRisk,
}

impl View for SnapshotNode {
    type V = SnapNodeView;

    open spec fn view(&self) -> SnapNodeView {
        SnapNodeView {
            labels: self.labels@,
            is_root: self.is_root,
            birth_deps: self.birth_deps,
            captured: self.pre_capture_labels@,
        }
    }
}

/// The snapshot nodes in a vector.
pub open spec fn snap_node_views(v: Seq<SnapshotNode>) -> Seq<SnapNodeView> {
    v.map_values(|n: SnapshotNode| n@)
}

/// The edge lists in a vector.
pub open spec fn snap_edge_views(v: Seq<Vec<SnapshotEdge>>) -> Seq<Seq<SnapshotEdge>> {
    v.map_values(|e: Vec<SnapshotEdge>| e@)
}

impl View for GraphSnapshot {
    type V = SnapView;

    closed spec fn view(&self) -> SnapView {
        SnapView {
            nodes: snap_node_views(self.nodes@),
            edges: snap_edge_views(self.edges@),
            fired: self.fired@,
            seed: self.seed,
            risk: self.risk,
        }
    }
}

impl SnapView {
    /// There is a node, labels are sorted, and edges lead to nodes.
    pub open spec fn wf(self) -> bool {
        &&& 0 < self.nodes.len() <= u32::MAX + 1
        &&& self.edges.len() <= self.nodes.len()
        &&& forall|i: int|
            0 <= i < self.nodes.len() ==> sorted((#[trigger] self.nodes[i]).labels) && sorted(
                self.nodes[i].captured,
            )
        &&& forall|i: int, j: int|
            0 <= i < self.edges.len() && 0 <= j < self.edges[i].len()
                ==> (#[trigger] self.edges[i][j]).target < self.nodes.len()
    }
}

impl GraphSnapshot {
    /// A snapshot of the given parts.
    pub fn from_parts(
        nodes: Vec<SnapshotNode>,
        edges: Vec<Vec<SnapshotEdge>>,
        fired: Vec<u64>,
        seed: ClassId,
        risk: BackPropRisk,
    ) -> (r: GraphSnapshot)
        ensures
            r@ == (SnapView {
                nodes: snap_node_views(nodes@),
                edges: snap_edge_views(edges@),
                fired: fired@,
                seed,
                risk,
            }),
    {
        GraphSnapshot { nodes, edges, fired, seed, risk }
    }

    pub fn nodes(&self) -> (r: &Vec<SnapshotNode>)
        ensures
            snap_node_views(r@) == self@.nodes,
    {
        &self.nodes
    }

    pub fn edges_per_node(&self) -> (r: &Vec<Vec<SnapshotEdge>>)
        ensures
            snap_edge_views(r@) == self@.edges,
    {
        &self.edges
    }

    pub fn fired(&self) -> (r: &Vec<u64>)
        ensures
            r@ == self@.fired,
    {
        &self.fired
    }

    pub fn seed(&self) -> (r: ClassId)
        ensures
            r == self@.seed,
    {
        self.seed
    }

    pub fn risk(&self) -> (r: BackPropRisk)
        ensures
            r == self@.risk,
    {
        self.risk
    }
}

/// The canonical nodes among the first `n`, in order.
pub open spec fn canon(g: Graph, n: int) -> Seq<HNode>
    decreases n,
{
    if n <= 0 {
        Seq::empty()
    } else if g.root[n - 1].at() == n - 1 {
        canon(g, n - 1).push(HNode((n - 1) as u32))
    } else {
        canon(g, n - 1)
    }
}

/// The canonical nodes.
pub open spec fn canonicals(g: Graph) -> Seq<HNode> {
    canon(g, g.nodes.len() as int)
}

/// The position of the canonical node `h` among the canonical nodes.
pub open spec fn snap_id(g: Graph, h: HNode) -> u32 {
    canon(g, h.at()).len() as u32
}

/// The edges of a node, between canonical nodes.
pub open spec fn snap_edges(g: Graph, edges: Seq<(Role, HNode)>) -> Seq<SnapshotEdge> {
    edges.map_values(
        |e: (Role, HNode)| SnapshotEdge { role: e.0, target: snap_id(g, g.rep(e.1)) },
    )
}

/// Node `h` as a snapshot node.
pub open spec fn snap_node(g: Graph, h: HNode) -> SnapNodeView {
    SnapNodeView {
        labels: g.at(h).labels,
        is_root: h == g.rep(HNode(0)),
        birth_deps: g.at(h).birth_deps,
        captured: g.at(h).labels,
    }
}

/// The snapshot of a graph: its canonical nodes, with their labels and the
/// edges between them.
pub open spec fn captured(g: Graph, seed: ClassId) -> SnapView {
    let hs = canonicals(g);
    SnapView {
        nodes: hs.map_values(|h: HNode| snap_node(g, h)),
        edges: hs.map_values(|h: HNode| snap_edges(g, g.at(h).edges)),
        fired: hs.map_values(|h: HNode| 0u64),
        seed,
        risk: BackPropRisk::Safe,
    }
}

/// The canonical nodes are canonical, increasing, and all there.
pub proof fn lemma_canon(g: Graph, n: int)
    requires
        g.wf(),
        0 <= n <= g.nodes.len(),
    ensures
        canon(g, n).len() <= n,
        forall|j: int|
            0 <= j < canon(g, n).len() ==> {
                let h = #[trigger] canon(g, n)[j];
                &&& h.at() < n
                &&& g.rep(h) == h
                &&& canon(g, h.at()).len() == j
            },
        forall|h: HNode|
            h.at() < n && g.rep(h) == h ==> #[trigger] canon(g, h.at()).len() < canon(g, n).len()
                && canon(g, n)[canon(g, h.at()).len() as int] == h,
    decreases n,
{
    if n > 0 {
        lemma_canon(g, n - 1);
        let c0 = canon(g, n - 1);
        let c1 = canon(g, n);
        let last = HNode((n - 1) as u32);
        assert forall|h: HNode| h.at() < n && g.rep(h) == h implies #[trigger] canon(
            g,
            h.at(),
        ).len() < c1.len() && c1[canon(g, h.at()).len() as int] == h by {
            if h.at() < n - 1 {
                assert(canon(g, h.at()).len() < c0.len());
            } else {
                assert(h == last);
            }
        }
    }
}

/// A snapshot of a graph is well formed.
pub proof fn lemma_captured_wf(g: Graph, seed: ClassId)
    requires
        g.wf(),
    ensures
        captured(g, seed).wf(),
        canonicals(g).len() > 0,
{
    let s = captured(g, seed);
    let n = g.nodes.len() as int;
    lemma_canon(g, n);
    let r0 = g.root[0];
    assert(r0.at() < g.root.len());
    assert(g.rep(r0) == r0);
    assert(canon(g, r0.at()).len() < canon(g, n).len());
    assert forall|i: int| 0 <= i < s.nodes.len() implies sorted((#[trigger] s.nodes[i]).labels)
        && sorted(s.nodes[i].captured) by {
        let h = canonicals(g)[i];
        assert(g.node_wf(g.nodes[h.at()], h.at()));
    }
    assert forall|i: int, j: int| 0 <= i < s.edges.len() && 0 <= j < s.edges[i].len() implies (
    #[trigger] s.edges[i][j]).target < s.nodes.len() by {
        let h = canonicals(g)[i];
        assert(g.node_wf(g.nodes[h.at()], h.at()));
        let t = g.at(h).edges[j].1;
        assert(g.valid(g.at(h).edges[j].1));
        let r = g.root[t.at()];
        assert(r.at() < g.root.len());
        assert(g.rep(r) == r);
        assert(canon(g, r.at()).len() < canon(g, n).len());
    }
}

/// A node taken over from a snapshot, without its edges.
pub open spec fn replayed_node(i: int, n: SnapNodeView) -> NodeView {
    NodeView {
        labels: n.labels,
        label_deps: Seq::new(n.labels.len(), |j: int| n.birth_deps),
        birth_deps: n.birth_deps,
        ..NodeView::blank(i as u32)
    }
}

/// The graph with the edges of snapshot node `i`, from edge `j` on.
pub open spec fn edges_linked(g: Graph, i: int, es: Seq<SnapshotEdge>, j: int) -> Graph
    decreases es.len() - j,
{
    if j < 0 || j >= es.len() {
        g
    } else {
        edges_linked(
            edge_in(g, HNode(i as u32), es[j].role, HNode(es[j].target)),
            i,
            es,
            j + 1,
        )
    }
}

/// The graph with the edges of the snapshot nodes from `i` on.
pub open spec fn all_linked(g: Graph, edges: Seq<Seq<SnapshotEdge>>, i: int) -> Graph
    decreases edges.len() - i,
{
    if i < 0 || i >= edges.len() {
        g
    } else {
        all_linked(edges_linked(g, i, edges[i], 0), edges, i + 1)
    }
}

/// The nodes of a snapshot, without edges.
pub open spec fn replayed_nodes(s: SnapView) -> Seq<NodeView> {
    Seq::new(s.nodes.len(), |i: int| replayed_node(i, s.nodes[i]))
}

/// The graph that a search starts from when it is given a snapshot.
pub open spec fn replayed_graph(s: SnapView) -> Graph {
    all_linked(
        bare_graph(replayed_nodes(s), discrete(s.nodes.len()), true),
        s.edges,
        0,
    )
}

proof fn lemma_edges_linked(g: Graph, i: int, es: Seq<SnapshotEdge>, j: int)
    requires
        g.wf(),
        0 <= i < g.nodes.len(),
        0 <= j <= es.len(),
        forall|q: int| 0 <= q < es.len() ==> (#[trigger] es[q]).target < g.nodes.len(),
    ensures
        edges_linked(g, i, es, j).wf(),
        edges_linked(g, i, es, j).nodes.len() == g.nodes.len(),
        edges_linked(g, i, es, j).root == g.root,
        edges_linked(g, i, es, j).origin == g.origin,
        forall|m: int|
            0 <= m < g.nodes.len() ==> {
                let a = #[trigger] edges_linked(g, i, es, j).nodes[m];
                &&& a.labels == g.nodes[m].labels
                &&& a.label_deps == g.nodes[m].label_deps
                &&& a.birth_deps == g.nodes[m].birth_deps
                &&& m != i ==> a.edges == g.nodes[m].edges
            },
        edges_linked(g, i, es, j).nodes[i].edges == g.nodes[i].edges + es.skip(j).map_values(
            |e: SnapshotEdge| (e.role, HNode(e.target)),
        ),
    decreases es.len() - j,
{
    let f = |e: SnapshotEdge| (e.role, HNode(e.target));
    if j < es.len() {
        let a = HNode(i as u32);
        let b = HNode(es[j].target);
        lemma_edge_in(g, a, es[j].role, b);
        let g1 = edge_in(g, a, es[j].role, b);
        assert(g.valid(a) && g.valid(b));
        lemma_edges_linked(g1, i, es, j + 1);
        assert(g1.nodes[i].edges =~= g.nodes[i].edges.push(f(es[j])));
        assert(g1.nodes[i].edges + es.skip(j + 1).map_values(f) =~= g.nodes[i].edges + es.skip(
            j,
        ).map_values(f));
        let out = edges_linked(g, i, es, j);
        assert forall|m: int| 0 <= m < g.nodes.len() implies {
            let a = #[trigger] out.nodes[m];
            &&& a.labels == g.nodes[m].labels
            &&& a.label_deps == g.nodes[m].label_deps
            &&& a.birth_deps == g.nodes[m].birth_deps
            &&& m != i ==> a.edges == g.nodes[m].edges
        } by {
            assert(g1.nodes[m].labels == g.nodes[m].labels);
        }
    } else {
        assert(es.skip(j).map_values(f) =~= Seq::empty());
        assert(g.nodes[i].edges + es.skip(j).map_values(f) =~= g.nodes[i].edges);
    }
}

/// The edges of a snapshot node, as edges of a graph.
pub open spec fn as_edges(es: Seq<SnapshotEdge>) -> Seq<(Role, HNode)> {
    es.map_values(|e: SnapshotEdge| (e.role, HNode(e.target)))
}

proof fn lemma_all_linked(g: Graph, edges: Seq<Seq<SnapshotEdge>>, i: int)
    requires
        g.wf(),
        0 <= i <= edges.len() <= g.nodes.len(),
        forall|p: int, q: int|
            0 <= p < edges.len() && 0 <= q < edges[p].len() ==> (#[trigger] edges[p][q]).target
                < g.nodes.len(),
    ensures
        all_linked(g, edges, i).wf(),
        all_linked(g, edges, i).nodes.len() == g.nodes.len(),
        all_linked(g, edges, i).root == g.root,
        all_linked(g, edges, i).origin == g.origin,
        forall|m: int|
            0 <= m < g.nodes.len() ==> {
                let a = #[trigger] all_linked(g, edges, i).nodes[m];
                &&& a.labels == g.nodes[m].labels
                &&& a.label_deps == g.nodes[m].label_deps
                &&& a.birth_deps == g.nodes[m].birth_deps
                &&& m < i || m >= edges.len() ==> a.edges == g.nodes[m].edges
                &&& i <= m < edges.len() ==> a.edges == g.nodes[m].edges + as_edges(edges[m])
            },
    decreases edges.len() - i,
{
    if i < edges.len() {
        let es = edges[i];
        assert forall|q: int| 0 <= q < es.len() implies (#[trigger] es[q]).target
            < g.nodes.len() by {
            assert(edges[i][q].target < g.nodes.len());
        }
        lemma_edges_linked(g, i, es, 0);
        let g1 = edges_linked(g, i, es, 0);
        assert(es.skip(0) =~= es);
        lemma_all_linked(g1, edges, i + 1);
        let out = all_linked(g, edges, i);
        assert forall|m: int| 0 <= m < g.nodes.len() implies {
            let a = #[trigger] out.nodes[m];
            &&& a.labels == g.nodes[m].labels
            &&& a.label_deps == g.nodes[m].label_deps
            &&& a.birth_deps == g.nodes[m].birth_deps
            &&& m < i || m >= edges.len() ==> a.edges == g.nodes[m].edges
            &&& i <= m < edges.len() ==> a.edges == g.nodes[m].edges + as_edges(edges[m])
        } by {
            assert(g1.nodes[m].labels == g.nodes[m].labels);
        }
    }
}

/// A node taken over from a snapshot is well formed.
pub proof fn lemma_replayed_bare(s: SnapView)
    requires
        s.wf(),
    ensures
        bare_graph(replayed_nodes(s), discrete(s.nodes.len()), true).wf(),
{
    let ns = replayed_nodes(s);
    assert forall|i: int| 0 <= i < ns.len() implies {
        &&& (#[trigger] ns[i]).wf()
        &&& ns[i].order == i
        &&& ns[i].edges.len() == 0
        &&& ns[i].preds.len() == 0
        &&& ns[i].parent is None
    } by {
        assert(sorted(s.nodes[i].labels));
    }
    lemma_bare_graph(ns, discrete(s.nodes.len()), true);
}

/// A search that starts from a well-formed snapshot has its nodes, each with
/// its labels and edges, all of them marked as taken over.
pub proof fn lemma_replayed_graph(s: SnapView)
    requires
        s.wf(),
    ensures
        replayed_graph(s).wf(),
        replayed_graph(s).nodes.len() == s.nodes.len(),
        forall|m: int|
            0 <= m < s.nodes.len() ==> {
                let a = #[trigger] replayed_graph(s).nodes[m];
                &&& a.labels == s.nodes[m].labels
                &&& a.birth_deps == s.nodes[m].birth_deps
                &&& a.edges == if m < s.edges.len() {
                    as_edges(s.edges[m])
                } else {
                    Seq::empty()
                }
                &&& replayed_graph(s).origin[m]
                &&& replayed_graph(s).root[m] == HNode(m as u32)
            },
{
    lemma_replayed_bare(s);
    let g = bare_graph(replayed_nodes(s), discrete(s.nodes.len()), true);
    lemma_all_linked(g, s.edges, 0);
    assert forall|m: int| 0 <= m < s.nodes.len() implies {
        let a = #[trigger] replayed_graph(s).nodes[m];
        &&& a.labels == s.nodes[m].labels
        &&& a.birth_deps == s.nodes[m].birth_deps
        &&& a.edges == if m < s.edges.len() {
            as_edges(s.edges[m])
        } else {
            Seq::empty()
        }
        &&& replayed_graph(s).origin[m]
        &&& replayed_graph(s).root[m] == HNode(m as u32)
    } by {
        assert(g.nodes[m].edges =~= Seq::empty());
        if m < s.edges.len() {
            assert(Seq::<(Role, HNode)>::empty() + as_edges(s.edges[m]) =~= as_edges(s.edges[m]));
        }
    }
}

/// Capturing a graph and starting from the snapshot gives back the canonical
/// nodes in order, each with its labels and with its edges led to canonical
/// nodes.
pub proof fn lemma_snapshot_round_trip(g: Graph, seed: ClassId, j: int)
    requires
        g.wf(),
        0 <= j < canonicals(g).len(),
    ensures
        replayed_graph(captured(g, seed)).nodes.len() == canonicals(g).len(),
        ({
            let a = replayed_graph(captured(g, seed)).nodes[j];
            let b = g.at(canonicals(g)[j]);
            &&& a.labels == b.labels
            &&& a.birth_deps == b.birth_deps
            &&& a.edges.len() == b.edges.len()
            &&& forall|m: int|
                0 <= m < b.edges.len() ==> {
                    &&& (#[trigger] a.edges[m]).0 == b.edges[m].0
                    &&& canonicals(g)[a.edges[m].1.at()] == g.rep(b.edges[m].1)
                }
        }),
{
    let s = captured(g, seed);
    lemma_captured_wf(g, seed);
    lemma_replayed_graph(s);
    let h = canonicals(g)[j];
    let n = g.nodes.len() as int;
    lemma_canon(g, n);
    let a = replayed_graph(s).nodes[j];
    let b = g.at(h);
    assert(g.node_wf(g.nodes[h.at()], h.at()));
    assert forall|m: int| 0 <= m < b.edges.len() implies {
        &&& (#[trigger] a.edges[m]).0 == b.edges[m].0
        &&& canonicals(g)[a.edges[m].1.at()] == g.rep(b.edges[m].1)
    } by {
        let t = b.edges[m].1;
        assert(g.valid(b.edges[m].1));
        let r = g.root[t.at()];
        assert(r.at() < g.root.len());
        assert(g.rep(r) == r);
        assert(canon(g, r.at()).len() < canon(g, n).len());
    }
}

impl<'c> HyperEngine<'c> {
    /// A snapshot of the completion graph, if `seed` labels the root node's
    /// representative. It is a witness model only after `Sat`.
    #[must_use]
    pub fn satisfiability_snapshot(&self, seed: ClassId) -> (r: Option<GraphSnapshot>)
        requires
            self.wf(),
        ensures
            match r {
                Some(s) => {
                    &&& self.graph().at(self.graph().rep(HNode(0))).has(seed)
                    &&& s@ == captured(self.graph(), seed)
                    &&& s@.wf()
                },
                None => !self.graph().at(self.graph().rep(HNode(0))).has(seed),
            },
    {
        let ghost g = self.graph();
        let root_rep = self.resolve(HNode(0));
        assert(g.at(root_rep) == self.nodes@[root_rep.at()]@);
        assert(g.node_wf(g.nodes[root_rep.at()], root_rep.at()));
        if !self.nodes[root_rep.index()].has(seed) {
            return None;
        }
        let mut canonical: Vec<HNode> = Vec::new();
        let mut ids: Vec<u32> = Vec::new();
        let mut i: usize = 0;
        while i < self.nodes.len()
            invariant
                self.wf(),
                g == self.graph(),
                i <= self.nodes@.len(),
                canonical@ == canon(g, i as int),
                ids@.len() == i,
                forall|j: int|
                    0 <= j < i ==> #[trigger] ids@[j] == canon(g, j).len() && canon(g, j).len() <= j,
            decreases self.nodes@.len() - i,
        {
            proof {
                lemma_canon(g, i as int);
            }
            let h = HNode(i as u32);
            assert(h.at() == i);
            ids.push(canonical.len() as u32);
            assert(ids@[i as int] == canon(g, i as int).len());
            if self.resolve(h) == h {
                canonical.push(h);
            }
            i += 1;
        }
        proof {
            lemma_canon(g, g.nodes.len() as int);
        }
        let mut nodes: Vec<SnapshotNode> = Vec::new();
        let mut edges: Vec<Vec<SnapshotEdge>> = Vec::new();
        let mut fired: Vec<u64> = Vec::new();
        let mut k: usize = 0;
        while k < canonical.len()
            invariant
                self.wf(),
                g == self.graph(),
                root_rep == g.rep(HNode(0)),
                canonical@ == canonicals(g),
                ids@.len() == self.nodes@.len(),
                forall|j: int|
                    0 <= j < ids@.len() ==> #[trigger] ids@[j] == canon(g, j).len() && canon(
                        g,
                        j,
                    ).len() <= j,
                forall|j: int| 0 <= j < canonical@.len() ==> g.valid(#[trigger] canonical@[j]),
                k <= canonical@.len(),
                nodes@.len() == k,
                edges@.len() == k,
                fired@.len() == k,
                forall|j: int|
                    0 <= j < k ==> (#[trigger] nodes@[j])@ == snap_node(g, canonical@[j]),
                forall|j: int|
                    0 <= j < k ==> (#[trigger] edges@[j])@ == snap_edges(
                        g,
                        g.at(canonical@[j]).edges,
                    ),
                forall|j: int| 0 <= j < k ==> #[trigger] fired@[j] == 0,
            decreases canonical@.len() - k,
        {
            let h = canonical[k];
            assert(g.valid(canonical@[k as int]));
            let hn = &self.nodes[h.index()];
            assert(g.at(h) == hn@);
            let node = SnapshotNode {
                labels: copy_vec(&hn.labels),
                is_root: h == root_rep,
                birth_deps: hn.birth_deps,
                pre_capture_labels: copy_vec(&hn.labels),
            };
            let out = self.captured_edges(h, &ids);
            nodes.push(node);
            edges.push(out);
            fired.push(0);
            k += 1;
        }
        proof {
            let s = captured(g, seed);
            assert(snap_node_views(nodes@) =~= s.nodes);
            assert(snap_edge_views(edges@) =~= s.edges);
            assert(fired@ =~= s.fired);
            lemma_captured_wf(g, seed);
        }
        Some(GraphSnapshot::from_parts(nodes, edges, fired, seed, BackPropRisk::Safe))
    }

    /// The edges of node `h`, led to canonical nodes by their positions.
    fn captured_edges(&self, h: HNode, ids: &Vec<u32>) -> (r: Vec<SnapshotEdge>)
        requires
            self.wf(),
            self.graph().valid(h),
            ids@.len() == self.graph().nodes.len(),
            forall|j: int|
                0 <= j < ids@.len() ==> #[trigger] ids@[j] == canon(self.graph(), j).len(),
        ensures
            r@ == snap_edges(self.graph(), self.graph().at(h).edges),
    {
        let ghost g = self.graph();
        assert(g.at(h) == self.nodes@[h.at()]@);
        assert(g.node_wf(g.nodes[h.at()], h.at()));
        let edges = &self.nodes[h.index()].edges;
        let ghost es = g.at(h).edges;
        assert(edges@ == es);
        let mut r: Vec<SnapshotEdge> = Vec::new();
        let mut i: usize = 0;
        while i < edges.len()
            invariant
                self.wf(),
                g == self.graph(),
                es == edges@,
                forall|j: int| 0 <= j < es.len() ==> g.valid((#[trigger] es[j]).1),
                ids@.len() == g.nodes.len(),
                forall|j: int| 0 <= j < ids@.len() ==> #[trigger] ids@[j] == canon(g, j).len(),
                i <= es.len(),
                r@.len() == i,
                forall|j: int| 0 <= j < i ==> #[trigger] r@[j] == snap_edges(g, es)[j],
            decreases es.len() - i,
        {
            let (role, tgt) = edges[i];
            assert(g.valid(es[i as int].1));
            let rep = self.resolve(tgt);
            let target = ids[rep.index()];
            r.push(SnapshotEdge { role, target });
            i += 1;
        }
        assert(r@ =~= snap_edges(g, es));
        r
    }

    /// An engine that starts from a snapshot: its nodes, labels and edges.
    /// Constraints and generation history are not part of a snapshot.
    #[must_use]
    pub fn from_snapshot(clauses: &'c [DlClause], snapshot: &GraphSnapshot) -> (r: Self)
        requires
            snapshot@.wf(),
        ensures
            r.wf(),
            plain_for(r.config(), clause_views(clauses@)),
            r.state() == fresh_state(replayed_graph(snapshot@)),
    {
        let ghost s = snapshot@;
        let snap_nodes = snapshot.nodes();
        assert(s.nodes.len() == snap_nodes@.len());
        let mut nodes: Vec<HyperNode> = Vec::new();
        let mut i: usize = 0;
        while i < snap_nodes.len()
            invariant
                s == snapshot@,
                s.wf(),
                snap_node_views(snap_nodes@) == s.nodes,
                s.nodes.len() == snap_nodes@.len(),
                i <= snap_nodes@.len(),
                nodes@.len() == i,
                forall|j: int|
                    0 <= j < i ==> (#[trigger] nodes@[j])@ == replayed_node(j, s.nodes[j]),
            decreases snap_nodes@.len() - i,
        {
            let sn = &snap_nodes[i];
            assert(s.nodes[i as int] == sn@);
            let mut hn = HyperNode::blank(i as u32);
            hn.birth_deps = sn.birth_deps;
            hn.labels = copy_vec(&sn.labels);
            hn.label_deps = filled(sn.birth_deps, sn.labels.len());
            assert(hn@ =~= replayed_node(i as int, s.nodes[i as int]));
            nodes.push(hn);
            i += 1;
        }
        assert(node_views(nodes@) =~= replayed_nodes(s));
        proof {
            lemma_replayed_bare(s);
        }
        let indexes = Arc::new(build_clause_indexes(clauses, None));
        let disjoint_pairs = Arc::new(build_disjoint_pairs(clauses));
        let mut e = Self::assemble(clauses, nodes, true, indexes, disjoint_pairs);
        let ghost g0 = e.graph();
        let ghost k = e.config();
        let ghost s0 = e.state();
        let edges = snapshot.edges_per_node();
        assert(s.edges.len() == edges@.len());
        let mut p: usize = 0;
        while p < edges.len()
            invariant
                s == snapshot@,
                s.wf(),
                snap_edge_views(edges@) == s.edges,
                s.edges.len() == edges@.len(),
                e.wf(),
                e.config() == k,
                e.graph().nodes.len() == s.nodes.len(),
                e.state() == (State { g: e.graph(), ..s0 }),
                p <= edges@.len(),
                all_linked(g0, s.edges, 0) == all_linked(e.graph(), s.edges, p as int),
            decreases edges@.len() - p,
        {
            let es = &edges[p];
            assert(s.edges[p as int] == es@);
            let src = HNode(p as u32);
            let ghost g1 = e.graph();
            let mut q: usize = 0;
            while q < es.len()
                invariant
                    s == snapshot@,
                    s.wf(),
                    p < s.edges.len(),
                    s.edges[p as int] == es@,
                    src == HNode(p as u32),
                    e.wf(),
                    e.config() == k,
                    e.graph().nodes.len() == s.nodes.len(),
                    e.state() == (State { g: e.graph(), ..s0 }),
                    q <= es@.len(),
                    edges_linked(g1, p as int, es@, 0) == edges_linked(
                        e.graph(),
                        p as int,
                        es@,
                        q as int,
                    ),
                decreases es@.len() - q,
            {
                let edge = es[q];
                assert(s.edges[p as int][q as int].target < s.nodes.len());
                let tgt = HNode(edge.target);
                proof {
                    lemma_edge_in(e.graph(), src, edge.role, tgt);
                }
                e.link_nodes(src, edge.role, tgt);
                q += 1;
            }
            p += 1;
        }
        e
    }

    /// As [`Self::from_snapshot`], for a snapshot that was saturated under
    /// all clauses but those added since: labels that were there when it was
    /// captured are not processed again, except those that an added clause
    /// listens to (`new_trigger_atoms`).
    #[must_use]
    pub fn from_snapshot_lazy(
        clauses: &'c [DlClause],
        snapshot: &GraphSnapshot,
        new_trigger_atoms: HashSet<u32>,
    ) -> (r: Self)
        requires
            snapshot@.wf(),
        ensures
            r.wf(),
            plain_for((Config { lazy: None, ..r.config() }), clause_views(clauses@)),
            r.config().lazy == Some(
                LazyView {
                    captured: snapshot@.nodes.map_values(|n: SnapNodeView| n.captured),
                    triggers: new_trigger_atoms@,
                },
            ),
            r.state() == fresh_state(replayed_graph(snapshot@)),
    {
        let ghost s = snapshot@;
        let mut e = Self::from_snapshot(clauses, snapshot);
        let snap_nodes = snapshot.nodes();
        assert(s.nodes.len() == snap_nodes@.len());
        let mut pre: Vec<Vec<ClassId>> = Vec::new();
        let mut i: usize = 0;
        while i < snap_nodes.len()
            invariant
                s == snapshot@,
                snap_node_views(snap_nodes@) == s.nodes,
                s.nodes.len() == snap_nodes@.len(),
                i <= snap_nodes@.len(),
                pre@.len() == i,
                forall|j: int| 0 <= j < i ==> (#[trigger] pre@[j])@ == s.nodes[j].captured,
            decreases snap_nodes@.len() - i,
        {
            assert(s.nodes[i as int] == snap_nodes@[i as int]@);
            let l = copy_vec(&snap_nodes[i].pre_capture_labels);
            pre.push(l);
            i += 1;
        }
        let lazy = LazyReplayState { pre_capture_labels: pre, new_trigger_atoms };
        proof {
            assert(lazy@.captured =~= s.nodes.map_values(|n: SnapNodeView| n.captured));
            assert forall|j: int| 0 <= j < lazy@.captured.len() implies sorted(
                #[trigger] lazy@.captured[j],
            ) by {
                assert(sorted(s.nodes[j].captured));
            }
        }
        e.lazy_replay_state = Some(lazy);
        e
    }
}

} // verus!
