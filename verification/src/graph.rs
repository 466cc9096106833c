//! The state of a search, as a mathematical value: the completion graph,
//! the worklist, and what the search remembers besides.

use std::time::Instant;
use vstd::prelude::*;
use crate::clause::{ClauseView, HierarchyView};
use crate::dep_set::DepSet;
use crate::ids::{ClassId, HNode, Role};
use crate::index::IndexesView;
use crate::node::{sorted, NodeView};
use crate::union_find::canonical;

verus! {

/// Outcome of a run.
#[derive(Debug, Clone, Copy, PartialEq, Eq, Structural)]
pub enum HyperResult {
    /// A clash-free completion was reached.
    Sat,
    /// Every way of completing the graph clashes.
    Unsat,
    /// A bound was hit before the question was decided.
    Stalled,
}

/// Per-run search instrumentation, read after a run. A `Sat` reached with
/// `branches_taken == 0` was decided by Horn propagation alone. Counters
/// stay at their largest value once they reach it.
#[derive(Debug, Clone, Copy, PartialEq, Eq, Structural)]
pub struct SearchStats {
    /// Decisions made: disjuncts asserted and partitions merged.
    pub branches_taken: u64,
    /// Of `branches_taken`, the disjuncts asserted.
    pub disj_branches: u64,
    /// Of `branches_taken`, the partitions merged.
    pub merge_branches: u64,
    /// Failed branches whose graph was restored.
    pub restores: u64,
    /// Deepest branch nesting reached; 0 without branching.
    pub max_branch_depth: u32,
    /// Attempts to match a Horn clause at a node.
    pub match_attempts: u64,
    /// Copies of the graph made for branching.
    pub node_clones: u64,
    /// Runs of the Horn fixpoint.
    pub fixpoint_passes: u64,
    /// Calls of the blocking check.
    pub is_blocked_calls: u64,
    /// Calls of the blocking check that found a blocker.
    pub blocks_fired: u64,
    /// Calls of the blocking check on a node that has a parent.
    pub block_eligible: u64,
    /// Label comparisons made by the blocking check.
    pub block_compares: u64,
}

/// One more, unless at the largest value.
pub open spec fn spec_tick(n: u64) -> u64 {
    if n == u64::MAX {
        n
    } else {
        (n + 1) as u64
    }
}

/// One more, unless at the largest value.
#[verifier::when_used_as_spec(spec_tick)]
pub fn tick(n: u64) -> (r: u64)
    ensures
        r == spec_tick(n),
{
    if n == u64::MAX {
        n
    } else {
        n + 1
    }
}

impl SearchStats {
    /// All counters at zero.
    pub open spec fn spec_zero() -> SearchStats {
        SearchStats {
            branches_taken: 0,
            disj_branches: 0,
            merge_branches: 0,
            restores: 0,
            max_branch_depth: 0,
            match_attempts: 0,
            node_clones: 0,
            fixpoint_passes: 0,
            is_blocked_calls: 0,
            blocks_fired: 0,
            block_eligible: 0,
            block_compares: 0,
        }
    }

    /// All counters at zero.
    #[verifier::when_used_as_spec(spec_zero)]
    pub fn zero() -> (r: SearchStats)
        ensures
            r == SearchStats::spec_zero(),
    {
        SearchStats {
            branches_taken: 0,
            disj_branches: 0,
            merge_branches: 0,
            restores: 0,
            max_branch_depth: 0,
            match_attempts: 0,
            node_clones: 0,
            fixpoint_passes: 0,
            is_blocked_calls: 0,
            blocks_fired: 0,
            block_eligible: 0,
            block_compares: 0,
        }
    }
}

impl Default for SearchStats {
    fn default() -> (r: SearchStats)
        ensures
            r == SearchStats::zero(),
    {
        SearchStats::zero()
    }
}

/// A derivation that may enable clauses.
#[derive(Debug, Clone, Copy, PartialEq, Eq, Structural)]
pub enum Event {
    /// The node gained the class.
    Label(HNode, ClassId),
    /// The edge was added.
    Edge(HNode, Role, HNode),
    /// The node was created.
    NodeNew(HNode),
}

/// What came of firing a rule.
#[derive(Debug, Clone, Copy, PartialEq, Eq, Structural)]
pub enum FireOutcome {
    Clash,
    Changed,
    NoChange,
    /// The rule asked for a node that no node id is left for.
    Full,
}

/// A completion graph.
#[verifier::ext_equal]
pub struct Graph {
    pub nodes: Seq<NodeView>,
    /// The node that each node was merged into, or the node itself.
    pub root: Seq<HNode>,
    /// Nodes that must not be merged.
    pub neq: Seq<(HNode, HNode)>,
    /// Whether generated nodes are filed by the role of their edge.
    pub filing: bool,
    /// Generated nodes by the role of their edge.
    pub filed: Map<Role, Seq<HNode>>,
    /// Which nodes were taken over from a snapshot.
    pub origin: Seq<bool>,
}

impl Graph {
    pub open spec fn valid(self, n: HNode) -> bool {
        n.at() < self.nodes.len()
    }

    pub open spec fn at(self, n: HNode) -> NodeView {
        self.nodes[n.at()]
    }

    /// The canonical representative of `n`.
    pub open spec fn rep(self, n: HNode) -> HNode {
        self.root[n.at()]
    }

    /// The graph with node `n` replaced.
    pub open spec fn with(self, n: HNode, v: NodeView) -> Graph {
        Graph { nodes: self.nodes.update(n.at(), v), ..self }
    }

    /// Node ids are left for `k` more nodes.
    pub open spec fn room(self, k: int) -> bool {
        self.nodes.len() + k <= u32::MAX + 1
    }

    /// The generated nodes filed under role `r`.
    pub open spec fn bucket(self, r: Role) -> Seq<HNode> {
        if self.filed.dom().contains(r) {
            self.filed[r]
        } else {
            Seq::empty()
        }
    }

    pub open spec fn wf(self) -> bool {
        &&& 0 < self.nodes.len() <= u32::MAX + 1
        &&& self.root.len() == self.nodes.len()
        &&& self.origin.len() == self.nodes.len()
        &&& canonical(self.root)
        &&& forall|i: int| 0 <= i < self.nodes.len() ==> self.node_wf(#[trigger] self.nodes[i], i)
        &&& forall|i: int|
            0 <= i < self.neq.len() ==> {
                &&& self.valid((#[trigger] self.neq[i]).0)
                &&& self.valid(self.neq[i].1)
            }
        &&& forall|r: Role, i: int|
            0 <= i < self.bucket(r).len() ==> self.valid(#[trigger] self.bucket(r)[i])
    }

    /// Node `v` is well formed at position `i`, and all it refers to exists.
    pub open spec fn node_wf(self, v: NodeView, i: int) -> bool {
        &&& v.wf()
        &&& v.order == i
        &&& forall|j: int| 0 <= j < v.edges.len() ==> self.valid((#[trigger] v.edges[j]).1)
        &&& forall|j: int| 0 <= j < v.preds.len() ==> self.valid((#[trigger] v.preds[j]).1)
        &&& v.parent matches Some(p) ==> self.valid(p)
    }
}

/// A measurement of how often node label sets recur.
#[verifier::ext_equal]
pub struct GcView {
    pub total: u64,
    pub distinct: Set<u64>,
}

/// What a search changes.
#[verifier::ext_equal]
pub struct State {
    pub g: Graph,
    /// The events still to be processed, last first.
    pub work: Seq<Event>,
    /// The dependency set of the last clash.
    pub clash: DepSet,
    pub stats: SearchStats,
    /// Branches, restores and nodes at the last divergence check.
    pub checkpoint: (u64, u64, usize),
    /// Whether a label was propagated back into a snapshot node.
    pub aborted: bool,
    pub gc: Option<GcView>,
    /// The answer of the last run or search that came to an end.
    pub verdict: Option<HyperResult>,
}

/// The event is about nodes of the graph, and a gained class is there.
pub open spec fn event_valid(g: Graph, e: Event) -> bool {
    match e {
        Event::Label(n, c) => g.valid(n) && g.at(n).has(c),
        Event::Edge(a, r, b) => g.valid(a) && g.valid(b),
        Event::NodeNew(n) => g.valid(n),
    }
}

/// All events are about what is in the graph.
pub open spec fn work_wf(g: Graph, work: Seq<Event>) -> bool {
    forall|i: int| 0 <= i < work.len() ==> event_valid(g, #[trigger] work[i])
}

impl State {
    pub open spec fn wf(self) -> bool {
        self.g.wf() && work_wf(self.g, self.work)
    }
}

/// What a lazily replayed search knows: the labels each snapshot node had,
/// and the classes that the added clauses listen to.
#[verifier::ext_equal]
pub struct LazyView {
    pub captured: Seq<Seq<ClassId>>,
    pub triggers: Set<u32>,
}

impl LazyView {
    /// The captured labels are sorted.
    pub open spec fn wf(self) -> bool {
        forall|i: int| 0 <= i < self.captured.len() ==> sorted(#[trigger] self.captured[i])
    }
}

/// What a search reads and does not change.
#[verifier::ext_equal]
pub struct Config {
    pub clauses: Seq<ClauseView>,
    pub disjoint: Set<u64>,
    pub index: IndexesView,
    pub roles: Option<HierarchyView>,
    pub nominals: Option<(u32, u32)>,
    pub double_blocking: bool,
    pub precise_card_deps: bool,
    pub nn_taint_disabled: bool,
    pub adaptive: bool,
    pub lazy: Option<LazyView>,
    /// The depth that the search started with.
    pub init_depth: usize,
    /// When the search is to stop, if at all.
    pub deadline: Option<Instant>,
}

/// The clauses and their parts can be counted.
pub open spec fn countable(clauses: Seq<ClauseView>) -> bool {
    &&& clauses.len() <= usize::MAX
    &&& forall|i: int|
        0 <= i < clauses.len() ==> (#[trigger] clauses[i]).body.len() <= usize::MAX
            && clauses[i].head.len() <= usize::MAX
}

impl Config {
    pub open spec fn wf(self) -> bool {
        &&& countable(self.clauses)
        &&& self.index.below(self.clauses.len() as int)
        &&& match self.lazy {
            Some(l) => l.wf(),
            None => true,
        }
    }
}

/// `g1` holds all that `g0` holds: nodes, labels and edges stay, and where a
/// node comes from.
pub open spec fn grows(g0: Graph, g1: Graph) -> bool {
    &&& g0.nodes.len() <= g1.nodes.len()
    &&& forall|i: int|
        0 <= i < g0.nodes.len() ==> node_grows(#[trigger] g0.nodes[i], g1.nodes[i])
}

pub open spec fn node_grows(a: NodeView, b: NodeView) -> bool {
    &&& forall|c: ClassId| a.has(c) ==> b.has(c)
    &&& forall|e: (Role, HNode)| a.edges.contains(e) ==> b.edges.contains(e)
    &&& forall|e: (Role, HNode)| a.preds.contains(e) ==> b.preds.contains(e)
    &&& a.nn_tainted ==> b.nn_tainted
    &&& a.parent is Some ==> b.parent == a.parent && b.parent_role == a.parent_role
}

pub proof fn lemma_grows_trans(a: Graph, b: Graph, c: Graph)
    requires
        grows(a, b),
        grows(b, c),
    ensures
        grows(a, c),
{
    assert forall|i: int| 0 <= i < a.nodes.len() implies node_grows(
        #[trigger] a.nodes[i],
        c.nodes[i],
    ) by {
        assert(node_grows(a.nodes[i], b.nodes[i]));
        assert(node_grows(b.nodes[i], c.nodes[i]));
    }
}

} // verus!
