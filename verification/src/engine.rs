//! The hyperresolution engine: its data, and what it is as a value.

use std::collections::HashSet;
use std::sync::Arc;
use std::time::Instant;
use vstd::prelude::*;
use crate::block_index::BlockIndex;
use crate::clause::{clause_views, DlClause, RoleHierarchy};
use crate::dep_set::DepSet;
use crate::gc::{window_view, GcWindow};
use crate::graph::{Config, Event, Graph, HyperResult, LazyView, SearchStats, State};
use crate::ids::{ClassId, HNode, Role};
use crate::index::{ClauseIndexes, DisjointPairs};
use crate::matching::{node_views, table_wf};
use crate::node::HyperNode;
use crate::union_find::UnionFind;

verus! {

broadcast use vstd::std_specs::hash::group_hash_axioms;

/// What a lazily replayed search knows: see [`HyperEngine::from_snapshot_lazy`].
#[derive(Debug)]
pub struct LazyReplayState {
    /// The labels that each snapshot node had when it was captured.
    pub(crate) pre_capture_labels: Vec<Vec<ClassId>>,
    /// The classes in the bodies of the clauses added since.
    pub(crate) new_trigger_atoms: HashSet<u32>,
}

/// The label lists in a vector.
pub open spec fn label_views(v: Seq<Vec<ClassId>>) -> Seq<Seq<ClassId>> {
    v.map_values(|l: Vec<ClassId>| l@)
}

impl View for LazyReplayState {
    type V = LazyView;

    open(crate) spec fn view(&self) -> LazyView {
        LazyView {
            captured: label_views(self.pre_capture_labels@),
            triggers: self.new_trigger_atoms@,
        }
    }
}

/// The hyperresolution engine: the completion graph, the clause set, and
/// what a search needs besides.
pub struct HyperEngine<'c> {
    pub(crate) clauses: &'c [DlClause],
    /// Pairs of disjoint classes; two successors that carry such a pair can
    /// never be merged.
    pub(crate) disjoint_pairs: Arc<DisjointPairs>,
    pub(crate) nodes: Vec<HyperNode>,
    pub(crate) stats: SearchStats,
    pub(crate) init_depth: usize,
    pub(crate) deadline: Option<Instant>,
    /// Which clauses an event may enable.
    pub(crate) indexes: Arc<ClauseIndexes>,
    /// Events to process, last in first out.
    pub(crate) worklist: Vec<Event>,
    /// The merge relation on nodes.
    pub(crate) representative: UnionFind,
    /// Without one, a role subsumes only itself.
    pub(crate) sub_roles: Option<RoleHierarchy>,
    /// Pairs of nodes that must not be merged.
    pub(crate) neq: Vec<(HNode, HNode)>,
    pub(crate) double_blocking: bool,
    pub(crate) precise_card_deps: bool,
    /// Generated nodes by role; kept for pairwise blocking only.
    pub(crate) block_index: Option<BlockIndex>,
    pub(crate) nn_taint_disabled: bool,
    /// The nominal classes: first id and number.
    pub(crate) nominals: Option<(u32, u32)>,
    pub(crate) clash_deps: DepSet,
    pub(crate) snapshot_origin: Vec<bool>,
    pub(crate) snapshot_backprop_aborted: bool,
    pub(crate) lazy_replay_state: Option<LazyReplayState>,
    pub(crate) adaptive_budget: bool,
    pub(crate) div_checkpoint: (u64, u64, usize),
    pub(crate) gc: Option<GcWindow>,
    /// The answer of the last run or search.
    pub(crate) verdict: Option<HyperResult>,
}

impl<'c> HyperEngine<'c> {
    /// The completion graph.
    pub open(crate) spec fn graph(self) -> Graph {
        Graph {
            nodes: node_views(self.nodes@),
            root: self.representative@,
            neq: self.neq@,
            filing: self.block_index is Some,
            filed: match self.block_index {
                Some(b) => b@,
                None => Map::<Role, Seq<HNode>>::empty(),
            },
            origin: self.snapshot_origin@,
        }
    }

    /// All that a search changes.
    pub open(crate) spec fn state(self) -> State {
        State {
            g: self.graph(),
            work: self.worklist@,
            clash: self.clash_deps,
            stats: self.stats,
            checkpoint: self.div_checkpoint,
            aborted: self.snapshot_backprop_aborted,
            gc: window_view(self.gc),
            verdict: self.verdict,
        }
    }

    /// All that a search reads and does not change.
    pub open(crate) spec fn config(self) -> Config {
        Config {
            clauses: clause_views(self.clauses@),
            disjoint: (*self.disjoint_pairs)@,
            index: (*self.indexes)@,
            roles: match self.sub_roles {
                Some(h) => Some(h@),
                None => None,
            },
            nominals: self.nominals,
            double_blocking: self.double_blocking,
            precise_card_deps: self.precise_card_deps,
            nn_taint_disabled: self.nn_taint_disabled,
            adaptive: self.adaptive_budget,
            lazy: match self.lazy_replay_state {
                Some(l) => Some(l@),
                None => None,
            },
            init_depth: self.init_depth,
            deadline: self.deadline,
        }
    }

    pub open(crate) spec fn wf(self) -> bool {
        &&& self.config().wf()
        &&& self.state().wf()
        &&& self.representative.wf()
        &&& self.block_index matches Some(b) ==> b.wf()
    }
}

/// The nodes of a well-formed graph are a well-formed table.
pub proof fn lemma_graph_table(g: Graph)
    requires
        g.wf(),
    ensures
        table_wf(g.nodes),
{
    assert forall|i: int| 0 <= i < g.nodes.len() implies {
        &&& (#[trigger] g.nodes[i]).wf()
        &&& forall|j: int|
            0 <= j < g.nodes[i].edges.len() ==> (#[trigger] g.nodes[i].edges[j]).1.at()
                < g.nodes.len()
        &&& forall|j: int|
            0 <= j < g.nodes[i].preds.len() ==> (#[trigger] g.nodes[i].preds[j]).1.at()
                < g.nodes.len()
    } by {
        assert(g.node_wf(g.nodes[i], i));
    }
}

} // verus!
