//! Building engines, configuring them, and reading results off them.

use std::sync::Arc;
use vstd::prelude::*;
use crate::block_index::BlockIndex;
use crate::clause::{clause_views, horn_only, ClauseView, DlClause, RoleHierarchy};
use crate::dep_set::DepSet;
use crate::engine::HyperEngine;
use crate::gc::{window_view, GcWindow};
use crate::graph::{countable, Config, Graph, HyperResult, SearchStats, State};
use crate::ids::{ClassId, HNode};
use crate::index::{
    build_clause_indexes, build_disjoint_pairs, pairs_of, ClauseIndexes, DisjointPairs, IndexesView,
};
use crate::matching::node_views;
use crate::node::{lemma_with_label, HyperNode, NodeView};
use crate::rules::labelled;
use crate::rules_wf::lemma_push_contains;
use crate::union_find::UnionFind;
use crate::util::{copy_vec, filled};

verus! {

/// A node labelled `c` alone, at position `order`.
pub open spec fn seed_node(order: u32, c: ClassId) -> NodeView {
    NodeView::blank(order).with_label(c, DepSet::empty())
}

/// A graph of nodes without edges.
pub open spec fn bare_graph(nodes: Seq<NodeView>, root: Seq<HNode>, origin: bool) -> Graph {
    Graph {
        nodes,
        root,
        neq: Seq::empty(),
        filing: false,
        filed: Map::empty(),
        origin: Seq::new(nodes.len(), |i: int| origin),
    }
}

/// The graph of a single root node labelled `c`.
pub open spec fn root_graph(c: ClassId) -> Graph {
    bare_graph(seq![seed_node(0, c)], seq![HNode(0)], false)
}

/// A search that has not begun, on the graph `g`.
pub open spec fn fresh_state(g: Graph) -> State {
    State {
        g,
        work: Seq::empty(),
        clash: DepSet::empty(),
        stats: SearchStats::zero(),
        checkpoint: (0, 0, 0),
        aborted: false,
        gc: None,
        verdict: None,
    }
}

/// The clauses, with nothing switched on.
pub open spec fn plain_config(
    clauses: Seq<ClauseView>,
    index: IndexesView,
    disjoint: Set<u64>,
) -> Config {
    Config {
        clauses,
        disjoint,
        index,
        roles: None,
        nominals: None,
        double_blocking: false,
        precise_card_deps: false,
        nn_taint_disabled: false,
        adaptive: false,
        lazy: None,
        init_depth: 0,
        deadline: None,
    }
}

/// `k` is the plain configuration for `clauses`, with their own indexes and
/// disjoint pairs.
pub open spec fn plain_for(k: Config, clauses: Seq<ClauseView>) -> bool {
    &&& k == plain_config(clauses, k.index, k.disjoint)
    &&& k.index.of(clauses, None)
    &&& pairs_of(k.disjoint, clauses, clauses.len() as int)
}

/// A table of seed nodes is a well-formed graph.
pub proof fn lemma_bare_graph(nodes: Seq<NodeView>, root: Seq<HNode>, origin: bool)
    requires
        0 < nodes.len() <= u32::MAX + 1,
        root.len() == nodes.len(),
        forall|i: int| 0 <= i < root.len() ==> #[trigger] root[i] == HNode(i as u32),
        forall|i: int|
            0 <= i < nodes.len() ==> {
                &&& (#[trigger] nodes[i]).wf()
                &&& nodes[i].order == i
                &&& nodes[i].edges.len() == 0
                &&& nodes[i].preds.len() == 0
                &&& nodes[i].parent is None
            },
    ensures
        bare_graph(nodes, root, origin).wf(),
{
    let g = bare_graph(nodes, root, origin);
    assert forall|i: int| 0 <= i < g.nodes.len() implies g.node_wf(#[trigger] g.nodes[i], i) by {}
}

/// A seed node carries its label and nothing else.
pub proof fn lemma_seed_node(order: u32, c: ClassId)
    ensures
        seed_node(order, c).wf(),
        seed_node(order, c).labels == seq![c],
        seed_node(order, c).label_deps == seq![DepSet::empty()],
        seed_node(order, c).order == order,
        seed_node(order, c).edges.len() == 0,
        seed_node(order, c).preds.len() == 0,
        seed_node(order, c).parent is None,
{
    lemma_with_label(NodeView::blank(order), c, DepSet::empty());
    assert(seed_node(order, c).labels =~= seq![c]);
    assert(seed_node(order, c).label_deps =~= seq![DepSet::empty()]);
}

/// The labels of a node, by class id below `n`.
pub open spec fn ids_below(labels: Seq<ClassId>, n: u32) -> Seq<u32>
    decreases labels.len(),
{
    if labels.len() == 0 {
        Seq::empty()
    } else if labels.last().0 < n {
        ids_below(labels.drop_last(), n).push(labels.last().0)
    } else {
        ids_below(labels.drop_last(), n)
    }
}

/// The ids below `n` are those of the labels that are below `n`, in order and
/// as often.
pub proof fn lemma_ids_below(labels: Seq<ClassId>, n: u32)
    ensures
        forall|c: u32| #[trigger]
            ids_below(labels, n).contains(c) <==> c < n && labels.contains(ClassId(c)),
        (forall|i: int| 0 <= i < labels.len() ==> (#[trigger] labels[i]).0 < n) ==> ids_below(
            labels,
            n,
        ) == labels.map_values(|c: ClassId| c.0),
    decreases labels.len(),
{
    if labels.len() > 0 {
        let rest = labels.drop_last();
        lemma_ids_below(rest, n);
        assert(labels =~= rest.push(labels.last()));
        lemma_push_contains(rest, labels.last());
        lemma_push_contains(ids_below(rest, n), labels.last().0);
        assert forall|c: u32| #[trigger]
            ids_below(labels, n).contains(c) <==> c < n && labels.contains(ClassId(c)) by {
            assert(ids_below(rest, n).contains(c) <==> c < n && rest.contains(ClassId(c)));
            assert(labels.last() == ClassId(labels.last().0));
        }
        if forall|i: int| 0 <= i < labels.len() ==> (#[trigger] labels[i]).0 < n {
            assert(labels[labels.len() - 1].0 < n);
            assert forall|i: int| 0 <= i < rest.len() implies (#[trigger] rest[i]).0 < n by {
                assert(labels[i].0 < n);
            }
        }
    }
    if forall|i: int| 0 <= i < labels.len() ==> (#[trigger] labels[i]).0 < n {
        assert(ids_below(labels, n) =~= labels.map_values(|c: ClassId| c.0));
    }
}

/// A slice of clauses is countable.
pub proof fn lemma_countable(clauses: &[DlClause])
    ensures
        countable(clause_views(clauses@)),
{
    let cv = clause_views(clauses@);
    assert(clauses.len() == clauses@.len());
    assert forall|i: int| 0 <= i < cv.len() implies (#[trigger] cv[i]).body.len() <= usize::MAX
        && cv[i].head.len() <= usize::MAX by {
        assert(cv[i].body.len() == clauses@[i].body.len());
        assert(cv[i].head.len() == clauses@[i].head.len());
    }
}

impl<'c> HyperEngine<'c> {
    /// An engine on the given nodes, none of them merged.
    pub(crate) fn assemble(
        clauses: &'c [DlClause],
        nodes: Vec<HyperNode>,
        origin: bool,
        indexes: Arc<ClauseIndexes>,
        disjoint_pairs: Arc<DisjointPairs>,
    ) -> (r: Self)
        requires
            indexes@.below(clauses@.len() as int),
            nodes@.len() <= u32::MAX + 1,
            bare_graph(
                node_views(nodes@),
                crate::union_find::discrete(nodes@.len()),
                origin,
            ).wf(),
        ensures
            r.wf(),
            r.config() == plain_config(clause_views(clauses@), indexes@, disjoint_pairs@),
            r.state() == fresh_state(
                bare_graph(
                    node_views(nodes@),
                    crate::union_find::discrete(nodes@.len()),
                    origin,
                ),
            ),
    {
        proof {
            lemma_countable(clauses);
        }
        let n = nodes.len();
        let r = HyperEngine {
            clauses,
            disjoint_pairs,
            nodes,
            stats: SearchStats::zero(),
            init_depth: 0,
            deadline: None,
            indexes,
            worklist: Vec::new(),
            representative: UnionFind::fresh(n),
            sub_roles: None,
            neq: Vec::new(),
            double_blocking: false,
            precise_card_deps: false,
            block_index: None,
            nn_taint_disabled: false,
            nominals: None,
            clash_deps: DepSet::empty(),
            snapshot_origin: filled(origin, n),
            snapshot_backprop_aborted: false,
            lazy_replay_state: None,
            adaptive_budget: false,
            div_checkpoint: (0, 0, 0),
            gc: None,
            verdict: None,
        };
        assert(r.graph().origin =~= Seq::new(n as nat, |i: int| origin));
        assert(r.graph() =~= bare_graph(
            node_views(r.nodes@),
            crate::union_find::discrete(n as nat),
            origin,
        ));
        r
    }

    /// An engine for `clauses` with a single root node labelled `root`.
    #[must_use]
    pub fn new(clauses: &'c [DlClause], root: ClassId) -> (r: Self)
        ensures
            r.wf(),
            plain_for(r.config(), clause_views(clauses@)),
            r.state() == fresh_state(root_graph(root)),
    {
        let indexes = Arc::new(build_clause_indexes(clauses, None));
        let disjoint_pairs = Arc::new(build_disjoint_pairs(clauses));
        Self::new_with_prebuilt(clauses, root, indexes, disjoint_pairs)
    }

    /// As [`Self::new`], with indexes and disjoint pairs that the caller has
    /// built for the clauses and shares among engines.
    #[must_use]
    pub fn new_with_prebuilt(
        clauses: &'c [DlClause],
        root: ClassId,
        indexes: Arc<ClauseIndexes>,
        disjoint_pairs: Arc<DisjointPairs>,
    ) -> (r: Self)
        requires
            indexes@.below(clauses@.len() as int),
        ensures
            r.wf(),
            r.config() == plain_config(clause_views(clauses@), indexes@, disjoint_pairs@),
            r.state() == fresh_state(root_graph(root)),
    {
        let mut root_node = HyperNode::blank(0);
        root_node.add(root, DepSet::empty());
        let mut nodes: Vec<HyperNode> = Vec::new();
        nodes.push(root_node);
        proof {
            lemma_seed_node(0, root);
            assert(node_views(nodes@) =~= seq![seed_node(0, root)]);
            assert(crate::union_find::discrete(1) =~= seq![HNode(0)]);
            lemma_bare_graph(node_views(nodes@), crate::union_find::discrete(1), false);
        }
        Self::assemble(clauses, nodes, false, indexes, disjoint_pairs)
    }

    /// Switches pairwise blocking on, the condition that blocking needs with
    /// inverse roles.
    #[must_use]
    pub fn with_double_blocking(self) -> (r: Self)
        requires
            self.wf(),
        ensures
            r.wf(),
            r.config() == (Config { double_blocking: true, ..self.config() }),
            r.state() == (State {
                g: Graph { filing: true, filed: Map::empty(), ..self.graph() },
                ..self.state()
            }),
    {
        let mut e = self;
        e.double_blocking = true;
        e.block_index = Some(BlockIndex::new());
        proof {
            let g0 = self.graph();
            let g = e.graph();
            assert forall|i: int| 0 <= i < g.nodes.len() implies g.node_wf(
                #[trigger] g.nodes[i],
                i,
            ) by {
                assert(g0.node_wf(g0.nodes[i], i));
            }
            assert forall|i: int| 0 <= i < g.neq.len() implies {
                &&& g.valid((#[trigger] g.neq[i]).0)
                &&& g.valid(g.neq[i].1)
            } by {
                assert(g0.valid(g0.neq[i].0));
            }
            crate::rules_wf::lemma_work_grows(g0, g, self.state().work);
        }
        e
    }

    /// Narrows the dependency sets of `≤n` clashes where that is safe.
    #[must_use]
    pub fn with_precise_card_deps(self) -> (r: Self)
        requires
            self.wf(),
        ensures
            r.wf(),
            r.config() == (Config { precise_card_deps: true, ..self.config() }),
            r.state() == self.state(),
    {
        let mut e = self;
        e.precise_card_deps = true;
        e
    }

    /// Cuts searches off that make no progress.
    #[must_use]
    pub fn with_adaptive_budget(self) -> (r: Self)
        requires
            self.wf(),
        ensures
            r.wf(),
            r.config() == (Config { adaptive: true, ..self.config() }),
            r.state() == self.state(),
    {
        let mut e = self;
        e.adaptive_budget = true;
        e
    }

    /// Drops what caused a nominal merge from the dependency sets, for
    /// studying what that does to backjumping. The results are then not to
    /// be relied on.
    #[must_use]
    pub fn with_nn_taint_disabled(self) -> (r: Self)
        requires
            self.wf(),
        ensures
            r.wf(),
            r.config() == (Config { nn_taint_disabled: true, ..self.config() }),
            r.state() == self.state(),
    {
        let mut e = self;
        e.nn_taint_disabled = true;
        e
    }

    /// Sets the nominal classes: those with ids from `start` on, `count` of
    /// them.
    #[must_use]
    pub fn with_nominals(self, start: u32, count: u32) -> (r: Self)
        requires
            self.wf(),
        ensures
            r.wf(),
            r.config() == (Config { nominals: Some((start, count)), ..self.config() }),
            r.state() == self.state(),
    {
        let mut e = self;
        e.nominals = Some((start, count));
        e
    }

    /// Sets the role hierarchy, and builds the indexes anew so that they
    /// heed symmetric roles.
    #[must_use]
    pub fn with_sub_roles(self, hierarchy: RoleHierarchy) -> (r: Self)
        requires
            self.wf(),
        ensures
            r.wf(),
            r.config() == (Config {
                roles: Some(hierarchy@),
                index: r.config().index,
                ..self.config()
            }),
            r.config().index.of(self.config().clauses, Some(hierarchy@)),
            r.state() == self.state(),
    {
        let mut e = self;
        e.indexes = Arc::new(build_clause_indexes(e.clauses, Some(&hierarchy)));
        e.sub_roles = Some(hierarchy);
        e
    }

    /// Sets the role hierarchy and keeps the indexes, which are to have been
    /// built for it.
    #[must_use]
    pub fn with_sub_roles_keep_index(self, hierarchy: RoleHierarchy) -> (r: Self)
        requires
            self.wf(),
        ensures
            r.wf(),
            r.config() == (Config { roles: Some(hierarchy@), ..self.config() }),
            r.state() == self.state(),
    {
        let mut e = self;
        e.sub_roles = Some(hierarchy);
        e
    }

    /// Hands the engine a measurement window to record completions in.
    #[must_use]
    pub fn with_gc_window(self, window: Option<GcWindow>) -> (r: Self)
        requires
            self.wf(),
        ensures
            r.wf(),
            r.config() == self.config(),
            r.state() == (State { gc: window_view(window), ..self.state() }),
    {
        let mut e = self;
        e.gc = window;
        e
    }

    /// Takes the measurement window back.
    pub fn take_gc_window(&mut self) -> (r: Option<GcWindow>)
        requires
            old(self).wf(),
        ensures
            final(self).wf(),
            final(self).config() == old(self).config(),
            final(self).state() == (State { gc: None, ..old(self).state() }),
            window_view(r) == old(self).state().gc,
    {
        self.gc.take()
    }

    /// Adds a label that is propagated back to node `n`, and notes it if the
    /// node was taken over from a snapshot. Returns whether the label is new.
    pub fn add_label_via_backprop(&mut self, n: HNode, c: ClassId, deps: DepSet) -> (r: bool)
        requires
            old(self).wf(),
            old(self).graph().valid(n),
        ensures
            final(self).wf(),
            final(self).config() == old(self).config(),
            (final(self).state(), r) == labelled(
                (State {
                    aborted: old(self).state().aborted || old(self).graph().origin[n.at()],
                    ..old(self).state()
                }),
                n,
                c,
                deps,
            ),
    {
        if self.snapshot_origin[n.index()] {
            self.snapshot_backprop_aborted = true;
        }
        self.add_label(n, c, deps)
    }

    /// Whether a label was propagated back into a snapshot node.
    #[must_use]
    pub fn snapshot_backprop_aborted(&self) -> (r: bool)
        ensures
            r == self.state().aborted,
    {
        self.snapshot_backprop_aborted
    }

    /// Instrumentation from the last [`Self::decide`].
    #[must_use]
    pub fn stats(&self) -> (r: SearchStats)
        ensures
            r == self.state().stats,
    {
        self.stats
    }

    /// Whether every clause has at most one head atom.
    #[must_use]
    pub fn all_horn(clauses: &[DlClause]) -> (r: bool)
        ensures
            r == horn_only(clause_views(clauses@)),
    {
        let ghost cv = clause_views(clauses@);
        let mut i: usize = 0;
        while i < clauses.len()
            invariant
                cv == clause_views(clauses@),
                i <= clauses@.len(),
                forall|j: int| 0 <= j < i ==> (#[trigger] cv[j]).horn(),
            decreases clauses@.len() - i,
        {
            assert(cv[i as int] == clauses@[i as int]@);
            if !clauses[i].is_horn() {
                return false;
            }
            i += 1;
        }
        true
    }

    /// After a run or search that answered `Sat`, the labels of the root
    /// node's representative, if `seed` is among them; else `None`. Where the
    /// completion is a model, the seed is in exactly these classes there, so
    /// one that is not listed does not subsume it: see
    /// [`crate::models::lemma_class_sat_sound`] and
    /// [`crate::standins::lemma_class_sat_standing`] for when.
    #[must_use]
    pub fn satisfiability_labels(&self, seed: ClassId) -> (r: Option<Vec<ClassId>>)
        requires
            self.wf(),
        ensures
            ({
                let v = self.graph().at(self.graph().rep(HNode(0)));
                let sat = self.state().verdict == Some(HyperResult::Sat);
                match r {
                    Some(l) => sat && v.has(seed) && l@ == v.labels,
                    None => !sat || !v.has(seed),
                }
            }),
    {
        match self.verdict {
            Some(HyperResult::Sat) => {},
            _ => {
                return None;
            },
        }
        let rep = self.resolve(HNode(0));
        let ghost g = self.graph();
        assert(g.at(rep) == self.nodes@[rep.at()]@);
        assert(g.node_wf(g.nodes[rep.at()], rep.at()));
        if self.nodes[rep.index()].has(seed) {
            Some(copy_vec(&self.nodes[rep.index()].labels))
        } else {
            None
        }
    }

    /// The classes below `num_classes` that label the seeded individual
    /// `individual_index`, by its representative.
    #[must_use]
    pub fn seeded_individual_labels(&self, individual_index: u32, num_classes: u32) -> (r: Vec<u32>)
        requires
            self.wf(),
            self.graph().valid(HNode(individual_index)),
        ensures
            r@ == ids_below(
                self.graph().at(self.graph().rep(HNode(individual_index))).labels,
                num_classes,
            ),
            forall|c: u32| #[trigger]
                r@.contains(c) <==> c < num_classes && self.graph().at(
                    self.graph().rep(HNode(individual_index)),
                ).labels.contains(ClassId(c)),
    {
        let rep = self.resolve(HNode(individual_index));
        let ghost g = self.graph();
        assert(g.at(rep) == self.nodes@[rep.at()]@);
        let labels = &self.nodes[rep.index()].labels;
        let mut r: Vec<u32> = Vec::new();
        let mut i: usize = 0;
        assert(labels@.take(0) =~= Seq::empty());
        while i < labels.len()
            invariant
                i <= labels@.len(),
                r@ == ids_below(labels@.take(i as int), num_classes),
            decreases labels@.len() - i,
        {
            assert(labels@.take(i + 1).drop_last() =~= labels@.take(i as int));
            let c = labels[i].index();
            if c < num_classes {
                r.push(c);
            }
            i += 1;
        }
        assert(labels@.take(labels@.len() as int) =~= labels@);
        proof {
            lemma_ids_below(labels@, num_classes);
        }
        r
    }

    /// Number of nodes in the completion graph.
    #[must_use]
    pub fn node_count(&self) -> (r: usize)
        ensures
            r == self.graph().nodes.len(),
    {
        self.nodes.len()
    }

    /// Labels of the root node.
    #[must_use]
    pub fn root_labels(&self) -> (r: &[ClassId])
        requires
            self.wf(),
        ensures
            r@ == self.graph().nodes[0].labels,
    {
        assert(self.graph().nodes[0] == self.nodes@[0]@);
        self.nodes[0].labels.as_slice()
    }
}

} // verus!
