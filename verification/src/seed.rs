//! Starting a search from asserted individuals.

use std::sync::Arc;
use vstd::prelude::*;
use crate::clause::{clause_views, DlClause};
use crate::dep_set::DepSet;
use crate::engine::HyperEngine;
use crate::graph::{Config, Graph, State};
use crate::ids::{ClassId, HNode, Role};
use crate::index::{build_clause_indexes, build_disjoint_pairs, ClauseIndexes, DisjointPairs};
use crate::matching::node_views;
use crate::node::{HyperNode, NodeView};
use crate::rules::{edge_in, merged};
use crate::rules_wf::{lemma_edge_in, lemma_merged};
use crate::setup::{
    bare_graph, fresh_state, lemma_bare_graph, lemma_seed_node, plain_config, plain_for, root_graph,
    seed_node,
};
use crate::union_find::discrete;

verus! {

/// The asserted facts that a consistency check starts from. Everything in it
/// is to be asserted, nothing inferred: a spurious fact could make a
/// consistent set of assertions look inconsistent.
///
/// Class assertions are not part of it: each is a clause on the individual's
/// nominal. So is the difference of two individuals.
#[derive(Debug, Clone, Default)]
pub struct AboxSeed {
    /// One node is made for each individual.
    pub num_individuals: u32,
    /// Individual `i` has the nominal class `nominal_base + i`.
    pub nominal_base: u32,
    /// Asserted edges, between individuals.
    pub property_assertions: Vec<(u32, Role, u32)>,
    /// Individuals asserted to be the same.
    pub same_pairs: Vec<(u32, u32)>,
}

impl AboxSeed {
    /// All nominals have a class id.
    pub open spec fn wf(self) -> bool {
        self.nominal_base + self.num_individuals <= u32::MAX + 1
    }

    /// The individuals' nodes, each with its nominal.
    pub open spec fn nodes(self) -> Seq<NodeView> {
        Seq::new(
            self.num_individuals as nat,
            |i: int| seed_node(i as u32, ClassId((self.nominal_base + i) as u32)),
        )
    }

    /// The nodes with the asserted edges.
    pub open spec fn graph(self) -> Graph {
        asserted(
            bare_graph(self.nodes(), discrete(self.num_individuals as nat), false),
            self.property_assertions@,
            0,
        )
    }

    /// The state before the search: the nodes with the asserted edges, and
    /// the asserted merges done. Without individuals there is one node, so
    /// that clauses without a body have a node to fire at.
    pub open spec fn state(self, k: Config) -> State {
        if self.num_individuals == 0 {
            fresh_state(root_graph(ClassId(0)))
        } else {
            same_merged(k, fresh_state(self.graph()), self.same_pairs@, 0)
        }
    }
}

/// The graph with the assertions from `i` on; those that name an unknown
/// individual are skipped.
pub open spec fn asserted(g: Graph, ps: Seq<(u32, Role, u32)>, i: int) -> Graph
    decreases ps.len() - i,
{
    if i < 0 || i >= ps.len() {
        g
    } else {
        let (from, role, to) = ps[i];
        let g1 = if g.valid(HNode(from)) && g.valid(HNode(to)) {
            edge_in(g, HNode(from), role, HNode(to))
        } else {
            g
        };
        asserted(g1, ps, i + 1)
    }
}

/// The state with the pairs from `i` on merged; those that name an unknown
/// individual are skipped.
pub open spec fn same_merged(k: Config, s: State, ps: Seq<(u32, u32)>, i: int) -> State
    decreases ps.len() - i,
{
    if i < 0 || i >= ps.len() {
        s
    } else {
        let (a, b) = ps[i];
        let s1 = if s.g.valid(HNode(a)) && s.g.valid(HNode(b)) {
            merged(k, s, HNode(a), HNode(b), DepSet::empty()).0
        } else {
            s
        };
        same_merged(k, s1, ps, i + 1)
    }
}

/// The individuals' nodes are a well-formed graph.
pub proof fn lemma_seed_nodes(seed: AboxSeed)
    requires
        seed.num_individuals > 0,
    ensures
        bare_graph(seed.nodes(), discrete(seed.num_individuals as nat), false).wf(),
{
    let ns = seed.nodes();
    assert forall|i: int| 0 <= i < ns.len() implies {
        &&& (#[trigger] ns[i]).wf()
        &&& ns[i].order == i
        &&& ns[i].edges.len() == 0
        &&& ns[i].preds.len() == 0
        &&& ns[i].parent is None
    } by {
        lemma_seed_node(i as u32, ClassId((seed.nominal_base + i) as u32));
    }
    lemma_bare_graph(ns, discrete(seed.num_individuals as nat), false);
}

impl<'c> HyperEngine<'c> {
    /// An engine seeded with asserted individuals: a node for each, labelled
    /// with its nominal, with the asserted edges and merges.
    #[must_use]
    pub fn new_seeded(clauses: &'c [DlClause], seed: &AboxSeed) -> (r: Self)
        requires
            seed.wf(),
        ensures
            r.wf(),
            plain_for(r.config(), clause_views(clauses@)),
            r.state() == seed.state(r.config()),
    {
        Self::new_seeded_impl(
            clauses,
            seed,
            Arc::new(build_clause_indexes(clauses, None)),
            Arc::new(build_disjoint_pairs(clauses)),
        )
    }

    /// As [`Self::new_seeded`], with indexes and disjoint pairs that the
    /// caller has built for the clauses. Without individuals they are built
    /// anew.
    #[must_use]
    pub fn new_seeded_with_prebuilt(
        clauses: &'c [DlClause],
        seed: &AboxSeed,
        indexes: Arc<ClauseIndexes>,
        disjoint_pairs: Arc<DisjointPairs>,
    ) -> (r: Self)
        requires
            seed.wf(),
            indexes@.below(clauses@.len() as int),
        ensures
            r.wf(),
            if seed.num_individuals == 0 {
                plain_for(r.config(), clause_views(clauses@))
            } else {
                r.config() == plain_config(clause_views(clauses@), indexes@, disjoint_pairs@)
            },
            r.state() == seed.state(r.config()),
    {
        Self::new_seeded_impl(clauses, seed, indexes, disjoint_pairs)
    }

    fn new_seeded_impl(
        clauses: &'c [DlClause],
        seed: &AboxSeed,
        indexes: Arc<ClauseIndexes>,
        disjoint_pairs: Arc<DisjointPairs>,
    ) -> (r: Self)
        requires
            seed.wf(),
            indexes@.below(clauses@.len() as int),
        ensures
            r.wf(),
            if seed.num_individuals == 0 {
                plain_for(r.config(), clause_views(clauses@))
            } else {
                r.config() == plain_config(clause_views(clauses@), indexes@, disjoint_pairs@)
            },
            r.state() == seed.state(r.config()),
    {
        let n = seed.num_individuals;
        if n == 0 {
            return Self::new(clauses, ClassId::new(0));
        }
        let mut nodes: Vec<HyperNode> = Vec::new();
        let mut i: u32 = 0;
        while i < n
            invariant
                seed.wf(),
                n == seed.num_individuals,
                i <= n,
                nodes@.len() == i,
                forall|j: int| 0 <= j < i ==> (#[trigger] nodes@[j])@ == seed.nodes()[j],
            decreases n - i,
        {
            let mut hn = HyperNode::blank(i);
            let nominal = ClassId::new(seed.nominal_base + i);
            hn.add(nominal, DepSet::empty());
            nodes.push(hn);
            i += 1;
        }
        assert(node_views(nodes@) =~= seed.nodes());
        proof {
            lemma_seed_nodes(*seed);
        }
        let mut e = Self::assemble(clauses, nodes, false, indexes, disjoint_pairs);
        let ghost k = e.config();
        let ghost g0 = e.graph();
        let ghost s0 = e.state();
        let ghost ps = seed.property_assertions@;
        let mut p: usize = 0;
        while p < seed.property_assertions.len()
            invariant
                ps == seed.property_assertions@,
                n == seed.num_individuals,
                e.wf(),
                e.config() == k,
                e.graph().nodes.len() == n,
                e.state() == (State { g: e.graph(), ..s0 }),
                p <= ps.len(),
                asserted(g0, ps, 0) == asserted(e.graph(), ps, p as int),
            decreases ps.len() - p,
        {
            let (from, role, to) = seed.property_assertions[p];
            if from < n && to < n {
                proof {
                    lemma_edge_in(e.graph(), HNode(from), role, HNode(to));
                }
                e.link_nodes(HNode(from), role, HNode(to));
            }
            p += 1;
        }
        let ghost s1 = e.state();
        assert(s1 == fresh_state(seed.graph()));
        let ghost ss = seed.same_pairs@;
        let mut q: usize = 0;
        while q < seed.same_pairs.len()
            invariant
                ss == seed.same_pairs@,
                n == seed.num_individuals,
                e.wf(),
                e.config() == k,
                e.graph().nodes.len() == n,
                q <= ss.len(),
                same_merged(k, s1, ss, 0) == same_merged(k, e.state(), ss, q as int),
            decreases ss.len() - q,
        {
            let (a, b) = seed.same_pairs[q];
            if a < n && b < n {
                proof {
                    lemma_merged(k, e.state(), HNode(a), HNode(b), DepSet::empty());
                }
                let _ = e.merge(HNode(a), HNode(b));
            }
            q += 1;
        }
        e
    }
}

} // verus!
