//! Deciding satisfiability: the search on the engine's graph.

use std::time::Instant;
use vstd::prelude::*;
use crate::block_index::BlockIndex;
use crate::clause::Var;
use crate::clock::{clock_now, not_before};
use crate::dep_set::DepSet;
use crate::engine::HyperEngine;
use crate::fixpoint::lemma_saturated;
use crate::graph::{tick, Config, FireOutcome, Graph, HyperResult, SearchStats, State};
use crate::ids::{HNode, Role};
use crate::matching::{binding_valid, binding_views, matches_of, node_views, Binding};
use crate::node::HyperNode;
use crate::queries::unmergeable;
use crate::rules_wf::{all_valid, lemma_atom_asserted, lemma_matches_valid, lemma_merged};
use crate::search::{
    block_merged, block_wf, blocks_merged, branches, budget_checked, deepened, disjunct_asserted,
    disjunct_taken, group_views, groups_wf, is_diverging, joinable, lemma_branches_exhausted,
    lemma_branches_full, lemma_branches_step, lemma_groups_wf_grows, lemma_merges_intro,
    lemma_open_disjunction, lemma_partitions_clash, lemma_partitions_leaf, lemma_partitions_place,
    lemma_placements_join, lemma_placements_open, lemma_placements_skip, lemma_solves_branching,
    lemma_solves_cut, lemma_solves_done, lemma_solves_late, lemma_solves_merging,
    lemma_solves_searched, lemma_solves_unsaturated, level, merges, open_binding_from,
    open_clause_from, open_disjunction_from, partition_taken, partitions, placements, restored,
    searches, solves, Choice, DIV_WINDOW, FIXPOINT_ITERS,
};
use crate::union_find::UnionFind;
use crate::util::copy_vec;

verus! {

/// The graph as it was when a branch began.
struct Snapshot {
    nodes: Vec<HyperNode>,
    representative: UnionFind,
    neq: Vec<(HNode, HNode)>,
    block_index: Option<BlockIndex>,
    origin: Vec<bool>,
}

impl View for Snapshot {
    type V = Graph;

    closed spec fn view(&self) -> Graph {
        Graph {
            nodes: node_views(self.nodes@),
            root: self.representative@,
            neq: self.neq@,
            filing: self.block_index is Some,
            filed: match self.block_index {
                Some(b) => b@,
                None => Map::<Role, Seq<HNode>>::empty(),
            },
            origin: self.origin@,
        }
    }
}

impl Snapshot {
    spec fn wf(self) -> bool {
        &&& self@.wf()
        &&& self.representative.wf()
        &&& match self.block_index {
            Some(b) => b.wf(),
            None => true,
        }
    }
}

/// A copy of the nodes.
fn copy_nodes(nodes: &Vec<HyperNode>) -> (r: Vec<HyperNode>)
    ensures
        node_views(r@) == node_views(nodes@),
{
    let mut r: Vec<HyperNode> = Vec::new();
    let mut i: usize = 0;
    while i < nodes.len()
        invariant
            i <= nodes@.len(),
            r@.len() == i,
            forall|j: int| 0 <= j < i ==> (#[trigger] r@[j])@ == nodes@[j]@,
        decreases nodes@.len() - i,
    {
        let n = nodes[i].duplicate();
        r.push(n);
        i += 1;
    }
    assert(node_views(r@) =~= node_views(nodes@));
    r
}

/// A block of the vector is a block of its view.
proof fn lemma_group_at(v: Seq<Vec<HNode>>, gs: Seq<Seq<HNode>>, i: int)
    requires
        group_views(v) == gs,
        0 <= i < gs.len(),
    ensures
        v.len() == gs.len(),
        v[i]@ == gs[i],
{
    assert(group_views(v)[i] == v[i]@);
}

impl<'c> HyperEngine<'c> {
    /// Decides satisfiability over all clauses by backtracking search, with
    /// at most `max_depth` nested branches. `Sat` if some branch is
    /// satisfiable, `Unsat` only if every branch is decisively not,
    /// `Stalled` otherwise. After `Sat` the graph is the completion found.
    #[must_use]
    pub fn decide(&mut self, max_depth: usize) -> (r: HyperResult)
        requires
            old(self).wf(),
        ensures
            final(self).wf(),
            final(self).config() == (Config {
                init_depth: max_depth,
                deadline: None,
                ..old(self).config()
            }),
            solves(
                final(self).config(),
                (State { stats: SearchStats::zero(), ..old(self).state() }),
                max_depth as nat,
                (State { verdict: old(self).state().verdict, ..final(self).state() }),
                r,
            ),
            final(self).state().verdict == Some(r),
    {
        self.decide_with_deadline(max_depth, None)
    }

    /// As [`Self::decide`], but stops with `Stalled` once the deadline has
    /// passed.
    #[must_use]
    pub fn decide_with_deadline(&mut self, max_depth: usize, deadline: Option<Instant>) -> (r:
        HyperResult)
        requires
            old(self).wf(),
        ensures
            final(self).wf(),
            final(self).config() == (Config {
                init_depth: max_depth,
                deadline,
                ..old(self).config()
            }),
            solves(
                final(self).config(),
                (State { stats: SearchStats::zero(), ..old(self).state() }),
                max_depth as nat,
                (State { verdict: old(self).state().verdict, ..final(self).state() }),
                r,
            ),
            final(self).state().verdict == Some(r),
    {
        self.stats = SearchStats::zero();
        self.init_depth = max_depth;
        self.deadline = deadline;
        let r = self.solve(max_depth);
        let ghost s1 = self.state();
        self.verdict = Some(r);
        assert((State { verdict: old(self).state().verdict, ..self.state() }) == s1);
        r
    }

    /// The divergence check: see [`budget_checked`].
    fn out_of_budget(&mut self) -> (r: bool)
        requires
            old(self).wf(),
        ensures
            final(self).wf(),
            final(self).config() == old(self).config(),
            (final(self).state(), r) == budget_checked(old(self).config(), old(self).state()),
    {
        if self.adaptive_budget {
            let (b0, r0, _) = self.div_checkpoint;
            let db = self.stats.branches_taken.saturating_sub(b0);
            if db >= DIV_WINDOW {
                let dr = self.stats.restores.saturating_sub(r0);
                let cap: u32 = if self.init_depth > u32::MAX as usize {
                    u32::MAX
                } else {
                    self.init_depth as u32
                };
                let depth_saturated = self.stats.max_branch_depth >= cap;
                if is_diverging(db, dr, depth_saturated) {
                    return true;
                }
                self.div_checkpoint = (
                    self.stats.branches_taken,
                    self.stats.restores,
                    self.nodes.len(),
                );
            }
        }
        false
    }

    /// Searches with `depth` levels left, unless it is `late`: then the
    /// search stalls at once and changes nothing. See [`searches`].
    pub fn solve_unless(&mut self, depth: usize, late: bool) -> (r: HyperResult)
        requires
            old(self).wf(),
            depth <= old(self).config().init_depth,
        ensures
            final(self).wf(),
            final(self).config() == old(self).config(),
            final(self).state().verdict == old(self).state().verdict,
            late ==> r is Stalled && final(self).state() == old(self).state(),
            !late ==> searches(
                old(self).config(),
                old(self).state(),
                depth as nat,
                final(self).state(),
                r,
            ),
        decreases depth, 1int, 0int, 0int,
    {
        let ghost k = self.config();
        let ghost s0 = self.state();
        if late {
            return HyperResult::Stalled;
        }
        if self.out_of_budget() {
            proof {
                lemma_solves_cut(k, s0, depth as nat);
            }
            return HyperResult::Stalled;
        }
        proof {
            lemma_saturated(k, self.state(), FIXPOINT_ITERS as nat);
        }
        match self.horn_fixpoint(FIXPOINT_ITERS) {
            HyperResult::Unsat => {
                proof {
                    lemma_solves_unsaturated(k, s0, depth as nat);
                }
                return HyperResult::Unsat;
            },
            HyperResult::Stalled => {
                proof {
                    lemma_solves_unsaturated(k, s0, depth as nat);
                }
                return HyperResult::Stalled;
            },
            HyperResult::Sat => {},
        }
        if let Some((ci, node, binding)) = self.find_open_disjunction() {
            let ghost sc = self.state();
            if depth == 0 {
                proof {
                    lemma_solves_branching(
                        k,
                        s0,
                        depth as nat,
                        ci,
                        node,
                        binding@,
                        sc,
                        HyperResult::Stalled,
                    );
                }
                return HyperResult::Stalled;
            }
            self.track_depth(depth);
            let r = self.branch_from(ci, node, &binding, depth, 0, DepSet::empty(), false);
            proof {
                lemma_solves_branching(k, s0, depth as nat, ci, node, binding@, self.state(), r);
            }
            return r;
        }
        let ghost sc = self.state();
        if let Some((node, succs, n)) = self.find_open_at_most() {
            if self.forced_distinct_exceeds(&succs, n) {
                self.clash_deps = self.card_clash_deps(node, &succs);
                proof {
                    lemma_solves_merging(
                        k,
                        s0,
                        depth as nat,
                        node,
                        succs@,
                        n,
                        self.state(),
                        HyperResult::Unsat,
                    );
                }
                return HyperResult::Unsat;
            }
            if depth == 0 {
                proof {
                    lemma_solves_merging(
                        k,
                        s0,
                        depth as nat,
                        node,
                        succs@,
                        n,
                        sc,
                        HyperResult::Stalled,
                    );
                }
                return HyperResult::Stalled;
            }
            self.track_depth(depth);
            let r = self.solve_at_most(&succs, n as usize, depth);
            proof {
                lemma_solves_merging(k, s0, depth as nat, node, succs@, n, self.state(), r);
            }
            return r;
        }
        proof {
            lemma_solves_done(k, s0, depth as nat);
        }
        HyperResult::Sat
    }

    /// Searches with `depth` levels left, after a look at the clock where
    /// there is a deadline: see [`solves`].
    fn solve(&mut self, depth: usize) -> (r: HyperResult)
        requires
            old(self).wf(),
            depth <= old(self).config().init_depth,
        ensures
            final(self).wf(),
            final(self).config() == old(self).config(),
            final(self).state().verdict == old(self).state().verdict,
            solves(
                old(self).config(),
                old(self).state(),
                depth as nat,
                final(self).state(),
                r,
            ),
        decreases depth, 2int, 0int, 0int,
    {
        let late = match self.deadline {
            Some(dl) => {
                let now = clock_now();
                not_before(now, dl)
            },
            None => false,
        };
        let r = self.solve_unless(depth, late);
        proof {
            if late {
                lemma_solves_late(old(self).config(), old(self).state(), depth as nat);
            } else {
                lemma_solves_searched(
                    old(self).config(),
                    old(self).state(),
                    depth as nat,
                    self.state(),
                    r,
                );
            }
        }
        r
    }

    /// Notes how deep the search is.
    fn track_depth(&mut self, depth: usize)
        requires
            old(self).wf(),
            0 < depth <= old(self).config().init_depth,
        ensures
            final(self).wf(),
            final(self).config() == old(self).config(),
            final(self).state().verdict == old(self).state().verdict,
            final(self).state() == deepened(old(self).config(), old(self).state(), depth as int),
    {
        let l: usize = self.init_depth - depth + 1;
        let lv: u32 = if l > u32::MAX as usize {
            u32::MAX
        } else {
            l as u32
        };
        if lv > self.stats.max_branch_depth {
            self.stats.max_branch_depth = lv;
        }
    }

    /// A copy of all that a branch may change.
    fn save(&mut self) -> (r: Snapshot)
        requires
            old(self).wf(),
        ensures
            r.wf(),
            r@ == old(self).graph(),
            final(self).wf(),
            final(self).config() == old(self).config(),
            final(self).state().verdict == old(self).state().verdict,
            final(self).state() == (State {
                stats: SearchStats {
                    node_clones: tick(old(self).state().stats.node_clones),
                    ..old(self).state().stats
                },
                ..old(self).state()
            }),
    {
        self.stats.node_clones = tick(self.stats.node_clones);
        Snapshot {
            nodes: copy_nodes(&self.nodes),
            representative: self.representative.duplicate(),
            neq: copy_vec(&self.neq),
            block_index: match &self.block_index {
                Some(b) => Some(b.duplicate()),
                None => None,
            },
            origin: copy_vec(&self.snapshot_origin),
        }
    }

    /// Puts the graph back.
    fn restore(&mut self, saved: Snapshot)
        requires
            old(self).wf(),
            saved.wf(),
        ensures
            final(self).wf(),
            final(self).config() == old(self).config(),
            final(self).state().verdict == old(self).state().verdict,
            final(self).state() == restored(old(self).state(), saved@),
    {
        self.nodes = saved.nodes;
        self.representative = saved.representative;
        self.neq = saved.neq;
        self.block_index = saved.block_index;
        self.snapshot_origin = saved.origin;
        self.worklist = Vec::new();
        self.stats.restores = tick(self.stats.restores);
        assert(self.state() == restored(old(self).state(), saved@));
    }

    /// Tries the head atoms of clause `ci` from `k` on, each on the graph as
    /// it is now: see [`branches`].
    fn branch_from(
        &mut self,
        ci: usize,
        node: HNode,
        binding: &Binding,
        depth: usize,
        k: usize,
        combined: DepSet,
        any_stalled: bool,
    ) -> (r: HyperResult)
        requires
            old(self).wf(),
            0 < depth <= old(self).config().init_depth,
            ci < old(self).config().clauses.len(),
            old(self).graph().valid(node),
            binding_valid(binding@, old(self).graph().nodes.len() as int),
        ensures
            final(self).wf(),
            final(self).config() == old(self).config(),
            final(self).state().verdict == old(self).state().verdict,
            branches(
                old(self).config(),
                old(self).state(),
                depth as nat,
                (Choice { ci: ci as int, n: node, b: binding@ }),
                k as int,
                combined,
                any_stalled,
                final(self).state(),
                r,
            ),
        decreases depth, 0int, old(self).config().clauses[ci as int].head.len() - k, 0int,
    {
        let ghost kc = self.config();
        let ghost s0 = self.state();
        let ghost choice = Choice { ci: ci as int, n: node, b: binding@ };
        let ghost j = k as int;
        let ghost dn = depth as nat;
        let d = self.decision_level(depth);
        let clauses = self.clauses;
        assert(kc.clauses[ci as int].head == clauses@[ci as int].head@);
        if k >= clauses[ci].head.len() {
            proof {
                lemma_branches_exhausted(kc, s0, dn, choice, j, combined, any_stalled);
            }
            if any_stalled {
                return HyperResult::Stalled;
            }
            self.clash_deps = combined.remove(d);
            return HyperResult::Unsat;
        }
        let (saved, o) = self.assert_disjunct(ci, node, binding, depth, k);
        let ghost sy = self.state();
        if matches!(o, FireOutcome::Full) {
            self.restore(saved);
            let r = self.branch_from(ci, node, binding, depth, k + 1, combined, true);
            proof {
                lemma_branches_full(
                    kc,
                    s0,
                    dn,
                    choice,
                    j,
                    combined,
                    any_stalled,
                    self.state(),
                    r,
                );
            }
            return r;
        }
        let rz = self.solve(depth - 1);
        let ghost sz = self.state();
        let r = match rz {
            HyperResult::Sat => HyperResult::Sat,
            HyperResult::Unsat => {
                let child_deps = self.clash_deps;
                self.restore(saved);
                if !child_deps.contains(d) {
                    HyperResult::Unsat
                } else {
                    self.branch_from(
                        ci,
                        node,
                        binding,
                        depth,
                        k + 1,
                        combined.union(child_deps),
                        any_stalled,
                    )
                }
            },
            HyperResult::Stalled => {
                self.restore(saved);
                self.branch_from(ci, node, binding, depth, k + 1, combined, true)
            },
        };
        proof {
            lemma_branches_step(
                kc,
                s0,
                dn,
                choice,
                j,
                combined,
                any_stalled,
                sz,
                rz,
                self.state(),
                r,
            );
        }
        r
    }

    /// Saves the graph and asserts head atom `k` of clause `ci` on it.
    fn assert_disjunct(
        &mut self,
        ci: usize,
        node: HNode,
        binding: &Binding,
        depth: usize,
        k: usize,
    ) -> (r: (Snapshot, FireOutcome))
        requires
            old(self).wf(),
            0 < depth <= old(self).config().init_depth,
            ci < old(self).config().clauses.len(),
            k < old(self).config().clauses[ci as int].head.len(),
            old(self).graph().valid(node),
            binding_valid(binding@, old(self).graph().nodes.len() as int),
        ensures
            final(self).wf(),
            final(self).config() == old(self).config(),
            final(self).state().verdict == old(self).state().verdict,
            r.0.wf(),
            r.0@ == old(self).graph(),
            (final(self).state(), r.1) == disjunct_asserted(
                old(self).config(),
                old(self).state(),
                depth as nat,
                (Choice { ci: ci as int, n: node, b: binding@ }),
                k as int,
            ),
    {
        proof {
            reveal(disjunct_asserted);
        }
        let ghost s0 = self.state();
        let d = self.decision_level(depth);
        let clauses = self.clauses;
        assert(self.config().clauses[ci as int].head == clauses@[ci as int].head@);
        let head_atom = clauses[ci].head[k];
        let decision_deps = self.clause_body_deps(ci, node, binding).insert(d);
        let saved = self.save();
        self.stats.branches_taken = tick(self.stats.branches_taken);
        self.stats.disj_branches = tick(self.stats.disj_branches);
        assert(self.state() == disjunct_taken(s0));
        proof {
            lemma_atom_asserted(
                self.config(),
                self.state(),
                head_atom,
                node,
                binding@,
                decision_deps,
            );
        }
        let o = self.apply_head_atom(head_atom, node, binding, decision_deps);
        (saved, o)
    }

    /// The decision level of a frame at `depth`.
    fn decision_level(&self, depth: usize) -> (r: u32)
        requires
            depth <= self.config().init_depth,
        ensures
            r == level(self.config(), depth as int),
    {
        let l: usize = self.init_depth - depth;
        if l > u32::MAX as usize {
            u32::MAX
        } else {
            l as u32
        }
    }

    /// The first node that is not blocked and at which a disjunction is
    /// open; with the clause and the match.
    fn find_open_disjunction(&mut self) -> (r: Option<(usize, HNode, Binding)>)
        requires
            old(self).wf(),
        ensures
            final(self).wf(),
            final(self).config() == old(self).config(),
            final(self).state().verdict == old(self).state().verdict,
            final(self).graph() == old(self).graph(),
            match r {
                Some((ci, n, b)) => {
                    &&& (final(self).state(), Some((ci, n, b@))) == open_disjunction_from(
                        old(self).config(),
                        old(self).state(),
                        0,
                    )
                    &&& ci < old(self).config().clauses.len()
                    &&& old(self).graph().valid(n)
                    &&& binding_valid(b@, old(self).graph().nodes.len() as int)
                },
                None => (final(self).state(), None::<(usize, HNode, Seq<(Var, HNode)>)>)
                    == open_disjunction_from(old(self).config(), old(self).state(), 0),
            },
    {
        let ghost k = self.config();
        let ghost s0 = self.state();
        let ghost result = open_disjunction_from(k, s0, 0);
        proof {
            assert(k.clauses.len() == self.clauses.len());
            lemma_open_disjunction(k, s0, 0);
        }
        let mut idx: usize = 0;
        while idx < self.nodes.len()
            invariant
                self.wf(),
                self.config() == k,
                k == old(self).config(),
                s0 == old(self).state(),
                s0.wf(),
                self.graph() == s0.g,
                self.state() == (State { stats: self.stats, ..s0 }),
                result == open_disjunction_from(k, s0, 0),
                idx <= self.nodes@.len(),
                result == open_disjunction_from(k, self.state(), idx as int),
            decreases self.nodes@.len() - idx,
        {
            let node = HNode(idx as u32);
            assert(node.at() == idx);
            if !self.is_blocked(node) {
                if let Some((ci, b)) = self.find_open_clause(node) {
                    return Some((ci, node, b));
                }
            }
            idx += 1;
        }
        None
    }

    /// The first clause with several head atoms that is open at `node`, with
    /// the match.
    fn find_open_clause(&self, node: HNode) -> (r: Option<(usize, Binding)>)
        requires
            self.wf(),
            self.graph().valid(node),
        ensures
            match r {
                Some((ci, b)) => {
                    &&& open_clause_from(self.config(), self.graph(), node, 0) == Some((ci, b@))
                    &&& ci < self.config().clauses.len()
                    &&& binding_valid(b@, self.graph().nodes.len() as int)
                },
                None => open_clause_from(self.config(), self.graph(), node, 0) is None,
            },
    {
        let ghost k = self.config();
        let ghost g = self.graph();
        let mut ci: usize = 0;
        while ci < self.clauses.len()
            invariant
                self.wf(),
                self.config() == k,
                self.graph() == g,
                g.valid(node),
                k.clauses.len() == self.clauses@.len(),
                ci <= self.clauses@.len(),
                open_clause_from(k, g, node, 0) == open_clause_from(k, g, node, ci as int),
            decreases self.clauses@.len() - ci,
        {
            assert(k.clauses[ci as int] == self.clauses@[ci as int]@);
            if !self.clauses[ci].is_horn() {
                if let Some(bindings) = self.match_body(ci, node) {
                    let ghost bs = binding_views(bindings@);
                    proof {
                        lemma_matches_valid(g, k.roles, k.clauses[ci as int].body, node);
                    }
                    let mut i: usize = 0;
                    while i < bindings.len()
                        invariant
                            self.wf(),
                            self.config() == k,
                            self.graph() == g,
                            g.valid(node),
                            ci < k.clauses.len(),
                            !k.clauses[ci as int].horn(),
                            bs == binding_views(bindings@),
                            matches_of(g.nodes, k.roles, k.clauses[ci as int].body, node) == Some(bs),
                            all_valid(bs, g.nodes.len() as int),
                            i <= bindings@.len(),
                            open_clause_from(k, g, node, 0) == open_clause_from(
                                k,
                                g,
                                node,
                                ci as int,
                            ),
                            open_binding_from(k, g, ci as int, node, bs, 0) == open_binding_from(
                                k,
                                g,
                                ci as int,
                                node,
                                bs,
                                i as int,
                            ),
                        decreases bindings@.len() - i,
                    {
                        assert(bs[i as int] == bindings@[i as int]@);
                        assert(binding_valid(bs[i as int], g.nodes.len() as int));
                        if !self.any_head_satisfied(ci, node, &bindings[i]) {
                            let b = copy_vec(&bindings[i]);
                            return Some((ci, b));
                        }
                        i += 1;
                    }
                }
            }
            ci += 1;
        }
        None
    }

    /// Satisfies a violated `≤n` by merging: see [`merges`].
    fn solve_at_most(&mut self, succs: &Vec<HNode>, n: usize, depth: usize) -> (r: HyperResult)
        requires
            old(self).wf(),
            0 < depth <= old(self).config().init_depth,
            forall|i: int| 0 <= i < succs@.len() ==> old(self).graph().valid(#[trigger] succs@[i]),
        ensures
            final(self).wf(),
            final(self).config() == old(self).config(),
            final(self).state().verdict == old(self).state().verdict,
            merges(
                old(self).config(),
                old(self).state(),
                depth as nat,
                succs@,
                n as nat,
                final(self).state(),
                r,
            ),
        decreases depth, 0int, 2 * succs@.len() + 2, 0int,
    {
        let ghost k = self.config();
        let ghost s0 = self.state();
        let mut groups: Vec<Vec<HNode>> = Vec::new();
        let mut any_stalled = false;
        assert(group_views(groups@) =~= Seq::empty());
        let found = self.partition_rec(succs, 0, &mut groups, n, depth, &mut any_stalled);
        let ghost sz = self.state();
        let r = if found {
            HyperResult::Sat
        } else if any_stalled {
            HyperResult::Stalled
        } else {
            self.clash_deps = DepSet::all();
            HyperResult::Unsat
        };
        proof {
            lemma_merges_intro(
                k,
                s0,
                depth as nat,
                succs@,
                n as nat,
                sz,
                any_stalled,
                found,
                self.state(),
                r,
            );
        }
        r
    }

    /// Merges each block into its first node; `true` on a clash.
    fn merge_blocks(&mut self, groups: &Vec<Vec<HNode>>) -> (r: bool)
        requires
            old(self).wf(),
            groups_wf(old(self).graph(), group_views(groups@)),
        ensures
            final(self).wf(),
            final(self).config() == old(self).config(),
            final(self).state().verdict == old(self).state().verdict,
            (final(self).state(), r) == blocks_merged(
                old(self).config(),
                old(self).state(),
                group_views(groups@),
                0,
            ),
    {
        let ghost k = self.config();
        let ghost gs = group_views(groups@);
        let ghost result = blocks_merged(k, self.state(), gs, 0);
        let mut i: usize = 0;
        while i < groups.len()
            invariant
                self.wf(),
                self.config() == k,
                k == old(self).config(),
                self.state().verdict == old(self).state().verdict,
                gs == group_views(groups@),
                groups_wf(self.graph(), gs),
                result == blocks_merged(k, old(self).state(), gs, 0),
                i <= groups@.len(),
                result == blocks_merged(k, self.state(), gs, i as int),
            decreases groups@.len() - i,
        {
            let block = &groups[i];
            assert(gs[i as int] == block@);
            assert(block_wf(self.graph(), gs[i as int]));
            let rep = block[0];
            let ghost si = self.state();
            let mut j: usize = 1;
            while j < block.len()
                invariant
                    self.wf(),
                    self.config() == k,
                    k == old(self).config(),
                    self.state().verdict == old(self).state().verdict,
                    gs == group_views(groups@),
                    groups_wf(self.graph(), gs),
                    result == blocks_merged(k, old(self).state(), gs, 0),
                    i < groups@.len(),
                    block@ == gs[i as int],
                    rep == block@[0],
                    1 <= j <= block@.len(),
                    result == blocks_merged(k, si, gs, i as int),
                    block_merged(k, si, block@, 1) == block_merged(k, self.state(), block@, j as int),
                decreases block@.len() - j,
            {
                assert(block_wf(self.graph(), gs[i as int]));
                let ghost sj = self.state();
                proof {
                    lemma_merged(k, sj, rep, block@[j as int], DepSet::empty());
                }
                if self.merge(rep, block[j]) {
                    return true;
                }
                proof {
                    lemma_groups_wf_grows(sj.g, self.graph(), gs);
                }
                j += 1;
            }
            i += 1;
        }
        false
    }

    /// Enumerates the partitions that extend `groups`: see [`partitions`].
    fn partition_rec(
        &mut self,
        succs: &Vec<HNode>,
        idx: usize,
        groups: &mut Vec<Vec<HNode>>,
        n: usize,
        depth: usize,
        any_stalled: &mut bool,
    ) -> (found: bool)
        requires
            old(self).wf(),
            0 < depth <= old(self).config().init_depth,
            idx <= succs@.len(),
            forall|i: int| 0 <= i < succs@.len() ==> old(self).graph().valid(#[trigger] succs@[i]),
            groups_wf(old(self).graph(), group_views(old(groups)@)),
        ensures
            final(self).wf(),
            final(self).config() == old(self).config(),
            final(self).state().verdict == old(self).state().verdict,
            group_views(final(groups)@) == group_views(old(groups)@),
            !found ==> final(self).graph() == old(self).graph(),
            partitions(
                old(self).config(),
                old(self).state(),
                depth as nat,
                succs@,
                idx as int,
                group_views(old(groups)@),
                n as nat,
                *old(any_stalled),
                final(self).state(),
                *final(any_stalled),
                found,
            ),
        decreases depth, 0int, 2 * (succs@.len() - idx) + 1, 0int,
    {
        let ghost k = self.config();
        let ghost s0 = self.state();
        let ghost gs = group_views(groups@);
        let ghost st0 = *any_stalled;
        let ghost dn = depth as nat;
        if idx == succs.len() {
            let saved = self.save();
            self.stats.branches_taken = tick(self.stats.branches_taken);
            self.stats.merge_branches = tick(self.stats.merge_branches);
            assert(self.state() == partition_taken(s0));
            if self.merge_blocks(groups) {
                self.restore(saved);
                proof {
                    lemma_partitions_clash(k, s0, dn, succs@, idx as int, gs, n as nat, st0);
                }
                return false;
            }
            let rz = self.solve(depth - 1);
            let ghost sz = self.state();
            let found = match rz {
                HyperResult::Sat => true,
                HyperResult::Unsat => {
                    self.restore(saved);
                    false
                },
                HyperResult::Stalled => {
                    self.restore(saved);
                    *any_stalled = true;
                    false
                },
            };
            proof {
                lemma_partitions_leaf(
                    k,
                    s0,
                    dn,
                    succs@,
                    idx as int,
                    gs,
                    n as nat,
                    st0,
                    sz,
                    rz,
                    self.state(),
                    *any_stalled,
                    found,
                );
            }
            return found;
        }
        let found = self.place_from(succs, idx, groups, 0, n, depth, any_stalled);
        proof {
            lemma_partitions_place(
                k,
                s0,
                dn,
                succs@,
                idx as int,
                gs,
                n as nat,
                st0,
                self.state(),
                *any_stalled,
                found,
            );
        }
        found
    }

    /// Puts `succs[idx]` into each block from `gi` on that it can join, and
    /// then into a new one: see [`placements`].
    fn place_from(
        &mut self,
        succs: &Vec<HNode>,
        idx: usize,
        groups: &mut Vec<Vec<HNode>>,
        gi: usize,
        n: usize,
        depth: usize,
        any_stalled: &mut bool,
    ) -> (found: bool)
        requires
            old(self).wf(),
            0 < depth <= old(self).config().init_depth,
            idx < succs@.len(),
            gi <= old(groups)@.len(),
            forall|i: int| 0 <= i < succs@.len() ==> old(self).graph().valid(#[trigger] succs@[i]),
            groups_wf(old(self).graph(), group_views(old(groups)@)),
        ensures
            final(self).wf(),
            final(self).config() == old(self).config(),
            final(self).state().verdict == old(self).state().verdict,
            group_views(final(groups)@) == group_views(old(groups)@),
            !found ==> final(self).graph() == old(self).graph(),
            placements(
                old(self).config(),
                old(self).state(),
                depth as nat,
                succs@,
                idx as int,
                group_views(old(groups)@),
                gi as int,
                n as nat,
                *old(any_stalled),
                final(self).state(),
                *final(any_stalled),
                found,
            ),
        decreases depth, 0int, 2 * (succs@.len() - idx), old(groups)@.len() - gi,
    {
        let ghost k = self.config();
        let ghost s0 = self.state();
        let ghost gs = group_views(groups@);
        let ghost st0 = *any_stalled;
        let ghost dn = depth as nat;
        let s = succs[idx];
        assert(idx < succs.len());
        if gi < groups.len() {
            assert(gs[gi as int] == groups@[gi as int]@);
            assert(block_wf(s0.g, gs[gi as int]));
            if self.can_join(s, &groups[gi]) {
                groups[gi].push(s);
                let ghost gs1 = gs.update(gi as int, gs[gi as int].push(s));
                assert(group_views(groups@) =~= gs1);
                assert(groups_wf(s0.g, gs1)) by {
                    assert forall|q: int| 0 <= q < gs1.len() implies block_wf(
                        s0.g,
                        #[trigger] gs1[q],
                    ) by {
                        assert(block_wf(s0.g, gs[q]));
                    }
                }
                let f = self.partition_rec(succs, idx + 1, groups, n, depth, any_stalled);
                let ghost sm = self.state();
                let ghost sl = *any_stalled;
                proof {
                    lemma_group_at(groups@, gs1, gi as int);
                }
                groups[gi].pop();
                proof {
                    assert forall|q: int| 0 <= q < gs.len() implies groups@[q]@ =~= gs[q] by {
                        assert(group_views(groups@)[q] == groups@[q]@);
                        if q != gi {
                            assert(gs1[q] == gs[q]);
                        }
                    }
                    assert(group_views(groups@) =~= gs);
                }
                if f {
                    proof {
                        lemma_placements_join(
                            k,
                            s0,
                            dn,
                            succs@,
                            idx as int,
                            gs,
                            gi as int,
                            n as nat,
                            st0,
                            sm,
                            sl,
                            true,
                            sm,
                            sl,
                            true,
                        );
                    }
                    return true;
                }
                let found = self.place_from(succs, idx, groups, gi + 1, n, depth, any_stalled);
                proof {
                    lemma_placements_join(
                        k,
                        s0,
                        dn,
                        succs@,
                        idx as int,
                        gs,
                        gi as int,
                        n as nat,
                        st0,
                        sm,
                        sl,
                        false,
                        self.state(),
                        *any_stalled,
                        found,
                    );
                }
                return found;
            }
            let found = self.place_from(succs, idx, groups, gi + 1, n, depth, any_stalled);
            proof {
                lemma_placements_skip(
                    k,
                    s0,
                    dn,
                    succs@,
                    idx as int,
                    gs,
                    gi as int,
                    n as nat,
                    st0,
                    self.state(),
                    *any_stalled,
                    found,
                );
            }
            return found;
        }
        let mut found = false;
        if groups.len() < n {
            let mut b: Vec<HNode> = Vec::new();
            b.push(s);
            assert(b@ =~= seq![s]);
            groups.push(b);
            let ghost gs1 = gs.push(seq![s]);
            assert(group_views(groups@) =~= gs1);
            assert(groups_wf(s0.g, gs1)) by {
                assert forall|q: int| 0 <= q < gs1.len() implies block_wf(
                    s0.g,
                    #[trigger] gs1[q],
                ) by {
                    if q < gs.len() {
                        assert(block_wf(s0.g, gs[q]));
                    }
                }
            }
            found = self.partition_rec(succs, idx + 1, groups, n, depth, any_stalled);
            assert(group_views(groups@) == gs1);
            assert(groups@.len() == gs1.len());
            let ghost all = groups@;
            groups.pop();
            assert(group_views(groups@) =~= gs) by {
                assert forall|q: int| 0 <= q < gs.len() implies group_views(groups@)[q] == gs[q] by {
                    assert(group_views(all)[q] == all[q]@);
                    assert(gs1[q] == gs[q]);
                }
            }
        }
        proof {
            lemma_placements_open(
                k,
                s0,
                dn,
                succs@,
                idx as int,
                gs,
                gi as int,
                n as nat,
                st0,
                self.state(),
                *any_stalled,
                found,
            );
        }
        found
    }

    /// Whether `s` can join the block.
    fn can_join(&self, s: HNode, block: &Vec<HNode>) -> (r: bool)
        requires
            self.wf(),
            self.graph().valid(s),
            block_wf(self.graph(), block@),
        ensures
            r == joinable(self.config(), self.graph(), s, block@),
    {
        let ghost k = self.config();
        let ghost g = self.graph();
        let mut i: usize = 0;
        while i < block.len()
            invariant
                self.wf(),
                self.config() == k,
                self.graph() == g,
                g.valid(s),
                block_wf(g, block@),
                i <= block@.len(),
                forall|j: int| 0 <= j < i ==> !unmergeable(k, g, s, #[trigger] block@[j]),
            decreases block@.len() - i,
        {
            if self.must_be_distinct(s, block[i]) {
                assert(unmergeable(k, g, s, block@[i as int]));
                return false;
            }
            i += 1;
        }
        true
    }
}

} // verus!
