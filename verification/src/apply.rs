//! Applying the rules to the engine's graph.

use vstd::prelude::*;
use crate::clause::Atom;
use crate::dep_set::DepSet;
use crate::engine::HyperEngine;
use crate::graph::{tick, Event, FireOutcome, State};
use crate::ids::{ClassId, HNode, Role};
use crate::matching::{
    binding_valid, binding_views, lemma_var_node_valid, node_views, resolve_var, Binding,
};
use crate::node::{card_among, Card, HyperNode, NodeView};
use crate::rules::{
    all_apart_from, at_least_fired, at_most_added, atom_asserted, bearer_from, bindings_fired,
    cards_merged, clause_fired, constraints_merged, edge_derived, edge_in, edges_copied,
    exists_fired, extended, filed_in, generated, grown, head_fired, joined_nodes, kept_apart,
    labelled, labels_copied, merged, next_node, nominal_marked, nominal_merged, relinked, sprouted,
    sprouts, stored_edge, widened_birth,
};
use crate::rules_wf::{
    all_valid, lemma_all_valid_grows, lemma_at_most_added, lemma_bearer, lemma_edge_in,
    lemma_edges_copied, lemma_extended, lemma_filed_in, lemma_grown, lemma_head_fired,
    lemma_kept_apart, lemma_labelled, lemma_labels_copied, lemma_linked_wf, lemma_matches_valid,
    lemma_merged, lemma_sprouts, lemma_widened_wf, lemma_with, lemma_work_grows, lemma_work_push,
};
use crate::util::copy_vec;

verus! {

/// Replacing a node replaces its view.
pub(crate) proof fn lemma_views_update(a: Seq<HyperNode>, b: Seq<HyperNode>, i: int)
    requires
        0 <= i < a.len(),
        a.len() == b.len(),
        forall|j: int| 0 <= j < a.len() && j != i ==> a[j] == b[j],
    ensures
        node_views(b) == node_views(a).update(i, b[i]@),
{
    assert(node_views(b) =~= node_views(a).update(i, b[i]@));
}

impl<'c> HyperEngine<'c> {
    /// Adds class `c` to node `n`; a label that is new becomes an event.
    /// Returns whether it is new.
    pub(crate) fn add_label(&mut self, n: HNode, c: ClassId, deps: DepSet) -> (r: bool)
        requires
            old(self).wf(),
            old(self).graph().valid(n),
        ensures
            final(self).wf(),
            final(self).config() == old(self).config(),
            (final(self).state(), r) == labelled(old(self).state(), n, c, deps),
    {
        let ghost s0 = self.state();
        let ghost before = self.nodes@;
        proof {
            assert(s0.g.node_wf(s0.g.nodes[n.at()], n.at()));
            lemma_labelled(s0, n, c, deps);
        }
        let new = self.nodes[n.index()].add(c, deps);
        proof {
            lemma_views_update(before, self.nodes@, n.at());
        }
        if new {
            self.worklist.push(Event::Label(n, c));
        } else {
            assert(node_views(self.nodes@) =~= s0.g.nodes);
        }
        new
    }

    /// Widens what label `c` at node `n`, if present, depends on.
    fn fold_label_dep(&mut self, n: HNode, c: ClassId, extra: DepSet)
        requires
            old(self).wf(),
            old(self).graph().valid(n),
        ensures
            final(self).wf(),
            final(self).config() == old(self).config(),
            final(self).state() == (State {
                g: old(self).graph().with(n, old(self).graph().at(n).widened(c, extra)),
                ..old(self).state()
            }),
    {
        let ghost s0 = self.state();
        let ghost before = self.nodes@;
        proof {
            assert(s0.g.node_wf(s0.g.nodes[n.at()], n.at()));
            lemma_widened_wf(s0.g, n, c, extra);
            lemma_work_grows(s0.g, s0.g.with(n, s0.g.at(n).widened(c, extra)), s0.work);
        }
        self.nodes[n.index()].widen(c, extra);
        proof {
            lemma_views_update(before, self.nodes@, n.at());
        }
    }

    /// Adds a node about which nothing is known.
    fn new_node(&mut self) -> (n: HNode)
        requires
            old(self).wf(),
            old(self).graph().room(1),
        ensures
            final(self).wf(),
            final(self).config() == old(self).config(),
            final(self).state() == grown(old(self).config(), old(self).state()),
            n == next_node(old(self).graph()),
    {
        let ghost s0 = self.state();
        let ghost k = self.config();
        proof {
            lemma_grown(k, s0);
            lemma_extended(s0.g);
        }
        let id = self.nodes.len() as u32;
        let node = HyperNode::blank(id);
        self.nodes.push(node);
        self.representative.push();
        self.snapshot_origin.push(false);
        let n = HNode(id);
        assert(node_views(self.nodes@) =~= extended(s0.g).nodes);
        if self.indexes.empty_body.len() > 0 {
            self.worklist.push(Event::NodeNew(n));
        }
        n
    }

    /// Adds an edge and records it at both ends; not an event yet.
    pub(crate) fn link_nodes(&mut self, a: HNode, r: Role, b: HNode)
        requires
            old(self).wf(),
            old(self).graph().valid(a),
            old(self).graph().valid(b),
        ensures
            final(self).wf(),
            final(self).config() == old(self).config(),
            final(self).state() == (State {
                g: edge_in(old(self).graph(), a, r, b),
                ..old(self).state()
            }),
    {
        let ghost s0 = self.state();
        proof {
            lemma_edge_in(s0.g, a, r, b);
            lemma_work_grows(s0.g, edge_in(s0.g, a, r, b), s0.work);
        }
        let ghost before = self.nodes@;
        self.nodes[a.index()].edges.push((r, b));
        proof {
            lemma_views_update(before, self.nodes@, a.at());
            assert(self.nodes@[a.at()]@ =~= s0.g.at(a).with_edge(r, b));
        }
        let ghost mid = self.nodes@;
        self.nodes[b.index()].preds.push((r, a));
        proof {
            lemma_views_update(mid, self.nodes@, b.at());
            assert(self.nodes@[b.at()]@ =~= node_views(mid)[b.at()].with_pred(r, a));
        }
    }

    /// Generates a successor of `x` along `role`, labelled `qual` if there
    /// is one.
    fn sprout(&mut self, x: HNode, role: Role, qual: Option<ClassId>, deps: DepSet) -> (n: HNode)
        requires
            old(self).wf(),
            old(self).graph().valid(x),
            old(self).graph().room(1),
        ensures
            final(self).wf(),
            final(self).config() == old(self).config(),
            final(self).state() == sprouted(
                old(self).config(),
                old(self).state(),
                x,
                role,
                qual,
                deps,
            ),
            n == next_node(old(self).graph()),
    {
        let ghost s0 = self.state();
        let ghost k = self.config();
        proof {
            lemma_extended(s0.g);
        }
        let succ = self.new_node();
        let ghost s1 = self.state();
        let ghost before = self.nodes@;
        let ghost v = generated(s1.g.at(succ), x, role, deps);
        proof {
            assert(s1.g.at(succ) == before[succ.at()]@);
            lemma_with(s1.g, succ, v);
            lemma_work_grows(s1.g, s1.g.with(succ, v), s1.work);
        }
        self.nodes[succ.index()].birth_deps = deps;
        self.nodes[succ.index()].parent = Some(x);
        self.nodes[succ.index()].parent_role = Some(role);
        proof {
            lemma_views_update(before, self.nodes@, succ.at());
            assert(self.nodes@[succ.at()]@ =~= v);
        }
        let ghost g2 = s1.g.with(succ, v);
        assert(self.graph() == g2);
        proof {
            lemma_filed_in(g2, role, succ);
            lemma_work_grows(g2, filed_in(g2, role, succ), s1.work);
        }
        if let Some(ix) = &mut self.block_index {
            ix.push(role, succ);
        }
        assert(self.graph() == filed_in(g2, role, succ));
        self.link_nodes(x, role, succ);
        proof {
            lemma_work_push(self.graph(), self.worklist@, Event::Edge(x, role, succ));
        }
        self.worklist.push(Event::Edge(x, role, succ));
        if let Some(q) = qual {
            self.add_label(succ, q, deps);
        }
        succ
    }

    /// `∃role.cls` at `src`: reuses a successor that carries the class, or
    /// else generates one unless `src` is blocked.
    fn fire_exists(&mut self, src: HNode, role: Role, cls: ClassId, deps: DepSet) -> (r: FireOutcome)
        requires
            old(self).wf(),
            old(self).graph().valid(src),
        ensures
            final(self).wf(),
            final(self).config() == old(self).config(),
            (final(self).state(), r) == exists_fired(
                old(self).config(),
                old(self).state(),
                src,
                role,
                cls,
                deps,
            ),
    {
        if self.has_witness(src, role, cls) {
            return FireOutcome::NoChange;
        }
        if self.is_blocked(src) {
            return FireOutcome::NoChange;
        }
        if !self.has_room(1) {
            return FireOutcome::Full;
        }
        self.sprout(src, role, Some(cls), deps);
        FireOutcome::Changed
    }

    /// Whether node ids are left for `k` more nodes.
    fn has_room(&self, k: u32) -> (r: bool)
        requires
            self.wf(),
        ensures
            r == self.graph().room(k as int),
    {
        k == 0 || (self.nodes.len() as u64) <= 0x1_0000_0000u64 - (k as u64)
    }

    /// Records `a ≠ b`, for their representatives.
    fn add_neq(&mut self, a: HNode, b: HNode)
        requires
            old(self).wf(),
            old(self).graph().valid(a),
            old(self).graph().valid(b),
        ensures
            final(self).wf(),
            final(self).config() == old(self).config(),
            final(self).state() == (State {
                g: kept_apart(old(self).graph(), a, b),
                ..old(self).state()
            }),
    {
        let ghost s0 = self.state();
        proof {
            lemma_kept_apart(s0.g, a, b);
            lemma_work_grows(s0.g, kept_apart(s0.g, a, b), s0.work);
        }
        let ra = self.resolve(a);
        let rb = self.resolve(b);
        if ra == rb {
            return;
        }
        let pair = if ra.0 <= rb.0 {
            (ra, rb)
        } else {
            (rb, ra)
        };
        if !pair_among(&self.neq, pair) {
            self.neq.push(pair);
        }
    }

    /// `≥n role.qual` at `x`: generates `n` pairwise different successors,
    /// unless there are as many, they were generated before, or the node is
    /// blocked.
    fn generate_at_least(
        &mut self,
        x: HNode,
        role: Role,
        qual: Option<ClassId>,
        n: u32,
        deps: DepSet,
    ) -> (r: FireOutcome)
        requires
            old(self).wf(),
            old(self).graph().valid(x),
        ensures
            final(self).wf(),
            final(self).config() == old(self).config(),
            (final(self).state(), r) == at_least_fired(
                old(self).config(),
                old(self).state(),
                x,
                role,
                qual,
                n,
                deps,
            ),
    {
        if n == 0 || role.is_inverse() {
            return FireOutcome::NoChange;
        }
        let ghost k = self.config();
        let ghost s0 = self.state();
        let x0 = x;
        let x = self.resolve(x0);
        if self.distinct_role_succ(x, role, qual).len() >= n as usize {
            return FireOutcome::NoChange;
        }
        let key: Card = (role, qual, n);
        assert(s0.g.at(x) == self.nodes@[x.at()]@);
        if card_among(&self.nodes[x.index()].at_least_done, key) {
            return FireOutcome::NoChange;
        }
        if self.is_blocked(x) {
            return FireOutcome::NoChange;
        }
        let ghost s1 = self.state();
        if !self.has_room(n) {
            return FireOutcome::Full;
        }
        let ghost before = self.nodes@;
        let ghost v = s1.g.at(x);
        let ghost done = NodeView { at_least_done: v.at_least_done.push(key), ..v };
        proof {
            assert(v == before[x.at()]@);
            assert(s1.g.node_wf(s1.g.nodes[x.at()], x.at()));
            lemma_with(s1.g, x, done);
            lemma_work_grows(s1.g, s1.g.with(x, done), s1.work);
        }
        self.nodes[x.index()].at_least_done.push(key);
        proof {
            lemma_views_update(before, self.nodes@, x.at());
            assert(self.nodes@[x.at()]@ =~= done);
        }
        let ghost s2 = State { g: s1.g.with(x, done), ..s1 };
        assert(self.state() == s2);
        let mut fresh: Vec<HNode> = Vec::new();
        let mut i: u32 = 0;
        while i < n
            invariant
                self.wf(),
                self.config() == k,
                s2.wf(),
                s2.g.valid(x),
                s2.g.room(n as int),
                i <= n,
                (self.state(), fresh@) == sprouts(k, s2, x, role, qual, deps, i as nat),
            decreases n - i,
        {
            proof {
                lemma_sprouts(k, s2, x, role, qual, deps, i as nat);
            }
            let succ = self.sprout(x, role, qual, deps);
            fresh.push(succ);
            i += 1;
        }
        let ghost s3 = self.state();
        proof {
            lemma_sprouts(k, s2, x, role, qual, deps, n as nat);
            assert forall|q: int| 0 <= q < fresh@.len() implies s3.g.valid(#[trigger] fresh@[q]) by {}
        }
        let mut a: usize = 0;
        while a < fresh.len()
            invariant
                self.wf(),
                self.config() == k,
                self.state() == (State { g: self.graph(), ..s3 }),
                forall|q: int| 0 <= q < fresh@.len() ==> self.graph().valid(#[trigger] fresh@[q]),
                a <= fresh@.len(),
                all_apart_from(s3.g, fresh@, 0, 1) == all_apart_from(
                    self.graph(),
                    fresh@,
                    a as int,
                    a + 1,
                ),
            decreases fresh@.len() - a,
        {
            let mut b: usize = a + 1;
            while b < fresh.len()
                invariant
                    self.wf(),
                    self.config() == k,
                    self.state() == (State { g: self.graph(), ..s3 }),
                    forall|q: int| 0 <= q < fresh@.len() ==> self.graph().valid(#[trigger] fresh@[q]),
                    a < fresh@.len(),
                    a < b <= fresh@.len(),
                    all_apart_from(s3.g, fresh@, 0, 1) == all_apart_from(
                        self.graph(),
                        fresh@,
                        a as int,
                        b as int,
                    ),
                decreases fresh@.len() - b,
            {
                let ghost g1 = self.graph();
                proof {
                    lemma_kept_apart(g1, fresh@[a as int], fresh@[b as int]);
                }
                self.add_neq(fresh[a], fresh[b]);
                b += 1;
            }
            a += 1;
        }
        FireOutcome::Changed
    }

    /// Adds what caused a derivation to what node `n` depends on.
    fn widen_birth(&mut self, n: HNode, deps: DepSet)
        requires
            old(self).wf(),
            old(self).graph().valid(n),
        ensures
            final(self).wf(),
            final(self).config() == old(self).config(),
            final(self).state() == (State {
                g: old(self).graph().with(n, widened_birth(old(self).graph().at(n), deps)),
                ..old(self).state()
            }),
    {
        let ghost s0 = self.state();
        let ghost before = self.nodes@;
        let ghost v = widened_birth(s0.g.at(n), deps);
        proof {
            assert(s0.g.at(n) == before[n.at()]@);
            assert(s0.g.node_wf(s0.g.nodes[n.at()], n.at()));
            lemma_with(s0.g, n, v);
            lemma_work_grows(s0.g, s0.g.with(n, v), s0.work);
        }
        let d = self.nodes[n.index()].birth_deps.union(deps);
        self.nodes[n.index()].birth_deps = d;
        proof {
            lemma_views_update(before, self.nodes@, n.at());
            assert(self.nodes@[n.at()]@ =~= v);
        }
    }

    /// Adds a derived role edge between two existing nodes, unless it is
    /// there. It is stored forward, between representatives, and both ends
    /// then depend on what derived it.
    fn derive_role_edge(&mut self, role: Role, src: HNode, tgt: HNode, deps: DepSet) -> (r:
        FireOutcome)
        requires
            old(self).wf(),
            old(self).graph().valid(src),
            old(self).graph().valid(tgt),
        ensures
            final(self).wf(),
            final(self).config() == old(self).config(),
            (final(self).state(), r) == edge_derived(old(self).state(), role, src, tgt, deps),
    {
        let ghost s0 = self.state();
        let (rstore, from, to) = if role.is_inverse() {
            (role.flip(), tgt, src)
        } else {
            (role, src, tgt)
        };
        let from = self.resolve(from);
        let to = self.resolve(to);
        assert((from, rstore, to) == stored_edge(s0.g, role, src, tgt));
        assert(s0.g.at(from) == self.nodes@[from.at()]@);
        if edge_among(&self.nodes[from.index()].edges, (rstore, to)) {
            return FireOutcome::NoChange;
        }
        self.link_nodes(from, rstore, to);
        proof {
            lemma_edge_in(s0.g, from, rstore, to);
        }
        self.widen_birth(from, deps);
        self.widen_birth(to, deps);
        proof {
            lemma_work_push(self.graph(), self.worklist@, Event::Edge(from, rstore, to));
        }
        self.worklist.push(Event::Edge(from, rstore, to));
        FireOutcome::Changed
    }

    /// Puts a `≤n` constraint on node `t`, unless it is there.
    fn add_at_most(&mut self, t: HNode, c: Card, deps: DepSet) -> (r: FireOutcome)
        requires
            old(self).wf(),
            old(self).graph().valid(t),
        ensures
            final(self).wf(),
            final(self).config() == old(self).config(),
            (final(self).state(), r) == at_most_added(old(self).state(), t, c, deps),
    {
        let ghost s0 = self.state();
        let ghost before = self.nodes@;
        proof {
            assert(s0.g.at(t) == before[t.at()]@);
            lemma_at_most_added(s0, t, c, deps);
        }
        if card_among(&self.nodes[t.index()].at_most, c) {
            return FireOutcome::NoChange;
        }
        let d = self.nodes[t.index()].at_most_dep.union(deps);
        self.nodes[t.index()].at_most.push(c);
        self.nodes[t.index()].at_most_dep = d;
        proof {
            lemma_views_update(before, self.nodes@, t.at());
            let v = s0.g.at(t);
            assert(self.nodes@[t.at()]@ =~= (NodeView {
                at_most: v.at_most.push(c),
                at_most_dep: v.at_most_dep.joined(deps),
                ..v
            }));
        }
        FireOutcome::Changed
    }

    /// Asserts one head atom under the binding. An equality is left alone.
    pub(crate) fn apply_head_atom(
        &mut self,
        head: Atom,
        xnode: HNode,
        binding: &Binding,
        deps: DepSet,
    ) -> (r: FireOutcome)
        requires
            old(self).wf(),
            old(self).graph().valid(xnode),
            binding_valid(binding@, old(self).graph().nodes.len() as int),
        ensures
            final(self).wf(),
            final(self).config() == old(self).config(),
            (final(self).state(), r) == atom_asserted(
                old(self).config(),
                old(self).state(),
                head,
                xnode,
                binding@,
                deps,
            ),
    {
        let ghost n = self.graph().nodes.len() as int;
        match head {
            Atom::Class(c, v) => {
                proof {
                    lemma_var_node_valid(v, xnode, binding@, n);
                }
                match resolve_var(v, xnode, binding) {
                    None => FireOutcome::NoChange,
                    Some(t) => if self.add_label(t, c, deps) {
                        FireOutcome::Changed
                    } else {
                        FireOutcome::NoChange
                    },
                }
            },
            Atom::Exists(role, cls, v) => {
                proof {
                    lemma_var_node_valid(v, xnode, binding@, n);
                }
                match resolve_var(v, xnode, binding) {
                    None => FireOutcome::NoChange,
                    Some(src) => self.fire_exists(src, role, cls, deps),
                }
            },
            Atom::AtMost(role, qual, m, v) => {
                proof {
                    lemma_var_node_valid(v, xnode, binding@, n);
                }
                match resolve_var(v, xnode, binding) {
                    None => FireOutcome::NoChange,
                    Some(t) => self.add_at_most(t, (role, qual, m), deps),
                }
            },
            Atom::AtLeast(role, qual, m, v) => {
                proof {
                    lemma_var_node_valid(v, xnode, binding@, n);
                }
                match resolve_var(v, xnode, binding) {
                    None => FireOutcome::NoChange,
                    Some(t) => self.generate_at_least(t, role, qual, m, deps),
                }
            },
            Atom::Role(role, u, v) => {
                proof {
                    lemma_var_node_valid(u, xnode, binding@, n);
                    lemma_var_node_valid(v, xnode, binding@, n);
                }
                match (resolve_var(u, xnode, binding), resolve_var(v, xnode, binding)) {
                    (Some(src), Some(tgt)) => self.derive_role_edge(role, src, tgt, deps),
                    _ => FireOutcome::NoChange,
                }
            },
            Atom::Equal(_, _) => FireOutcome::NoChange,
        }
    }

    /// Asserts the head of a Horn clause whose body matched.
    fn fire_head(&mut self, ci: usize, xnode: HNode, binding: &Binding, deps: DepSet) -> (r:
        FireOutcome)
        requires
            old(self).wf(),
            ci < old(self).config().clauses.len(),
            old(self).graph().valid(xnode),
            binding_valid(binding@, old(self).graph().nodes.len() as int),
        ensures
            final(self).wf(),
            final(self).config() == old(self).config(),
            (final(self).state(), r) == head_fired(
                old(self).config(),
                old(self).state(),
                old(self).config().clauses[ci as int].head,
                xnode,
                binding@,
                deps,
            ),
    {
        let clauses = self.clauses;
        assert(self.config().clauses[ci as int].head == clauses@[ci as int].head@);
        if clauses[ci].head.len() == 0 {
            let xn = self.resolve(xnode);
            assert(self.graph().at(xn) == self.nodes@[xn.at()]@);
            self.clash_deps = if self.nodes[xn.index()].nn_tainted && !self.nn_taint_disabled {
                DepSet::all()
            } else {
                deps
            };
            return FireOutcome::Clash;
        }
        self.apply_head_atom(clauses[ci].head[0], xnode, binding, deps)
    }

    /// Fires clause `ci` with its central variable at `node`. Clauses with
    /// several head atoms are branch points and do not fire here.
    pub(crate) fn fire_clause(&mut self, ci: usize, node: HNode) -> (r: FireOutcome)
        requires
            old(self).wf(),
            ci < old(self).config().clauses.len(),
            old(self).graph().valid(node),
        ensures
            final(self).wf(),
            final(self).config() == old(self).config(),
            (final(self).state(), r) == clause_fired(
                old(self).config(),
                old(self).state(),
                ci as int,
                node,
            ),
    {
        let ghost k = self.config();
        assert(k.clauses[ci as int] == self.clauses@[ci as int]@);
        if !self.clauses[ci].is_horn() {
            return FireOutcome::NoChange;
        }
        self.stats.match_attempts = tick(self.stats.match_attempts);
        let ghost s1 = self.state();
        let bindings = match self.match_body(ci, node) {
            None => {
                return FireOutcome::NoChange;
            },
            Some(b) => b,
        };
        let ghost bs = binding_views(bindings@);
        proof {
            lemma_matches_valid(s1.g, k.roles, k.clauses[ci as int].body, node);
        }
        let ghost result = clause_fired(k, old(self).state(), ci as int, node);
        let mut changed = false;
        let mut i: usize = 0;
        while i < bindings.len()
            invariant
                self.wf(),
                self.config() == k,
                k == old(self).config(),
                result == clause_fired(k, old(self).state(), ci as int, node),
                ci < k.clauses.len(),
                self.graph().valid(node),
                bs == binding_views(bindings@),
                all_valid(bs, self.graph().nodes.len() as int),
                i <= bindings@.len(),
                result == bindings_fired(k, self.state(), ci as int, node, bs, i as int, changed),
            decreases bindings@.len() - i,
        {
            let ghost s = self.state();
            let binding = &bindings[i];
            assert(bs[i as int] == binding@);
            assert(binding_valid(bs[i as int], s.g.nodes.len() as int));
            let deps = self.clause_body_deps(ci, node, binding);
            proof {
                lemma_head_fired(k, s, k.clauses[ci as int].head, node, binding@, deps);
            }
            match self.fire_head(ci, node, binding, deps) {
                FireOutcome::Clash => {
                    return FireOutcome::Clash;
                },
                FireOutcome::Full => {
                    return FireOutcome::Full;
                },
                FireOutcome::Changed => {
                    changed = true;
                },
                FireOutcome::NoChange => {},
            }
            proof {
                lemma_all_valid_grows(
                    bs,
                    s.g.nodes.len() as int,
                    self.graph().nodes.len() as int,
                );
            }
            i += 1;
        }
        if changed {
            FireOutcome::Changed
        } else {
            FireOutcome::NoChange
        }
    }

    /// Copies the labels of node `j` to node `n`; what caused the merge is
    /// added to what they depend on.
    fn copy_labels(&mut self, n: HNode, j: HNode, cause: DepSet)
        requires
            old(self).wf(),
            old(self).graph().valid(n),
            old(self).graph().valid(j),
        ensures
            final(self).wf(),
            final(self).config() == old(self).config(),
            final(self).state() == labels_copied(
                old(self).state(),
                n,
                old(self).graph().at(j).labels,
                old(self).graph().at(j).label_deps,
                cause,
                0,
            ),
    {
        let ghost s0 = self.state();
        let ghost k = self.config();
        assert(s0.g.at(j) == self.nodes@[j.at()]@);
        assert(s0.g.node_wf(s0.g.nodes[j.at()], j.at()));
        let labels = copy_vec(&self.nodes[j.index()].labels);
        let deps = copy_vec(&self.nodes[j.index()].label_deps);
        let mut i: usize = 0;
        while i < labels.len()
            invariant
                self.wf(),
                self.config() == k,
                self.graph().valid(n),
                labels@.len() == deps@.len(),
                i <= labels@.len(),
                labels_copied(s0, n, labels@, deps@, cause, 0) == labels_copied(
                    self.state(),
                    n,
                    labels@,
                    deps@,
                    cause,
                    i as int,
                ),
            decreases labels@.len() - i,
        {
            let ghost s = self.state();
            let c = labels[i];
            let d = deps[i].union(cause);
            proof {
                lemma_labelled(s, n, c, d);
            }
            if !self.add_label(n, c, d) && cause != DepSet::empty() {
                self.fold_label_dep(n, c, cause);
            }
            i += 1;
        }
    }

    /// Copies the edges of node `j` to node `n`.
    fn copy_edges(&mut self, n: HNode, j: HNode)
        requires
            old(self).wf(),
            old(self).graph().valid(n),
            old(self).graph().valid(j),
        ensures
            final(self).wf(),
            final(self).config() == old(self).config(),
            final(self).state() == edges_copied(
                old(self).state(),
                n,
                old(self).graph().at(j).edges,
                0,
            ),
    {
        let ghost s0 = self.state();
        let ghost k = self.config();
        assert(s0.g.at(j) == self.nodes@[j.at()]@);
        assert(s0.g.node_wf(s0.g.nodes[j.at()], j.at()));
        let edges = copy_vec(&self.nodes[j.index()].edges);
        assert(edges@ == s0.g.nodes[j.at()].edges);
        let mut i: usize = 0;
        while i < edges.len()
            invariant
                self.wf(),
                self.config() == k,
                self.graph().valid(n),
                forall|q: int| 0 <= q < edges@.len() ==> self.graph().valid((#[trigger] edges@[q]).1),
                i <= edges@.len(),
                edges_copied(s0, n, edges@, 0) == edges_copied(self.state(), n, edges@, i as int),
            decreases edges@.len() - i,
        {
            let ghost s = self.state();
            let (r, t) = edges[i];
            assert(s.g.valid(edges@[i as int].1));
            proof {
                lemma_edge_in(s.g, n, r, t);
            }
            self.link_nodes(n, r, t);
            proof {
                lemma_work_push(self.graph(), self.worklist@, Event::Edge(n, r, t));
            }
            self.worklist.push(Event::Edge(n, r, t));
            assert forall|q: int| 0 <= q < edges@.len() implies self.graph().valid(
                (#[trigger] edges@[q]).1,
            ) by {
                assert(s.g.valid(edges@[q].1));
            }
            i += 1;
        }
    }

    /// Merges node `s_j` into `s_i`: see [`Self::merge_with_cause`].
    pub(crate) fn merge(&mut self, s_i: HNode, s_j: HNode) -> (r: bool)
        requires
            old(self).wf(),
            old(self).graph().valid(s_i),
            old(self).graph().valid(s_j),
        ensures
            final(self).wf(),
            final(self).config() == old(self).config(),
            (final(self).state(), r) == merged(
                old(self).config(),
                old(self).state(),
                s_i,
                s_j,
                DepSet::empty(),
            ),
    {
        self.merge_with_cause(s_i, s_j, DepSet::empty())
    }

    /// Merges node `s_j` into `s_i`: its labels, edges and constraints, with
    /// `cause_deps` added to what the survivor's labels and edges depend on.
    /// `true` if the two must not be merged, which is a clash.
    fn merge_with_cause(&mut self, s_i: HNode, s_j: HNode, cause_deps: DepSet) -> (r: bool)
        requires
            old(self).wf(),
            old(self).graph().valid(s_i),
            old(self).graph().valid(s_j),
        ensures
            final(self).wf(),
            final(self).config() == old(self).config(),
            (final(self).state(), r) == merged(
                old(self).config(),
                old(self).state(),
                s_i,
                s_j,
                cause_deps,
            ),
    {
        let ghost s0 = self.state();
        let ghost k = self.config();
        let cause = if self.nn_taint_disabled {
            DepSet::empty()
        } else {
            cause_deps
        };
        let i = self.resolve(s_i);
        let j = self.resolve(s_j);
        if i == j {
            return false;
        }
        if self.are_neq(i, j) {
            self.clash_deps = DepSet::all();
            return true;
        }
        proof {
            lemma_linked_wf(s0.g, i, j);
            lemma_work_grows(s0.g, relinked(s0.g, i, j), s0.work);
        }
        self.representative.link(i, j);
        assert(self.graph() == relinked(s0.g, i, j));
        if cause != DepSet::empty() {
            self.widen_birth(i, cause);
        }
        let ghost s1 = self.state();
        assert(s1.g.valid(i) && s1.g.valid(j));
        self.copy_labels(i, j, cause);
        let ghost s2 = self.state();
        proof {
            lemma_labels_copied(s1, i, s1.g.at(j).labels, s1.g.at(j).label_deps, cause, 0);
            assert(s2.g.at(j) == s1.g.at(j));
        }
        self.copy_edges(i, j);
        let ghost s3 = self.state();
        proof {
            assert(s2.g.node_wf(s2.g.nodes[j.at()], j.at()));
            lemma_edges_copied(s2, i, s2.g.at(j).edges, 0);
        }
        self.merge_constraints(i, j);
        assert(self.state() == joined_nodes(s0, i, j, cause));
        false
    }

    /// Takes the constraints and taints of node `j` over to node `i`.
    fn merge_constraints(&mut self, i: HNode, j: HNode)
        requires
            old(self).wf(),
            old(self).graph().valid(i),
            old(self).graph().valid(j),
            i != j,
        ensures
            final(self).wf(),
            final(self).config() == old(self).config(),
            final(self).state() == (State {
                g: old(self).graph().with(
                    i,
                    constraints_merged(old(self).graph().at(i), old(self).graph().at(j)),
                ),
                ..old(self).state()
            }),
    {
        let ghost s0 = self.state();
        let ghost before = self.nodes@;
        let ghost vi = s0.g.at(i);
        let ghost vj = s0.g.at(j);
        let ghost v = constraints_merged(vi, vj);
        proof {
            assert(vi == before[i.at()]@);
            assert(vj == before[j.at()]@);
            assert(s0.g.node_wf(s0.g.nodes[i.at()], i.at()));
            lemma_with(s0.g, i, v);
            lemma_work_grows(s0.g, s0.g.with(i, v), s0.work);
        }
        let most = copy_vec(&self.nodes[j.index()].at_most);
        let least = copy_vec(&self.nodes[j.index()].at_least_done);
        let most_dep = self.nodes[j.index()].at_most_dep;
        let tainted = self.nodes[j.index()].nn_tainted;
        let birth = self.nodes[i.index()].birth_deps.union(self.nodes[j.index()].birth_deps);
        let all_most = merge_cards(&self.nodes[i.index()].at_most, &most);
        let all_least = merge_cards(&self.nodes[i.index()].at_least_done, &least);
        let ni_dep = self.nodes[i.index()].at_most_dep;
        self.nodes[i.index()].at_most = all_most;
        self.nodes[i.index()].at_least_done = all_least;
        if most.len() > 0 {
            self.nodes[i.index()].at_most_tainted = true;
            self.nodes[i.index()].at_most_dep = ni_dep.union(most_dep);
        }
        if tainted {
            self.nodes[i.index()].nn_tainted = true;
            self.nodes[i.index()].birth_deps = birth;
        }
        proof {
            lemma_views_update(before, self.nodes@, i.at());
            assert(self.nodes@[i.at()]@ =~= v);
        }
    }

    /// Node `n` just gained the nominal `c`: any other node that carries it
    /// is the same individual and is merged into `n`.
    pub(crate) fn apply_nn_rule(&mut self, n: HNode, c: ClassId) -> (r: FireOutcome)
        requires
            old(self).wf(),
            old(self).graph().valid(n),
        ensures
            final(self).wf(),
            final(self).config() == old(self).config(),
            (final(self).state(), r) == nominal_merged(
                old(self).config(),
                old(self).state(),
                n,
                c,
            ),
    {
        let ghost s0 = self.state();
        let ghost k = self.config();
        if !self.is_nominal(c) {
            return FireOutcome::NoChange;
        }
        let rn = self.resolve(n);
        let mut other: Option<HNode> = None;
        let mut i: usize = 0;
        while i < self.nodes.len() && other.is_none()
            invariant
                self.wf(),
                self.state() == s0,
                self.config() == k,
                i <= self.nodes@.len(),
                bearer_from(s0.g, rn, c, 0) == match other {
                    Some(m) => Some(m),
                    None => bearer_from(s0.g, rn, c, i as int),
                },
            decreases self.nodes@.len() - i,
        {
            let m = HNode(i as u32);
            assert(m.at() == i);
            assert(s0.g.nodes[i as int] == self.nodes@[i as int]@);
            assert(s0.g.node_wf(s0.g.nodes[i as int], i as int));
            if self.resolve(m) == m && m != rn && self.nodes[i].has(c) {
                other = Some(m);
            }
            i += 1;
        }
        match other {
            None => FireOutcome::NoChange,
            Some(m) => {
                proof {
                    lemma_bearer(s0.g, rn, c, 0);
                    assert(s0.g.at(rn) == self.nodes@[rn.at()]@);
                    assert(s0.g.at(m) == self.nodes@[m.at()]@);
                    assert(s0.g.node_wf(s0.g.nodes[rn.at()], rn.at()));
                    assert(s0.g.node_wf(s0.g.nodes[m.at()], m.at()));
                    assert(s0.g.at(n) == self.nodes@[n.at()]@);
                    assert(s0.g.node_wf(s0.g.nodes[n.at()], n.at()));
                }
                let both = self.nodes[rn.index()].deps_of(c).union(
                    self.nodes[m.index()].deps_of(c),
                );
                let cause = if rn == n {
                    both
                } else {
                    both.union(self.nodes[n.index()].deps_of(c)).union(
                        self.nodes[rn.index()].birth_deps,
                    )
                };
                let absorbed = self.nodes[m.index()].birth_deps;
                proof {
                    lemma_merged(k, s0, rn, m, cause);
                }
                if self.merge_with_cause(rn, m, cause) {
                    FireOutcome::Clash
                } else {
                    let ghost s1 = self.state();
                    let surv = self.resolve(rn);
                    let ghost before = self.nodes@;
                    let ghost v = nominal_marked(k, s1.g.at(surv), absorbed);
                    proof {
                        assert(s1.g.at(surv) == before[surv.at()]@);
                        assert(s1.g.node_wf(s1.g.nodes[surv.at()], surv.at()));
                        lemma_with(s1.g, surv, v);
                        lemma_work_grows(s1.g, s1.g.with(surv, v), s1.work);
                    }
                    self.nodes[surv.index()].nn_tainted = true;
                    if !self.nn_taint_disabled {
                        let birth = self.nodes[surv.index()].birth_deps.union(absorbed);
                        self.nodes[surv.index()].birth_deps = birth;
                    }
                    proof {
                        lemma_views_update(before, self.nodes@, surv.at());
                        assert(self.nodes@[surv.at()]@ =~= v);
                    }
                    FireOutcome::Changed
                }
            },
        }
    }
}

/// Whether `p` is among `v`.
fn pair_among(v: &Vec<(HNode, HNode)>, p: (HNode, HNode)) -> (r: bool)
    ensures
        r == v@.contains(p),
{
    let mut i: usize = 0;
    while i < v.len()
        invariant
            i <= v@.len(),
            forall|j: int| 0 <= j < i ==> v@[j] != p,
        decreases v@.len() - i,
    {
        if v[i].0 == p.0 && v[i].1 == p.1 {
            assert(v@[i as int] == p);
            return true;
        }
        i += 1;
    }
    false
}

/// Whether `e` is among `v`.
fn edge_among(v: &Vec<(Role, HNode)>, e: (Role, HNode)) -> (r: bool)
    ensures
        r == v@.contains(e),
{
    let mut i: usize = 0;
    while i < v.len()
        invariant
            i <= v@.len(),
            forall|j: int| 0 <= j < i ==> v@[j] != e,
        decreases v@.len() - i,
    {
        if v[i].0 == e.0 && v[i].1 == e.1 {
            assert(v@[i as int] == e);
            return true;
        }
        i += 1;
    }
    false
}

/// See [`cards_merged`].
fn merge_cards(a: &Vec<Card>, b: &Vec<Card>) -> (r: Vec<Card>)
    ensures
        r@ == cards_merged(a@, b@),
{
    let mut r = copy_vec(a);
    let mut i: usize = 0;
    assert(b@.take(0) =~= Seq::empty());
    while i < b.len()
        invariant
            i <= b@.len(),
            r@ == cards_merged(a@, b@.take(i as int)),
        decreases b@.len() - i,
    {
        assert(b@.take(i + 1).drop_last() =~= b@.take(i as int));
        if !card_among(&r, b[i]) {
            r.push(b[i]);
        }
        i += 1;
    }
    assert(b@.take(b@.len() as int) =~= b@);
    r
}

} // verus!
