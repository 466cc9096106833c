//! What the search asks of the graph.

use vstd::prelude::*;
use crate::clause::{role_matches, role_sat, Atom, HierarchyView, Var};
use crate::dep_set::DepSet;
use crate::engine::{lemma_graph_table, HyperEngine};
use crate::graph::{tick, Config, Graph, SearchStats, State};
use crate::ids::{ClassId, HNode, Role};
use crate::index::disjoint_in;
use crate::matching::{
    binding_valid, binding_views, lemma_var_node_valid, match_atoms, matches_of, resolve_var,
    var_node, Binding,
};
use crate::node::{card_among, label_subset, same_labels, subset_sorted, NodeView};

verus! {

/// Whether `c` names a single individual.
pub open spec fn nominal(k: Config, c: ClassId) -> bool {
    match k.nominals {
        Some((start, count)) => start <= c.0 && c.0 < if start + count > u32::MAX {
            u32::MAX as int
        } else {
            start + count
        },
        None => false,
    }
}

/// `a ≠ b` is recorded, for the nodes or for nodes merged into them.
pub open spec fn apart(g: Graph, a: HNode, b: HNode) -> bool {
    &&& g.rep(a) != g.rep(b)
    &&& exists|i: int| 0 <= i < g.neq.len() && apart_by(g, #[trigger] g.neq[i], a, b)
}

pub open spec fn apart_by(g: Graph, pair: (HNode, HNode), a: HNode, b: HNode) -> bool {
    ||| g.rep(pair.0) == g.rep(a) && g.rep(pair.1) == g.rep(b)
    ||| g.rep(pair.0) == g.rep(b) && g.rep(pair.1) == g.rep(a)
}

/// The two nodes carry a pair of disjoint classes.
pub open spec fn labels_clash(k: Config, g: Graph, a: HNode, b: HNode) -> bool {
    exists|ca: ClassId, cb: ClassId|
        #![trigger g.at(g.rep(a)).has(ca), g.at(g.rep(b)).has(cb)]
        {
            &&& g.at(g.rep(a)).has(ca)
            &&& g.at(g.rep(b)).has(cb)
            &&& ca != cb
            &&& disjoint_in(k.disjoint, ca, cb)
        }
}

/// Merging the two nodes would clash.
pub open spec fn unmergeable(k: Config, g: Graph, a: HNode, b: HNode) -> bool {
    apart(g, a, b) || labels_clash(k, g, a, b)
}

/// Node `n` carries the class, if one is asked for.
pub open spec fn qualifies(n: NodeView, qual: Option<ClassId>) -> bool {
    qual matches Some(q) ==> n.has(q)
}

/// The different nodes, by representative and in the order of the edges,
/// that `role` leads to along `edges` and that carry the class, if any.
pub open spec fn role_succ(
    g: Graph,
    h: Option<HierarchyView>,
    edges: Seq<(Role, HNode)>,
    role: Role,
    qual: Option<ClassId>,
) -> Seq<HNode>
    decreases edges.len(),
{
    if edges.len() == 0 {
        Seq::empty()
    } else {
        let seen = role_succ(g, h, edges.drop_last(), role, qual);
        let (er, t) = edges.last();
        if role_sat(er, role, h) && qualifies(g.at(g.rep(t)), qual) && !seen.contains(g.rep(t)) {
            seen.push(g.rep(t))
        } else {
            seen
        }
    }
}

/// The successors of node `n` that count for a number restriction.
pub open spec fn successors(k: Config, g: Graph, n: HNode, role: Role, qual: Option<ClassId>) -> Seq<
    HNode,
> {
    role_succ(g, k.roles, g.at(n).edges, role, qual)
}

/// Pairwise unmergeable nodes, picked greedily in order.
pub open spec fn clique(k: Config, g: Graph, succs: Seq<HNode>) -> Seq<HNode>
    decreases succs.len(),
{
    if succs.len() == 0 {
        Seq::empty()
    } else {
        let c = clique(k, g, succs.drop_last());
        if forall|i: int| 0 <= i < c.len() ==> unmergeable(k, g, #[trigger] c[i], succs.last()) {
            c.push(succs.last())
        } else {
            c
        }
    }
}

/// The union of `acc` and all of `ds`.
pub open spec fn join_all(acc: DepSet, ds: Seq<DepSet>) -> DepSet
    decreases ds.len(),
{
    if ds.len() == 0 {
        acc
    } else {
        join_all(acc, ds.drop_last()).joined(ds.last())
    }
}

/// The union of `acc` and all that the nodes depend on.
pub open spec fn join_nodes(g: Graph, acc: DepSet, ns: Seq<HNode>) -> DepSet
    decreases ns.len(),
{
    if ns.len() == 0 {
        acc
    } else {
        let n = g.at(g.rep(ns.last()));
        join_all(join_nodes(g, acc, ns.drop_last()).joined(n.birth_deps), n.label_deps)
    }
}

/// Some successor was not generated by `p` itself.
pub open spec fn foreign(g: Graph, p: HNode, succs: Seq<HNode>) -> bool {
    exists|i: int| 0 <= i < succs.len() && g.at(#[trigger] succs[i]).parent != Some(p)
}

/// Some pair of successors is kept apart by `≠` alone.
pub open spec fn apart_only(k: Config, g: Graph, succs: Seq<HNode>) -> bool {
    exists|i: int, j: int|
        0 <= i < j < succs.len() && apart(g, #[trigger] succs[i], #[trigger] succs[j])
            && !labels_clash(k, g, succs[i], succs[j])
}

/// The dependency set of a violated `≤n` that no merge can repair. It is
/// narrowed only where the narrower set covers all that the clash rests on:
/// the constraint was derived at the node, the successors were generated
/// there, and their labels tell them apart.
pub open spec fn card_deps(k: Config, g: Graph, parent: HNode, succs: Seq<HNode>) -> DepSet {
    let p = g.rep(parent);
    if !k.precise_card_deps || g.at(p).at_most_tainted || foreign(g, p, succs) || apart_only(
        k,
        g,
        succs,
    ) {
        DepSet::all()
    } else {
        join_nodes(g, g.at(p).at_most_dep, seq![p] + succs)
    }
}

/// The first node from `i` on, with the first of its `≤n` constraints from
/// `j` on, that has too many successors; with these and the bound.
pub open spec fn open_at_most_from(k: Config, g: Graph, i: int, j: int) -> Option<
    (HNode, Seq<HNode>, u32),
>
    decreases g.nodes.len() - i, g.nodes[i].at_most.len() - j,
{
    if i < 0 || j < 0 || i >= g.nodes.len() {
        None
    } else if g.root[i].at() != i || j >= g.nodes[i].at_most.len() {
        open_at_most_from(k, g, i + 1, 0)
    } else {
        let (role, qual, n) = g.nodes[i].at_most[j];
        let s = successors(k, g, HNode(i as u32), role, qual);
        if s.len() > n {
            Some((HNode(i as u32), s, n))
        } else {
            open_at_most_from(k, g, i, j + 1)
        }
    }
}

/// Some successor along an edge that satisfies `role` carries `cls`.
pub open spec fn witnessed(k: Config, g: Graph, src: HNode, role: Role, cls: ClassId) -> bool {
    exists|i: int|
        0 <= i < g.at(src).edges.len() && role_sat((#[trigger] g.at(src).edges[i]).0, role, k.roles)
            && g.at(g.at(src).edges[i].1).has(cls)
}

/// The head atom holds already, or is taken care of.
pub open spec fn head_holds(k: Config, g: Graph, head: Atom, x: HNode, b: Seq<(Var, HNode)>) -> bool {
    match head {
        Atom::Class(c, v) => var_node(v, x, b) matches Some(t) && g.at(t).has(c),
        Atom::Exists(role, cls, v) => var_node(v, x, b) matches Some(src) && witnessed(
            k,
            g,
            src,
            role,
            cls,
        ),
        Atom::AtMost(role, qual, n, v) => var_node(v, x, b) matches Some(src) && (g.at(
            src,
        ).at_most.contains((role, qual, n)) || successors(k, g, src, role, qual).len() <= n),
        _ => false,
    }
}

pub open spec fn some_head_holds(
    k: Config,
    g: Graph,
    head: Seq<Atom>,
    x: HNode,
    b: Seq<(Var, HNode)>,
) -> bool {
    exists|i: int| 0 <= i < head.len() && head_holds(k, g, #[trigger] head[i], x, b)
}

/// The union of `acc` and the birth dependencies of the bound nodes.
pub open spec fn bound_deps(g: Graph, acc: DepSet, b: Seq<(Var, HNode)>) -> DepSet
    decreases b.len(),
{
    if b.len() == 0 {
        acc
    } else {
        bound_deps(g, acc, b.drop_last()).joined(g.at(b.last().1).birth_deps)
    }
}

/// The union of `acc` and the dependencies of the body's class atoms.
pub open spec fn atom_deps(
    g: Graph,
    acc: DepSet,
    body: Seq<Atom>,
    x: HNode,
    b: Seq<(Var, HNode)>,
) -> DepSet
    decreases body.len(),
{
    if body.len() == 0 {
        acc
    } else {
        let d = atom_deps(g, acc, body.drop_last(), x, b);
        match body.last() {
            Atom::Class(c, v) => match var_node(v, x, b) {
                Some(n) => d.joined(g.at(n).deps_of(c)),
                None => d,
            },
            _ => d,
        }
    }
}

/// What a match of the body depends on: that the nodes exist with their
/// edges, and that the labels hold.
pub open spec fn body_deps(g: Graph, body: Seq<Atom>, x: HNode, b: Seq<(Var, HNode)>) -> DepSet {
    atom_deps(g, bound_deps(g, g.at(x).birth_deps, b), body, x, b)
}

/// One comparison made by the blocking check.
pub open spec fn compared(st: SearchStats) -> SearchStats {
    SearchStats { block_compares: tick(st.block_compares), ..st }
}

/// A blocker was found.
pub open spec fn fired(st: SearchStats) -> SearchStats {
    SearchStats { blocks_fired: tick(st.blocks_fired), ..st }
}

/// Looks for a node from `i` on that was created before `n` and carries all
/// its labels.
pub open spec fn blocker_from(g: Graph, n: HNode, i: int, st: SearchStats) -> (SearchStats, bool)
    decreases g.nodes.len() - i,
{
    if i < 0 || i >= g.nodes.len() {
        (st, false)
    } else if g.nodes[i].order >= g.at(n).order {
        blocker_from(g, n, i + 1, st)
    } else if label_subset(g.at(n).labels, g.nodes[i].labels) {
        (fired(compared(st)), true)
    } else {
        blocker_from(g, n, i + 1, compared(st))
    }
}

/// `m` carries the same labels as `n`, and its parent `mp` the same as the
/// parent `np`. Labels are kept in order, so the same labels are the same
/// list.
pub open spec fn pair_blocks(g: Graph, n: HNode, np: HNode, m: HNode, mp: HNode) -> bool {
    g.at(n).labels == g.at(m).labels && g.at(np).labels == g.at(mp).labels
}

/// Looks among `cands`, from `i` on, for a node that was created before `n`
/// and that blocks it together with its parent.
pub open spec fn pair_blocker_from(
    g: Graph,
    n: HNode,
    np: HNode,
    cands: Seq<HNode>,
    i: int,
    st: SearchStats,
) -> (SearchStats, bool)
    decreases cands.len() - i,
{
    if i < 0 || i >= cands.len() {
        (st, false)
    } else if g.at(cands[i]).order >= g.at(n).order {
        pair_blocker_from(g, n, np, cands, i + 1, st)
    } else {
        match g.at(cands[i]).parent {
            None => pair_blocker_from(g, n, np, cands, i + 1, st),
            Some(mp) => if pair_blocks(g, n, np, cands[i], mp) {
                (fired(compared(st)), true)
            } else {
                pair_blocker_from(g, n, np, cands, i + 1, compared(st))
            },
        }
    }
}

/// The counters after the blocking check was called on `n`: a call on a node
/// that has a parent counts as eligible.
pub open spec fn called(g: Graph, n: HNode, st: SearchStats) -> SearchStats {
    SearchStats {
        is_blocked_calls: tick(st.is_blocked_calls),
        block_eligible: if g.at(n).parent is Some {
            tick(st.block_eligible)
        } else {
            st.block_eligible
        },
        ..st
    }
}

/// The blocking check, with its counters.
pub open spec fn block_check(k: Config, g: Graph, n: HNode, st: SearchStats) -> (SearchStats, bool) {
    let st1 = called(g, n, st);
    if k.double_blocking {
        match g.at(n).parent {
            None => (st1, false),
            Some(np) => pair_blocker_from(g, n, np, g.bucket(g.at(n).parent_role->0), 0, st1),
        }
    } else {
        blocker_from(g, n, 0, st1)
    }
}

/// The state after the blocking check, and whether `n` is blocked.
pub open spec fn check_blocked(k: Config, s: State, n: HNode) -> (State, bool) {
    let (st, b) = block_check(k, s.g, n, s.stats);
    (State { stats: st, ..s }, b)
}

/// Node `n` is blocked.
pub open spec fn blocked(k: Config, g: Graph, n: HNode) -> bool {
    block_check(k, g, n, SearchStats::zero()).1
}

/// The nominals are the classes of the range, up to the largest id but one.
pub proof fn lemma_nominal_range(k: Config, c: ClassId)
    ensures
        k.nominals is None ==> !nominal(k, c),
        k.nominals matches Some((start, count)) ==> (nominal(k, c) <==> start <= c.0 < start + count
            && c.0 < u32::MAX),
{
}

proof fn lemma_blocker_from(g: Graph, n: HNode, i: int, st: SearchStats)
    requires
        0 <= i,
    ensures
        blocker_from(g, n, i, st).1 <==> exists|j: int|
            i <= j < g.nodes.len() && (#[trigger] g.nodes[j]).order < g.at(n).order && label_subset(
                g.at(n).labels,
                g.nodes[j].labels,
            ),
    decreases g.nodes.len() - i,
{
    if i < g.nodes.len() {
        lemma_blocker_from(g, n, i + 1, st);
        lemma_blocker_from(g, n, i + 1, compared(st));
    }
}

/// Without pairwise blocking a node is blocked exactly if a node created
/// before it carries all its labels.
pub proof fn lemma_blocked_iff(k: Config, g: Graph, n: HNode, st: SearchStats)
    requires
        g.wf(),
        !k.double_blocking,
    ensures
        block_check(k, g, n, st).1 <==> exists|m: HNode| #[trigger]
            g.valid(m) && g.at(m).order < g.at(n).order && label_subset(
                g.at(n).labels,
                g.at(m).labels,
            ),
{
    let st1 = called(g, n, st);
    lemma_blocker_from(g, n, 0, st1);
    if block_check(k, g, n, st).1 {
        let j = choose|j: int|
            0 <= j < g.nodes.len() && (#[trigger] g.nodes[j]).order < g.at(n).order && label_subset(
                g.at(n).labels,
                g.nodes[j].labels,
            );
        assert(g.valid(HNode(j as u32)));
    }
}

proof fn lemma_pair_blocker_from(
    g: Graph,
    n: HNode,
    np: HNode,
    cands: Seq<HNode>,
    i: int,
    st: SearchStats,
)
    requires
        0 <= i,
    ensures
        pair_blocker_from(g, n, np, cands, i, st).1 <==> exists|j: int|
            i <= j < cands.len() && g.at(#[trigger] cands[j]).order < g.at(n).order && (g.at(
                cands[j],
            ).parent matches Some(mp) && pair_blocks(g, n, np, cands[j], mp)),
    decreases cands.len() - i,
{
    if i < cands.len() {
        lemma_pair_blocker_from(g, n, np, cands, i + 1, st);
        lemma_pair_blocker_from(g, n, np, cands, i + 1, compared(st));
    }
}

/// With pairwise blocking a node is blocked exactly if a node filed under
/// the same role was created before it, carries the same labels, and has a
/// parent that carries the same labels as its parent. A node without a
/// parent is not blocked.
pub proof fn lemma_pair_blocked_iff(k: Config, g: Graph, n: HNode, st: SearchStats)
    requires
        k.double_blocking,
    ensures
        block_check(k, g, n, st).1 <==> (g.at(n).parent matches Some(np) && exists|j: int|
            0 <= j < g.bucket(g.at(n).parent_role->0).len() && g.at(
                #[trigger] g.bucket(g.at(n).parent_role->0)[j],
            ).order < g.at(n).order && (g.at(g.bucket(g.at(n).parent_role->0)[j]).parent matches Some(
                mp,
            ) && pair_blocks(g, n, np, g.bucket(g.at(n).parent_role->0)[j], mp))),
{
    let st1 = called(g, n, st);
    if let Some(np) = g.at(n).parent {
        lemma_pair_blocker_from(g, n, np, g.bucket(g.at(n).parent_role->0), 0, st1);
    }
}

/// Whether a node is blocked does not depend on the counters.
pub proof fn lemma_block_check_stats(k: Config, g: Graph, n: HNode, a: SearchStats, b: SearchStats)
    requires
        g.wf(),
    ensures
        block_check(k, g, n, a).1 == block_check(k, g, n, b).1,
{
    if k.double_blocking {
        lemma_pair_blocked_iff(k, g, n, a);
        lemma_pair_blocked_iff(k, g, n, b);
    } else {
        lemma_blocked_iff(k, g, n, a);
        lemma_blocked_iff(k, g, n, b);
    }
}

proof fn lemma_clique_grows(k: Config, g: Graph, succs: Seq<HNode>, i: int)
    requires
        0 <= i <= succs.len(),
    ensures
        clique(k, g, succs.take(i)).len() <= clique(k, g, succs).len(),
    decreases succs.len() - i,
{
    if i < succs.len() {
        lemma_clique_grows(k, g, succs, i + 1);
        assert(succs.take(i + 1).drop_last() =~= succs.take(i));
    } else {
        assert(succs.take(i) =~= succs);
    }
}

/// Successors are representatives of nodes of the graph.
pub proof fn lemma_role_succ_valid(
    g: Graph,
    h: Option<HierarchyView>,
    edges: Seq<(Role, HNode)>,
    role: Role,
    qual: Option<ClassId>,
)
    requires
        g.wf(),
        forall|j: int| 0 <= j < edges.len() ==> g.valid((#[trigger] edges[j]).1),
    ensures
        forall|i: int|
            0 <= i < role_succ(g, h, edges, role, qual).len() ==> {
                &&& g.valid(#[trigger] role_succ(g, h, edges, role, qual)[i])
                &&& g.rep(role_succ(g, h, edges, role, qual)[i]) == role_succ(
                    g,
                    h,
                    edges,
                    role,
                    qual,
                )[i]
            },
        role_succ(g, h, edges, role, qual).no_duplicates(),
        role_succ(g, h, edges, role, qual).len() <= edges.len(),
    decreases edges.len(),
{
    if edges.len() > 0 {
        lemma_role_succ_valid(g, h, edges.drop_last(), role, qual);
        assert(g.valid(edges[edges.len() - 1].1));
    }
}

impl<'c> HyperEngine<'c> {
    /// The canonical representative of `n`; `n` itself if it is not merged.
    pub(crate) fn resolve(&self, n: HNode) -> (r: HNode)
        requires
            self.wf(),
            self.graph().valid(n),
        ensures
            r == self.graph().rep(n),
            self.graph().valid(r),
            self.graph().rep(r) == r,
    {
        self.representative.find(n)
    }

    /// Whether class `c` names a single individual.
    pub(crate) fn is_nominal(&self, c: ClassId) -> (r: bool)
        ensures
            r == nominal(self.config(), c),
    {
        match self.nominals {
            Some((start, count)) => {
                let i = c.index();
                let end: u32 = if start > u32::MAX - count {
                    u32::MAX
                } else {
                    start + count
                };
                i >= start && i < end
            },
            None => false,
        }
    }

    /// Whether `a ≠ b` is recorded, resolved through the merges.
    pub(crate) fn are_neq(&self, a: HNode, b: HNode) -> (r: bool)
        requires
            self.wf(),
            self.graph().valid(a),
            self.graph().valid(b),
        ensures
            r == apart(self.graph(), a, b),
    {
        let ghost g = self.graph();
        let ra = self.resolve(a);
        let rb = self.resolve(b);
        if ra == rb {
            return false;
        }
        let mut i: usize = 0;
        while i < self.neq.len()
            invariant
                self.wf(),
                g == self.graph(),
                g.valid(a) && g.valid(b),
                ra == g.rep(a) && rb == g.rep(b),
                ra != rb,
                i <= self.neq@.len(),
                forall|j: int| 0 <= j < i ==> !apart_by(g, #[trigger] g.neq[j], a, b),
            decreases self.neq@.len() - i,
        {
            let (p, q) = self.neq[i];
            assert(g.valid(g.neq[i as int].0));
            let rp = self.resolve(p);
            let rq = self.resolve(q);
            if (rp == ra && rq == rb) || (rp == rb && rq == ra) {
                assert(apart_by(g, g.neq[i as int], a, b));
                return true;
            }
            i += 1;
        }
        false
    }

    /// Whether the two nodes carry a pair of disjoint classes.
    pub(crate) fn labels_disjoint(&self, a: HNode, b: HNode) -> (r: bool)
        requires
            self.wf(),
            self.graph().valid(a),
            self.graph().valid(b),
        ensures
            r == labels_clash(self.config(), self.graph(), a, b),
    {
        let ghost g = self.graph();
        let ghost k = self.config();
        if self.disjoint_pairs.is_empty() {
            return false;
        }
        let ra = self.resolve(a).index();
        let rb = self.resolve(b).index();
        let la = &self.nodes[ra].labels;
        let lb = &self.nodes[rb].labels;
        assert(g.at(g.rep(a)).labels == la@);
        assert(g.at(g.rep(b)).labels == lb@);
        let mut i: usize = 0;
        while i < la.len()
            invariant
                g == self.graph(),
                k == self.config(),
                g.at(g.rep(a)).labels == la@,
                g.at(g.rep(b)).labels == lb@,
                i <= la@.len(),
                forall|p: int, q: int|
                    0 <= p < i && 0 <= q < lb@.len() && la@[p] != lb@[q] ==> !#[trigger] disjoint_in(
                        k.disjoint,
                        la@[p],
                        lb@[q],
                    ),
            decreases la@.len() - i,
        {
            let ca = la[i];
            let mut j: usize = 0;
            while j < lb.len()
                invariant
                    g == self.graph(),
                    k == self.config(),
                    g.at(g.rep(a)).labels == la@,
                    g.at(g.rep(b)).labels == lb@,
                    i < la@.len(),
                    ca == la@[i as int],
                    j <= lb@.len(),
                    forall|q: int|
                        0 <= q < j && ca != lb@[q] ==> !#[trigger] disjoint_in(
                            k.disjoint,
                            ca,
                            lb@[q],
                        ),
                decreases lb@.len() - j,
            {
                let cb = lb[j];
                if ca != cb && self.disjoint_pairs.contains(ca, cb) {
                    assert(g.at(g.rep(a)).has(ca));
                    assert(g.at(g.rep(b)).has(cb));
                    return true;
                }
                j += 1;
            }
            i += 1;
        }
        false
    }

    /// Whether `a` and `b` can never be merged.
    pub(crate) fn must_be_distinct(&self, a: HNode, b: HNode) -> (r: bool)
        requires
            self.wf(),
            self.graph().valid(a),
            self.graph().valid(b),
        ensures
            r == unmergeable(self.config(), self.graph(), a, b),
    {
        self.are_neq(a, b) || self.labels_disjoint(a, b)
    }

    /// The different successors of `node` along `role`, by representative,
    /// that carry the qualifying class, if any.
    pub(crate) fn distinct_role_succ(&self, node: HNode, role: Role, qual: Option<ClassId>) -> (r:
        Vec<HNode>)
        requires
            self.wf(),
            self.graph().valid(node),
        ensures
            r@ == successors(self.config(), self.graph(), node, role, qual),
            forall|i: int| 0 <= i < r@.len() ==> self.graph().valid(#[trigger] r@[i]),
    {
        let ghost g = self.graph();
        let ghost k = self.config();
        let edges = &self.nodes[node.index()].edges;
        let ghost es = edges@;
        assert(g.at(node) == self.nodes@[node.at()]@);
        assert(g.node_wf(g.nodes[node.at()], node.at()));
        assert(es == g.at(node).edges);
        let mut seen: Vec<HNode> = Vec::new();
        let mut i: usize = 0;
        while i < edges.len()
            invariant
                self.wf(),
                g == self.graph(),
                k == self.config(),
                es == edges@,
                forall|j: int| 0 <= j < es.len() ==> g.valid((#[trigger] es[j]).1),
                i <= es.len(),
                seen@ == role_succ(g, k.roles, es.take(i as int), role, qual),
            decreases es.len() - i,
        {
            let (er, t) = edges[i];
            proof {
                assert(es.take(i + 1).drop_last() =~= es.take(i as int));
                assert(g.valid(es[i as int].1));
            }
            if role_matches(er, role, self.sub_roles.as_ref()) {
                let rt = self.resolve(t);
                assert(g.at(rt) == self.nodes@[rt.at()]@);
                assert(g.node_wf(g.nodes[rt.at()], rt.at()));
                let ok = match qual {
                    Some(q) => self.nodes[rt.index()].has(q),
                    None => true,
                };
                if ok && !node_among(&seen, rt) {
                    seen.push(rt);
                }
            }
            i += 1;
        }
        proof {
            assert(es.take(es.len() as int) =~= es);
            lemma_role_succ_valid(g, k.roles, es, role, qual);
        }
        seen
    }

    /// Whether more than `n` of `succs`, picked greedily, are pairwise
    /// unmergeable.
    pub(crate) fn forced_distinct_exceeds(&self, succs: &Vec<HNode>, n: u32) -> (r: bool)
        requires
            self.wf(),
            forall|i: int| 0 <= i < succs@.len() ==> self.graph().valid(#[trigger] succs@[i]),
        ensures
            r == (clique(self.config(), self.graph(), succs@).len() > n),
    {
        let ghost g = self.graph();
        let ghost k = self.config();
        let mut picked: Vec<HNode> = Vec::new();
        let mut i: usize = 0;
        while i < succs.len()
            invariant
                self.wf(),
                g == self.graph(),
                k == self.config(),
                forall|j: int| 0 <= j < succs@.len() ==> g.valid(#[trigger] succs@[j]),
                forall|j: int| 0 <= j < picked@.len() ==> g.valid(#[trigger] picked@[j]),
                i <= succs@.len(),
                picked@ == clique(k, g, succs@.take(i as int)),
                picked@.len() <= n,
            decreases succs@.len() - i,
        {
            let s = succs[i];
            proof {
                assert(succs@.take(i + 1).drop_last() =~= succs@.take(i as int));
                lemma_clique_grows(k, g, succs@, i + 1);
            }
            let mut all = true;
            let mut j: usize = 0;
            while j < picked.len()
                invariant
                    self.wf(),
                    g == self.graph(),
                    k == self.config(),
                    g.valid(s),
                    forall|j: int| 0 <= j < picked@.len() ==> g.valid(#[trigger] picked@[j]),
                    j <= picked@.len(),
                    all <==> forall|q: int| 0 <= q < j ==> unmergeable(k, g, #[trigger] picked@[q], s),
                decreases picked@.len() - j,
            {
                if !self.must_be_distinct(picked[j], s) {
                    all = false;
                }
                j += 1;
            }
            if all {
                picked.push(s);
                if picked.len() > n as usize {
                    return true;
                }
            }
            i += 1;
        }
        assert(succs@.take(succs@.len() as int) =~= succs@);
        false
    }

    /// See [`card_deps`].
    pub(crate) fn card_clash_deps(&self, parent: HNode, succs: &Vec<HNode>) -> (r: DepSet)
        requires
            self.wf(),
            self.graph().valid(parent),
            forall|i: int| 0 <= i < succs@.len() ==> self.graph().valid(#[trigger] succs@[i]),
        ensures
            r == card_deps(self.config(), self.graph(), parent, succs@),
    {
        if !self.precise_card_deps {
            return DepSet::all();
        }
        let ghost g = self.graph();
        let ghost k = self.config();
        let p = self.resolve(parent);
        assert(g.at(p) == self.nodes@[p.at()]@);
        if self.nodes[p.index()].at_most_tainted {
            return DepSet::all();
        }
        let mut i: usize = 0;
        while i < succs.len()
            invariant
                self.wf(),
                g == self.graph(),
                k == self.config(),
                k.precise_card_deps,
                p == g.rep(parent),
                forall|j: int| 0 <= j < succs@.len() ==> g.valid(#[trigger] succs@[j]),
                i <= succs@.len(),
                forall|j: int| 0 <= j < i ==> g.at(#[trigger] succs@[j]).parent == Some(p),
            decreases succs@.len() - i,
        {
            let s = succs[i];
            assert(g.at(s) == self.nodes@[s.at()]@);
            let own = match self.nodes[s.index()].parent {
                Some(q) => q == p,
                None => false,
            };
            if !own {
                assert(g.at(succs@[i as int]).parent != Some(p));
                return DepSet::all();
            }
            i += 1;
        }
        let mut a: usize = 0;
        while a < succs.len()
            invariant
                self.wf(),
                g == self.graph(),
                k == self.config(),
                k.precise_card_deps,
                forall|j: int| 0 <= j < succs@.len() ==> g.valid(#[trigger] succs@[j]),
                a <= succs@.len(),
                forall|i: int, j: int|
                    0 <= i < a && i < j < succs@.len() && apart(
                        g,
                        #[trigger] succs@[i],
                        #[trigger] succs@[j],
                    ) ==> labels_clash(k, g, succs@[i], succs@[j]),
            decreases succs@.len() - a,
        {
            let mut b: usize = a + 1;
            while b < succs.len()
                invariant
                    self.wf(),
                    g == self.graph(),
                    k == self.config(),
                    k.precise_card_deps,
                    forall|j: int| 0 <= j < succs@.len() ==> g.valid(#[trigger] succs@[j]),
                    a < b <= succs@.len(),
                    forall|j: int|
                        a < j < b && apart(g, succs@[a as int], #[trigger] succs@[j]) ==> labels_clash(
                            k,
                            g,
                            succs@[a as int],
                            succs@[j],
                        ),
                decreases succs@.len() - b,
            {
                if self.are_neq(succs[a], succs[b]) && !self.labels_disjoint(succs[a], succs[b]) {
                    assert(apart(g, succs@[a as int], succs@[b as int]));
                    return DepSet::all();
                }
                b += 1;
            }
            a += 1;
        }
        let ghost d0 = self.nodes[p.at()].at_most_dep;
        let ghost all = seq![p] + succs@;
        let mut over = self.union_node_deps(self.nodes[p.index()].at_most_dep, p);
        assert(all.take(1).drop_last() =~= Seq::empty());
        assert(join_nodes(g, d0, Seq::empty()) == d0);
        let mut m: usize = 0;
        while m < succs.len()
            invariant
                self.wf(),
                g == self.graph(),
                all == seq![p] + succs@,
                forall|j: int| 0 <= j < succs@.len() ==> g.valid(#[trigger] succs@[j]),
                m <= succs@.len(),
                over == join_nodes(g, d0, all.take(m + 1)),
            decreases succs@.len() - m,
        {
            over = self.union_node_deps(over, succs[m]);
            assert(all.take(m + 2).drop_last() =~= all.take(m + 1));
            m += 1;
        }
        assert(all.take(m + 1) =~= all);
        over
    }

    /// The union of `acc` and all that `node` depends on.
    fn union_node_deps(&self, acc: DepSet, node: HNode) -> (r: DepSet)
        requires
            self.wf(),
            self.graph().valid(node),
        ensures
            r == ({
                let n = self.graph().at(self.graph().rep(node));
                join_all(acc.joined(n.birth_deps), n.label_deps)
            }),
    {
        let n = self.resolve(node);
        let hn = &self.nodes[n.index()];
        assert(self.graph().at(n) == hn@);
        let mut over = acc.union(hn.birth_deps);
        let ghost d1 = over;
        let ds = &hn.label_deps;
        let mut l: usize = 0;
        assert(ds@.take(0) =~= Seq::empty());
        while l < ds.len()
            invariant
                l <= ds@.len(),
                over == join_all(d1, ds@.take(l as int)),
            decreases ds@.len() - l,
        {
            assert(ds@.take(l + 1).drop_last() =~= ds@.take(l as int));
            over = over.union(ds[l]);
            l += 1;
        }
        assert(ds@.take(ds@.len() as int) =~= ds@);
        over
    }

    /// The first canonical node with a violated `≤n` constraint, with the
    /// successors that count for it and the bound.
    pub(crate) fn find_open_at_most(&self) -> (r: Option<(HNode, Vec<HNode>, u32)>)
        requires
            self.wf(),
        ensures
            match r {
                Some((n, s, b)) => {
                    &&& open_at_most_from(self.config(), self.graph(), 0, 0) == Some((n, s@, b))
                    &&& self.graph().valid(n)
                    &&& forall|i: int| 0 <= i < s@.len() ==> self.graph().valid(#[trigger] s@[i])
                },
                None => open_at_most_from(self.config(), self.graph(), 0, 0) is None,
            },
    {
        let ghost g = self.graph();
        let ghost k = self.config();
        let mut idx: usize = 0;
        while idx < self.nodes.len()
            invariant
                self.wf(),
                g == self.graph(),
                k == self.config(),
                idx <= self.nodes@.len(),
                open_at_most_from(k, g, 0, 0) == open_at_most_from(k, g, idx as int, 0),
            decreases self.nodes@.len() - idx,
        {
            let node = HNode(idx as u32);
            assert(node.at() == idx);
            if self.resolve(node) == node {
                let cards = &self.nodes[idx].at_most;
                assert(g.nodes[idx as int] == self.nodes@[idx as int]@);
                let mut j: usize = 0;
                while j < cards.len()
                    invariant
                        self.wf(),
                        g == self.graph(),
                        k == self.config(),
                        idx < self.nodes@.len(),
                        node == HNode(idx as u32),
                        node.at() == idx,
                        g.root[idx as int] == node,
                        cards@ == g.nodes[idx as int].at_most,
                        j <= cards@.len(),
                        open_at_most_from(k, g, 0, 0) == open_at_most_from(
                            k,
                            g,
                            idx as int,
                            j as int,
                        ),
                    decreases cards@.len() - j,
                {
                    let (role, qual, n) = cards[j];
                    let succs = self.distinct_role_succ(node, role, qual);
                    if succs.len() > n as usize {
                        return Some((node, succs, n));
                    }
                    j += 1;
                }
            }
            idx += 1;
        }
        None
    }

    /// See [`head_holds`].
    fn head_satisfied(&self, head: Atom, xnode: HNode, binding: &Binding) -> (r: bool)
        requires
            self.wf(),
            self.graph().valid(xnode),
            binding_valid(binding@, self.graph().nodes.len() as int),
        ensures
            r == head_holds(self.config(), self.graph(), head, xnode, binding@),
    {
        let ghost g = self.graph();
        let ghost k = self.config();
        match head {
            Atom::Class(c, v) => {
                proof {
                    lemma_var_node_valid(v, xnode, binding@, g.nodes.len() as int);
                }
                match resolve_var(v, xnode, binding) {
                    Some(t) => {
                        assert(g.at(t) == self.nodes@[t.at()]@);
                        assert(g.node_wf(g.nodes[t.at()], t.at()));
                        self.nodes[t.index()].has(c)
                    },
                    None => false,
                }
            },
            Atom::Exists(role, cls, v) => {
                proof {
                    lemma_var_node_valid(v, xnode, binding@, g.nodes.len() as int);
                }
                match resolve_var(v, xnode, binding) {
                    Some(src) => self.has_witness(src, role, cls),
                    None => false,
                }
            },
            Atom::AtMost(role, qual, n, v) => {
                proof {
                    lemma_var_node_valid(v, xnode, binding@, g.nodes.len() as int);
                }
                match resolve_var(v, xnode, binding) {
                    Some(src) => {
                        assert(g.at(src) == self.nodes@[src.at()]@);
                        card_among(&self.nodes[src.index()].at_most, (role, qual, n))
                            || self.distinct_role_succ(src, role, qual).len() <= n as usize
                    },
                    None => false,
                }
            },
            Atom::AtLeast(..) | Atom::Equal(..) | Atom::Role(..) => false,
        }
    }

    /// Whether a successor of `src` along `role` carries `cls`.
    pub(crate) fn has_witness(&self, src: HNode, role: Role, cls: ClassId) -> (r: bool)
        requires
            self.wf(),
            self.graph().valid(src),
        ensures
            r == witnessed(self.config(), self.graph(), src, role, cls),
    {
        let ghost g = self.graph();
        let ghost k = self.config();
        let edges = &self.nodes[src.index()].edges;
        assert(g.at(src) == self.nodes@[src.at()]@);
        assert(g.node_wf(g.nodes[src.at()], src.at()));
        let mut i: usize = 0;
        while i < edges.len()
            invariant
                self.wf(),
                g == self.graph(),
                k == self.config(),
                edges@ == g.at(src).edges,
                forall|j: int| 0 <= j < edges@.len() ==> g.valid((#[trigger] edges@[j]).1),
                i <= edges@.len(),
                forall|j: int|
                    0 <= j < i ==> !(role_sat((#[trigger] edges@[j]).0, role, k.roles) && g.at(
                        edges@[j].1,
                    ).has(cls)),
            decreases edges@.len() - i,
        {
            let (er, t) = edges[i];
            assert(g.valid(edges@[i as int].1));
            assert(g.at(t) == self.nodes@[t.at()]@);
            assert(g.node_wf(g.nodes[t.at()], t.at()));
            if role_matches(er, role, self.sub_roles.as_ref()) && self.nodes[t.index()].has(cls) {
                assert(role_sat(g.at(src).edges[i as int].0, role, k.roles));
                return true;
            }
            i += 1;
        }
        false
    }

    /// Whether some head atom of clause `ci` holds already.
    pub(crate) fn any_head_satisfied(&self, ci: usize, xnode: HNode, binding: &Binding) -> (r: bool)
        requires
            self.wf(),
            ci < self.config().clauses.len(),
            self.graph().valid(xnode),
            binding_valid(binding@, self.graph().nodes.len() as int),
        ensures
            r == some_head_holds(
                self.config(),
                self.graph(),
                self.config().clauses[ci as int].head,
                xnode,
                binding@,
            ),
    {
        let head = &self.clauses[ci].head;
        let ghost g = self.graph();
        let ghost k = self.config();
        assert(k.clauses[ci as int].head == head@);
        let mut i: usize = 0;
        while i < head.len()
            invariant
                self.wf(),
                g == self.graph(),
                k == self.config(),
                ci < k.clauses.len(),
                k.clauses[ci as int].head == head@,
                g.valid(xnode),
                binding_valid(binding@, g.nodes.len() as int),
                i <= head@.len(),
                forall|j: int|
                    0 <= j < i ==> !head_holds(k, g, #[trigger] head@[j], xnode, binding@),
            decreases head@.len() - i,
        {
            if self.head_satisfied(head[i], xnode, binding) {
                assert(head_holds(k, g, head@[i as int], xnode, binding@));
                return true;
            }
            i += 1;
        }
        false
    }

    /// See [`body_deps`].
    pub(crate) fn clause_body_deps(&self, ci: usize, xnode: HNode, binding: &Binding) -> (r: DepSet)
        requires
            self.wf(),
            ci < self.config().clauses.len(),
            self.graph().valid(xnode),
            binding_valid(binding@, self.graph().nodes.len() as int),
        ensures
            r == body_deps(
                self.graph(),
                self.config().clauses[ci as int].body,
                xnode,
                binding@,
            ),
    {
        let ghost g = self.graph();
        assert(g.at(xnode) == self.nodes@[xnode.at()]@);
        let mut deps = self.nodes[xnode.index()].birth_deps;
        let ghost d0 = deps;
        let mut i: usize = 0;
        assert(binding@.take(0) =~= Seq::empty());
        while i < binding.len()
            invariant
                self.wf(),
                g == self.graph(),
                binding_valid(binding@, g.nodes.len() as int),
                i <= binding@.len(),
                deps == bound_deps(g, d0, binding@.take(i as int)),
            decreases binding@.len() - i,
        {
            let (_, node) = binding[i];
            assert(binding@[i as int].1.at() < g.nodes.len());
            assert(g.at(node) == self.nodes@[node.at()]@);
            assert(binding@.take(i + 1).drop_last() =~= binding@.take(i as int));
            deps = deps.union(self.nodes[node.index()].birth_deps);
            i += 1;
        }
        assert(binding@.take(binding@.len() as int) =~= binding@);
        let ghost d1 = deps;
        let body = &self.clauses[ci].body;
        assert(self.config().clauses[ci as int].body == body@);
        let mut j: usize = 0;
        assert(body@.take(0) =~= Seq::empty());
        while j < body.len()
            invariant
                self.wf(),
                g == self.graph(),
                g.valid(xnode),
                binding_valid(binding@, g.nodes.len() as int),
                j <= body@.len(),
                deps == atom_deps(g, d1, body@.take(j as int), xnode, binding@),
            decreases body@.len() - j,
        {
            assert(body@.take(j + 1).drop_last() =~= body@.take(j as int));
            if let Atom::Class(c, v) = body[j] {
                proof {
                    lemma_var_node_valid(v, xnode, binding@, g.nodes.len() as int);
                }
                if let Some(node) = resolve_var(v, xnode, binding) {
                    assert(g.at(node) == self.nodes@[node.at()]@);
                    assert(g.node_wf(g.nodes[node.at()], node.at()));
                    deps = deps.union(self.nodes[node.index()].deps_of(c));
                }
            }
            j += 1;
        }
        assert(body@.take(body@.len() as int) =~= body@);
        deps
    }

    /// Matches the body of clause `ci` at `node`: all bindings under which it
    /// holds, or `None` if the shape of the body is not supported.
    pub(crate) fn match_body(&self, ci: usize, node: HNode) -> (r: Option<Vec<Binding>>)
        requires
            self.wf(),
            ci < self.config().clauses.len(),
            self.graph().valid(node),
        ensures
            match r {
                Some(out) => matches_of(
                    self.graph().nodes,
                    self.config().roles,
                    self.config().clauses[ci as int].body,
                    node,
                ) == Some(binding_views(out@)),
                None => matches_of(
                    self.graph().nodes,
                    self.config().roles,
                    self.config().clauses[ci as int].body,
                    node,
                ) is None,
            },
    {
        proof {
            lemma_graph_table(self.graph());
            assert(self.config().clauses[ci as int].body == self.clauses@[ci as int].body@);
        }
        match_atoms(&self.nodes, self.sub_roles.as_ref(), &self.clauses[ci].body, node)
    }

    /// The blocking check: see [`check_blocked`].
    pub(crate) fn is_blocked(&mut self, n: HNode) -> (r: bool)
        requires
            old(self).wf(),
            old(self).graph().valid(n),
        ensures
            final(self).wf(),
            final(self).config() == old(self).config(),
            (final(self).state(), r) == check_blocked(old(self).config(), old(self).state(), n),
    {
        let ghost g = self.graph();
        let ghost s0 = self.state();
        let ghost k = self.config();
        self.stats.is_blocked_calls = tick(self.stats.is_blocked_calls);
        let ln_order = self.nodes[n.index()].order;
        assert(g.at(n) == self.nodes@[n.at()]@);
        assert(g.node_wf(g.nodes[n.at()], n.at()));
        if self.nodes[n.index()].parent.is_some() {
            self.stats.block_eligible = tick(self.stats.block_eligible);
        }
        if self.double_blocking {
            let np = match self.nodes[n.index()].parent {
                None => {
                    return false;
                },
                Some(np) => np,
            };
            let cands: Vec<HNode> = match (&self.block_index, self.nodes[n.index()].parent_role) {
                (Some(ix), Some(nr)) => ix.get(nr),
                _ => Vec::new(),
            };
            assert(cands@ =~= g.bucket(g.at(n).parent_role->0));
            let ghost st1 = self.stats;
            let mut i: usize = 0;
            while i < cands.len()
                invariant
                    self.wf(),
                    self.graph() == g,
                    self.config() == k,
                    k == old(self).config(),
                    s0 == old(self).state(),
                    self.state() == (State { stats: self.stats, ..s0 }),
                    g.valid(n),
                    g.valid(np),
                    ln_order == g.at(n).order,
                    forall|j: int| 0 <= j < cands@.len() ==> g.valid(#[trigger] cands@[j]),
                    i <= cands@.len(),
                    pair_blocker_from(g, n, np, cands@, 0, st1) == pair_blocker_from(
                        g,
                        n,
                        np,
                        cands@,
                        i as int,
                        self.stats,
                    ),
                    check_blocked(k, s0, n) == ({
                        let (st, b) = pair_blocker_from(g, n, np, cands@, 0, st1);
                        (State { stats: st, ..s0 }, b)
                    }),
                decreases cands@.len() - i,
            {
                let m = cands[i];
                assert(g.valid(cands@[i as int]));
                assert(g.at(m) == self.nodes@[m.at()]@);
                assert(g.node_wf(g.nodes[m.at()], m.at()));
                if self.nodes[m.index()].order < ln_order {
                    if let Some(mp) = self.nodes[m.index()].parent {
                        self.stats.block_compares = tick(self.stats.block_compares);
                        assert(g.at(n) == self.nodes@[n.at()]@);
                        assert(g.node_wf(g.nodes[n.at()], n.at()));
                        assert(g.at(np) == self.nodes@[np.at()]@);
                        assert(g.node_wf(g.nodes[np.at()], np.at()));
                        assert(g.at(mp) == self.nodes@[mp.at()]@);
                        assert(g.node_wf(g.nodes[mp.at()], mp.at()));
                        if same_labels(
                            &self.nodes[n.index()].labels,
                            &self.nodes[m.index()].labels,
                        ) && same_labels(
                            &self.nodes[np.index()].labels,
                            &self.nodes[mp.index()].labels,
                        ) {
                            self.stats.blocks_fired = tick(self.stats.blocks_fired);
                            return true;
                        }
                    }
                }
                i += 1;
            }
            false
        } else {
            let ghost st1 = self.stats;
            let mut i: usize = 0;
            while i < self.nodes.len()
                invariant
                    self.wf(),
                    self.graph() == g,
                    self.config() == k,
                    k == old(self).config(),
                    s0 == old(self).state(),
                    self.state() == (State { stats: self.stats, ..s0 }),
                    g.valid(n),
                    ln_order == g.at(n).order,
                    i <= self.nodes@.len(),
                    blocker_from(g, n, 0, st1) == blocker_from(g, n, i as int, self.stats),
                    check_blocked(k, s0, n) == ({
                        let (st, b) = blocker_from(g, n, 0, st1);
                        (State { stats: st, ..s0 }, b)
                    }),
                decreases self.nodes@.len() - i,
            {
                assert(g.nodes[i as int] == self.nodes@[i as int]@);
                assert(g.node_wf(g.nodes[i as int], i as int));
                if self.nodes[i].order < ln_order {
                    self.stats.block_compares = tick(self.stats.block_compares);
                    assert(g.at(n) == self.nodes@[n.at()]@);
                    assert(g.node_wf(g.nodes[n.at()], n.at()));
                    if subset_sorted(&self.nodes[n.index()].labels, &self.nodes[i].labels) {
                        self.stats.blocks_fired = tick(self.stats.blocks_fired);
                        return true;
                    }
                }
                i += 1;
            }
            false
        }
    }
}

/// Whether `n` is among `v`.
pub(crate) fn node_among(v: &Vec<HNode>, n: HNode) -> (r: bool)
    ensures
        r == v@.contains(n),
{
    let mut i: usize = 0;
    while i < v.len()
        invariant
            i <= v@.len(),
            forall|j: int| 0 <= j < i ==> v@[j] != n,
        decreases v@.len() - i,
    {
        if v[i] == n {
            return true;
        }
        i += 1;
    }
    false
}

} // verus!
