//! A verdict of unsatisfiability is right: what the search refutes has no
//! model.

use vstd::prelude::*;
use crate::clause::horn_only;
use crate::dep_set::{bit, lemma_joined_has, lemma_minus_has, lemma_only_has, DepSet};
use crate::fixpoint::lemma_saturated;
use crate::graph::{Config, Graph, HyperResult, State};
use crate::ids::{ClassId, HNode, Role};
use crate::index::pairs_of;
use crate::match_laws::{body_holds, lemma_matches_sound};
use crate::matching::binding_valid;
use crate::node::Card;
use crate::queries::{body_deps, clique, lemma_role_succ_valid, unmergeable};
use crate::rules::{atom_asserted, merged};
use crate::rules_wf::{lemma_atom_asserted, lemma_merged};
use crate::search::{
    block_merged, block_wf, blocks_merged, branches, budget_checked, clamp32, crowded, deepened,
    disjunct_taken, ended, groups_wf, inspected, joinable, lemma_open_disjunction, level, merges,
    partition_taken, partitions, pending, placements, prepared, restored, searches, solves, tried,
    Choice, FIXPOINT_ITERS,
};
use crate::truth::{
    alive, bounded, lemma_alive, lemma_body_deps, lemma_body_true, lemma_empty, lemma_full_active,
    lemma_joined, lemma_values_within, node_true, owed, reached, true_in, values, World,
};
use crate::truth_card::{
    counted_by, lemma_card_refuted, lemma_full_present, lemma_labels_differ, lemma_open_at_most,
    lemma_successor_counts,
};
use crate::truth_horn::lemma_true_saturated;
use crate::truth_merge::{lemma_apart_differ, lemma_true_merged};
use crate::truth_rules::{consistent, lemma_true_atom, refuted};

verus! {

/// The parts of a configuration belong together.
pub open spec fn coherent(k: Config) -> bool {
    k.wf() && pairs_of(k.disjoint, k.clauses, k.clauses.len() as int)
}

/// Merges for nominals tell what they rest on.
pub open spec fn heeded(k: Config) -> bool {
    k.nominals is None || !k.nn_taint_disabled
}

/// Merges for nominals tell what they rest on, or there are none that rest on
/// a false decision, now or later in the search: there are no disjunctions.
pub open spec fn steady<D>(w: World<D>, k: Config) -> bool {
    &&& w.buried is None
    &&& heeded(k) || (horn_only(k.clauses) && w.full())
}

impl<D> World<D> {
    /// The decision at level `l` taken to be false.
    pub open spec fn without(self, l: int) -> World<D> {
        World { t: self.t.remove(l), ..self }
    }
}

proof fn lemma_without_active<D>(w: World<D>, l: int, ds: DepSet)
    ensures
        w.without(l).active(ds) ==> w.active(ds),
{
    if w.without(l).full() {
        assert forall|m: int| 0 <= m implies w.t.contains(m) by {
            assert(w.without(l).t.contains(m));
        }
    }
}

/// A graph that is true stays so when less is taken to be true.
proof fn lemma_without_true<D>(w: World<D>, l: int, g: Graph, h: Seq<D>)
    requires
        g.wf(),
        true_in(w, g, h),
    ensures
        true_in(w.without(l), g, h),
{
    let w1 = w.without(l);
    assert forall|m: HNode| #[trigger] alive(w1, g, m) implies alive(w, g, m) by {
        lemma_without_active(w, l, g.at(m).birth_deps);
    }
    assert forall|m: HNode| g.valid(m) && #[trigger] reached(w1, g, m) implies reached(w, g, m) by {
        lemma_without_active(w, l, g.at(m).birth_deps);
        assert(alive(w1, g, g.rep(m)) ==> alive(w, g, g.rep(m)));
    }
    assert forall|i: int| 0 <= i < h.len() implies h[i] == h[(#[trigger] g.root[i]).at()] || !alive(
        w1,
        g,
        g.root[i],
    ) by {
        assert(h[i] == h[g.root[i].at()] || !alive(w, g, g.root[i]));
    }
    assert forall|i: int| 0 <= i < g.nodes.len() implies #[trigger] node_true(w1, g, h, i) by {
        assert(node_true(w, g, h, i));
        assert(g.node_wf(g.nodes[i], i));
        let v = g.nodes[i];
        assert forall|c: ClassId| #[trigger] v.has(c) && w1.active(
            v.deps_of(c),
        ) implies w1.i.in_class(c, h[i]) by {
            lemma_without_active(w, l, v.deps_of(c));
        }
        assert forall|e: (Role, HNode)| #[trigger]
            v.edges.contains(e) && owed(w1, g, HNode(i as u32), e.1) implies w1.i.role(
            e.0,
            h[i],
            h[e.1.at()],
        ) by {
            let j = v.edges.index_of(e);
            assert(g.valid(v.edges[j].1));
            assert(reached(w1, g, e.1));
            assert(alive(w1, g, HNode(i as u32)));
            assert(owed(w, g, HNode(i as u32), e.1));
        }
        assert forall|e: (Role, HNode)| #[trigger]
            v.preds.contains(e) && owed(w1, g, e.1, HNode(i as u32)) implies w1.i.role(
            e.0,
            h[e.1.at()],
            h[i],
        ) by {
            assert(g.valid(HNode(i as u32)));
            assert(reached(w1, g, HNode(i as u32)));
            assert(alive(w1, g, e.1));
            assert(owed(w, g, e.1, HNode(i as u32)));
        }
        lemma_without_active(w, l, v.at_most_dep);
        lemma_without_active(w, l, DepSet::all());
        lemma_empty(w);
        lemma_empty(w1);
        assert(bounded(w1, v) ==> bounded(w, v));
    }
    if w1.full() {
        lemma_empty(w);
        lemma_empty(w1);
        lemma_without_active(w, l, DepSet::all());
    }
}

/// What depends on a decision is not true without it.
proof fn lemma_plus_inactive<D>(w: World<D>, ds: DepSet, d: int)
    requires
        0 <= d,
    ensures
        !w.without(d).active(ds.plus(clamp32(d))),
        w.active(ds.plus(clamp32(d))) ==> w.active(ds),
{
    let a = w.without(d);
    let l = clamp32(d);
    let p = ds.plus(l);
    if l < 128 {
        lemma_only_has(l, l);
        lemma_joined_has(ds, DepSet::only(l), l);
        assert(bit(p.bits, l));
        assert(!a.t.contains(l as int));
    }
    assert(!a.full()) by {
        assert(!a.t.contains(d));
    }
    lemma_joined(w, ds, DepSet::only(l));
}

/// A refutation that does not rest on a decision does not need it.
proof fn lemma_jump<D>(w: World<D>, clash: DepSet, d: int)
    requires
        0 <= d,
        refuted(w.without(d), clash),
        !clash.has(clamp32(d)),
    ensures
        refuted(w, clash),
{
    let a = w.without(d);
    if w.active(clash) {
        assert forall|x: u32| #[trigger] bit(clash.bits, x) implies a.t.contains(x as int) by {
            assert(w.t.contains(x as int));
            assert(x < 128);
        }
    }
}

/// When every way to decide is refuted, the refutation does not rest on the
/// decision.
proof fn lemma_exhausted<D>(w: World<D>, combined: DepSet, d: int)
    requires
        0 <= d,
        w.t.contains(d),
        refuted(w, combined),
    ensures
        refuted(w, combined.minus(clamp32(d))),
{
    let l = clamp32(d);
    let m = combined.minus(l);
    if !combined.overflow && w.active(m) {
        assert forall|x: u32| #[trigger] bit(combined.bits, x) implies w.t.contains(x as int) by {
            lemma_minus_has(combined, l, x);
            if x != l {
                assert(bit(m.bits, x));
            } else {
                assert(x < 128);
            }
        }
    }
}

/// Merging within blocks of nodes that stand for the same element.
proof fn lemma_block_true<D>(w: World<D>, k: Config, s: State, h: Seq<D>, block: Seq<HNode>, j: int)
    requires
        s.wf(),
        w.full(),
        w.buried is None,
        true_in(w, s.g, h),
        0 <= j,
        block_wf(s.g, block),
        same_value(h, block),
    ensures
        true_in(w, block_merged(k, s, block, j).0.g, h),
        block_merged(k, s, block, j).0.wf(),
        block_merged(k, s, block, j).0.g.nodes.len() == s.g.nodes.len(),
        !block_merged(k, s, block, j).1,
    decreases block.len() - j,
{
    if j < block.len() {
        assert(s.g.valid(block[0]) && s.g.valid(block[j]));
        lemma_empty(w);
        lemma_true_merged(w, k, s, h, block[0], block[j], DepSet::empty());
        lemma_merged(k, s, block[0], block[j], DepSet::empty());
        let s1 = merged(k, s, block[0], block[j], DepSet::empty()).0;
        lemma_block_true(w, k, s1, h, block, j + 1);
    }
}

/// All nodes of the block stand for the same element.
spec fn same_value<D>(h: Seq<D>, block: Seq<HNode>) -> bool {
    forall|i: int| 0 <= i < block.len() ==> h[(#[trigger] block[i]).at()] == h[block[0].at()]
}

proof fn lemma_blocks_true<D>(
    w: World<D>,
    k: Config,
    s: State,
    h: Seq<D>,
    groups: Seq<Seq<HNode>>,
    i: int,
)
    requires
        s.wf(),
        w.full(),
        w.buried is None,
        true_in(w, s.g, h),
        0 <= i,
        groups_wf(s.g, groups),
        forall|p: int| 0 <= p < groups.len() ==> same_value(h, #[trigger] groups[p]),
    ensures
        true_in(w, blocks_merged(k, s, groups, i).0.g, h),
        blocks_merged(k, s, groups, i).0.wf(),
        !blocks_merged(k, s, groups, i).1,
    decreases groups.len() - i,
{
    if i < groups.len() {
        assert(block_wf(s.g, groups[i]));
        lemma_block_true(w, k, s, h, groups[i], 1);
        let s1 = block_merged(k, s, groups[i], 1).0;
        assert forall|p: int| 0 <= p < groups.len() implies block_wf(s1.g, #[trigger] groups[p]) by {
            assert(block_wf(s.g, groups[p]));
        }
        lemma_blocks_true(w, k, s1, h, groups, i + 1);
    }
}

/// Until a completion is found, the graph is what it was, and a stall is not
/// forgotten.
pub proof fn lemma_partitions_frame(
    k: Config,
    s: State,
    depth: nat,
    succs: Seq<HNode>,
    idx: int,
    groups: Seq<Seq<HNode>>,
    n: nat,
    stalled0: bool,
    s1: State,
    stalled1: bool,
    found: bool,
)
    requires
        partitions(k, s, depth, succs, idx, groups, n, stalled0, s1, stalled1, found),
        s.wf(),
    ensures
        stalled0 && !found ==> stalled1,
        !found ==> s1.g == s.g && s1.wf(),
    decreases 2 * (succs.len() - idx) + 1, 0int,
{
    reveal(partitions);
    if idx < succs.len() {
        reveal(placements);
        lemma_placements_frame(k, s, depth, succs, idx, groups, 0, n, stalled0, s1, stalled1, found);
    } else {
        reveal(solves);
        reveal(searches);
    }
}

proof fn lemma_placements_frame(
    k: Config,
    s: State,
    depth: nat,
    succs: Seq<HNode>,
    idx: int,
    groups: Seq<Seq<HNode>>,
    gi: int,
    n: nat,
    stalled0: bool,
    s1: State,
    stalled1: bool,
    found: bool,
)
    requires
        placements(k, s, depth, succs, idx, groups, gi, n, stalled0, s1, stalled1, found),
        s.wf(),
    ensures
        stalled0 && !found ==> stalled1,
        !found ==> s1.g == s.g && s1.wf(),
    decreases 2 * (succs.len() - idx), groups.len() - gi,
{
    reveal_with_fuel(placements, 2);
    reveal(partitions);
    if gi < groups.len() {
        if joinable(k, s.g, succs[idx], groups[gi]) {
            let groups1 = groups.update(gi, groups[gi].push(succs[idx]));
            let (sm, sl, f) = choose|sm: State, sl: bool, f: bool| #[trigger]
                tried(sm, sl, f) && partitions(
                    k,
                    s,
                    depth,
                    succs,
                    idx + 1,
                    groups1,
                    n,
                    stalled0,
                    sm,
                    sl,
                    f,
                ) && if f {
                    s1 == sm && stalled1 == sl && found
                } else {
                    placements(k, sm, depth, succs, idx, groups, gi + 1, n, sl, s1, stalled1, found)
                };
            lemma_partitions_frame(k, s, depth, succs, idx + 1, groups1, n, stalled0, sm, sl, f);
            if !f {
                lemma_placements_frame(
                    k,
                    sm,
                    depth,
                    succs,
                    idx,
                    groups,
                    gi + 1,
                    n,
                    sl,
                    s1,
                    stalled1,
                    found,
                );
            }
        } else {
            lemma_placements_frame(
                k,
                s,
                depth,
                succs,
                idx,
                groups,
                gi + 1,
                n,
                stalled0,
                s1,
                stalled1,
                found,
            );
        }
    } else if groups.len() < n {
        lemma_partitions_frame(
            k,
            s,
            depth,
            succs,
            idx + 1,
            groups.push(seq![succs[idx]]),
            n,
            stalled0,
            s1,
            stalled1,
            found,
        );
    }
}

/// Nodes that stand for the same element can be merged.
proof fn lemma_mergeable<D>(w: World<D>, k: Config, g: Graph, h: Seq<D>, a: HNode, b: HNode)
    requires
        g.wf(),
        g.valid(a),
        g.valid(b),
        w.full(),
        w.buried is None,
        true_in(w, g, h),
        coherent(k),
        w.i.models(k),
        h[a.at()] == h[b.at()],
    ensures
        !unmergeable(k, g, a, b),
{
    if crate::queries::apart(g, a, b) {
        lemma_apart_differ(w, g, h, a, b);
    }
    if crate::queries::labels_clash(k, g, a, b) {
        assert(g.root[a.at()].at() < g.root.len());
        assert(g.root[b.at()].at() < g.root.len());
        lemma_full_present(w, g, h, g.rep(a));
        lemma_full_present(w, g, h, g.rep(b));
        lemma_labels_differ(w, k, g, h, a, b);
    }
}

/// The blocks sort nodes by the elements they stand for, and these count for
/// the constraint at `e`.
spec fn sorted_out<D>(w: World<D>, g: Graph, h: Seq<D>, c: Card, e: D, groups: Seq<Seq<HNode>>) -> bool {
    &&& groups_wf(g, groups)
    &&& forall|p: int| 0 <= p < groups.len() ==> same_value(h, #[trigger] groups[p])
    &&& forall|p: int|
        0 <= p < groups.len() ==> w.i.counts(c.0, c.1, e, h[(#[trigger] groups[p])[0].at()])
    &&& forall|p: int, q: int|
        0 <= p < q < groups.len() ==> h[(#[trigger] groups[p])[0].at()] != h[(
        #[trigger] groups[q])[0].at()]
}

/// A node whose element has no block yet gets one: the bound leaves room.
proof fn lemma_new_block<D>(
    w: World<D>,
    g: Graph,
    h: Seq<D>,
    c: Card,
    e: D,
    groups: Seq<Seq<HNode>>,
    m: HNode,
)
    requires
        sorted_out(w, g, h, c, e, groups),
        g.valid(m),
        w.i.at_most(c.0, c.1, c.2, e),
        w.i.counts(c.0, c.1, e, h[m.at()]),
        forall|p: int| 0 <= p < groups.len() ==> h[(#[trigger] groups[p])[0].at()] != h[m.at()],
    ensures
        groups.len() < c.2,
        sorted_out(w, g, h, c, e, groups.push(seq![m])),
{
    let groups1 = groups.push(seq![m]);
    assert(groups1.last()[0] == m);
    let es = groups1.map_values(|b: Seq<HNode>| h[b[0].at()]);
    assert(w.i.counted(c.0, c.1, e, es)) by {
        assert forall|i: int, j: int| 0 <= i < j < es.len() implies es[i] != es[j] by {
            assert(groups1[i] == groups[i]);
            if j < groups.len() {
                assert(groups1[j] == groups[j]);
            }
        }
        assert forall|i: int| 0 <= i < es.len() implies w.i.counts(c.0, c.1, e, #[trigger] es[i]) by {
            if i < groups.len() {
                assert(groups1[i] == groups[i]);
            }
        }
    }
    assert(es.len() <= c.2);
    assert forall|p: int| 0 <= p < groups1.len() implies block_wf(g, #[trigger] groups1[p])
        && same_value(h, groups1[p]) && w.i.counts(c.0, c.1, e, h[groups1[p][0].at()]) by {
        if p < groups.len() {
            assert(groups1[p] == groups[p]);
            assert(block_wf(g, groups[p]));
        }
    }
    assert forall|p: int, q: int| 0 <= p < q < groups1.len() implies h[(
    #[trigger] groups1[p])[0].at()] != h[(#[trigger] groups1[q])[0].at()] by {
        assert(groups1[p] == groups[p]);
        if q < groups.len() {
            assert(groups1[q] == groups[q]);
        }
    }
}

/// A node joins the block of its element.
proof fn lemma_joined_block<D>(
    w: World<D>,
    g: Graph,
    h: Seq<D>,
    c: Card,
    e: D,
    groups: Seq<Seq<HNode>>,
    gi: int,
    m: HNode,
)
    requires
        sorted_out(w, g, h, c, e, groups),
        g.valid(m),
        0 <= gi < groups.len(),
        h[groups[gi][0].at()] == h[m.at()],
    ensures
        sorted_out(w, g, h, c, e, groups.update(gi, groups[gi].push(m))),
{
    let groups1 = groups.update(gi, groups[gi].push(m));
    let b = groups[gi].push(m);
    assert(block_wf(g, groups[gi]));
    assert(same_value(h, groups[gi]));
    assert(b[0] == groups[gi][0]);
    assert(same_value(h, b)) by {
        assert forall|i: int| 0 <= i < b.len() implies h[(#[trigger] b[i]).at()] == h[b[0].at()] by {
            if i < groups[gi].len() {
                assert(b[i] == groups[gi][i]);
            }
        }
    }
    assert(block_wf(g, b)) by {
        assert forall|i: int| 0 <= i < b.len() implies g.valid(#[trigger] b[i]) by {
            if i < groups[gi].len() {
                assert(b[i] == groups[gi][i]);
            }
        }
    }
    assert forall|p: int| 0 <= p < groups1.len() implies block_wf(g, #[trigger] groups1[p])
        && same_value(h, groups1[p]) && w.i.counts(c.0, c.1, e, h[groups1[p][0].at()]) by {
        assert(groups1[p] == if p == gi {
            b
        } else {
            groups[p]
        });
        assert(block_wf(g, groups[p]));
        assert(w.i.counts(c.0, c.1, e, h[groups[p][0].at()]));
    }
    assert forall|p: int, q: int| 0 <= p < q < groups1.len() implies h[(
    #[trigger] groups1[p])[0].at()] != h[(#[trigger] groups1[q])[0].at()] by {
        assert(groups1[p][0] == groups[p][0]);
        assert(groups1[q][0] == groups[q][0]);
    }
}

/// The search at `depth` is one that refutations are right about, and the
/// decisions still to be made are taken to be true.
pub open spec fn sound_at<D>(w: World<D>, k: Config, depth: nat) -> bool {
    &&& coherent(k)
    &&& w.i.models(k)
    &&& depth <= k.init_depth
    &&& forall|l: int| k.init_depth - depth <= l ==> w.t.contains(l)
}

/// Among the partitions that extend one by element, one is not refuted.
proof fn lemma_partitions_progress<D>(
    w: World<D>,
    k: Config,
    s: State,
    h: Seq<D>,
    depth: nat,
    succs: Seq<HNode>,
    idx: int,
    groups: Seq<Seq<HNode>>,
    c: Card,
    e: D,
    stalled0: bool,
    s1: State,
    stalled1: bool,
    found: bool,
)
    requires
        sound_at(w, k, depth),
        steady(w, k),
        w.full(),
        s.wf(),
        true_in(w, s.g, h),
        w.i.at_most(c.0, c.1, c.2, e),
        forall|i: int|
            0 <= i < succs.len() ==> s.g.valid(#[trigger] succs[i]) && w.i.counts(
                c.0,
                c.1,
                e,
                h[succs[i].at()],
            ),
        sorted_out(w, s.g, h, c, e, groups),
        partitions(k, s, depth, succs, idx, groups, c.2 as nat, stalled0, s1, stalled1, found),
    ensures
        found || stalled1,
    decreases depth, 0int, 2 * (succs.len() - idx) + 1, 0int,
{
    reveal(partitions);
    if idx < succs.len() {
        reveal(placements);
        lemma_placements_progress(
            w,
            k,
            s,
            h,
            depth,
            succs,
            idx,
            groups,
            0,
            c,
            e,
            stalled0,
            s1,
            stalled1,
            found,
        );
    } else {
        reveal(solves);
        reveal(searches);
        let s0 = partition_taken(s);
        lemma_blocks_true(w, k, s0, h, groups, 0);
        let sy = blocks_merged(k, s0, groups, 0).0;
        let (sz, rz) = choose|sz: State, rz: HyperResult| #[trigger]
            ended(sz, rz) && solves(k, sy, (depth - 1) as nat, sz, rz) && match rz {
                HyperResult::Sat => s1 == sz && stalled1 == stalled0 && found,
                HyperResult::Unsat => s1 == restored(sz, s.g) && stalled1 == stalled0 && !found,
                HyperResult::Stalled => s1 == restored(sz, s.g) && stalled1 && !found,
            };
        if rz is Unsat {
            assert(consistent(w, sy.g));
            lemma_solves_refuted(w, k, sy, (depth - 1) as nat, sz, rz);
            lemma_full_active(w, sz.clash);
        }
    }
}

proof fn lemma_placements_progress<D>(
    w: World<D>,
    k: Config,
    s: State,
    h: Seq<D>,
    depth: nat,
    succs: Seq<HNode>,
    idx: int,
    groups: Seq<Seq<HNode>>,
    gi: int,
    c: Card,
    e: D,
    stalled0: bool,
    s1: State,
    stalled1: bool,
    found: bool,
)
    requires
        sound_at(w, k, depth),
        steady(w, k),
        w.full(),
        s.wf(),
        true_in(w, s.g, h),
        w.i.at_most(c.0, c.1, c.2, e),
        forall|i: int|
            0 <= i < succs.len() ==> s.g.valid(#[trigger] succs[i]) && w.i.counts(
                c.0,
                c.1,
                e,
                h[succs[i].at()],
            ),
        sorted_out(w, s.g, h, c, e, groups),
        0 <= idx < succs.len(),
        forall|p: int|
            0 <= p < gi && p < groups.len() ==> h[(#[trigger] groups[p])[0].at()]
                != h[succs[idx].at()],
        placements(k, s, depth, succs, idx, groups, gi, c.2 as nat, stalled0, s1, stalled1, found),
    ensures
        found || stalled1,
    decreases depth, 0int, 2 * (succs.len() - idx), groups.len() - gi,
{
    reveal_with_fuel(placements, 2);
    reveal(partitions);
    let m = succs[idx];
    if gi < groups.len() {
        let same = h[groups[gi][0].at()] == h[m.at()];
        assert(block_wf(s.g, groups[gi]));
        if same {
            assert(joinable(k, s.g, m, groups[gi])) by {
                assert(same_value(h, groups[gi]));
                assert forall|i: int| 0 <= i < groups[gi].len() implies !unmergeable(
                    k,
                    s.g,
                    m,
                    #[trigger] groups[gi][i],
                ) by {
                    lemma_mergeable(w, k, s.g, h, m, groups[gi][i]);
                }
            }
        }
        if joinable(k, s.g, m, groups[gi]) {
            let groups1 = groups.update(gi, groups[gi].push(m));
            let (sm, sl, f) = choose|sm: State, sl: bool, f: bool| #[trigger]
                tried(sm, sl, f) && partitions(
                    k,
                    s,
                    depth,
                    succs,
                    idx + 1,
                    groups1,
                    c.2 as nat,
                    stalled0,
                    sm,
                    sl,
                    f,
                ) && if f {
                    s1 == sm && stalled1 == sl && found
                } else {
                    placements(
                        k,
                        sm,
                        depth,
                        succs,
                        idx,
                        groups,
                        gi + 1,
                        c.2 as nat,
                        sl,
                        s1,
                        stalled1,
                        found,
                    )
                };
            lemma_partitions_frame(
                k,
                s,
                depth,
                succs,
                idx + 1,
                groups1,
                c.2 as nat,
                stalled0,
                sm,
                sl,
                f,
            );
            if !f {
                if same {
                    lemma_joined_block(w, s.g, h, c, e, groups, gi, m);
                    lemma_partitions_progress(
                        w,
                        k,
                        s,
                        h,
                        depth,
                        succs,
                        idx + 1,
                        groups1,
                        c,
                        e,
                        stalled0,
                        sm,
                        sl,
                        f,
                    );
                    lemma_placements_frame(
                        k,
                        sm,
                        depth,
                        succs,
                        idx,
                        groups,
                        gi + 1,
                        c.2 as nat,
                        sl,
                        s1,
                        stalled1,
                        found,
                    );
                } else {
                    lemma_placements_progress(
                        w,
                        k,
                        sm,
                        h,
                        depth,
                        succs,
                        idx,
                        groups,
                        gi + 1,
                        c,
                        e,
                        sl,
                        s1,
                        stalled1,
                        found,
                    );
                }
            }
        } else {
            lemma_placements_progress(
                w,
                k,
                s,
                h,
                depth,
                succs,
                idx,
                groups,
                gi + 1,
                c,
                e,
                stalled0,
                s1,
                stalled1,
                found,
            );
        }
    } else {
        lemma_new_block(w, s.g, h, c, e, groups, m);
        lemma_partitions_progress(
            w,
            k,
            s,
            h,
            depth,
            succs,
            idx + 1,
            groups.push(seq![m]),
            c,
            e,
            stalled0,
            s1,
            stalled1,
            found,
        );
    }
}

/// When no way to merge the successors is left, the graph is refuted.
proof fn lemma_merges_refuted<D>(
    w: World<D>,
    k: Config,
    s: State,
    depth: nat,
    n: HNode,
    c: Card,
    succs: Seq<HNode>,
    s1: State,
    r: HyperResult,
)
    requires
        sound_at(w, k, depth),
        steady(w, k),
        s.wf(),
        consistent(w, s.g),
        s.g.valid(n),
        counted_by(k, s.g, n, c, succs),
        merges(k, s, depth, succs, c.2 as nat, s1, r),
        r is Unsat,
    ensures
        refuted(w, s1.clash),
    decreases depth, 0int, 2 * succs.len() + 2, 0int,
{
    reveal(merges);
    reveal(partitions);
    lemma_empty(w);
    let (sz, stalled, found) = choose|sz: State, stalled: bool, found: bool| #[trigger]
        tried(sz, stalled, found) && partitions(
            k,
            s,
            depth,
            succs,
            0,
            Seq::empty(),
            c.2 as nat,
            false,
            sz,
            stalled,
            found,
        ) && if found {
            s1 == sz && r is Sat
        } else if stalled {
            s1 == sz && r is Stalled
        } else {
            s1 == (State { clash: DepSet::all(), ..sz }) && r is Unsat
        };
    if w.full() {
        let h = choose|h: Seq<D>| true_in(w, s.g, h);
        let e = h[n.at()];
        assert(s.g.node_wf(s.g.nodes[n.at()], n.at()));
        lemma_role_succ_valid(s.g, k.roles, s.g.at(n).edges, c.0, c.1);
        assert(node_true(w, s.g, h, n.at()));
        lemma_full_active(w, s.g.at(n).at_most_dep);
        assert(w.i.at_most(c.0, c.1, c.2, e));
        assert forall|i: int| 0 <= i < succs.len() implies s.g.valid(#[trigger] succs[i])
            && w.i.counts(c.0, c.1, e, h[succs[i].at()]) by {
            assert(succs.contains(succs[i]));
            lemma_full_present(w, s.g, h, succs[i]);
            lemma_alive(w, s.g, n);
            lemma_successor_counts(w, k, s.g, h, n, c.0, c.1, succs[i]);
        }
        lemma_partitions_progress(
            w,
            k,
            s,
            h,
            depth,
            succs,
            0,
            Seq::empty(),
            c,
            e,
            false,
            sz,
            stalled,
            found,
        );
    }
}

/// The branch point is one of the graph.
spec fn open_here(k: Config, g: Graph, c: Choice) -> bool {
    &&& g.valid(c.n)
    &&& 0 <= c.ci < k.clauses.len()
    &&& !k.clauses[c.ci].horn()
    &&& binding_valid(c.b, g.nodes.len() as int)
    &&& body_holds(g.nodes, k.roles, k.clauses[c.ci].body, c.n, c.b)
}

/// A branch that is refuted, seen with and without its decision.
proof fn lemma_branch_refuted<D>(
    w: World<D>,
    w1: World<D>,
    k: Config,
    s: State,
    h: Seq<D>,
    depth: nat,
    c: Choice,
    j: int,
    sz: State,
    rz: HyperResult,
)
    requires
        sound_at(w, k, depth),
        steady(w, k),
        depth > 0,
        s.wf(),
        true_in(w, s.g, h),
        open_here(k, s.g, c),
        0 <= j < k.clauses[c.ci].head.len(),
        w1 == w.without(k.init_depth - depth) || (w1 == w && (w.active(
            body_deps(s.g, k.clauses[c.ci].body, c.n, c.b),
        ) ==> w.i.atom(k.clauses[c.ci].head[j], values(h, c.n, c.b)))),
        rz is Unsat,
        solves(
            k,
            atom_asserted(
                k,
                disjunct_taken(s),
                k.clauses[c.ci].head[j],
                c.n,
                c.b,
                body_deps(s.g, k.clauses[c.ci].body, c.n, c.b).plus(level(k, depth as int)),
            ).0,
            (depth - 1) as nat,
            sz,
            rz,
        ),
    ensures
        refuted(w1, sz.clash),
    decreases depth, 0int, 0int, 0int,
{
    let cl = k.clauses[c.ci];
    let d = level(k, depth as int);
    let bd = body_deps(s.g, cl.body, c.n, c.b);
    let deps = bd.plus(d);
    let s0 = disjunct_taken(s);
    lemma_without_true(w, k.init_depth - depth, s.g, h);
    lemma_body_deps(w, s.g, h, cl.body, c.n, c.b);
    lemma_plus_inactive(w, bd, k.init_depth - depth);
    lemma_true_atom(w1, k, s0, h, cl.head[j], c.n, c.b, deps);
    lemma_atom_asserted(k, s0, cl.head[j], c.n, c.b, deps);
    let sy = atom_asserted(k, s0, cl.head[j], c.n, c.b, deps).0;
    lemma_solves_refuted(w1, k, sy, (depth - 1) as nat, sz, rz);
}

/// When every head atom is refuted, the graph is. Of the head atoms, `js` is
/// one that is true if the body is.
proof fn lemma_branches_refuted<D>(
    w: World<D>,
    k: Config,
    s: State,
    h: Seq<D>,
    depth: nat,
    c: Choice,
    js: int,
    j: int,
    combined: DepSet,
    stalled: bool,
    s1: State,
    r: HyperResult,
)
    requires
        sound_at(w, k, depth),
        steady(w, k),
        s.wf(),
        true_in(w, s.g, h),
        open_here(k, s.g, c),
        0 <= js < k.clauses[c.ci].head.len(),
        w.active(body_deps(s.g, k.clauses[c.ci].body, c.n, c.b)) ==> w.i.atom(
            k.clauses[c.ci].head[js],
            values(h, c.n, c.b),
        ),
        0 <= j,
        js < j ==> stalled || refuted(w, combined),
        branches(k, s, depth, c, j, combined, stalled, s1, r),
        r is Unsat,
    ensures
        refuted(w, s1.clash),
    decreases depth, 0int, k.clauses[c.ci].head.len() - j + 1, 0int,
{
    reveal_with_fuel(branches, 2);
    let cl = k.clauses[c.ci];
    let d = level(k, depth as int);
    let l = k.init_depth - depth;
    if j >= cl.head.len() {
        lemma_exhausted(w, combined, l);
    } else {
        let deps = body_deps(s.g, cl.body, c.n, c.b).plus(d);
        let (sy, o) = atom_asserted(k, disjunct_taken(s), cl.head[j], c.n, c.b, deps);
        if o is Full {
            let s2 = restored(sy, s.g);
            lemma_branches_refuted(w, k, s2, h, depth, c, js, j + 1, combined, true, s1, r);
        } else {
            reveal(solves);
            reveal(searches);
            let (sz, rz) = choose|sz: State, rz: HyperResult| #[trigger]
                ended(sz, rz) && solves(k, sy, (depth - 1) as nat, sz, rz) && match rz {
                    HyperResult::Sat => s1 == sz && r is Sat,
                    HyperResult::Unsat => if !sz.clash.has(d) {
                        s1 == restored(sz, s.g) && r is Unsat
                    } else {
                        branches(
                            k,
                            restored(sz, s.g),
                            depth,
                            c,
                            j + 1,
                            combined.joined(sz.clash),
                            stalled,
                            s1,
                            r,
                        )
                    },
                    HyperResult::Stalled => branches(
                        k,
                        restored(sz, s.g),
                        depth,
                        c,
                        j + 1,
                        combined,
                        true,
                        s1,
                        r,
                    ),
                };
            let s2 = restored(sz, s.g);
            if rz is Unsat {
                lemma_branch_refuted(w, w.without(l), k, s, h, depth, c, j, sz, rz);
                if !sz.clash.has(d) {
                    lemma_jump(w, sz.clash, l);
                } else {
                    let both = combined.joined(sz.clash);
                    if j == js {
                        lemma_branch_refuted(w, w, k, s, h, depth, c, j, sz, rz);
                    }
                    lemma_joined(w, combined, sz.clash);
                    lemma_branches_refuted(w, k, s2, h, depth, c, js, j + 1, both, stalled, s1, r);
                }
            } else {
                lemma_branches_refuted(w, k, s2, h, depth, c, js, j + 1, combined, true, s1, r);
            }
        }
    }
}

/// A verdict of unsatisfiability refutes the graph that the search began
/// with.
pub proof fn lemma_solves_refuted<D>(
    w: World<D>,
    k: Config,
    s0: State,
    depth: nat,
    s1: State,
    r: HyperResult,
)
    requires
        sound_at(w, k, depth),
        steady(w, k),
        s0.wf(),
        consistent(w, s0.g),
        solves(k, s0, depth, s1, r),
        r is Unsat,
    ensures
        refuted(w, s1.clash),
    decreases depth, 1int, 0int, 0int,
{
    reveal(solves);
    reveal(searches);
    let sa = budget_checked(k, s0).0;
    let (sb, rf) = prepared(k, s0);
    lemma_saturated(k, sa, FIXPOINT_ITERS as nat);
    lemma_true_saturated(w, k, sa, FIXPOINT_ITERS as nat);
    if rf is Sat {
        lemma_open_disjunction(k, sb, 0);
        let sc = inspected(k, s0);
        assert(sc.g == sb.g && sc.work == sb.work);
        let sd = deepened(k, sc, depth as int);
        let h = choose|h: Seq<D>| true_in(w, sc.g, h);
        match pending(k, s0) {
            Some((ci, n, b)) => {
                if depth > 0 {
                    reveal(branches);
                    let c = Choice { ci: ci as int, n, b };
                    let cl = k.clauses[c.ci];
                    lemma_matches_sound(sc.g.nodes, k.roles, cl.body, n, b);
                    let v = values(h, n, b);
                    lemma_values_within(w, sc.g, h, n, b);
                    if w.active(body_deps(sc.g, cl.body, n, b)) {
                        lemma_body_true(w, k, sc.g, h, cl.body, n, b);
                        assert(w.i.clause(cl));
                    }
                    let js = if w.active(body_deps(sc.g, cl.body, n, b)) {
                        choose|i: int| 0 <= i < cl.head.len() && w.i.atom(#[trigger] cl.head[i], v)
                    } else {
                        0
                    };
                    lemma_branches_refuted(
                        w,
                        k,
                        sd,
                        h,
                        depth,
                        c,
                        js,
                        0,
                        DepSet::empty(),
                        false,
                        s1,
                        r,
                    );
                }
            },
            None => {
                lemma_open_at_most(k, sc.g, 0, 0);
                if let Some((n, succs, bound)) = crowded(k, s0) {
                    let c = choose|c: Card| c.2 == bound && #[trigger] counted_by(
                        k,
                        sc.g,
                        n,
                        c,
                        succs,
                    );
                    assert(node_true(w, sc.g, h, n.at()));
                    if clique(k, sc.g, succs).len() > bound {
                        lemma_card_refuted(w, k, sc.g, h, n, c.0, c.1, bound);
                    } else if depth > 0 {
                        reveal(merges);
                        lemma_merges_refuted(w, k, sd, depth, n, c, succs, s1, r);
                    }
                }
            },
        }
    }
}

} // verus!
