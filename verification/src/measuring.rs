//! Measuring how often label sets recur does not affect a search.

use vstd::prelude::*;
use crate::clause::{Atom, Var};
use crate::dep_set::DepSet;
use crate::fixpoint::{drained, event_done, list_fired, list_fired_at, reseeded, saturated, sources};
use crate::graph::{tick, Config, Event, HyperResult, SearchStats, State};
use crate::ids::{ClassId, HNode, Role};
use crate::index::row;
use crate::matching::{matches_of, var_node};
use crate::node::NodeView;
use crate::queries::{body_deps, check_blocked, clique};
use crate::rules::{
    atom_asserted, bearer_from, bindings_fired, clause_fired, edge_in, edges_copied, head_fired,
    labelled, labels_copied, merged, nominal_cause, nominal_merged, relinked, sprouts,
    widened_birth,
};
use crate::search::{
    block_merged, blocks_merged, branches, budget_checked, crowded, deepened, disjunct_taken, ended,
    inspected, joinable, level, merges, open_disjunction_from, partition_taken, partitions, pending,
    placements, prepared, proceeds, restored, searches, solves, tried, Choice, FIXPOINT_ITERS,
};

verus! {

/// The state without the measurement.
pub open spec fn unmeasured(s: State) -> State {
    State { gc: None, ..s }
}

proof fn lemma_sprouts_blind(
    k: Config,
    s: State,
    x: HNode,
    role: Role,
    qual: Option<ClassId>,
    deps: DepSet,
    n: nat,
)
    ensures
        sprouts(k, unmeasured(s), x, role, qual, deps, n) == (
            unmeasured(sprouts(k, s, x, role, qual, deps, n).0),
            sprouts(k, s, x, role, qual, deps, n).1,
        ),
    decreases n,
{
    if n > 0 {
        lemma_sprouts_blind(k, s, x, role, qual, deps, (n - 1) as nat);
    }
}

proof fn lemma_atom_blind(
    k: Config,
    s: State,
    head: Atom,
    x: HNode,
    b: Seq<(Var, HNode)>,
    deps: DepSet,
)
    ensures
        atom_asserted(k, unmeasured(s), head, x, b, deps) == (
            unmeasured(atom_asserted(k, s, head, x, b, deps).0),
            atom_asserted(k, s, head, x, b, deps).1,
        ),
{
    if let Atom::AtLeast(role, qual, m, v) = head {
        if let Some(t) = var_node(v, x, b) {
            let r = s.g.rep(t);
            let s1 = check_blocked(k, s, r).0;
            let u = s1.g.at(r);
            let done = NodeView { at_least_done: u.at_least_done.push((role, qual, m)), ..u };
            let s2 = State { g: s1.g.with(r, done), ..s1 };
            lemma_sprouts_blind(k, s2, r, role, qual, deps, m as nat);
        }
    }
}

proof fn lemma_bindings_blind(
    k: Config,
    s: State,
    ci: int,
    x: HNode,
    bs: Seq<Seq<(Var, HNode)>>,
    i: int,
    changed: bool,
)
    ensures
        bindings_fired(k, unmeasured(s), ci, x, bs, i, changed) == (
            unmeasured(bindings_fired(k, s, ci, x, bs, i, changed).0),
            bindings_fired(k, s, ci, x, bs, i, changed).1,
        ),
    decreases bs.len() - i,
{
    if 0 <= i < bs.len() {
        let cl = k.clauses[ci];
        let d = body_deps(s.g, cl.body, x, bs[i]);
        if cl.head.len() > 0 {
            lemma_atom_blind(k, s, cl.head[0], x, bs[i], d);
        }
        let s1 = head_fired(k, s, cl.head, x, bs[i], d).0;
        lemma_bindings_blind(k, s1, ci, x, bs, i + 1, true);
        lemma_bindings_blind(k, s1, ci, x, bs, i + 1, changed);
    }
}

proof fn lemma_clause_blind(k: Config, s: State, ci: int, x: HNode)
    ensures
        clause_fired(k, unmeasured(s), ci, x) == (
            unmeasured(clause_fired(k, s, ci, x).0),
            clause_fired(k, s, ci, x).1,
        ),
{
    let s0 = State {
        stats: SearchStats { match_attempts: tick(s.stats.match_attempts), ..s.stats },
        ..s
    };
    if let Some(bs) = matches_of(s0.g.nodes, k.roles, k.clauses[ci].body, x) {
        lemma_bindings_blind(k, s0, ci, x, bs, 0, false);
    }
}

proof fn lemma_list_blind(k: Config, s: State, cis: Seq<usize>, i: int, n: HNode)
    ensures
        list_fired(k, unmeasured(s), cis, i, n) == (
            unmeasured(list_fired(k, s, cis, i, n).0),
            list_fired(k, s, cis, i, n).1,
        ),
    decreases cis.len() - i,
{
    if 0 <= i < cis.len() {
        lemma_clause_blind(k, s, cis[i] as int, n);
        lemma_list_blind(k, clause_fired(k, s, cis[i] as int, n).0, cis, i + 1, n);
    }
}

proof fn lemma_list_at_blind(k: Config, s: State, cis: Seq<usize>, ns: Seq<HNode>, j: int)
    ensures
        list_fired_at(k, unmeasured(s), cis, ns, j) == (
            unmeasured(list_fired_at(k, s, cis, ns, j).0),
            list_fired_at(k, s, cis, ns, j).1,
        ),
    decreases ns.len() - j,
{
    if 0 <= j < ns.len() {
        lemma_list_blind(k, s, cis, 0, ns[j]);
        lemma_list_at_blind(k, list_fired(k, s, cis, 0, ns[j]).0, cis, ns, j + 1);
    }
}

proof fn lemma_labels_copied_blind(
    s: State,
    n: HNode,
    labels: Seq<ClassId>,
    deps: Seq<DepSet>,
    cause: DepSet,
    i: int,
)
    ensures
        labels_copied(unmeasured(s), n, labels, deps, cause, i) == unmeasured(
            labels_copied(s, n, labels, deps, cause, i),
        ),
    decreases labels.len() - i,
{
    if 0 <= i < labels.len() {
        let (s1, new) = labelled(s, n, labels[i], deps[i].joined(cause));
        let s2 = if !new && cause != DepSet::empty() {
            State { g: s1.g.with(n, s1.g.at(n).widened(labels[i], cause)), ..s1 }
        } else {
            s1
        };
        lemma_labels_copied_blind(s2, n, labels, deps, cause, i + 1);
    }
}

proof fn lemma_edges_copied_blind(s: State, n: HNode, edges: Seq<(Role, HNode)>, i: int)
    ensures
        edges_copied(unmeasured(s), n, edges, i) == unmeasured(edges_copied(s, n, edges, i)),
    decreases edges.len() - i,
{
    if 0 <= i < edges.len() {
        let (r, t) = edges[i];
        let s1 = State {
            g: edge_in(s.g, n, r, t),
            work: s.work.push(Event::Edge(n, r, t)),
            ..s
        };
        lemma_edges_copied_blind(s1, n, edges, i + 1);
    }
}

proof fn lemma_merged_blind(k: Config, s: State, i0: HNode, j0: HNode, cause0: DepSet)
    ensures
        merged(k, unmeasured(s), i0, j0, cause0) == (
            unmeasured(merged(k, s, i0, j0, cause0).0),
            merged(k, s, i0, j0, cause0).1,
        ),
{
    let cause = if k.nn_taint_disabled {
        DepSet::empty()
    } else {
        cause0
    };
    let i = s.g.rep(i0);
    let j = s.g.rep(j0);
    let g0 = relinked(s.g, i, j);
    let g1 = if cause != DepSet::empty() {
        g0.with(i, widened_birth(g0.at(i), cause))
    } else {
        g0
    };
    let vj = g1.at(j);
    let s1 = State { g: g1, ..s };
    lemma_labels_copied_blind(s1, i, vj.labels, vj.label_deps, cause, 0);
    let s2 = labels_copied(s1, i, vj.labels, vj.label_deps, cause, 0);
    lemma_edges_copied_blind(s2, i, vj.edges, 0);
}

proof fn lemma_event_blind(k: Config, s: State, ev: Event)
    ensures
        event_done(k, unmeasured(s), ev) == (
            unmeasured(event_done(k, s, ev).0),
            event_done(k, s, ev).1,
        ),
{
    match ev {
        Event::Label(n, c) => {
            let rn = s.g.rep(n);
            if let Some(m) = bearer_from(s.g, rn, c, 0) {
                let cause = nominal_cause(s.g, n, m, c);
                lemma_merged_blind(k, s, rn, m, cause);
            }
            let s1 = nominal_merged(k, s, n, c).0;
            let xs = row(k.index.x, c.0 as int);
            lemma_list_blind(k, s1, xs, 0, n);
            let s2 = list_fired(k, s1, xs, 0, n).0;
            lemma_list_at_blind(k, s2, row(k.index.succ, c.0 as int), sources(s2.g, n), 0);
        },
        Event::Edge(src, role, tgt) => {
            let key = role.id().0 as int;
            let rs = row(k.index.role, key);
            lemma_list_blind(k, s, rs, 0, src);
            let s1 = list_fired(k, s, rs, 0, src).0;
            let bs = row(k.index.back, key);
            lemma_list_at_blind(k, s1, bs, sources(s1.g, src), 0);
            let s2 = list_fired_at(k, s1, bs, sources(s1.g, src), 0).0;
            lemma_list_blind(k, s2, row(k.index.inverse_first, key), 0, tgt);
        },
        Event::NodeNew(n) => {
            lemma_list_blind(k, s, k.index.empty, 0, n);
        },
    }
}

proof fn lemma_drained_blind(k: Config, s: State, left: nat)
    ensures
        drained(k, unmeasured(s), left) == (
            unmeasured(drained(k, s, left).0),
            drained(k, s, left).1,
        ),
    decreases left,
{
    if s.work.len() > 0 && left > 0 {
        let s1 = State { work: s.work.drop_last(), ..s };
        lemma_event_blind(k, s1, s.work.last());
        lemma_drained_blind(k, event_done(k, s1, s.work.last()).0, (left - 1) as nat);
    }
}

/// Saturation comes out the same whether or not it is measured.
pub proof fn lemma_saturation_unmeasured(k: Config, s: State, max_iters: nat)
    ensures
        saturated(k, unmeasured(s), max_iters) == (
            unmeasured(saturated(k, s, max_iters).0),
            saturated(k, s, max_iters).1,
        ),
{
    lemma_drained_blind(k, reseeded(k, s), max_iters);
}

proof fn lemma_open_blind(k: Config, s: State, i: int)
    ensures
        open_disjunction_from(k, unmeasured(s), i) == (
            unmeasured(open_disjunction_from(k, s, i).0),
            open_disjunction_from(k, s, i).1,
        ),
    decreases s.g.nodes.len() - i,
{
    if 0 <= i < s.g.nodes.len() {
        lemma_open_blind(k, check_blocked(k, s, HNode(i as u32)).0, i + 1);
    }
}

/// A search comes out the same whether or not it is measured.
pub proof fn lemma_search_unmeasured(k: Config, s0: State, depth: nat, s1: State, r: HyperResult)
    requires
        solves(k, s0, depth, s1, r),
    ensures
        solves(k, unmeasured(s0), depth, unmeasured(s1), r),
    decreases depth, 1int, 0int, 0int,
{
    reveal(solves);
    reveal(searches);
    let late = k.deadline is Some && s1 == s0 && r is Stalled;
    let sa = budget_checked(k, s0).0;
    let sb = prepared(k, s0).0;
    let sc = inspected(k, s0);
    lemma_saturation_unmeasured(k, sa, FIXPOINT_ITERS as nat);
    lemma_open_blind(k, sb, 0);
    assert(budget_checked(k, unmeasured(s0)) == (unmeasured(sa), budget_checked(k, s0).1));
    assert(prepared(k, unmeasured(s0)) == (unmeasured(sb), prepared(k, s0).1));
    assert(inspected(k, unmeasured(s0)) == unmeasured(sc));
    if !late && proceeds(k, s0) && depth > 0 {
        let sd = deepened(k, sc, depth as int);
        assert(deepened(k, unmeasured(sc), depth as int) == unmeasured(sd));
        match pending(k, s0) {
            Some((ci, n, b)) => {
                reveal(branches);
                let c = Choice { ci: ci as int, n, b };
                lemma_branches_blind(k, sd, depth, c, 0, DepSet::empty(), false, s1, r);
            },
            None => {
                if let Some((n, succs, bound)) = crowded(k, s0) {
                    if clique(k, sc.g, succs).len() <= bound {
                        reveal(merges);
                        reveal(partitions);
                        let (sz, stalled, found) = choose|sz: State, stalled: bool, found: bool|
                            #[trigger]
                            tried(sz, stalled, found) && partitions(
                                k,
                                sd,
                                depth,
                                succs,
                                0,
                                Seq::empty(),
                                bound as nat,
                                false,
                                sz,
                                stalled,
                                found,
                            ) && if found {
                                s1 == sz && r is Sat
                            } else if stalled {
                                s1 == sz && r is Stalled
                            } else {
                                s1 == (State { clash: DepSet::all(), ..sz }) && r is Unsat
                            };
                        lemma_partitions_blind(
                            k,
                            sd,
                            depth,
                            succs,
                            0,
                            Seq::empty(),
                            bound as nat,
                            false,
                            sz,
                            stalled,
                            found,
                        );
                        assert(tried(unmeasured(sz), stalled, found));
                    }
                }
            },
        }
    }
}

proof fn lemma_branches_blind(
    k: Config,
    s: State,
    depth: nat,
    c: Choice,
    j: int,
    combined: DepSet,
    stalled: bool,
    s1: State,
    r: HyperResult,
)
    requires
        branches(k, s, depth, c, j, combined, stalled, s1, r),
    ensures
        branches(k, unmeasured(s), depth, c, j, combined, stalled, unmeasured(s1), r),
    decreases depth, 0int, k.clauses[c.ci].head.len() - j, 0int,
{
    reveal_with_fuel(branches, 2);
    let cl = k.clauses[c.ci];
    let d = level(k, depth as int);
    if 0 <= j < cl.head.len() {
        let deps = body_deps(s.g, cl.body, c.n, c.b).plus(d);
        let st = disjunct_taken(s);
        let (sy, o) = atom_asserted(k, st, cl.head[j], c.n, c.b, deps);
        lemma_atom_blind(k, st, cl.head[j], c.n, c.b, deps);
        assert(disjunct_taken(unmeasured(s)) == unmeasured(st));
        if o is Full {
            let s2 = restored(sy, s.g);
            lemma_branches_blind(k, s2, depth, c, j + 1, combined, true, s1, r);
        } else {
            reveal(solves);
            reveal(searches);
            let (sz, rz) = choose|sz: State, rz: HyperResult| #[trigger]
                ended(sz, rz) && solves(k, sy, (depth - 1) as nat, sz, rz) && match rz {
                    HyperResult::Sat => s1 == sz && r is Sat,
                    HyperResult::Unsat => if !sz.clash.has(d) {
                        s1 == restored(sz, s.g) && r is Unsat
                    } else {
                        branches(
                            k,
                            restored(sz, s.g),
                            depth,
                            c,
                            j + 1,
                            combined.joined(sz.clash),
                            stalled,
                            s1,
                            r,
                        )
                    },
                    HyperResult::Stalled => branches(
                        k,
                        restored(sz, s.g),
                        depth,
                        c,
                        j + 1,
                        combined,
                        true,
                        s1,
                        r,
                    ),
                };
            lemma_search_unmeasured(k, sy, (depth - 1) as nat, sz, rz);
            let s2 = restored(sz, s.g);
            if rz is Stalled {
                lemma_branches_blind(k, s2, depth, c, j + 1, combined, true, s1, r);
            } else if rz is Unsat && sz.clash.has(d) {
                let both = combined.joined(sz.clash);
                lemma_branches_blind(k, s2, depth, c, j + 1, both, stalled, s1, r);
            }
            assert(restored(unmeasured(sz), s.g) == unmeasured(s2));
            assert(ended(unmeasured(sz), rz));
        }
    }
}

proof fn lemma_block_blind(k: Config, s: State, block: Seq<HNode>, j: int)
    ensures
        block_merged(k, unmeasured(s), block, j) == (
            unmeasured(block_merged(k, s, block, j).0),
            block_merged(k, s, block, j).1,
        ),
    decreases block.len() - j,
{
    if 0 <= j < block.len() {
        lemma_merged_blind(k, s, block[0], block[j], DepSet::empty());
        lemma_block_blind(k, merged(k, s, block[0], block[j], DepSet::empty()).0, block, j + 1);
    }
}

proof fn lemma_blocks_blind(k: Config, s: State, groups: Seq<Seq<HNode>>, i: int)
    ensures
        blocks_merged(k, unmeasured(s), groups, i) == (
            unmeasured(blocks_merged(k, s, groups, i).0),
            blocks_merged(k, s, groups, i).1,
        ),
    decreases groups.len() - i,
{
    if 0 <= i < groups.len() {
        lemma_block_blind(k, s, groups[i], 1);
        lemma_blocks_blind(k, block_merged(k, s, groups[i], 1).0, groups, i + 1);
    }
}

proof fn lemma_partitions_blind(
    k: Config,
    s: State,
    depth: nat,
    succs: Seq<HNode>,
    idx: int,
    groups: Seq<Seq<HNode>>,
    n: nat,
    stalled0: bool,
    s1: State,
    stalled1: bool,
    found: bool,
)
    requires
        partitions(k, s, depth, succs, idx, groups, n, stalled0, s1, stalled1, found),
    ensures
        partitions(
            k,
            unmeasured(s),
            depth,
            succs,
            idx,
            groups,
            n,
            stalled0,
            unmeasured(s1),
            stalled1,
            found,
        ),
    decreases depth, 0int, 2 * (succs.len() - idx) + 1, 0int,
{
    reveal(partitions);
    if idx < succs.len() {
        reveal(placements);
        lemma_placements_blind(
            k,
            s,
            depth,
            succs,
            idx,
            groups,
            0,
            n,
            stalled0,
            s1,
            stalled1,
            found,
        );
    } else {
        let st = partition_taken(s);
        let (sy, clash) = blocks_merged(k, st, groups, 0);
        lemma_blocks_blind(k, st, groups, 0);
        assert(partition_taken(unmeasured(s)) == unmeasured(st));
        if clash {
            assert(restored(unmeasured(sy), s.g) == unmeasured(restored(sy, s.g)));
        } else {
            reveal(solves);
            reveal(searches);
            let (sz, rz) = choose|sz: State, rz: HyperResult| #[trigger]
                ended(sz, rz) && solves(k, sy, (depth - 1) as nat, sz, rz) && match rz {
                    HyperResult::Sat => s1 == sz && stalled1 == stalled0 && found,
                    HyperResult::Unsat => s1 == restored(sz, s.g) && stalled1 == stalled0
                        && !found,
                    HyperResult::Stalled => s1 == restored(sz, s.g) && stalled1 && !found,
                };
            lemma_search_unmeasured(k, sy, (depth - 1) as nat, sz, rz);
            assert(restored(unmeasured(sz), s.g) == unmeasured(restored(sz, s.g)));
            assert(ended(unmeasured(sz), rz));
        }
    }
}

proof fn lemma_placements_blind(
    k: Config,
    s: State,
    depth: nat,
    succs: Seq<HNode>,
    idx: int,
    groups: Seq<Seq<HNode>>,
    gi: int,
    n: nat,
    stalled0: bool,
    s1: State,
    stalled1: bool,
    found: bool,
)
    requires
        placements(k, s, depth, succs, idx, groups, gi, n, stalled0, s1, stalled1, found),
    ensures
        placements(
            k,
            unmeasured(s),
            depth,
            succs,
            idx,
            groups,
            gi,
            n,
            stalled0,
            unmeasured(s1),
            stalled1,
            found,
        ),
    decreases depth, 0int, 2 * (succs.len() - idx), groups.len() - gi,
{
    reveal_with_fuel(placements, 2);
    reveal(partitions);
    if gi < groups.len() {
        if joinable(k, s.g, succs[idx], groups[gi]) {
            let groups1 = groups.update(gi, groups[gi].push(succs[idx]));
            let (sm, sl, f) = choose|sm: State, sl: bool, f: bool| #[trigger]
                tried(sm, sl, f) && partitions(
                    k,
                    s,
                    depth,
                    succs,
                    idx + 1,
                    groups1,
                    n,
                    stalled0,
                    sm,
                    sl,
                    f,
                ) && if f {
                    s1 == sm && stalled1 == sl && found
                } else {
                    placements(k, sm, depth, succs, idx, groups, gi + 1, n, sl, s1, stalled1, found)
                };
            lemma_partitions_blind(k, s, depth, succs, idx + 1, groups1, n, stalled0, sm, sl, f);
            if !f {
                lemma_placements_blind(
                    k,
                    sm,
                    depth,
                    succs,
                    idx,
                    groups,
                    gi + 1,
                    n,
                    sl,
                    s1,
                    stalled1,
                    found,
                );
            }
            assert(tried(unmeasured(sm), sl, f));
        } else {
            lemma_placements_blind(
                k,
                s,
                depth,
                succs,
                idx,
                groups,
                gi + 1,
                n,
                stalled0,
                s1,
                stalled1,
                found,
            );
        }
    } else if groups.len() < n {
        lemma_partitions_blind(
            k,
            s,
            depth,
            succs,
            idx + 1,
            groups.push(seq![succs[idx]]),
            n,
            stalled0,
            s1,
            stalled1,
            found,
        );
    }
}

} // verus!
