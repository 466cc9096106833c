//! What the counters of a search say.

use vstd::prelude::*;
use crate::clause::{horn_only, Atom, Var};
use crate::dep_set::DepSet;
use crate::fixpoint::{drained, event_done, list_fired, list_fired_at, reseeded, saturated, sources};
use crate::graph::{tick, Config, Event, Graph, HyperResult, SearchStats, State};
use crate::ids::{ClassId, HNode, Role};
use crate::index::row;
use crate::matching::{matches_of, var_node};
use crate::node::NodeView;
use crate::queries::{
    blocker_from, body_deps, called, check_blocked, clique, compared, pair_blocker_from,
};
use crate::rules::{
    atom_asserted, bearer_from, bindings_fired, clause_fired, edges_copied, head_fired, labelled,
    labels_copied, merged, nominal_cause, nominal_merged, relinked, sprouts, widened_birth,
};
use crate::search::{
    block_merged, blocks_merged, branches, budget_checked, clamp32, clamp64, crowded, deepened,
    disjunct_taken, ended, inspected, joinable, level, merges, open_clause_from,
    open_disjunction_from, partition_taken, partitions, pending, placements, prepared, proceeds,
    restored, searches, solves, tried, Choice, FIXPOINT_ITERS,
};

verus! {

/// The counters of branching are the same, and no fewer nodes were found to
/// be blocked.
pub open spec fn unbranched(a: SearchStats, b: SearchStats) -> bool {
    &&& a.blocks_fired <= b.blocks_fired
    &&& a.branches_taken == b.branches_taken
    &&& a.disj_branches == b.disj_branches
    &&& a.merge_branches == b.merge_branches
    &&& a.restores == b.restores
    &&& a.max_branch_depth == b.max_branch_depth
    &&& a.node_clones == b.node_clones
}

proof fn lemma_blocker_counts(g: Graph, n: HNode, i: int, st: SearchStats)
    ensures
        unbranched(st, blocker_from(g, n, i, st).0),
        blocker_from(g, n, i, st).1 ==> blocker_from(g, n, i, st).0.blocks_fired == tick(
            st.blocks_fired,
        ),
    decreases g.nodes.len() - i,
{
    if 0 <= i < g.nodes.len() {
        lemma_blocker_counts(g, n, i + 1, st);
        lemma_blocker_counts(g, n, i + 1, compared(st));
    }
}

proof fn lemma_pair_blocker_counts(
    g: Graph,
    n: HNode,
    np: HNode,
    cands: Seq<HNode>,
    i: int,
    st: SearchStats,
)
    ensures
        unbranched(st, pair_blocker_from(g, n, np, cands, i, st).0),
        pair_blocker_from(g, n, np, cands, i, st).1 ==> pair_blocker_from(
            g,
            n,
            np,
            cands,
            i,
            st,
        ).0.blocks_fired == tick(st.blocks_fired),
    decreases cands.len() - i,
{
    if 0 <= i < cands.len() {
        lemma_pair_blocker_counts(g, n, np, cands, i + 1, st);
        lemma_pair_blocker_counts(g, n, np, cands, i + 1, compared(st));
    }
}

pub proof fn lemma_block_counts(k: Config, s: State, n: HNode)
    ensures
        unbranched(s.stats, check_blocked(k, s, n).0.stats),
        check_blocked(k, s, n).1 ==> check_blocked(k, s, n).0.stats.blocks_fired == tick(
            s.stats.blocks_fired,
        ),
{
    let st1 = called(s.g, n, s.stats);
    lemma_blocker_counts(s.g, n, 0, st1);
    if let Some(np) = s.g.at(n).parent {
        lemma_pair_blocker_counts(s.g, n, np, s.g.bucket(s.g.at(n).parent_role->0), 0, st1);
    }
}

proof fn lemma_sprouts_counts(
    k: Config,
    s: State,
    x: HNode,
    role: Role,
    qual: Option<ClassId>,
    deps: DepSet,
    n: nat,
)
    ensures
        sprouts(k, s, x, role, qual, deps, n).0.stats == s.stats,
    decreases n,
{
    if n > 0 {
        lemma_sprouts_counts(k, s, x, role, qual, deps, (n - 1) as nat);
    }
}

pub proof fn lemma_atom_counts(
    k: Config,
    s: State,
    head: Atom,
    x: HNode,
    b: Seq<(Var, HNode)>,
    deps: DepSet,
)
    ensures
        unbranched(s.stats, atom_asserted(k, s, head, x, b, deps).0.stats),
{
    match head {
        Atom::Exists(role, cls, v) => {
            if let Some(t) = var_node(v, x, b) {
                lemma_block_counts(k, s, t);
            }
        },
        Atom::AtLeast(role, qual, m, v) => {
            if let Some(t) = var_node(v, x, b) {
                let r = s.g.rep(t);
                lemma_block_counts(k, s, r);
                let s1 = check_blocked(k, s, r).0;
                let u = s1.g.at(r);
                let done = NodeView { at_least_done: u.at_least_done.push((role, qual, m)), ..u };
                let s2 = State { g: s1.g.with(r, done), ..s1 };
                lemma_sprouts_counts(k, s2, r, role, qual, deps, m as nat);
            }
        },
        _ => {},
    }
}

proof fn lemma_bindings_counts(
    k: Config,
    s: State,
    ci: int,
    x: HNode,
    bs: Seq<Seq<(Var, HNode)>>,
    i: int,
    changed: bool,
)
    ensures
        unbranched(s.stats, bindings_fired(k, s, ci, x, bs, i, changed).0.stats),
    decreases bs.len() - i,
{
    if 0 <= i < bs.len() {
        let cl = k.clauses[ci];
        let d = body_deps(s.g, cl.body, x, bs[i]);
        if cl.head.len() > 0 {
            lemma_atom_counts(k, s, cl.head[0], x, bs[i], d);
        }
        let s1 = head_fired(k, s, cl.head, x, bs[i], d).0;
        lemma_bindings_counts(k, s1, ci, x, bs, i + 1, true);
        lemma_bindings_counts(k, s1, ci, x, bs, i + 1, changed);
    }
}

proof fn lemma_list_counts(k: Config, s: State, cis: Seq<usize>, i: int, n: HNode)
    ensures
        unbranched(s.stats, list_fired(k, s, cis, i, n).0.stats),
    decreases cis.len() - i,
{
    if 0 <= i < cis.len() {
        let ci = cis[i] as int;
        let s0 = State {
            stats: SearchStats { match_attempts: tick(s.stats.match_attempts), ..s.stats },
            ..s
        };
        if let Some(bs) = matches_of(s0.g.nodes, k.roles, k.clauses[ci].body, n) {
            lemma_bindings_counts(k, s0, ci, n, bs, 0, false);
        }
        lemma_list_counts(k, clause_fired(k, s, ci, n).0, cis, i + 1, n);
    }
}

proof fn lemma_list_at_counts(k: Config, s: State, cis: Seq<usize>, ns: Seq<HNode>, j: int)
    ensures
        unbranched(s.stats, list_fired_at(k, s, cis, ns, j).0.stats),
    decreases ns.len() - j,
{
    if 0 <= j < ns.len() {
        lemma_list_counts(k, s, cis, 0, ns[j]);
        lemma_list_at_counts(k, list_fired(k, s, cis, 0, ns[j]).0, cis, ns, j + 1);
    }
}

proof fn lemma_labels_copied_counts(
    s: State,
    n: HNode,
    labels: Seq<ClassId>,
    deps: Seq<DepSet>,
    cause: DepSet,
    i: int,
)
    ensures
        labels_copied(s, n, labels, deps, cause, i).stats == s.stats,
    decreases labels.len() - i,
{
    if 0 <= i < labels.len() {
        let (s1, new) = labelled(s, n, labels[i], deps[i].joined(cause));
        let s2 = if !new && cause != DepSet::empty() {
            State { g: s1.g.with(n, s1.g.at(n).widened(labels[i], cause)), ..s1 }
        } else {
            s1
        };
        lemma_labels_copied_counts(s2, n, labels, deps, cause, i + 1);
    }
}

proof fn lemma_edges_copied_counts(s: State, n: HNode, edges: Seq<(Role, HNode)>, i: int)
    ensures
        edges_copied(s, n, edges, i).stats == s.stats,
    decreases edges.len() - i,
{
    if 0 <= i < edges.len() {
        let (r, t) = edges[i];
        let s1 = State {
            g: crate::rules::edge_in(s.g, n, r, t),
            work: s.work.push(Event::Edge(n, r, t)),
            ..s
        };
        lemma_edges_copied_counts(s1, n, edges, i + 1);
    }
}

proof fn lemma_merged_counts(k: Config, s: State, i0: HNode, j0: HNode, cause0: DepSet)
    ensures
        merged(k, s, i0, j0, cause0).0.stats == s.stats,
{
    let cause = if k.nn_taint_disabled {
        DepSet::empty()
    } else {
        cause0
    };
    let i = s.g.rep(i0);
    let j = s.g.rep(j0);
    let g0 = relinked(s.g, i, j);
    let g1 = if cause != DepSet::empty() {
        g0.with(i, widened_birth(g0.at(i), cause))
    } else {
        g0
    };
    let vj = g1.at(j);
    let s1 = State { g: g1, ..s };
    lemma_labels_copied_counts(s1, i, vj.labels, vj.label_deps, cause, 0);
    let s2 = labels_copied(s1, i, vj.labels, vj.label_deps, cause, 0);
    lemma_edges_copied_counts(s2, i, vj.edges, 0);
}

proof fn lemma_event_counts(k: Config, s: State, ev: Event)
    ensures
        unbranched(s.stats, event_done(k, s, ev).0.stats),
{
    match ev {
        Event::Label(n, c) => {
            let rn = s.g.rep(n);
            if let Some(m) = bearer_from(s.g, rn, c, 0) {
                let cause = nominal_cause(s.g, n, m, c);
                lemma_merged_counts(k, s, rn, m, cause);
            }
            let s1 = nominal_merged(k, s, n, c).0;
            let xs = row(k.index.x, c.0 as int);
            lemma_list_counts(k, s1, xs, 0, n);
            let s2 = list_fired(k, s1, xs, 0, n).0;
            lemma_list_at_counts(k, s2, row(k.index.succ, c.0 as int), sources(s2.g, n), 0);
        },
        Event::Edge(src, role, tgt) => {
            let key = role.id().0 as int;
            let rs = row(k.index.role, key);
            lemma_list_counts(k, s, rs, 0, src);
            let s1 = list_fired(k, s, rs, 0, src).0;
            let bs = row(k.index.back, key);
            lemma_list_at_counts(k, s1, bs, sources(s1.g, src), 0);
            let s2 = list_fired_at(k, s1, bs, sources(s1.g, src), 0).0;
            lemma_list_counts(k, s2, row(k.index.inverse_first, key), 0, tgt);
        },
        Event::NodeNew(n) => {
            lemma_list_counts(k, s, k.index.empty, 0, n);
        },
    }
}

proof fn lemma_drained_counts(k: Config, s: State, left: nat)
    ensures
        unbranched(s.stats, drained(k, s, left).0.stats),
    decreases left,
{
    if s.work.len() > 0 && left > 0 {
        let s1 = State { work: s.work.drop_last(), ..s };
        lemma_event_counts(k, s1, s.work.last());
        lemma_drained_counts(k, event_done(k, s1, s.work.last()).0, (left - 1) as nat);
    }
}

/// Saturation does not branch.
pub proof fn lemma_saturation_unbranched(k: Config, s: State, max_iters: nat)
    ensures
        unbranched(s.stats, saturated(k, s, max_iters).0.stats),
{
    lemma_drained_counts(k, reseeded(k, s), max_iters);
}

pub proof fn lemma_open_counts(k: Config, s: State, i: int)
    ensures
        unbranched(s.stats, open_disjunction_from(k, s, i).0.stats),
        horn_only(k.clauses) ==> open_disjunction_from(k, s, i).1 is None,
    decreases s.g.nodes.len() - i,
{
    if 0 <= i < s.g.nodes.len() {
        let n = HNode(i as u32);
        lemma_block_counts(k, s, n);
        let s1 = check_blocked(k, s, n).0;
        if horn_only(k.clauses) {
            lemma_horn_closed(k, s1.g, n, 0);
        }
        lemma_open_counts(k, s1, i + 1);
    }
}

/// On Horn clauses no disjunction is open.
pub proof fn lemma_horn_closed(k: Config, g: Graph, x: HNode, ci: int)
    requires
        horn_only(k.clauses),
        0 <= ci,
    ensures
        open_clause_from(k, g, x, ci) is None,
    decreases k.clauses.len() - ci,
{
    if ci < k.clauses.len() {
        assert(k.clauses[ci].horn());
        lemma_horn_closed(k, g, x, ci + 1);
    }
}

/// `m` more branches were taken than undone, as far as the counters reach.
pub open spec fn slack(st: SearchStats, m: int) -> bool {
    st.restores + m <= st.branches_taken || st.branches_taken == u64::MAX
}

/// Each branch is a disjunct or a partition, and copies the graph.
pub open spec fn adds_up(st: SearchStats) -> bool {
    &&& st.branches_taken == clamp64(st.disj_branches + st.merge_branches)
    &&& st.node_clones == st.branches_taken
}

/// What a part of the search keeps of the counters.
pub open spec fn keeps_count(k: Config, a: SearchStats, b: SearchStats) -> bool {
    &&& a.blocks_fired <= b.blocks_fired
    &&& a.merge_branches <= b.merge_branches
    &&& adds_up(a) ==> adds_up(b)
    &&& forall|m: int| #[trigger] slack(a, m) ==> slack(b, m)
    &&& a.max_branch_depth <= clamp32(k.init_depth as int) ==> b.max_branch_depth <= clamp32(
        k.init_depth as int,
    )
    &&& horn_only(k.clauses) ==> b.disj_branches == a.disj_branches
}

proof fn lemma_keeps_count_unbranched(k: Config, a: SearchStats, b: SearchStats)
    requires
        unbranched(a, b),
    ensures
        keeps_count(k, a, b),
{
    assert forall|m: int| #[trigger] slack(a, m) implies slack(b, m) by {}
}

proof fn lemma_keeps_count_trans(k: Config, a: SearchStats, b: SearchStats, c: SearchStats)
    requires
        keeps_count(k, a, b),
        keeps_count(k, b, c),
    ensures
        keeps_count(k, a, c),
{
    assert forall|m: int| #[trigger] slack(a, m) implies slack(c, m) by {
        assert(slack(b, m));
    }
}

/// A branch is taken, kept count of, and undone.
proof fn lemma_branch_counts(
    k: Config,
    a: SearchStats,
    b: SearchStats,
    y: SearchStats,
    z: SearchStats,
    d: SearchStats,
    disj: bool,
)
    requires
        b == (SearchStats {
            node_clones: tick(a.node_clones),
            branches_taken: tick(a.branches_taken),
            disj_branches: if disj {
                tick(a.disj_branches)
            } else {
                a.disj_branches
            },
            merge_branches: if disj {
                a.merge_branches
            } else {
                tick(a.merge_branches)
            },
            ..a
        }),
        disj ==> !horn_only(k.clauses),
        unbranched(b, y),
        keeps_count(k, y, z),
        d == z || d == (SearchStats { restores: tick(z.restores), ..z }),
    ensures
        keeps_count(k, a, d),
{
    lemma_keeps_count_unbranched(k, b, y);
    lemma_keeps_count_trans(k, b, y, z);
    assert forall|m: int| #[trigger] slack(a, m) implies slack(d, m) by {
        assert(slack(b, m + 1));
        assert(slack(z, m + 1));
    }
}

/// What a search keeps of the counters.
pub proof fn lemma_solves_counts(k: Config, s0: State, depth: nat, s1: State, r: HyperResult)
    requires
        depth <= k.init_depth,
        solves(k, s0, depth, s1, r),
    ensures
        keeps_count(k, s0.stats, s1.stats),
    decreases depth, 1int, 0int, 0int,
{
    reveal(solves);
    reveal(searches);
    let sa = budget_checked(k, s0).0;
    let sb = prepared(k, s0).0;
    let sc = inspected(k, s0);
    let late = k.deadline is Some && s1 == s0 && r is Stalled;
    lemma_keeps_count_unbranched(k, s0.stats, sa.stats);
    lemma_saturation_unbranched(k, sa, FIXPOINT_ITERS as nat);
    lemma_open_counts(k, sb, 0);
    lemma_keeps_count_unbranched(k, s0.stats, sb.stats);
    lemma_keeps_count_unbranched(k, s0.stats, sc.stats);
    if !late && proceeds(k, s0) && depth > 0 {
        let sd = deepened(k, sc, depth as int);
        assert(keeps_count(k, sc.stats, sd.stats)) by {
            assert forall|m: int| #[trigger] slack(sc.stats, m) implies slack(sd.stats, m) by {}
        }
        lemma_keeps_count_trans(k, s0.stats, sc.stats, sd.stats);
        match pending(k, s0) {
            Some((ci, n, b)) => {
                reveal(branches);
                let c = Choice { ci: ci as int, n, b };
                lemma_branches_counts(k, sd, depth, c, 0, DepSet::empty(), false, s1, r);
                lemma_keeps_count_trans(k, s0.stats, sd.stats, s1.stats);
            },
            None => {
                if let Some((n, succs, bound)) = crowded(k, s0) {
                    if clique(k, sc.g, succs).len() <= bound {
                        reveal(merges);
                        reveal(partitions);
                        let (sz, stalled, found) = choose|sz: State, stalled: bool, found: bool|
                            #[trigger]
                            tried(sz, stalled, found) && partitions(
                                k,
                                sd,
                                depth,
                                succs,
                                0,
                                Seq::empty(),
                                bound as nat,
                                false,
                                sz,
                                stalled,
                                found,
                            ) && if found {
                                s1 == sz && r is Sat
                            } else if stalled {
                                s1 == sz && r is Stalled
                            } else {
                                s1 == (State { clash: DepSet::all(), ..sz }) && r is Unsat
                            };
                        lemma_partitions_counts(
                            k,
                            sd,
                            depth,
                            succs,
                            0,
                            Seq::empty(),
                            bound as nat,
                            false,
                            sz,
                            stalled,
                            found,
                        );
                        lemma_keeps_count_trans(k, s0.stats, sd.stats, s1.stats);
                    }
                }
            },
        }
    }
}

pub proof fn lemma_branches_counts(
    k: Config,
    s: State,
    depth: nat,
    c: Choice,
    j: int,
    combined: DepSet,
    stalled: bool,
    s1: State,
    r: HyperResult,
)
    requires
        depth <= k.init_depth,
        !horn_only(k.clauses),
        branches(k, s, depth, c, j, combined, stalled, s1, r),
    ensures
        keeps_count(k, s.stats, s1.stats),
    decreases depth, 0int, k.clauses[c.ci].head.len() - j, 0int,
{
    reveal_with_fuel(branches, 2);
    let cl = k.clauses[c.ci];
    let d = level(k, depth as int);
    lemma_keeps_count_unbranched(k, s.stats, s.stats);
    if 0 <= j < cl.head.len() {
        let deps = body_deps(s.g, cl.body, c.n, c.b).plus(d);
        let st = disjunct_taken(s);
        let (sy, o) = atom_asserted(k, st, cl.head[j], c.n, c.b, deps);
        lemma_atom_counts(k, st, cl.head[j], c.n, c.b, deps);
        if o is Full {
            let s2 = restored(sy, s.g);
            lemma_keeps_count_unbranched(k, sy.stats, sy.stats);
            lemma_branch_counts(k, s.stats, st.stats, sy.stats, sy.stats, s2.stats, true);
            lemma_branches_counts(k, s2, depth, c, j + 1, combined, true, s1, r);
            lemma_keeps_count_trans(k, s.stats, s2.stats, s1.stats);
        } else {
            reveal(solves);
            reveal(searches);
            let (sz, rz) = choose|sz: State, rz: HyperResult| #[trigger]
                ended(sz, rz) && solves(k, sy, (depth - 1) as nat, sz, rz) && match rz {
                    HyperResult::Sat => s1 == sz && r is Sat,
                    HyperResult::Unsat => if !sz.clash.has(d) {
                        s1 == restored(sz, s.g) && r is Unsat
                    } else {
                        branches(
                            k,
                            restored(sz, s.g),
                            depth,
                            c,
                            j + 1,
                            combined.joined(sz.clash),
                            stalled,
                            s1,
                            r,
                        )
                    },
                    HyperResult::Stalled => branches(
                        k,
                        restored(sz, s.g),
                        depth,
                        c,
                        j + 1,
                        combined,
                        true,
                        s1,
                        r,
                    ),
                };
            lemma_solves_counts(k, sy, (depth - 1) as nat, sz, rz);
            let s2 = restored(sz, s.g);
            lemma_branch_counts(k, s.stats, st.stats, sy.stats, sz.stats, sz.stats, true);
            lemma_branch_counts(k, s.stats, st.stats, sy.stats, sz.stats, s2.stats, true);
            if rz is Stalled {
                lemma_branches_counts(k, s2, depth, c, j + 1, combined, true, s1, r);
                lemma_keeps_count_trans(k, s.stats, s2.stats, s1.stats);
            } else if rz is Unsat && sz.clash.has(d) {
                let both = combined.joined(sz.clash);
                lemma_branches_counts(k, s2, depth, c, j + 1, both, stalled, s1, r);
                lemma_keeps_count_trans(k, s.stats, s2.stats, s1.stats);
            }
        }
    }
}

pub proof fn lemma_blocks_counts(k: Config, s: State, groups: Seq<Seq<HNode>>, i: int)
    ensures
        blocks_merged(k, s, groups, i).0.stats == s.stats,
    decreases groups.len() - i,
{
    if 0 <= i < groups.len() {
        lemma_one_block_counts(k, s, groups[i], 1);
        lemma_blocks_counts(k, block_merged(k, s, groups[i], 1).0, groups, i + 1);
    }
}

proof fn lemma_one_block_counts(k: Config, s: State, block: Seq<HNode>, j: int)
    ensures
        block_merged(k, s, block, j).0.stats == s.stats,
    decreases block.len() - j,
{
    if 0 <= j < block.len() {
        lemma_merged_counts(k, s, block[0], block[j], DepSet::empty());
        lemma_one_block_counts(
            k,
            merged(k, s, block[0], block[j], DepSet::empty()).0,
            block,
            j + 1,
        );
    }
}

pub proof fn lemma_partitions_counts(
    k: Config,
    s: State,
    depth: nat,
    succs: Seq<HNode>,
    idx: int,
    groups: Seq<Seq<HNode>>,
    n: nat,
    stalled0: bool,
    s1: State,
    stalled1: bool,
    found: bool,
)
    requires
        depth <= k.init_depth,
        partitions(k, s, depth, succs, idx, groups, n, stalled0, s1, stalled1, found),
    ensures
        keeps_count(k, s.stats, s1.stats),
    decreases depth, 0int, 2 * (succs.len() - idx) + 1, 0int,
{
    reveal(partitions);
    if idx < succs.len() {
        reveal(placements);
        lemma_placements_counts(
            k,
            s,
            depth,
            succs,
            idx,
            groups,
            0,
            n,
            stalled0,
            s1,
            stalled1,
            found,
        );
    } else {
        let st = partition_taken(s);
        let (sy, clash) = blocks_merged(k, st, groups, 0);
        lemma_blocks_counts(k, st, groups, 0);
        if clash {
            lemma_keeps_count_unbranched(k, sy.stats, sy.stats);
            lemma_branch_counts(k, s.stats, st.stats, sy.stats, sy.stats, s1.stats, false);
        } else {
            reveal(solves);
            reveal(searches);
            let (sz, rz) = choose|sz: State, rz: HyperResult| #[trigger]
                ended(sz, rz) && solves(k, sy, (depth - 1) as nat, sz, rz) && match rz {
                    HyperResult::Sat => s1 == sz && stalled1 == stalled0 && found,
                    HyperResult::Unsat => s1 == restored(sz, s.g) && stalled1 == stalled0
                        && !found,
                    HyperResult::Stalled => s1 == restored(sz, s.g) && stalled1 && !found,
                };
            lemma_solves_counts(k, sy, (depth - 1) as nat, sz, rz);
            lemma_branch_counts(k, s.stats, st.stats, sy.stats, sz.stats, s1.stats, false);
        }
    }
}

pub proof fn lemma_placements_counts(
    k: Config,
    s: State,
    depth: nat,
    succs: Seq<HNode>,
    idx: int,
    groups: Seq<Seq<HNode>>,
    gi: int,
    n: nat,
    stalled0: bool,
    s1: State,
    stalled1: bool,
    found: bool,
)
    requires
        depth <= k.init_depth,
        placements(k, s, depth, succs, idx, groups, gi, n, stalled0, s1, stalled1, found),
    ensures
        keeps_count(k, s.stats, s1.stats),
    decreases depth, 0int, 2 * (succs.len() - idx), groups.len() - gi,
{
    reveal_with_fuel(placements, 2);
    reveal(partitions);
    lemma_keeps_count_unbranched(k, s.stats, s.stats);
    if gi < groups.len() {
        if joinable(k, s.g, succs[idx], groups[gi]) {
            let groups1 = groups.update(gi, groups[gi].push(succs[idx]));
            let (sm, sl, f) = choose|sm: State, sl: bool, f: bool| #[trigger]
                tried(sm, sl, f) && partitions(
                    k,
                    s,
                    depth,
                    succs,
                    idx + 1,
                    groups1,
                    n,
                    stalled0,
                    sm,
                    sl,
                    f,
                ) && if f {
                    s1 == sm && stalled1 == sl && found
                } else {
                    placements(k, sm, depth, succs, idx, groups, gi + 1, n, sl, s1, stalled1, found)
                };
            lemma_partitions_counts(k, s, depth, succs, idx + 1, groups1, n, stalled0, sm, sl, f);
            if !f {
                lemma_placements_counts(
                    k,
                    sm,
                    depth,
                    succs,
                    idx,
                    groups,
                    gi + 1,
                    n,
                    sl,
                    s1,
                    stalled1,
                    found,
                );
                lemma_keeps_count_trans(k, s.stats, sm.stats, s1.stats);
            }
        } else {
            lemma_placements_counts(
                k,
                s,
                depth,
                succs,
                idx,
                groups,
                gi + 1,
                n,
                stalled0,
                s1,
                stalled1,
                found,
            );
        }
    } else if groups.len() < n {
        lemma_partitions_counts(
            k,
            s,
            depth,
            succs,
            idx + 1,
            groups.push(seq![succs[idx]]),
            n,
            stalled0,
            s1,
            stalled1,
            found,
        );
    }
}

/// The counters of a search fit together: each branch is a disjunct or a
/// partition and copies the graph, no more branches are undone than were
/// taken, none is nested deeper than the search may go, and Horn clauses
/// alone make for no disjunctive branches.
pub proof fn lemma_search_counts(k: Config, s0: State, s1: State, r: HyperResult)
    requires
        s0.stats == SearchStats::zero(),
        solves(k, s0, k.init_depth as nat, s1, r),
    ensures
        s1.stats.branches_taken == clamp64(s1.stats.disj_branches + s1.stats.merge_branches),
        s1.stats.node_clones == s1.stats.branches_taken,
        s1.stats.restores <= s1.stats.branches_taken,
        s1.stats.max_branch_depth <= clamp32(k.init_depth as int),
        horn_only(k.clauses) ==> s1.stats.disj_branches == 0,
{
    lemma_solves_counts(k, s0, k.init_depth as nat, s1, r);
    assert(slack(s0.stats, 0));
    assert(slack(s1.stats, 0));
}

} // verus!
