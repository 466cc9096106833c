//! The search, as a relation on search states: Horn saturation, then
//! branching on a disjunction or on how to merge the successors of a node,
//! with backjumping.

use vstd::prelude::*;
use crate::clause::Var;
use crate::dep_set::DepSet;
use crate::fixpoint::saturated;
use crate::graph::{tick, Config, FireOutcome, Graph, HyperResult, SearchStats, State};
use crate::ids::HNode;
use crate::matching::{binding_valid, matches_of};
use crate::queries::{
    body_deps, card_deps, check_blocked, clique, open_at_most_from, some_head_holds, unmergeable,
};
use crate::rules::{atom_asserted, merged};
use crate::rules_wf::{all_valid, lemma_matches_valid};

verus! {

/// Events processed by one Horn fixpoint before it stalls.
pub const FIXPOINT_ITERS: usize = 100_000;

/// Branches between two divergence checks.
pub const DIV_WINDOW: u64 = 500;

/// The smaller of `n` and the largest `u64`.
pub open spec fn clamp64(n: int) -> int {
    if n > u64::MAX {
        u64::MAX as int
    } else {
        n
    }
}

/// A search makes no progress when over a window of `db` branches nearly all
/// failed (`dr` restores, at least 98 in a hundred) at saturated depth.
pub open spec fn diverging(db: u64, dr: u64, depth_saturated: bool) -> bool {
    depth_saturated && db > 0 && dr as int * 100 >= db as int * 98
}

/// See [`diverging`].
pub fn is_diverging(db: u64, dr: u64, depth_saturated: bool) -> (r: bool)
    ensures
        r == (depth_saturated && db > 0 && dr as int * 100 >= db as int * 98),
{
    depth_saturated && db > 0 && dr as u128 * 100 >= db as u128 * 98
}

/// The smaller of `n` and the largest `u32`.
pub open spec fn clamp32(n: int) -> u32 {
    if n > u32::MAX {
        u32::MAX
    } else {
        n as u32
    }
}

/// How much `a` exceeds `b`, if at all.
pub open spec fn excess(a: u64, b: u64) -> u64 {
    if a > b {
        (a - b) as u64
    } else {
        0
    }
}

/// The divergence check: whether the search is cut off here, and the state
/// with the checkpoint moved on at the end of a window.
pub open spec fn budget_checked(k: Config, s: State) -> (State, bool) {
    let db = excess(s.stats.branches_taken, s.checkpoint.0);
    if !k.adaptive || db < DIV_WINDOW {
        (s, false)
    } else {
        let dr = excess(s.stats.restores, s.checkpoint.1);
        if diverging(db, dr, s.stats.max_branch_depth >= clamp32(k.init_depth as int)) {
            (s, true)
        } else {
            (
                State {
                    checkpoint: (
                        s.stats.branches_taken,
                        s.stats.restores,
                        s.g.nodes.len() as usize,
                    ),
                    ..s
                },
                false,
            )
        }
    }
}

/// A search is cut off exactly if it is to be, and over at least 500 branches
/// since the last check 98 in a hundred were undone, while branches were nested
/// as deeply as they may be. A check after fewer branches changes nothing.
pub proof fn lemma_cut_off(k: Config, s: State)
    ensures
        budget_checked(k, s).1 <==> k.adaptive && s.stats.branches_taken - s.checkpoint.0 >= 500
            && (s.stats.restores - s.checkpoint.1) * 100 >= (s.stats.branches_taken
            - s.checkpoint.0) * 98 && (s.stats.max_branch_depth >= k.init_depth
            || s.stats.max_branch_depth == u32::MAX),
        !k.adaptive || s.stats.branches_taken - s.checkpoint.0 < 500 ==> budget_checked(k, s).0 == s,
        budget_checked(k, s).0 == (State { checkpoint: budget_checked(k, s).0.checkpoint, ..s }),
{
}

/// The decision level of a frame at `depth`.
pub open spec fn level(k: Config, depth: int) -> u32 {
    clamp32(k.init_depth - depth)
}

/// The deepest nesting brought up to that of a frame at `depth`.
pub open spec fn deepened(k: Config, s: State, depth: int) -> State {
    let l = clamp32(k.init_depth - depth + 1);
    if l > s.stats.max_branch_depth {
        State { stats: SearchStats { max_branch_depth: l, ..s.stats }, ..s }
    } else {
        s
    }
}

/// The first binding, from `i` on, under which no head atom holds.
pub open spec fn open_binding_from(
    k: Config,
    g: Graph,
    ci: int,
    x: HNode,
    bs: Seq<Seq<(Var, HNode)>>,
    i: int,
) -> Option<Seq<(Var, HNode)>>
    decreases bs.len() - i,
{
    if i < 0 || i >= bs.len() {
        None
    } else if !some_head_holds(k, g, k.clauses[ci].head, x, bs[i]) {
        Some(bs[i])
    } else {
        open_binding_from(k, g, ci, x, bs, i + 1)
    }
}

/// The first clause, from `ci` on, with several head atoms of which none
/// holds under some match at `x`; with the match.
pub open spec fn open_clause_from(k: Config, g: Graph, x: HNode, ci: int) -> Option<
    (usize, Seq<(Var, HNode)>),
>
    decreases k.clauses.len() - ci,
{
    if ci < 0 || ci >= k.clauses.len() {
        None
    } else if k.clauses[ci].horn() {
        open_clause_from(k, g, x, ci + 1)
    } else {
        match matches_of(g.nodes, k.roles, k.clauses[ci].body, x) {
            None => open_clause_from(k, g, x, ci + 1),
            Some(bs) => match open_binding_from(k, g, ci, x, bs, 0) {
                Some(b) => Some((ci as usize, b)),
                None => open_clause_from(k, g, x, ci + 1),
            },
        }
    }
}

/// The first node from `i` on that is not blocked and at which a disjunction
/// is open; with the clause and the match.
pub open spec fn open_disjunction_from(k: Config, s: State, i: int) -> (
    State,
    Option<(usize, HNode, Seq<(Var, HNode)>)>,
)
    decreases s.g.nodes.len() - i,
{
    if i < 0 || i >= s.g.nodes.len() {
        (s, None)
    } else {
        let n = HNode(i as u32);
        let (s1, blocked) = check_blocked(k, s, n);
        if blocked {
            open_disjunction_from(k, s1, i + 1)
        } else {
            match open_clause_from(k, s1.g, n, 0) {
                Some((ci, b)) => (s1, Some((ci, n, b))),
                None => open_disjunction_from(k, s1, i + 1),
            }
        }
    }
}

/// The graph put back as it was when the branch began, with no events left.
pub open spec fn restored(s: State, g: Graph) -> State {
    State {
        g,
        work: Seq::empty(),
        stats: SearchStats { restores: tick(s.stats.restores), ..s.stats },
        ..s
    }
}

/// What is saved before a branch comes back whole after it: the nodes, what
/// they were merged into, the pairs that must not be merged, the filed nodes
/// and the marks of the snapshot. The branch counts as undone, and that a
/// label was propagated back into the snapshot is not forgotten.
pub proof fn lemma_restored(s: State, after: State)
    ensures
        ({
            let r = restored(after, s.g);
            &&& r.g.nodes == s.g.nodes
            &&& r.g.root == s.g.root
            &&& r.g.neq == s.g.neq
            &&& r.g.filing == s.g.filing && r.g.filed == s.g.filed
            &&& r.g.origin == s.g.origin
            &&& r.work.len() == 0
            &&& r.stats == (SearchStats { restores: tick(after.stats.restores), ..after.stats })
            &&& after.stats.restores < u64::MAX ==> r.stats.restores == after.stats.restores + 1
            &&& r.aborted == after.aborted
        }),
{
}

/// The counters at the start of a disjunctive branch.
pub open spec fn disjunct_taken(s: State) -> State {
    State {
        stats: SearchStats {
            node_clones: tick(s.stats.node_clones),
            branches_taken: tick(s.stats.branches_taken),
            disj_branches: tick(s.stats.disj_branches),
            ..s.stats
        },
        ..s
    }
}

/// The counters at the start of a merging branch.
pub open spec fn partition_taken(s: State) -> State {
    State {
        stats: SearchStats {
            node_clones: tick(s.stats.node_clones),
            branches_taken: tick(s.stats.branches_taken),
            merge_branches: tick(s.stats.merge_branches),
            ..s.stats
        },
        ..s
    }
}

/// A disjunctive branch point: clause `ci` at node `n` under binding `b`.
#[verifier::ext_equal]
pub struct Choice {
    pub ci: int,
    pub n: HNode,
    pub b: Seq<(Var, HNode)>,
}

/// Nodes `block[j..]` merged into `block[0]`; `true` on a clash.
pub open spec fn block_merged(k: Config, s: State, block: Seq<HNode>, j: int) -> (State, bool)
    decreases block.len() - j,
{
    if j < 0 || j >= block.len() {
        (s, false)
    } else {
        let (s1, clash) = merged(k, s, block[0], block[j], DepSet::empty());
        if clash {
            (s1, true)
        } else {
            block_merged(k, s1, block, j + 1)
        }
    }
}

/// The nodes of each block, from block `i` on, merged; `true` on a clash.
pub open spec fn blocks_merged(k: Config, s: State, groups: Seq<Seq<HNode>>, i: int) -> (State, bool)
    decreases groups.len() - i,
{
    if i < 0 || i >= groups.len() {
        (s, false)
    } else {
        let (s1, clash) = block_merged(k, s, groups[i], 1);
        if clash {
            (s1, true)
        } else {
            blocks_merged(k, s1, groups, i + 1)
        }
    }
}

/// Node `s` can join the block.
pub open spec fn joinable(k: Config, g: Graph, s: HNode, block: Seq<HNode>) -> bool {
    forall|i: int| 0 <= i < block.len() ==> !unmergeable(k, g, s, #[trigger] block[i])
}

/// Names the state and the result in which a part of the search ends, where
/// one is said to exist. Holds of any.
pub open spec fn ended(s: State, r: HyperResult) -> bool {
    true
}

/// Names how a part of the enumeration of partitions ends, where a way is said
/// to exist. Holds of any.
pub open spec fn tried(s: State, stalled: bool, found: bool) -> bool {
    true
}

/// From state `s0`, with `depth` levels left, the search may end in state
/// `s1` with result `r`. With a deadline it may also stop at any point at
/// which it looks at the clock; without one the outcome is determined.
#[verifier::opaque]
pub open spec fn solves(k: Config, s0: State, depth: nat, s1: State, r: HyperResult) -> bool
    decreases depth, 2int, 0int, 0int,
{
    ||| k.deadline is Some && s1 == s0 && r is Stalled
    ||| searches(k, s0, depth, s1, r)
}

/// As [`solves`], for a search that does not stop here for its deadline: the
/// divergence check, saturation, and then the branches on an open
/// disjunction or on a violated `≤n`.
#[verifier::opaque]
pub open spec fn searches(k: Config, s0: State, depth: nat, s1: State, r: HyperResult) -> bool
    decreases depth, 1int, 0int, 0int,
{
    let (sa, cut) = budget_checked(k, s0);
    let (sb, rf) = saturated(k, sa, FIXPOINT_ITERS as nat);
    let (sc, open) = open_disjunction_from(k, sb, 0);
    if cut {
        s1 == sa && r is Stalled
    } else if rf !is Sat {
        s1 == sb && r == rf
    } else {
        match open {
            Some((ci, n, b)) => if depth == 0 {
                s1 == sc && r is Stalled
            } else {
                branches(
                    k,
                    deepened(k, sc, depth as int),
                    depth,
                    Choice { ci: ci as int, n, b },
                    0,
                    DepSet::empty(),
                    false,
                    s1,
                    r,
                )
            },
            None => match open_at_most_from(k, sc.g, 0, 0) {
                None => s1 == sc && r is Sat,
                Some((n, succs, bound)) => if clique(k, sc.g, succs).len() > bound {
                    s1 == (State { clash: card_deps(k, sc.g, n, succs), ..sc }) && r is Unsat
                } else if depth == 0 {
                    s1 == sc && r is Stalled
                } else {
                    merges(k, deepened(k, sc, depth as int), depth, succs, bound as nat, s1, r)
                },
            },
        }
    }
}

/// The branch point `c`, tried from head atom `j` on; `combined` and
/// `stalled` sum up the atoms tried before.
#[verifier::opaque]
pub open spec fn branches(
    k: Config,
    s: State,
    depth: nat,
    c: Choice,
    j: int,
    combined: DepSet,
    stalled: bool,
    s1: State,
    r: HyperResult,
) -> bool
    decreases depth, 0int, k.clauses[c.ci].head.len() - j, 0int,
{
    let cl = k.clauses[c.ci];
    let d = level(k, depth as int);
    if depth == 0 {
        false
    } else if j < 0 || j >= cl.head.len() {
        if stalled {
            s1 == s && r is Stalled
        } else {
            s1 == (State { clash: combined.minus(d), ..s }) && r is Unsat
        }
    } else {
        let deps = body_deps(s.g, cl.body, c.n, c.b).plus(d);
        let (sy, o) = atom_asserted(k, disjunct_taken(s), cl.head[j], c.n, c.b, deps);
        if o is Full {
            branches(k, restored(sy, s.g), depth, c, j + 1, combined, true, s1, r)
        } else {
            exists|sz: State, rz: HyperResult| #[trigger]
                ended(sz, rz) && solves(k, sy, (depth - 1) as nat, sz, rz) && match rz {
                    HyperResult::Sat => s1 == sz && r is Sat,
                    HyperResult::Unsat => if !sz.clash.has(d) {
                        s1 == restored(sz, s.g) && r is Unsat
                    } else {
                        branches(
                            k,
                            restored(sz, s.g),
                            depth,
                            c,
                            j + 1,
                            combined.joined(sz.clash),
                            stalled,
                            s1,
                            r,
                        )
                    },
                    HyperResult::Stalled => branches(
                        k,
                        restored(sz, s.g),
                        depth,
                        c,
                        j + 1,
                        combined,
                        true,
                        s1,
                        r,
                    ),
                }
        }
    }
}

/// All partitions of `succs` into at most `n` blocks are tried.
#[verifier::opaque]
pub open spec fn merges(
    k: Config,
    s: State,
    depth: nat,
    succs: Seq<HNode>,
    n: nat,
    s1: State,
    r: HyperResult,
) -> bool
    decreases depth, 0int, 2 * succs.len() + 2, 0int,
{
    exists|sz: State, stalled: bool, found: bool| #[trigger]
        tried(sz, stalled, found) && partitions(k, s, depth, succs, 0, Seq::empty(), n, false, sz, stalled, found) && if found {
            s1 == sz && r is Sat
        } else if stalled {
            s1 == sz && r is Stalled
        } else {
            s1 == (State { clash: DepSet::all(), ..sz }) && r is Unsat
        }
}

/// The partitions that extend `groups`, which partition `succs[..idx]`, are
/// tried; up to a first that leads to a completion (`found`).
#[verifier::opaque]
pub open spec fn partitions(
    k: Config,
    s: State,
    depth: nat,
    succs: Seq<HNode>,
    idx: int,
    groups: Seq<Seq<HNode>>,
    n: nat,
    stalled0: bool,
    s1: State,
    stalled1: bool,
    found: bool,
) -> bool
    decreases depth, 0int, 2 * (succs.len() - idx) + 1, 0int,
{
    if depth == 0 || idx < 0 {
        false
    } else if idx >= succs.len() {
        let (sy, clash) = blocks_merged(k, partition_taken(s), groups, 0);
        if clash {
            s1 == restored(sy, s.g) && stalled1 == stalled0 && !found
        } else {
            exists|sz: State, rz: HyperResult| #[trigger]
                ended(sz, rz) && solves(k, sy, (depth - 1) as nat, sz, rz) && match rz {
                    HyperResult::Sat => s1 == sz && stalled1 == stalled0 && found,
                    HyperResult::Unsat => s1 == restored(sz, s.g) && stalled1 == stalled0
                        && !found,
                    HyperResult::Stalled => s1 == restored(sz, s.g) && stalled1 && !found,
                }
        }
    } else {
        placements(k, s, depth, succs, idx, groups, 0, n, stalled0, s1, stalled1, found)
    }
}

/// As [`partitions`], with `succs[idx]` put into each block from `gi` on
/// that it can join, and then into a new one.
#[verifier::opaque]
pub open spec fn placements(
    k: Config,
    s: State,
    depth: nat,
    succs: Seq<HNode>,
    idx: int,
    groups: Seq<Seq<HNode>>,
    gi: int,
    n: nat,
    stalled0: bool,
    s1: State,
    stalled1: bool,
    found: bool,
) -> bool
    decreases depth, 0int, 2 * (succs.len() - idx), groups.len() - gi,
{
    if depth == 0 || idx < 0 || idx >= succs.len() || gi < 0 {
        false
    } else if gi < groups.len() {
        if joinable(k, s.g, succs[idx], groups[gi]) {
            exists|sm: State, sl: bool, f: bool| #[trigger]
                tried(sm, sl, f) && partitions(
                    k,
                    s,
                    depth,
                    succs,
                    idx + 1,
                    groups.update(gi, groups[gi].push(succs[idx])),
                    n,
                    stalled0,
                    sm,
                    sl,
                    f,
                ) && if f {
                    s1 == sm && stalled1 == sl && found
                } else {
                    placements(
                        k,
                        sm,
                        depth,
                        succs,
                        idx,
                        groups,
                        gi + 1,
                        n,
                        sl,
                        s1,
                        stalled1,
                        found,
                    )
                }
        } else {
            placements(k, s, depth, succs, idx, groups, gi + 1, n, stalled0, s1, stalled1, found)
        }
    } else if groups.len() < n {
        partitions(
            k,
            s,
            depth,
            succs,
            idx + 1,
            groups.push(seq![succs[idx]]),
            n,
            stalled0,
            s1,
            stalled1,
            found,
        )
    } else {
        s1 == s && stalled1 == stalled0 && !found
    }
}

/// The bindings that a search for an open one may return are valid.
proof fn lemma_open_binding(
    k: Config,
    g: Graph,
    ci: int,
    x: HNode,
    bs: Seq<Seq<(Var, HNode)>>,
    i: int,
    n: int,
)
    requires
        0 <= i,
        all_valid(bs, n),
    ensures
        open_binding_from(k, g, ci, x, bs, i) matches Some(b) ==> binding_valid(b, n)
            && bs.contains(b),
    decreases bs.len() - i,
{
    if i < bs.len() {
        assert(binding_valid(bs[i], n));
        lemma_open_binding(k, g, ci, x, bs, i + 1, n);
    }
}

/// What is found is an open disjunction: a clause with several head atoms
/// that matches there.
pub proof fn lemma_open_clause(k: Config, g: Graph, x: HNode, ci: int)
    requires
        g.wf(),
        g.valid(x),
        0 <= ci,
        k.clauses.len() <= usize::MAX,
    ensures
        open_clause_from(k, g, x, ci) matches Some((c, b)) ==> {
            &&& c < k.clauses.len()
            &&& !k.clauses[c as int].horn()
            &&& binding_valid(b, g.nodes.len() as int)
            &&& matches_of(g.nodes, k.roles, k.clauses[c as int].body, x) matches Some(bs)
                && bs.contains(b)
        },
    decreases k.clauses.len() - ci,
{
    if ci < k.clauses.len() {
        lemma_open_clause(k, g, x, ci + 1);
        lemma_matches_valid(g, k.roles, k.clauses[ci].body, x);
        if let Some(bs) = matches_of(g.nodes, k.roles, k.clauses[ci].body, x) {
            lemma_open_binding(k, g, ci, x, bs, 0, g.nodes.len() as int);
        }
    }
}

pub proof fn lemma_open_disjunction(k: Config, s: State, i: int)
    requires
        s.wf(),
        0 <= i,
        k.clauses.len() <= usize::MAX,
    ensures
        open_disjunction_from(k, s, i).0 == (State {
            stats: open_disjunction_from(k, s, i).0.stats,
            ..s
        }),
        open_disjunction_from(k, s, i).1 matches Some((c, n, b)) ==> {
            &&& s.g.valid(n)
            &&& c < k.clauses.len()
            &&& !k.clauses[c as int].horn()
            &&& binding_valid(b, s.g.nodes.len() as int)
            &&& matches_of(s.g.nodes, k.roles, k.clauses[c as int].body, n) matches Some(bs)
                && bs.contains(b)
        },
    decreases s.g.nodes.len() - i,
{
    if i < s.g.nodes.len() {
        let n = HNode(i as u32);
        let (s1, blocked) = check_blocked(k, s, n);
        lemma_open_disjunction(k, s1, i + 1);
        lemma_open_clause(k, s1.g, n, 0);
    }
}

/// The blocks in a vector.
pub open spec fn group_views(v: Seq<Vec<HNode>>) -> Seq<Seq<HNode>> {
    v.map_values(|b: Vec<HNode>| b@)
}

/// A block is not empty and holds nodes of the graph.
pub open spec fn block_wf(g: Graph, block: Seq<HNode>) -> bool {
    &&& block.len() > 0
    &&& forall|i: int| 0 <= i < block.len() ==> g.valid(#[trigger] block[i])
}

pub open spec fn groups_wf(g: Graph, groups: Seq<Seq<HNode>>) -> bool {
    forall|i: int| 0 <= i < groups.len() ==> block_wf(g, #[trigger] groups[i])
}

pub proof fn lemma_groups_wf_grows(g0: Graph, g1: Graph, groups: Seq<Seq<HNode>>)
    requires
        groups_wf(g0, groups),
        g0.nodes.len() <= g1.nodes.len(),
    ensures
        groups_wf(g1, groups),
{
    assert forall|i: int| 0 <= i < groups.len() implies block_wf(g1, #[trigger] groups[i]) by {
        assert(block_wf(g0, groups[i]));
    }
}

/// The state after the divergence check and saturation, with the result.
pub open spec fn prepared(k: Config, s0: State) -> (State, HyperResult) {
    saturated(k, budget_checked(k, s0).0, FIXPOINT_ITERS as nat)
}

/// The state in which a saturated graph is looked at for a disjunction.
pub open spec fn inspected(k: Config, s0: State) -> State {
    open_disjunction_from(k, prepared(k, s0).0, 0).0
}

/// The search goes past saturation.
pub open spec fn proceeds(k: Config, s0: State) -> bool {
    !budget_checked(k, s0).1 && prepared(k, s0).1 is Sat
}

/// The open disjunction, if there is one.
pub open spec fn pending(k: Config, s0: State) -> Option<(usize, HNode, Seq<(Var, HNode)>)> {
    open_disjunction_from(k, prepared(k, s0).0, 0).1
}

/// The violated `≤n`, if there is one.
pub open spec fn crowded(k: Config, s0: State) -> Option<(HNode, Seq<HNode>, u32)> {
    open_at_most_from(k, inspected(k, s0).g, 0, 0)
}

pub proof fn lemma_solves_late(k: Config, s0: State, depth: nat)
    requires
        k.deadline is Some,
    ensures
        solves(k, s0, depth, s0, HyperResult::Stalled),
{
    reveal(solves);
}

/// A search that does not stop at once is a search.
pub proof fn lemma_solves_searched(k: Config, s0: State, depth: nat, s1: State, r: HyperResult)
    requires
        searches(k, s0, depth, s1, r),
    ensures
        solves(k, s0, depth, s1, r),
{
    reveal(solves);
    reveal(searches);
}

pub proof fn lemma_solves_cut(k: Config, s0: State, depth: nat)
    requires
        budget_checked(k, s0).1,
    ensures
        searches(k, s0, depth, budget_checked(k, s0).0, HyperResult::Stalled),
{
    reveal(searches);
}

pub proof fn lemma_solves_unsaturated(k: Config, s0: State, depth: nat)
    requires
        !budget_checked(k, s0).1,
        prepared(k, s0).1 !is Sat,
    ensures
        searches(k, s0, depth, prepared(k, s0).0, prepared(k, s0).1),
{
    reveal(searches);
}

pub proof fn lemma_solves_branching(
    k: Config,
    s0: State,
    depth: nat,
    ci: usize,
    n: HNode,
    b: Seq<(Var, HNode)>,
    s1: State,
    r: HyperResult,
)
    requires
        proceeds(k, s0),
        pending(k, s0) == Some((ci, n, b)),
        if depth == 0 {
            s1 == inspected(k, s0) && r is Stalled
        } else {
            branches(
                k,
                deepened(k, inspected(k, s0), depth as int),
                depth,
                (Choice { ci: ci as int, n, b }),
                0,
                DepSet::empty(),
                false,
                s1,
                r,
            )
        },
    ensures
        searches(k, s0, depth, s1, r),
{
    reveal(searches);
    reveal(branches);
}

pub proof fn lemma_solves_done(k: Config, s0: State, depth: nat)
    requires
        proceeds(k, s0),
        pending(k, s0) is None,
        crowded(k, s0) is None,
    ensures
        searches(k, s0, depth, inspected(k, s0), HyperResult::Sat),
{
    reveal(searches);
}

pub proof fn lemma_solves_merging(
    k: Config,
    s0: State,
    depth: nat,
    n: HNode,
    succs: Seq<HNode>,
    bound: u32,
    s1: State,
    r: HyperResult,
)
    requires
        proceeds(k, s0),
        pending(k, s0) is None,
        crowded(k, s0) == Some((n, succs, bound)),
        ({
            let sc = inspected(k, s0);
            if clique(k, sc.g, succs).len() > bound {
                s1 == (State { clash: card_deps(k, sc.g, n, succs), ..sc }) && r is Unsat
            } else if depth == 0 {
                s1 == sc && r is Stalled
            } else {
                merges(k, deepened(k, sc, depth as int), depth, succs, bound as nat, s1, r)
            }
        }),
    ensures
        searches(k, s0, depth, s1, r),
{
    reveal(searches);
    reveal(merges);
}

/// The state after asserting head atom `j` of a branch point, and the
/// outcome.
#[verifier::opaque]
pub open spec fn disjunct_asserted(k: Config, s: State, depth: nat, c: Choice, j: int) -> (
    State,
    FireOutcome,
) {
    let cl = k.clauses[c.ci];
    let deps = body_deps(s.g, cl.body, c.n, c.b).plus(level(k, depth as int));
    atom_asserted(k, disjunct_taken(s), cl.head[j], c.n, c.b, deps)
}

pub proof fn lemma_branches_exhausted(
    k: Config,
    s: State,
    depth: nat,
    c: Choice,
    j: int,
    combined: DepSet,
    stalled: bool,
)
    requires
        depth > 0,
        j >= k.clauses[c.ci].head.len(),
    ensures
        stalled ==> branches(k, s, depth, c, j, combined, stalled, s, HyperResult::Stalled),
        !stalled ==> branches(
            k,
            s,
            depth,
            c,
            j,
            combined,
            stalled,
            (State { clash: combined.minus(level(k, depth as int)), ..s }),
            HyperResult::Unsat,
        ),
{
    reveal(branches);
}

pub proof fn lemma_branches_full(
    k: Config,
    s: State,
    depth: nat,
    c: Choice,
    j: int,
    combined: DepSet,
    stalled: bool,
    s1: State,
    r: HyperResult,
)
    requires
        depth > 0,
        0 <= j < k.clauses[c.ci].head.len(),
        disjunct_asserted(k, s, depth, c, j).1 is Full,
        branches(
            k,
            restored(disjunct_asserted(k, s, depth, c, j).0, s.g),
            depth,
            c,
            j + 1,
            combined,
            true,
            s1,
            r,
        ),
    ensures
        branches(k, s, depth, c, j, combined, stalled, s1, r),
{
    reveal_with_fuel(branches, 2);
    reveal(disjunct_asserted);
}

pub proof fn lemma_branches_step(
    k: Config,
    s: State,
    depth: nat,
    c: Choice,
    j: int,
    combined: DepSet,
    stalled: bool,
    sz: State,
    rz: HyperResult,
    s1: State,
    r: HyperResult,
)
    requires
        depth > 0,
        0 <= j < k.clauses[c.ci].head.len(),
        disjunct_asserted(k, s, depth, c, j).1 !is Full,
        solves(k, disjunct_asserted(k, s, depth, c, j).0, (depth - 1) as nat, sz, rz),
        match rz {
            HyperResult::Sat => s1 == sz && r is Sat,
            HyperResult::Unsat => if !sz.clash.has(level(k, depth as int)) {
                s1 == restored(sz, s.g) && r is Unsat
            } else {
                branches(
                    k,
                    restored(sz, s.g),
                    depth,
                    c,
                    j + 1,
                    combined.joined(sz.clash),
                    stalled,
                    s1,
                    r,
                )
            },
            HyperResult::Stalled => branches(
                k,
                restored(sz, s.g),
                depth,
                c,
                j + 1,
                combined,
                true,
                s1,
                r,
            ),
        },
    ensures
        branches(k, s, depth, c, j, combined, stalled, s1, r),
{
    reveal_with_fuel(branches, 2);
    reveal(disjunct_asserted);
    reveal(solves);
    reveal(searches);
    assert(ended(sz, rz));
}

pub proof fn lemma_merges_intro(
    k: Config,
    s: State,
    depth: nat,
    succs: Seq<HNode>,
    n: nat,
    sz: State,
    stalled: bool,
    found: bool,
    s1: State,
    r: HyperResult,
)
    requires
        partitions(k, s, depth, succs, 0, Seq::empty(), n, false, sz, stalled, found),
        if found {
            s1 == sz && r is Sat
        } else if stalled {
            s1 == sz && r is Stalled
        } else {
            s1 == (State { clash: DepSet::all(), ..sz }) && r is Unsat
        },
    ensures
        merges(k, s, depth, succs, n, s1, r),
{
    reveal(merges);
    reveal(partitions);
    assert(tried(sz, stalled, found));
}

pub proof fn lemma_partitions_clash(
    k: Config,
    s: State,
    depth: nat,
    succs: Seq<HNode>,
    idx: int,
    groups: Seq<Seq<HNode>>,
    n: nat,
    stalled: bool,
)
    requires
        depth > 0,
        idx >= succs.len(),
        blocks_merged(k, partition_taken(s), groups, 0).1,
    ensures
        partitions(
            k,
            s,
            depth,
            succs,
            idx,
            groups,
            n,
            stalled,
            restored(blocks_merged(k, partition_taken(s), groups, 0).0, s.g),
            stalled,
            false,
        ),
{
    reveal(partitions);
}

pub proof fn lemma_partitions_leaf(
    k: Config,
    s: State,
    depth: nat,
    succs: Seq<HNode>,
    idx: int,
    groups: Seq<Seq<HNode>>,
    n: nat,
    stalled0: bool,
    sz: State,
    rz: HyperResult,
    s1: State,
    stalled1: bool,
    found: bool,
)
    requires
        depth > 0,
        idx >= succs.len(),
        !blocks_merged(k, partition_taken(s), groups, 0).1,
        solves(
            k,
            blocks_merged(k, partition_taken(s), groups, 0).0,
            (depth - 1) as nat,
            sz,
            rz,
        ),
        match rz {
            HyperResult::Sat => s1 == sz && stalled1 == stalled0 && found,
            HyperResult::Unsat => s1 == restored(sz, s.g) && stalled1 == stalled0 && !found,
            HyperResult::Stalled => s1 == restored(sz, s.g) && stalled1 && !found,
        },
    ensures
        partitions(k, s, depth, succs, idx, groups, n, stalled0, s1, stalled1, found),
{
    reveal(partitions);
    reveal(solves);
    reveal(searches);
    assert(ended(sz, rz));
}

pub proof fn lemma_partitions_place(
    k: Config,
    s: State,
    depth: nat,
    succs: Seq<HNode>,
    idx: int,
    groups: Seq<Seq<HNode>>,
    n: nat,
    stalled0: bool,
    s1: State,
    stalled1: bool,
    found: bool,
)
    requires
        depth > 0,
        0 <= idx < succs.len(),
        placements(k, s, depth, succs, idx, groups, 0, n, stalled0, s1, stalled1, found),
    ensures
        partitions(k, s, depth, succs, idx, groups, n, stalled0, s1, stalled1, found),
{
    reveal(partitions);
    reveal(placements);
}

pub proof fn lemma_placements_join(
    k: Config,
    s: State,
    depth: nat,
    succs: Seq<HNode>,
    idx: int,
    groups: Seq<Seq<HNode>>,
    gi: int,
    n: nat,
    stalled0: bool,
    sm: State,
    sl: bool,
    f: bool,
    s1: State,
    stalled1: bool,
    found: bool,
)
    requires
        depth > 0,
        0 <= idx < succs.len(),
        0 <= gi < groups.len(),
        joinable(k, s.g, succs[idx], groups[gi]),
        partitions(
            k,
            s,
            depth,
            succs,
            idx + 1,
            groups.update(gi, groups[gi].push(succs[idx])),
            n,
            stalled0,
            sm,
            sl,
            f,
        ),
        if f {
            s1 == sm && stalled1 == sl && found
        } else {
            placements(k, sm, depth, succs, idx, groups, gi + 1, n, sl, s1, stalled1, found)
        },
    ensures
        placements(k, s, depth, succs, idx, groups, gi, n, stalled0, s1, stalled1, found),
{
    reveal_with_fuel(placements, 2);
    reveal(partitions);
    assert(tried(sm, sl, f));
}

pub proof fn lemma_placements_skip(
    k: Config,
    s: State,
    depth: nat,
    succs: Seq<HNode>,
    idx: int,
    groups: Seq<Seq<HNode>>,
    gi: int,
    n: nat,
    stalled0: bool,
    s1: State,
    stalled1: bool,
    found: bool,
)
    requires
        depth > 0,
        0 <= idx < succs.len(),
        0 <= gi < groups.len(),
        !joinable(k, s.g, succs[idx], groups[gi]),
        placements(k, s, depth, succs, idx, groups, gi + 1, n, stalled0, s1, stalled1, found),
    ensures
        placements(k, s, depth, succs, idx, groups, gi, n, stalled0, s1, stalled1, found),
{
    reveal_with_fuel(placements, 2);
}

pub proof fn lemma_placements_open(
    k: Config,
    s: State,
    depth: nat,
    succs: Seq<HNode>,
    idx: int,
    groups: Seq<Seq<HNode>>,
    gi: int,
    n: nat,
    stalled0: bool,
    s1: State,
    stalled1: bool,
    found: bool,
)
    requires
        depth > 0,
        0 <= idx < succs.len(),
        gi >= groups.len(),
        if groups.len() < n {
            partitions(
                k,
                s,
                depth,
                succs,
                idx + 1,
                groups.push(seq![succs[idx]]),
                n,
                stalled0,
                s1,
                stalled1,
                found,
            )
        } else {
            s1 == s && stalled1 == stalled0 && !found
        },
    ensures
        placements(k, s, depth, succs, idx, groups, gi, n, stalled0, s1, stalled1, found),
{
    reveal(placements);
    reveal(partitions);
}

} // verus!
