//! What a search that ends in `Sat` leaves behind, and that without a
//! deadline the outcome of a search is determined.

use vstd::prelude::*;
use crate::assurance::lemma_merged_assured;
use crate::clause::{horn_only, Var};
use crate::counting::{
    lemma_atom_counts, lemma_block_counts, lemma_blocks_counts, lemma_branches_counts,
    lemma_open_counts, lemma_partitions_counts, lemma_placements_counts,
    lemma_saturation_unbranched, lemma_solves_counts,
};
use crate::dep_set::DepSet;
use crate::fixpoint::{lemma_saturated, reseeded, saturated};
use crate::graph::{grows, lemma_grows_trans, Config, Graph, HyperResult, SearchStats, State};
use crate::horn_closure::{
    horn_fired, horn_met, individual, lemma_fired_weaker, lemma_primed, lemma_primed_grows,
    lemma_saturation_closed, lemma_saturation_coarser, lemma_saturation_settles, primed, quiet,
    sole,
};
use crate::ids::HNode;
use crate::invariants::lemma_saturation_keeps;
use crate::matching::{binding_valid, matches_of};
use crate::node::Card;
use crate::queries::{
    block_check, body_deps, check_blocked, lemma_block_check_stats, open_at_most_from,
    some_head_holds, successors,
};
use crate::refutation::lemma_partitions_frame;
use crate::rules::{atom_asserted, merged};
use crate::rules_wf::{lemma_atom_asserted, lemma_merged};
use crate::search::{
    block_merged, block_wf, blocks_merged, branches, budget_checked, crowded, deepened,
    disjunct_taken, ended, groups_wf, inspected, joinable, lemma_groups_wf_grows,
    lemma_open_disjunction, level, merges, open_binding_from, open_clause_from,
    open_disjunction_from, partition_taken, partitions, pending, placements, prepared, restored,
    searches, solves, tried, Choice, FIXPOINT_ITERS,
};
use crate::unfolding::{
    all_assured, along_named, coarser, forward_only, lemma_assured_unfolds, lemma_coarser_trans,
    lemma_merged_coarser, lemma_merged_in_order, lemma_tidy_unfolds, lemma_unfolds_atom,
    lemma_unfolds_coarser, lemma_unmerged_before, mirrored, tidy, unmerged,
};

verus! {

/// No `≤n` constraint is violated.
pub open spec fn counts_hold(k: Config, g: Graph) -> bool {
    forall|n: HNode, c: Card|
        g.valid(n) && g.rep(n) == n && #[trigger] g.at(n).at_most.contains(c) ==> successors(
            k,
            g,
            n,
            c.0,
            c.1,
        ).len() <= c.2
}

/// At node `n`, every match of a clause with several head atoms has one that
/// holds.
pub open spec fn disjunctions_hold(k: Config, g: Graph, n: HNode) -> bool {
    forall|ci: int, b: Seq<(Var, HNode)>|
        0 <= ci < k.clauses.len() && !k.clauses[ci].horn() && #[trigger] matched(k, g, ci, n, b)
            ==> some_head_holds(k, g, k.clauses[ci].head, n, b)
}

/// `b` is among the matches of clause `ci` at `n`.
pub open spec fn matched(k: Config, g: Graph, ci: int, n: HNode, b: Seq<(Var, HNode)>) -> bool {
    matches_of(g.nodes, k.roles, k.clauses[ci].body, n) matches Some(bs) && bs.contains(b)
}

/// Nothing is left to decide: every constraint holds, and so does every
/// disjunction at a node that is not blocked.
pub open spec fn decided(k: Config, g: Graph) -> bool {
    &&& counts_hold(k, g)
    &&& forall|n: HNode, st: SearchStats|
        g.valid(n) && !(#[trigger] block_check(k, g, n, st)).1 ==> disjunctions_hold(k, g, n)
}

proof fn lemma_no_open_binding(
    k: Config,
    g: Graph,
    ci: int,
    x: HNode,
    bs: Seq<Seq<(Var, HNode)>>,
    i: int,
)
    requires
        0 <= i,
        open_binding_from(k, g, ci, x, bs, i) is None,
    ensures
        forall|j: int|
            i <= j < bs.len() ==> some_head_holds(k, g, k.clauses[ci].head, x, #[trigger] bs[j]),
    decreases bs.len() - i,
{
    if i < bs.len() {
        lemma_no_open_binding(k, g, ci, x, bs, i + 1);
    }
}

proof fn lemma_no_open_clause(k: Config, g: Graph, x: HNode, ci: int)
    requires
        0 <= ci,
        open_clause_from(k, g, x, ci) is None,
    ensures
        forall|cj: int, b: Seq<(Var, HNode)>|
            ci <= cj < k.clauses.len() && !k.clauses[cj].horn() && #[trigger] matched(k, g, cj, x, b)
                ==> some_head_holds(k, g, k.clauses[cj].head, x, b),
    decreases k.clauses.len() - ci,
{
    if ci < k.clauses.len() {
        lemma_no_open_clause(k, g, x, ci + 1);
        if !k.clauses[ci].horn() {
            if let Some(bs) = matches_of(g.nodes, k.roles, k.clauses[ci].body, x) {
                lemma_no_open_binding(k, g, ci, x, bs, 0);
                assert forall|b: Seq<(Var, HNode)>| #[trigger]
                    matched(k, g, ci, x, b) implies some_head_holds(
                    k,
                    g,
                    k.clauses[ci].head,
                    x,
                    b,
                ) by {
                    let j = bs.index_of(b);
                    assert(bs[j] == b);
                }
            }
        }
    }
}

proof fn lemma_no_open_disjunction(k: Config, s: State, i: int)
    requires
        s.wf(),
        0 <= i,
        open_disjunction_from(k, s, i).1 is None,
    ensures
        forall|n: HNode, st: SearchStats|
            i <= n.at() && s.g.valid(n) && !(#[trigger] block_check(k, s.g, n, st)).1
                ==> disjunctions_hold(k, s.g, n),
        quiet(s, open_disjunction_from(k, s, i).0) ==> forall|n: HNode, st: SearchStats|
            i <= n.at() && s.g.valid(n) ==> !(#[trigger] block_check(k, s.g, n, st)).1,
    decreases s.g.nodes.len() - i,
{
    if i < s.g.nodes.len() {
        let m = HNode(i as u32);
        let (s1, blocked) = check_blocked(k, s, m);
        lemma_no_open_disjunction(k, s1, i + 1);
        lemma_block_counts(k, s, m);
        lemma_open_counts(k, s1, i + 1);
        if quiet(s, open_disjunction_from(k, s, i).0) {
            assert forall|n: HNode, st: SearchStats| i <= n.at() && s.g.valid(n) implies !(
            #[trigger] block_check(k, s.g, n, st)).1 by {
                if n.at() == i {
                    assert(n == m);
                    lemma_block_check_stats(k, s.g, n, st, s.stats);
                }
            }
        }
        assert forall|n: HNode, st: SearchStats|
            i <= n.at() && s.g.valid(n) && !(#[trigger] block_check(
                k,
                s.g,
                n,
                st,
            )).1 implies disjunctions_hold(k, s.g, n) by {
            if n.at() == i {
                assert(n == m);
                lemma_block_check_stats(k, s.g, n, st, s.stats);
                lemma_no_open_clause(k, s.g, n, 0);
            }
        }
    }
}

proof fn lemma_no_open_at_most(k: Config, g: Graph, i: int, j: int)
    requires
        g.wf(),
        0 <= i,
        0 <= j,
        open_at_most_from(k, g, i, j) is None,
    ensures
        forall|n: HNode, q: int|
            g.valid(n) && g.rep(n) == n && 0 <= q < g.at(n).at_most.len() && (i < n.at() || (i
                == n.at() && j <= q)) ==> successors(
                k,
                g,
                n,
                (#[trigger] g.at(n).at_most[q]).0,
                g.at(n).at_most[q].1,
            ).len() <= g.at(n).at_most[q].2,
    decreases g.nodes.len() - i, g.nodes[i].at_most.len() - j,
{
    if i < g.nodes.len() {
        if g.root[i].at() != i || j >= g.nodes[i].at_most.len() {
            lemma_no_open_at_most(k, g, i + 1, 0);
        } else {
            lemma_no_open_at_most(k, g, i, j + 1);
        }
        assert(g.nodes[i].order == i) by {
            assert(g.node_wf(g.nodes[i], i));
        }
        assert forall|n: HNode, q: int|
            g.valid(n) && g.rep(n) == n && 0 <= q < g.at(n).at_most.len() && (i < n.at() || (i
                == n.at() && j <= q)) implies successors(
            k,
            g,
            n,
            (#[trigger] g.at(n).at_most[q]).0,
            g.at(n).at_most[q].1,
        ).len() <= g.at(n).at_most[q].2 by {
            if n.at() == i {
                assert(n == HNode(i as u32));
            }
        }
    }
}

/// No node is blocked.
pub open spec fn unblocked(k: Config, g: Graph) -> bool {
    forall|n: HNode, st: SearchStats| g.valid(n) ==> !(#[trigger] block_check(k, g, n, st)).1
}

/// Saturation sees all there is: no snapshot is replayed lazily, and the
/// indexes are those of the clauses.
pub open spec fn closable(k: Config) -> bool {
    k.lazy is None && k.index.of(k.clauses, k.roles)
}

/// Saturation from the graph sees all there is to see: the indexes are those
/// of the clauses, and what is passed over in a replayed snapshot asks for
/// nothing that is not there.
pub open spec fn attended(k: Config, g: Graph) -> bool {
    k.index.of(k.clauses, k.roles) && primed(k, g)
}

/// Where no snapshot is replayed lazily, saturation sees all there is.
pub proof fn lemma_closable_attended(k: Config, g: Graph)
    requires
        closable(k),
    ensures
        attended(k, g),
{
    lemma_primed(k, g);
}

/// The graph `g` is what saturation from `s` comes to without a clash, where
/// `s` came of the graph `lo` and nothing was lost on the way.
pub open spec fn ripens(k: Config, lo: Graph, s: State, g: Graph) -> bool {
    &&& s.wf()
    &&& grows(lo, s.g)
    &&& saturated(k, s, FIXPOINT_ITERS as nat).1 is Sat
    &&& saturated(k, s, FIXPOINT_ITERS as nat).0.g == g
}

/// What a search from `s0` that ends in `Sat` leaves behind. Nothing is lost
/// from the graph, edges are recorded at both ends, and nothing is open. Each
/// nominal is borne by one node, of those not merged away. Every `≥n` that was
/// made to hold goes on holding. Edges run along named roles if they did at the start
/// and no head asks for others. The Horn clauses have fired, those that
/// generate nodes included if no node was found to be blocked and no `≥n`
/// could be undone, see [`individual`], and in any case unless the node was
/// blocked when the clause fired, see [`horn_met`]. Where no nodes were merged
/// at all, the graph is as tidy as it was at the start.
pub open spec fn completes(k: Config, s0: State, s1: State) -> bool {
    &&& s1.wf()
    &&& grows(s0.g, s1.g)
    &&& coarser(s0.g, s1.g)
    &&& decided(k, s1.g)
    &&& mirrored(s0.g) ==> mirrored(s1.g)
    &&& attended(k, s0.g) && mirrored(s0.g) ==> horn_fired(
        k,
        s1.g,
        quiet(s0, s1) && individual(k, s1.g),
    )
    &&& attended(k, s0.g) && mirrored(s0.g) ==> exists|s: State| #[trigger]
        ripens(k, s0.g, s, s1.g) && horn_met(k, reseeded(k, s), s1.g)
    &&& k.lazy is None ==> sole(k, s1.g)
    &&& all_assured(k, s0.g) ==> all_assured(k, s1.g)
    &&& forward_only(k) && along_named(s0.g) ==> along_named(s1.g)
    &&& forward_only(k) && tidy(k, s0.g) && unmerged(s1.g) ==> tidy(k, s1.g)
    &&& quiet(s0, s1) ==> unblocked(k, s1.g)
}

/// What a search leaves behind does not depend on what came before it, as
/// long as that kept the graph in order.
proof fn lemma_completes_from(k: Config, a: State, b: State, s1: State)
    requires
        a.g.wf(),
        completes(k, b, s1),
        grows(a.g, b.g),
        coarser(a.g, b.g),
        a.stats.blocks_fired <= b.stats.blocks_fired <= s1.stats.blocks_fired,
        mirrored(a.g) ==> mirrored(b.g),
        all_assured(k, a.g) ==> all_assured(k, b.g),
        forward_only(k) && along_named(a.g) ==> along_named(b.g),
        forward_only(k) && tidy(k, a.g) && unmerged(s1.g) ==> tidy(k, b.g),
    ensures
        completes(k, a, s1),
{
    lemma_grows_trans(a.g, b.g, s1.g);
    lemma_coarser_trans(a.g, b.g, s1.g);
    if attended(k, a.g) && mirrored(a.g) {
        lemma_primed_grows(k, a.g, b.g);
        lemma_fired_weaker(
            k,
            s1.g,
            quiet(b, s1) && individual(k, s1.g),
            quiet(a, s1) && individual(k, s1.g),
        );
        let s = choose|s: State| #[trigger]
            ripens(k, b.g, s, s1.g) && horn_met(k, reseeded(k, s), s1.g);
        lemma_grows_trans(a.g, b.g, s.g);
        assert(ripens(k, a.g, s, s1.g));
    }
}

/// What saturation does at the beginning of a search that ends in `s1`.
proof fn lemma_prepared(k: Config, s0: State, s1: State)
    requires
        k.wf(),
        s0.wf(),
        prepared(k, s0).1 is Sat,
        coarser(prepared(k, s0).0.g, s1.g),
    ensures
        ({
            let sa = budget_checked(k, s0).0;
            let sb = prepared(k, s0).0;
            &&& sb.wf()
            &&& grows(s0.g, sb.g)
            &&& coarser(s0.g, sb.g)
            &&& mirrored(s0.g) ==> mirrored(sb.g)
            &&& attended(k, s0.g) && mirrored(s0.g) ==> horn_fired(
                k,
                sb.g,
                quiet(sa, sb) && individual(k, sb.g),
            )
            &&& attended(k, s0.g) && mirrored(s0.g) ==> horn_met(k, reseeded(k, sa), sb.g)
            &&& k.lazy is None ==> sole(k, sb.g)
            &&& all_assured(k, s0.g) ==> all_assured(k, sb.g)
            &&& forward_only(k) && along_named(s0.g) ==> along_named(sb.g)
            &&& forward_only(k) && tidy(k, s0.g) && unmerged(s1.g) ==> tidy(k, sb.g)
        }),
{
    let sa = budget_checked(k, s0).0;
    let sb = prepared(k, s0).0;
    lemma_saturated(k, sa, FIXPOINT_ITERS as nat);
    lemma_saturation_coarser(k, sa, FIXPOINT_ITERS as nat);
    if unmerged(s1.g) {
        lemma_unmerged_before(sb.g, s1.g);
    }
    lemma_saturation_settles(k, sa, FIXPOINT_ITERS as nat);
    lemma_saturation_keeps(k, sa, FIXPOINT_ITERS as nat);
    if attended(k, s0.g) && mirrored(s0.g) {
        lemma_saturation_closed(k, sa, FIXPOINT_ITERS as nat);
    }
}

/// `Sat` leaves nothing open: no `≤n` is violated in the completion, and at
/// every node that is not blocked each disjunction has a head atom that
/// holds. Where saturation is known to reach a fixpoint, the Horn clauses have
/// fired too.
pub proof fn lemma_sat_decided(k: Config, s0: State, depth: nat, s1: State)
    requires
        k.wf(),
        s0.wf(),
        depth <= k.init_depth,
        solves(k, s0, depth, s1, HyperResult::Sat),
    ensures
        completes(k, s0, s1),
    decreases depth, 1int, 0int, 0int,
{
    reveal(solves);
    reveal(searches);
    let sa = budget_checked(k, s0).0;
    let (sb, rf) = prepared(k, s0);
    lemma_saturated(k, sa, FIXPOINT_ITERS as nat);
    lemma_open_disjunction(k, sb, 0);
    let sc = inspected(k, s0);
    assert(sc.g == sb.g && sc.work == sb.work);
    lemma_saturation_unbranched(k, sa, FIXPOINT_ITERS as nat);
    lemma_open_counts(k, sb, 0);
    let sd = deepened(k, sc, depth as int);
    let r = HyperResult::Sat;
    match pending(k, s0) {
        Some((ci, n, b)) => {
            reveal(branches);
            let c = Choice { ci: ci as int, n, b };
            lemma_branches_decided(k, sd, depth, c, 0, DepSet::empty(), false, s1);
            lemma_branches_counts(k, sd, depth, c, 0, DepSet::empty(), false, s1, r);
            lemma_prepared(k, s0, s1);
            lemma_completes_from(k, s0, sd, s1);
        },
        None => match crowded(k, s0) {
            None => {
                lemma_no_open_disjunction(k, sb, 0);
                lemma_no_open_at_most(k, sc.g, 0, 0);
                let g = sc.g;
                assert forall|n: HNode, c: Card|
                    g.valid(n) && g.rep(n) == n && #[trigger] g.at(n).at_most.contains(
                        c,
                    ) implies successors(k, g, n, c.0, c.1).len() <= c.2 by {
                    let q = g.at(n).at_most.index_of(c);
                    assert(g.at(n).at_most[q] == c);
                }
                lemma_prepared(k, s0, s1);
                if attended(k, s0.g) && mirrored(s0.g) {
                    lemma_fired_weaker(
                        k,
                        sb.g,
                        quiet(sa, sb) && individual(k, sb.g),
                        quiet(s0, s1) && individual(k, s1.g),
                    );
                    assert(ripens(k, s0.g, sa, s1.g));
                }
            },
            Some((n, succs, bound)) => {
                reveal(merges);
                crate::truth_card::lemma_open_at_most(k, sc.g, 0, 0);
                let c = choose|c: Card| c.2 == bound && #[trigger] crate::truth_card::counted_by(
                    k,
                    sc.g,
                    n,
                    c,
                    succs,
                );
                assert(sc.g.node_wf(sc.g.nodes[n.at()], n.at()));
                crate::queries::lemma_role_succ_valid(sc.g, k.roles, sc.g.at(n).edges, c.0, c.1);
                let (sz, stalled, found) = choose|sz: State, stalled: bool, found: bool| #[trigger]
                    tried(sz, stalled, found) && partitions(
                        k,
                        sd,
                        depth,
                        succs,
                        0,
                        Seq::empty(),
                        bound as nat,
                        false,
                        sz,
                        stalled,
                        found,
                    ) && if found {
                        s1 == sz && r is Sat
                    } else if stalled {
                        s1 == sz && r is Stalled
                    } else {
                        s1 == (State { clash: DepSet::all(), ..sz }) && r is Unsat
                    };
                reveal(partitions);
                lemma_partitions_decided(
                    k,
                    sd,
                    depth,
                    succs,
                    0,
                    Seq::empty(),
                    bound as nat,
                    false,
                    sz,
                    stalled,
                );
                lemma_partitions_counts(
                    k,
                    sd,
                    depth,
                    succs,
                    0,
                    Seq::empty(),
                    bound as nat,
                    false,
                    sz,
                    stalled,
                    true,
                );
                lemma_prepared(k, s0, s1);
                lemma_completes_from(k, s0, sd, s1);
            },
        },
    }
}

proof fn lemma_block_wf(k: Config, s: State, block: Seq<HNode>, j: int)
    requires
        s.wf(),
        0 <= j,
        block_wf(s.g, block),
    ensures
        block_merged(k, s, block, j).0.wf(),
        block_merged(k, s, block, j).0.g.nodes.len() == s.g.nodes.len(),
        grows(s.g, block_merged(k, s, block, j).0.g),
        coarser(s.g, block_merged(k, s, block, j).0.g),
        unmerged(block_merged(k, s, block, j).0.g) ==> block_merged(k, s, block, j).0.g == s.g,
        mirrored(s.g) ==> mirrored(block_merged(k, s, block, j).0.g),
        along_named(s.g) ==> along_named(block_merged(k, s, block, j).0.g),
        all_assured(k, s.g) ==> all_assured(k, block_merged(k, s, block, j).0.g),
    decreases block.len() - j,
{
    if j < block.len() {
        assert(s.g.valid(block[0]) && s.g.valid(block[j]));
        lemma_merged(k, s, block[0], block[j], DepSet::empty());
        lemma_merged_in_order(k, s, block[0], block[j], DepSet::empty());
        let s1 = merged(k, s, block[0], block[j], DepSet::empty()).0;
        lemma_merged_coarser(k, s, block[0], block[j], DepSet::empty());
        if all_assured(k, s.g) {
            lemma_merged_assured(k, s, block[0], block[j], DepSet::empty());
        }
        lemma_block_wf(k, s1, block, j + 1);
        let g2 = block_merged(k, s1, block, j + 1).0.g;
        lemma_grows_trans(s.g, s1.g, g2);
        lemma_coarser_trans(s.g, s1.g, g2);
        if unmerged(g2) {
            lemma_unmerged_before(s1.g, g2);
        }
    }
}

pub proof fn lemma_blocks_wf(k: Config, s: State, groups: Seq<Seq<HNode>>, i: int)
    requires
        s.wf(),
        0 <= i,
        groups_wf(s.g, groups),
    ensures
        blocks_merged(k, s, groups, i).0.wf(),
        grows(s.g, blocks_merged(k, s, groups, i).0.g),
        coarser(s.g, blocks_merged(k, s, groups, i).0.g),
        unmerged(blocks_merged(k, s, groups, i).0.g) ==> blocks_merged(k, s, groups, i).0.g == s.g,
        mirrored(s.g) ==> mirrored(blocks_merged(k, s, groups, i).0.g),
        along_named(s.g) ==> along_named(blocks_merged(k, s, groups, i).0.g),
        all_assured(k, s.g) ==> all_assured(k, blocks_merged(k, s, groups, i).0.g),
    decreases groups.len() - i,
{
    if i < groups.len() {
        assert(block_wf(s.g, groups[i]));
        lemma_block_wf(k, s, groups[i], 1);
        let s1 = block_merged(k, s, groups[i], 1).0;
        lemma_groups_wf_grows(s.g, s1.g, groups);
        lemma_blocks_wf(k, s1, groups, i + 1);
        let g2 = blocks_merged(k, s1, groups, i + 1).0.g;
        lemma_grows_trans(s.g, s1.g, g2);
        lemma_coarser_trans(s.g, s1.g, g2);
        if unmerged(g2) {
            lemma_unmerged_before(s1.g, g2);
        }
    }
}

/// The branch point is one of the graph.
pub open spec fn choice_wf(k: Config, g: Graph, c: Choice) -> bool {
    &&& g.valid(c.n)
    &&& 0 <= c.ci < k.clauses.len()
    &&& binding_valid(c.b, g.nodes.len() as int)
}

proof fn lemma_branches_decided(
    k: Config,
    s: State,
    depth: nat,
    c: Choice,
    j: int,
    combined: DepSet,
    stalled: bool,
    s1: State,
)
    requires
        k.wf(),
        s.wf(),
        choice_wf(k, s.g, c),
        0 <= j,
        depth <= k.init_depth,
        !k.clauses[c.ci].horn(),
        branches(k, s, depth, c, j, combined, stalled, s1, HyperResult::Sat),
    ensures
        completes(k, s, s1),
    decreases depth, 0int, k.clauses[c.ci].head.len() - j, 0int,
{
    reveal_with_fuel(branches, 2);
    let cl = k.clauses[c.ci];
    let d = level(k, depth as int);
    let r = HyperResult::Sat;
    if j < cl.head.len() {
        let deps = body_deps(s.g, cl.body, c.n, c.b).plus(d);
        let (sy, o) = atom_asserted(k, disjunct_taken(s), cl.head[j], c.n, c.b, deps);
        lemma_atom_asserted(k, disjunct_taken(s), cl.head[j], c.n, c.b, deps);
        lemma_unfolds_atom(k, disjunct_taken(s), cl.head[j], c.n, c.b, deps);
        lemma_unfolds_coarser(k, disjunct_taken(s), sy);
        if all_assured(k, s.g) {
            lemma_assured_unfolds(k, disjunct_taken(s), sy);
        }
        if forward_only(k) && tidy(k, s.g) {
            lemma_tidy_unfolds(k, disjunct_taken(s), sy);
        }
        lemma_atom_counts(k, disjunct_taken(s), cl.head[j], c.n, c.b, deps);
        if o is Full {
            let s2 = restored(sy, s.g);
            lemma_branches_decided(k, s2, depth, c, j + 1, combined, true, s1);
            lemma_branches_counts(k, s2, depth, c, j + 1, combined, true, s1, r);
            lemma_completes_from(k, s, s2, s1);
        } else {
            reveal(solves);
            reveal(searches);
            let (sz, rz) = choose|sz: State, rz: HyperResult| #[trigger]
                ended(sz, rz) && solves(k, sy, (depth - 1) as nat, sz, rz) && match rz {
                    HyperResult::Sat => s1 == sz && r is Sat,
                    HyperResult::Unsat => if !sz.clash.has(d) {
                        s1 == restored(sz, s.g) && r is Unsat
                    } else {
                        branches(
                            k,
                            restored(sz, s.g),
                            depth,
                            c,
                            j + 1,
                            combined.joined(sz.clash),
                            stalled,
                            s1,
                            r,
                        )
                    },
                    HyperResult::Stalled => branches(
                        k,
                        restored(sz, s.g),
                        depth,
                        c,
                        j + 1,
                        combined,
                        true,
                        s1,
                        r,
                    ),
                };
            let s2 = restored(sz, s.g);
            lemma_solves_counts(k, sy, (depth - 1) as nat, sz, rz);
            match rz {
                HyperResult::Sat => {
                    lemma_sat_decided(k, sy, (depth - 1) as nat, sz);
                    lemma_completes_from(k, s, sy, s1);
                },
                HyperResult::Unsat => {
                    let both = combined.joined(sz.clash);
                    lemma_branches_decided(k, s2, depth, c, j + 1, both, stalled, s1);
                    lemma_branches_counts(k, s2, depth, c, j + 1, both, stalled, s1, r);
                    lemma_completes_from(k, s, s2, s1);
                },
                HyperResult::Stalled => {
                    lemma_branches_decided(k, s2, depth, c, j + 1, combined, true, s1);
                    lemma_branches_counts(k, s2, depth, c, j + 1, combined, true, s1, r);
                    lemma_completes_from(k, s, s2, s1);
                },
            }
        }
    }
}

proof fn lemma_partitions_decided(
    k: Config,
    s: State,
    depth: nat,
    succs: Seq<HNode>,
    idx: int,
    groups: Seq<Seq<HNode>>,
    n: nat,
    stalled0: bool,
    s1: State,
    stalled1: bool,
)
    requires
        k.wf(),
        s.wf(),
        forall|i: int| 0 <= i < succs.len() ==> s.g.valid(#[trigger] succs[i]),
        groups_wf(s.g, groups),
        depth <= k.init_depth,
        partitions(k, s, depth, succs, idx, groups, n, stalled0, s1, stalled1, true),
    ensures
        completes(k, s, s1),
    decreases depth, 0int, 2 * (succs.len() - idx) + 1, 0int,
{
    reveal(partitions);
    let found = true;
    if idx < succs.len() {
        reveal(placements);
        lemma_placements_decided(k, s, depth, succs, idx, groups, 0, n, stalled0, s1, stalled1);
    } else {
        reveal(solves);
        reveal(searches);
        lemma_blocks_wf(k, partition_taken(s), groups, 0);
        let sy = blocks_merged(k, partition_taken(s), groups, 0).0;
        let (sz, rz) = choose|sz: State, rz: HyperResult| #[trigger]
            ended(sz, rz) && solves(k, sy, (depth - 1) as nat, sz, rz) && match rz {
                HyperResult::Sat => s1 == sz && stalled1 == stalled0 && found,
                HyperResult::Unsat => s1 == restored(sz, s.g) && stalled1 == stalled0 && !found,
                HyperResult::Stalled => s1 == restored(sz, s.g) && stalled1 && !found,
            };
        lemma_sat_decided(k, sy, (depth - 1) as nat, sz);
        lemma_blocks_counts(k, partition_taken(s), groups, 0);
        lemma_solves_counts(k, sy, (depth - 1) as nat, sz, rz);
        if unmerged(s1.g) {
            lemma_unmerged_before(sy.g, s1.g);
        }
        lemma_completes_from(k, s, sy, s1);
    }
}

pub proof fn lemma_grouped_wf(g: Graph, groups: Seq<Seq<HNode>>, m: HNode)
    requires
        groups_wf(g, groups),
        g.valid(m),
    ensures
        groups_wf(g, groups.push(seq![m])),
        forall|gi: int|
            0 <= gi < groups.len() ==> groups_wf(
                g,
                #[trigger] groups.update(gi, groups[gi].push(m)),
            ),
{
    let a = groups.push(seq![m]);
    assert forall|i: int| 0 <= i < a.len() implies block_wf(g, #[trigger] a[i]) by {
        if i < groups.len() {
            assert(a[i] == groups[i]);
            assert(block_wf(g, groups[i]));
        }
    }
    assert forall|gi: int| 0 <= gi < groups.len() implies groups_wf(
        g,
        #[trigger] groups.update(gi, groups[gi].push(m)),
    ) by {
        let b = groups.update(gi, groups[gi].push(m));
        assert(block_wf(g, groups[gi]));
        assert forall|i: int| 0 <= i < b.len() implies block_wf(g, #[trigger] b[i]) by {
            assert(block_wf(g, groups[i]));
            if i == gi {
                let blk = groups[gi].push(m);
                assert forall|q: int| 0 <= q < blk.len() implies g.valid(#[trigger] blk[q]) by {
                    if q < groups[gi].len() {
                        assert(blk[q] == groups[gi][q]);
                    }
                }
            }
        }
    }
}

proof fn lemma_placements_decided(
    k: Config,
    s: State,
    depth: nat,
    succs: Seq<HNode>,
    idx: int,
    groups: Seq<Seq<HNode>>,
    gi: int,
    n: nat,
    stalled0: bool,
    s1: State,
    stalled1: bool,
)
    requires
        k.wf(),
        s.wf(),
        forall|i: int| 0 <= i < succs.len() ==> s.g.valid(#[trigger] succs[i]),
        groups_wf(s.g, groups),
        depth <= k.init_depth,
        placements(k, s, depth, succs, idx, groups, gi, n, stalled0, s1, stalled1, true),
    ensures
        completes(k, s, s1),
    decreases depth, 0int, 2 * (succs.len() - idx), groups.len() - gi,
{
    reveal_with_fuel(placements, 2);
    reveal(partitions);
    let m = succs[idx];
    let found = true;
    lemma_grouped_wf(s.g, groups, m);
    if gi < groups.len() {
        if joinable(k, s.g, m, groups[gi]) {
            let groups1 = groups.update(gi, groups[gi].push(m));
            let (sm, sl, f) = choose|sm: State, sl: bool, f: bool| #[trigger]
                tried(sm, sl, f) && partitions(
                    k,
                    s,
                    depth,
                    succs,
                    idx + 1,
                    groups1,
                    n,
                    stalled0,
                    sm,
                    sl,
                    f,
                ) && if f {
                    s1 == sm && stalled1 == sl && found
                } else {
                    placements(k, sm, depth, succs, idx, groups, gi + 1, n, sl, s1, stalled1, found)
                };
            if f {
                lemma_partitions_decided(k, s, depth, succs, idx + 1, groups1, n, stalled0, sm, sl);
            } else {
                lemma_partitions_frame(
                    k,
                    s,
                    depth,
                    succs,
                    idx + 1,
                    groups1,
                    n,
                    stalled0,
                    sm,
                    sl,
                    f,
                );
                lemma_placements_decided(
                    k,
                    sm,
                    depth,
                    succs,
                    idx,
                    groups,
                    gi + 1,
                    n,
                    sl,
                    s1,
                    stalled1,
                );
                lemma_partitions_counts(
                    k,
                    s,
                    depth,
                    succs,
                    idx + 1,
                    groups1,
                    n,
                    stalled0,
                    sm,
                    sl,
                    f,
                );
                lemma_placements_counts(
                    k,
                    sm,
                    depth,
                    succs,
                    idx,
                    groups,
                    gi + 1,
                    n,
                    sl,
                    s1,
                    stalled1,
                    found,
                );
                lemma_completes_from(k, s, sm, s1);
            }
        } else {
            lemma_placements_decided(
                k,
                s,
                depth,
                succs,
                idx,
                groups,
                gi + 1,
                n,
                stalled0,
                s1,
                stalled1,
            );
        }
    } else {
        lemma_partitions_decided(
            k,
            s,
            depth,
            succs,
            idx + 1,
            groups.push(seq![m]),
            n,
            stalled0,
            s1,
            stalled1,
        );
    }
}

/// On Horn clauses a search without a deadline or a budget decides as
/// saturation does, unless saturation leaves a `≤n` violated.
pub proof fn lemma_horn_decided_by_saturation(
    k: Config,
    s0: State,
    depth: nat,
    s1: State,
    r: HyperResult,
)
    requires
        horn_only(k.clauses),
        k.deadline is None,
        !k.adaptive,
        solves(k, s0, depth, s1, r),
        saturated(k, s0, FIXPOINT_ITERS as nat).1 is Sat ==> open_at_most_from(
            k,
            saturated(k, s0, FIXPOINT_ITERS as nat).0.g,
            0,
            0,
        ) is None,
    ensures
        r == saturated(k, s0, FIXPOINT_ITERS as nat).1,
        s1.g == saturated(k, s0, FIXPOINT_ITERS as nat).0.g,
{
    reveal(solves);
    reveal(searches);
    let sb = prepared(k, s0).0;
    lemma_horn_none_open(k, sb, 0);
}

proof fn lemma_horn_none_open(k: Config, s: State, i: int)
    requires
        horn_only(k.clauses),
        0 <= i,
    ensures
        open_disjunction_from(k, s, i).1 is None,
        open_disjunction_from(k, s, i).0.g == s.g,
    decreases s.g.nodes.len() - i,
{
    if i < s.g.nodes.len() {
        let n = HNode(i as u32);
        let s1 = check_blocked(k, s, n).0;
        crate::counting::lemma_horn_closed(k, s1.g, n, 0);
        lemma_horn_none_open(k, s1, i + 1);
    }
}

/// Without a deadline a search ends in one way only.
pub proof fn lemma_solves_determined(
    k: Config,
    s0: State,
    depth: nat,
    a: State,
    ra: HyperResult,
    b: State,
    rb: HyperResult,
)
    requires
        k.deadline is None,
        solves(k, s0, depth, a, ra),
        solves(k, s0, depth, b, rb),
    ensures
        a == b,
        ra == rb,
    decreases depth, 1int, 0int, 0int,
{
    reveal(solves);
    reveal(searches);
    if crate::search::proceeds(k, s0) && depth > 0 {
        let sd = deepened(k, inspected(k, s0), depth as int);
        match pending(k, s0) {
            Some((ci, n, bd)) => {
                reveal(branches);
                let c = Choice { ci: ci as int, n, b: bd };
                lemma_branches_determined(
                    k,
                    sd,
                    depth,
                    c,
                    0,
                    DepSet::empty(),
                    false,
                    a,
                    ra,
                    b,
                    rb,
                );
            },
            None => {
                if let Some((n, succs, bound)) = crowded(k, s0) {
                    if crate::queries::clique(k, inspected(k, s0).g, succs).len() <= bound {
                        reveal(merges);
                        lemma_merges_determined(k, sd, depth, succs, bound as nat, a, ra, b, rb);
                    }
                }
            },
        }
    }
}

proof fn lemma_merges_determined(
    k: Config,
    s: State,
    depth: nat,
    succs: Seq<HNode>,
    n: nat,
    a: State,
    ra: HyperResult,
    b: State,
    rb: HyperResult,
)
    requires
        k.deadline is None,
        merges(k, s, depth, succs, n, a, ra),
        merges(k, s, depth, succs, n, b, rb),
    ensures
        a == b,
        ra == rb,
    decreases depth, 0int, 2 * succs.len() + 2, 0int,
{
    reveal(merges);
    reveal(partitions);
    let (za, sa, fa) = choose|sz: State, stalled: bool, found: bool| #[trigger]
        tried(sz, stalled, found) && partitions(
            k,
            s,
            depth,
            succs,
            0,
            Seq::empty(),
            n,
            false,
            sz,
            stalled,
            found,
        ) && if found {
            a == sz && ra is Sat
        } else if stalled {
            a == sz && ra is Stalled
        } else {
            a == (State { clash: DepSet::all(), ..sz }) && ra is Unsat
        };
    let (zb, sb, fb) = choose|sz: State, stalled: bool, found: bool| #[trigger]
        tried(sz, stalled, found) && partitions(
            k,
            s,
            depth,
            succs,
            0,
            Seq::empty(),
            n,
            false,
            sz,
            stalled,
            found,
        ) && if found {
            b == sz && rb is Sat
        } else if stalled {
            b == sz && rb is Stalled
        } else {
            b == (State { clash: DepSet::all(), ..sz }) && rb is Unsat
        };
    lemma_partitions_determined(
        k,
        s,
        depth,
        succs,
        0,
        Seq::empty(),
        n,
        false,
        za,
        sa,
        fa,
        zb,
        sb,
        fb,
    );
}

/// How a branch that ended in `sz` with `rz` goes on.
spec fn branch_goes_on(
    k: Config,
    s: State,
    depth: nat,
    c: Choice,
    j: int,
    combined: DepSet,
    stalled: bool,
    sz: State,
    rz: HyperResult,
    s1: State,
    r: HyperResult,
) -> bool {
    match rz {
        HyperResult::Sat => s1 == sz && r is Sat,
        HyperResult::Unsat => if !sz.clash.has(level(k, depth as int)) {
            s1 == restored(sz, s.g) && r is Unsat
        } else {
            branches(
                k,
                restored(sz, s.g),
                depth,
                c,
                j + 1,
                combined.joined(sz.clash),
                stalled,
                s1,
                r,
            )
        },
        HyperResult::Stalled => branches(
            k,
            restored(sz, s.g),
            depth,
            c,
            j + 1,
            combined,
            true,
            s1,
            r,
        ),
    }
}

proof fn lemma_branches_determined(
    k: Config,
    s: State,
    depth: nat,
    c: Choice,
    j: int,
    combined: DepSet,
    stalled: bool,
    a: State,
    ra: HyperResult,
    b: State,
    rb: HyperResult,
)
    requires
        k.deadline is None,
        branches(k, s, depth, c, j, combined, stalled, a, ra),
        branches(k, s, depth, c, j, combined, stalled, b, rb),
    ensures
        a == b,
        ra == rb,
    decreases depth, 0int, k.clauses[c.ci].head.len() - j, 0int,
{
    reveal_with_fuel(branches, 2);
    let cl = k.clauses[c.ci];
    let d = level(k, depth as int);
    if 0 <= j < cl.head.len() {
        let deps = body_deps(s.g, cl.body, c.n, c.b).plus(d);
        let (sy, o) = atom_asserted(k, disjunct_taken(s), cl.head[j], c.n, c.b, deps);
        if o is Full {
            lemma_branches_determined(
                k,
                restored(sy, s.g),
                depth,
                c,
                j + 1,
                combined,
                true,
                a,
                ra,
                b,
                rb,
            );
        } else {
            reveal(solves);
            reveal(searches);
            let (za, qa) = choose|sz: State, rz: HyperResult| #[trigger]
                ended(sz, rz) && solves(k, sy, (depth - 1) as nat, sz, rz) && branch_goes_on(
                    k,
                    s,
                    depth,
                    c,
                    j,
                    combined,
                    stalled,
                    sz,
                    rz,
                    a,
                    ra,
                );
            let (zb, qb) = choose|sz: State, rz: HyperResult| #[trigger]
                ended(sz, rz) && solves(k, sy, (depth - 1) as nat, sz, rz) && branch_goes_on(
                    k,
                    s,
                    depth,
                    c,
                    j,
                    combined,
                    stalled,
                    sz,
                    rz,
                    b,
                    rb,
                );
            lemma_solves_determined(k, sy, (depth - 1) as nat, za, qa, zb, qb);
            let s2 = restored(za, s.g);
            if qa is Stalled {
                lemma_branches_determined(
                    k,
                    s2,
                    depth,
                    c,
                    j + 1,
                    combined,
                    true,
                    a,
                    ra,
                    b,
                    rb,
                );
            } else if qa is Unsat && za.clash.has(d) {
                lemma_branches_determined(
                    k,
                    s2,
                    depth,
                    c,
                    j + 1,
                    combined.joined(za.clash),
                    stalled,
                    a,
                    ra,
                    b,
                    rb,
                );
            }
        }
    }
}

/// How a merge that ended in `sz` with `rz` counts.
spec fn merge_counts(
    s: State,
    stalled0: bool,
    sz: State,
    rz: HyperResult,
    s1: State,
    stalled1: bool,
    found: bool,
) -> bool {
    match rz {
        HyperResult::Sat => s1 == sz && stalled1 == stalled0 && found,
        HyperResult::Unsat => s1 == restored(sz, s.g) && stalled1 == stalled0 && !found,
        HyperResult::Stalled => s1 == restored(sz, s.g) && stalled1 && !found,
    }
}

proof fn lemma_partitions_determined(
    k: Config,
    s: State,
    depth: nat,
    succs: Seq<HNode>,
    idx: int,
    groups: Seq<Seq<HNode>>,
    n: nat,
    stalled0: bool,
    a: State,
    sa: bool,
    fa: bool,
    b: State,
    sb: bool,
    fb: bool,
)
    requires
        k.deadline is None,
        partitions(k, s, depth, succs, idx, groups, n, stalled0, a, sa, fa),
        partitions(k, s, depth, succs, idx, groups, n, stalled0, b, sb, fb),
    ensures
        a == b,
        sa == sb,
        fa == fb,
    decreases depth, 0int, 2 * (succs.len() - idx) + 1, 0int,
{
    reveal(partitions);
    if idx < succs.len() {
        reveal(placements);
        lemma_placements_determined(
            k,
            s,
            depth,
            succs,
            idx,
            groups,
            0,
            n,
            stalled0,
            a,
            sa,
            fa,
            b,
            sb,
            fb,
        );
    } else {
        let (sy, clash) = blocks_merged(k, partition_taken(s), groups, 0);
        if !clash {
            reveal(solves);
            reveal(searches);
            let (za, qa) = choose|sz: State, rz: HyperResult| #[trigger]
                ended(sz, rz) && solves(k, sy, (depth - 1) as nat, sz, rz) && merge_counts(
                    s,
                    stalled0,
                    sz,
                    rz,
                    a,
                    sa,
                    fa,
                );
            let (zb, qb) = choose|sz: State, rz: HyperResult| #[trigger]
                ended(sz, rz) && solves(k, sy, (depth - 1) as nat, sz, rz) && merge_counts(
                    s,
                    stalled0,
                    sz,
                    rz,
                    b,
                    sb,
                    fb,
                );
            lemma_solves_determined(k, sy, (depth - 1) as nat, za, qa, zb, qb);
        }
    }
}

proof fn lemma_placements_determined(
    k: Config,
    s: State,
    depth: nat,
    succs: Seq<HNode>,
    idx: int,
    groups: Seq<Seq<HNode>>,
    gi: int,
    n: nat,
    stalled0: bool,
    a: State,
    sa: bool,
    fa: bool,
    b: State,
    sb: bool,
    fb: bool,
)
    requires
        k.deadline is None,
        placements(k, s, depth, succs, idx, groups, gi, n, stalled0, a, sa, fa),
        placements(k, s, depth, succs, idx, groups, gi, n, stalled0, b, sb, fb),
    ensures
        a == b,
        sa == sb,
        fa == fb,
    decreases depth, 0int, 2 * (succs.len() - idx), groups.len() - gi,
{
    reveal_with_fuel(placements, 2);
    reveal(partitions);
    let m = succs[idx];
    if gi < groups.len() {
        if joinable(k, s.g, m, groups[gi]) {
            let groups1 = groups.update(gi, groups[gi].push(m));
            let (za, la, qa) = choose|sm: State, sl: bool, f: bool| #[trigger]
                tried(sm, sl, f) && partitions(
                    k,
                    s,
                    depth,
                    succs,
                    idx + 1,
                    groups1,
                    n,
                    stalled0,
                    sm,
                    sl,
                    f,
                ) && if f {
                    a == sm && sa == sl && fa
                } else {
                    placements(k, sm, depth, succs, idx, groups, gi + 1, n, sl, a, sa, fa)
                };
            let (zb, lb, qb) = choose|sm: State, sl: bool, f: bool| #[trigger]
                tried(sm, sl, f) && partitions(
                    k,
                    s,
                    depth,
                    succs,
                    idx + 1,
                    groups1,
                    n,
                    stalled0,
                    sm,
                    sl,
                    f,
                ) && if f {
                    b == sm && sb == sl && fb
                } else {
                    placements(k, sm, depth, succs, idx, groups, gi + 1, n, sl, b, sb, fb)
                };
            lemma_partitions_determined(
                k,
                s,
                depth,
                succs,
                idx + 1,
                groups1,
                n,
                stalled0,
                za,
                la,
                qa,
                zb,
                lb,
                qb,
            );
            if !qa {
                lemma_placements_determined(
                    k,
                    za,
                    depth,
                    succs,
                    idx,
                    groups,
                    gi + 1,
                    n,
                    la,
                    a,
                    sa,
                    fa,
                    b,
                    sb,
                    fb,
                );
            }
        } else {
            lemma_placements_determined(
                k,
                s,
                depth,
                succs,
                idx,
                groups,
                gi + 1,
                n,
                stalled0,
                a,
                sa,
                fa,
                b,
                sb,
                fb,
            );
        }
    } else if groups.len() < n {
        lemma_partitions_determined(
            k,
            s,
            depth,
            succs,
            idx + 1,
            groups.push(seq![m]),
            n,
            stalled0,
            a,
            sa,
            fa,
            b,
            sb,
            fb,
        );
    }
}

} // verus!
