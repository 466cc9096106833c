//! Saturation reaches a fixpoint: a Horn clause fires wherever its body comes
//! to hold by facts that it listens to, whichever of them comes last.

use vstd::prelude::*;
use crate::assurance::lemma_nominal_assured;
use crate::clause::{role_sat, Atom, HierarchyView, Var, X};
use crate::counting::lemma_block_counts;
use crate::dep_set::DepSet;
use crate::fixpoint::{
    drained, edge_events, event_done, label_events, lemma_event_done, lemma_list_fired,
    lemma_list_fired_at, lemma_row_below, lemma_seeds, lemma_sources_valid, list_fired,
    list_fired_at, listed_below, nodes_valid, replayed, reseeded, saturated, seeds_from, sources,
    stops,
};
use crate::graph::{
    event_valid, grows, lemma_grows_trans, node_grows, Config, Event, Graph, SearchStats, State,
};
use crate::ids::{ClassId, HNode, Role};
use crate::index::{clause_listens, listens, row, Trigger};
use crate::invariants::lemma_nominal_keeps;
use crate::joining::{kept, lemma_kept_queued, lemma_nominal_takes_in};
use crate::match_laws::{
    atom_holds, body_holds, increasing_vars, lemma_body_holds_grows, lemma_matches_complete,
    lemma_var_node_bound,
};
use crate::matching::{
    binding_valid, distinct_vars, lemma_var_node_valid, matches_of, plan_of, var_node,
};
use crate::node::Card;
use crate::queries::{
    blocked, body_deps, check_blocked, lemma_block_check_stats, nominal, successors, witnessed,
};
use crate::rules::{
    bearer_from, bindings_fired, clause_fired, head_fired, labelled, merged, next_node,
    nominal_cause, nominal_merged, sprouted, stored_edge,
};
use crate::rules_wf::{
    all_valid, lemma_all_valid_grows, lemma_bearer, lemma_clause_fired, lemma_head_fired,
    lemma_matches_valid, lemma_nominal_merged, lemma_push_contains,
};
use crate::unfolding::{
    all_assured, along_named, coarser, fact, forward_atom, forward_only, lemma_assured_unfolds,
    lemma_coarser_trans, lemma_merged_coarser, lemma_stays_queued, lemma_supply_stays,
    lemma_tidy_unfolds, lemma_unfolds_at_least, lemma_unfolds_atom, lemma_unfolds_coarser,
    lemma_unfolds_refl, lemma_unfolds_trans, lemma_unmerged_before, mirrored, served, supplied,
    supply, tidy, unfolds, unmerged,
};

verus! {

/// No Horn clause asks for `≥n`.
pub open spec fn unnumbered(k: Config) -> bool {
    forall|ci: int|
        0 <= ci < k.clauses.len() && (#[trigger] k.clauses[ci]).horn() && k.clauses[ci].head.len()
            > 0 ==> k.clauses[ci].head[0] !is AtLeast
}

/// No nodes were merged for a nominal, or no Horn clause asks for `≥n`, which
/// such a merge could undo.
pub open spec fn individual(k: Config, g: Graph) -> bool {
    k.nominals is None || unmerged(g) || unnumbered(k)
}

/// No node was found to be blocked on the way from `a` to `b`.
pub open spec fn quiet(a: State, b: State) -> bool {
    a.stats.blocks_fired == b.stats.blocks_fired < u64::MAX
}

/// `≥n` holds at `x`, or is recorded as having been made to hold.
pub open spec fn at_least_seen(k: Config, g: Graph, x: HNode, c: Card) -> bool {
    c.2 == 0 || supplied(k, g, x, c) || g.at(x).at_least_done.contains(c)
}

/// The head is in the graph. Heads that generate nodes are put off at blocked
/// nodes: of these something is said only if nothing was put off.
pub open spec fn head_done(
    k: Config,
    g: Graph,
    head: Seq<Atom>,
    x: HNode,
    b: Seq<(Var, HNode)>,
    all: bool,
) -> bool {
    head.len() > 0 && match head[0] {
        Atom::Class(c, v) => var_node(v, x, b) matches Some(t) ==> g.at(t).has(c),
        Atom::Exists(role, c, v) => all ==> (var_node(v, x, b) matches Some(t) ==> witnessed(
            k,
            g,
            t,
            role,
            c,
        )),
        Atom::AtLeast(role, qual, n, v) => all && role is Named ==> (var_node(v, x, b) matches Some(
            t,
        ) ==> at_least_seen(k, g, g.rep(t), (role, qual, n))),
        Atom::AtMost(role, qual, n, v) => var_node(v, x, b) matches Some(t) ==> g.at(
            t,
        ).at_most.contains((role, qual, n)),
        Atom::Role(role, u, v) => match (var_node(u, x, b), var_node(v, x, b)) {
            (Some(src), Some(tgt)) => {
                let (from, r, to) = stored_edge(g, role, src, tgt);
                g.at(from).edges.contains((r, to))
            },
            _ => true,
        },
        _ => true,
    }
}

/// A generating head is in the graph, unless it is put off: `off` says of which
/// nodes this may be so. Of `≥n` something is said only if nothing is merged
/// that could undo it (`sound`).
pub open spec fn head_met(
    k: Config,
    g: Graph,
    head: Seq<Atom>,
    x: HNode,
    b: Seq<(Var, HNode)>,
    off: spec_fn(HNode) -> bool,
    sound: bool,
) -> bool {
    head.len() > 0 && match head[0] {
        Atom::Exists(role, c, v) => var_node(v, x, b) matches Some(t) ==> witnessed(
            k,
            g,
            t,
            role,
            c,
        ) || off(t),
        Atom::AtLeast(role, qual, n, v) => sound && role is Named ==> (var_node(v, x, b) matches Some(
            t,
        ) ==> at_least_seen(k, g, g.rep(t), (role, qual, n)) || off(g.rep(t))),
        _ => true,
    }
}

/// Node `t` was blocked in some graph between the two.
pub open spec fn held_up(k: Config, lo: Graph, hi: Graph, t: HNode) -> bool {
    exists|g: Graph| #[trigger] holds_up(k, lo, g, hi, t)
}

/// The graph is between the two, and node `t` is blocked in it.
pub open spec fn holds_up(k: Config, lo: Graph, g: Graph, hi: Graph, t: HNode) -> bool {
    &&& g.wf()
    &&& grows(lo, g)
    &&& grows(g, hi)
    &&& g.valid(t)
    &&& blocked(k, g, t)
}

/// The state after the first `i` events, from state `z` on.
pub open spec fn after(k: Config, z: State, i: nat) -> State
    decreases i,
{
    if i == 0 {
        z
    } else {
        let s = after(k, z, (i - 1) as nat);
        if s.work.len() == 0 {
            s
        } else {
            event_done(k, State { work: s.work.drop_last(), ..s }, s.work.last()).0
        }
    }
}

/// From state `z` on, while the event after the first `i` was processed, the
/// body of clause `ci` held at `x` under `b`, and node `t` was blocked, in the
/// graph `g`.
pub open spec fn puts_off(
    k: Config,
    z: State,
    ci: int,
    x: HNode,
    b: Seq<(Var, HNode)>,
    t: HNode,
    i: nat,
    g: Graph,
) -> bool {
    &&& holds_up(k, after(k, z, i).g, g, after(k, z, i + 1).g, t)
    &&& body_holds(g.nodes, k.roles, k.clauses[ci].body, x, b)
}

/// From state `z` on, node `t` was blocked at some time at which the body of
/// clause `ci` held at `x` under `b`.
pub open spec fn put_off(
    k: Config,
    z: State,
    ci: int,
    x: HNode,
    b: Seq<(Var, HNode)>,
    t: HNode,
) -> bool {
    exists|i: nat, g: Graph| #[trigger] puts_off(k, z, ci, x, b, t, i, g)
}

/// Where a Horn clause is enabled, the head is in the graph, unless the node at
/// which it was to be generated was blocked at some time at which the body
/// held, after saturation began at `z`.
pub open spec fn horn_met(k: Config, z: State, g: Graph) -> bool {
    forall|ci: int, x: HNode, b: Seq<(Var, HNode)>, es: Seq<Event>| #[trigger]
        enabled(k, g, ci, x, b, es) ==> head_met(
            k,
            g,
            k.clauses[ci].head,
            x,
            b,
            |t: HNode| put_off(k, z, ci, x, b, t),
            individual(k, g),
        )
}

proof fn lemma_held_up_wider(k: Config, lo0: Graph, lo: Graph, hi: Graph, hi1: Graph, t: HNode)
    requires
        grows(lo0, lo),
        grows(hi, hi1),
        held_up(k, lo, hi, t),
    ensures
        held_up(k, lo0, hi1, t),
{
    let g = choose|g: Graph| #[trigger] holds_up(k, lo, g, hi, t);
    lemma_grows_trans(lo0, lo, g);
    lemma_grows_trans(g, hi, hi1);
    assert(holds_up(k, lo0, g, hi1, t));
}

/// What is put off for one reason is put off for a weaker one.
proof fn lemma_met_weaker(
    k: Config,
    g: Graph,
    head: Seq<Atom>,
    x: HNode,
    b: Seq<(Var, HNode)>,
    off0: spec_fn(HNode) -> bool,
    off1: spec_fn(HNode) -> bool,
    sound0: bool,
    sound1: bool,
)
    requires
        head_met(k, g, head, x, b, off0, sound0),
        forall|t: HNode| #[trigger] off0(t) ==> off1(t),
        sound1 ==> sound0,
    ensures
        head_met(k, g, head, x, b, off1, sound1),
{
}

/// What is in the graph is not put off.
proof fn lemma_done_met(
    k: Config,
    g: Graph,
    head: Seq<Atom>,
    x: HNode,
    b: Seq<(Var, HNode)>,
    off: spec_fn(HNode) -> bool,
    sound: bool,
)
    requires
        head_done(k, g, head, x, b, true),
    ensures
        head_met(k, g, head, x, b, off, sound),
{
}

/// What is in the graph or put off stays so.
proof fn lemma_met_stays(
    k: Config,
    s0: State,
    s1: State,
    head: Seq<Atom>,
    x: HNode,
    b: Seq<(Var, HNode)>,
    off: spec_fn(HNode) -> bool,
    sound: bool,
)
    requires
        s0.wf(),
        unfolds(k, s0, s1),
        s0.g.valid(x),
        binding_valid(b, s0.g.nodes.len() as int),
        head_met(k, s0.g, head, x, b, off, sound),
    ensures
        head_met(k, s1.g, head, x, b, off, sound),
{
    let n = s0.g.nodes.len() as int;
    match head[0] {
        Atom::Exists(role, c, v) => {
            lemma_var_node_valid(v, x, b, n);
            if let Some(t) = var_node(v, x, b) {
                if witnessed(k, s0.g, t, role, c) {
                    lemma_witness_stays(k, s0.g, s1.g, t, role, c);
                }
            }
        },
        Atom::AtLeast(role, qual, m, v) => {
            lemma_var_node_valid(v, x, b, n);
            if let Some(t) = var_node(v, x, b) {
                assert(s1.g.root[t.at()] == s0.g.root[t.at()]);
                assert(s0.g.root[t.at()].at() < s0.g.root.len());
                if supplied(k, s0.g, s0.g.rep(t), (role, qual, m)) {
                    lemma_supply_stays(k, s0, s1, s0.g.rep(t), (role, qual, m));
                }
            }
        },
        _ => {},
    }
}

/// As [`lemma_met_stays`], through a merge, for a head between nodes that are
/// not merged away.
proof fn lemma_met_kept(
    k: Config,
    s0: State,
    s1: State,
    head: Seq<Atom>,
    x: HNode,
    b: Seq<(Var, HNode)>,
    off: spec_fn(HNode) -> bool,
    sound: bool,
)
    requires
        s0.wf(),
        grows(s0.g, s1.g),
        s0.g.valid(x),
        binding_valid(b, s0.g.nodes.len() as int),
        head_met(k, s0.g, head, x, b, off, sound),
        sound ==> head[0] !is AtLeast,
    ensures
        head_met(k, s1.g, head, x, b, off, sound),
{
    if let Atom::Exists(role, c, v) = head[0] {
        lemma_var_node_valid(v, x, b, s0.g.nodes.len() as int);
        if let Some(t) = var_node(v, x, b) {
            if witnessed(k, s0.g, t, role, c) {
                lemma_witness_stays(k, s0.g, s1.g, t, role, c);
            }
        }
    }
}

proof fn lemma_witness_stays(k: Config, g0: Graph, g1: Graph, t: HNode, role: Role, c: ClassId)
    requires
        g0.wf(),
        crate::graph::grows(g0, g1),
        g0.valid(t),
        witnessed(k, g0, t, role, c),
    ensures
        witnessed(k, g1, t, role, c),
{
    let i = choose|i: int|
        0 <= i < g0.at(t).edges.len() && role_sat((#[trigger] g0.at(t).edges[i]).0, role, k.roles)
            && g0.at(g0.at(t).edges[i].1).has(c);
    let e = g0.at(t).edges[i];
    assert(g0.node_wf(g0.nodes[t.at()], t.at()));
    assert(node_grows(g0.nodes[t.at()], g1.nodes[t.at()]));
    assert(node_grows(g0.nodes[e.1.at()], g1.nodes[e.1.at()]));
    assert(g0.at(t).edges.contains(e));
    assert(g1.at(t).edges.contains(e));
    let j = g1.at(t).edges.index_of(e);
    assert(g1.at(t).edges[j] == e);
}

/// Enough successors were counted.
pub proof fn lemma_counted_supply(k: Config, g: Graph, x: HNode, c: Card)
    requires
        g.wf(),
        g.valid(x),
        successors(k, g, x, c.0, c.1).len() >= c.2,
    ensures
        supplied(k, g, x, c),
{
    let ss = successors(k, g, x, c.0, c.1);
    assert(g.node_wf(g.nodes[x.at()], x.at()));
    crate::queries::lemma_role_succ_valid(g, k.roles, g.at(x).edges, c.0, c.1);
    let ts = Seq::new(
        c.2 as nat,
        |i: int| choose|t: HNode| #[trigger] served(k, g, x, c.0, c.1, t) && g.rep(t) == ss[i],
    );
    assert forall|i: int| 0 <= i < ts.len() implies served(k, g, x, c.0, c.1, #[trigger] ts[i])
        && g.rep(ts[i]) == ss[i] by {
        assert(ss.contains(ss[i]));
        crate::truth_card::lemma_role_succ_from(g, k.roles, g.at(x).edges, c.0, c.1, ss[i]);
        let e = choose|e: (Role, HNode)| #[trigger]
            g.at(x).edges.contains(e) && role_sat(e.0, c.0, k.roles) && g.rep(e.1) == ss[i]
                && crate::queries::qualifies(g.at(ss[i]), c.1);
        let j = g.at(x).edges.index_of(e);
        assert(g.at(x).edges[j] == e);
        assert(g.at(x).edges.contains((e.0, e.1)));
        assert(served(k, g, x, c.0, c.1, e.1));
    }
    assert(supply(k, g, x, c, ts));
}

/// A new successor is a witness.
pub proof fn lemma_sprout_witness(k: Config, s: State, x: HNode, role: Role, c: ClassId, deps: DepSet)
    requires
        s.wf(),
        s.g.valid(x),
        s.g.room(1),
    ensures
        witnessed(k, sprouted(k, s, x, role, Some(c), deps).g, x, role, c),
{
    let n = next_node(s.g);
    let s2 = sprouted(k, s, x, role, None, deps);
    let out = sprouted(k, s, x, role, Some(c), deps);
    crate::rules_wf::lemma_sprouted(k, s, x, role, None, deps);
    assert(out == labelled(s2, n, c, deps).0);
    assert(s2.g.node_wf(s2.g.nodes[n.at()], n.at()));
    crate::node::lemma_with_label(s2.g.at(n), c, deps);
    let i = s.g.at(x).edges.len() as int;
    assert(s2.g.at(x).edges[i] == (role, n));
    assert(out.g.at(x).edges[i] == (role, n));
}

/// A head that is in the graph stays in it.
proof fn lemma_head_stays(
    k: Config,
    s0: State,
    s1: State,
    head: Seq<Atom>,
    x: HNode,
    b: Seq<(Var, HNode)>,
    all: bool,
)
    requires
        s0.wf(),
        unfolds(k, s0, s1),
        s0.g.valid(x),
        binding_valid(b, s0.g.nodes.len() as int),
        head_done(k, s0.g, head, x, b, all),
    ensures
        head_done(k, s1.g, head, x, b, all),
{
    let n = s0.g.nodes.len() as int;
    match head[0] {
        Atom::Class(c, v) => {
            lemma_var_node_valid(v, x, b, n);
            if let Some(t) = var_node(v, x, b) {
                assert(node_grows(s0.g.nodes[t.at()], s1.g.nodes[t.at()]));
            }
        },
        Atom::Exists(role, c, v) => {
            lemma_var_node_valid(v, x, b, n);
            if let Some(t) = var_node(v, x, b) {
                if all {
                    lemma_witness_stays(k, s0.g, s1.g, t, role, c);
                }
            }
        },
        Atom::AtLeast(role, qual, m, v) => {
            lemma_var_node_valid(v, x, b, n);
            if let Some(t) = var_node(v, x, b) {
                assert(s1.g.root[t.at()] == s0.g.root[t.at()]);
                assert(s0.g.root[t.at()].at() < s0.g.root.len());
                if supplied(k, s0.g, s0.g.rep(t), (role, qual, m)) {
                    lemma_supply_stays(k, s0, s1, s0.g.rep(t), (role, qual, m));
                }
            }
        },
        Atom::AtMost(role, qual, m, v) => {
            lemma_var_node_valid(v, x, b, n);
        },
        Atom::Role(role, u, v) => {
            lemma_var_node_valid(u, x, b, n);
            lemma_var_node_valid(v, x, b, n);
            if let (Some(src), Some(tgt)) = (var_node(u, x, b), var_node(v, x, b)) {
                assert(s1.g.root[src.at()] == s0.g.root[src.at()]);
                assert(s1.g.root[tgt.at()] == s0.g.root[tgt.at()]);
                assert(s0.g.root[src.at()].at() < s0.g.root.len());
                assert(s0.g.root[tgt.at()].at() < s0.g.root.len());
                let from = stored_edge(s0.g, role, src, tgt).0;
                assert(node_grows(s0.g.nodes[from.at()], s1.g.nodes[from.at()]));
            }
        },
        _ => {},
    }
}

/// Asserting a head puts it in the graph.
proof fn lemma_head_put(
    k: Config,
    s: State,
    head: Seq<Atom>,
    x: HNode,
    b: Seq<(Var, HNode)>,
    deps: DepSet,
)
    requires
        s.wf(),
        s.g.valid(x),
        binding_valid(b, s.g.nodes.len() as int),
        head.len() > 0 && forward_only(k) ==> forward_atom(head[0]),
        !stops(head_fired(k, s, head, x, b, deps).1),
    ensures
        unfolds(k, s, head_fired(k, s, head, x, b, deps).0),
        head_done(
            k,
            head_fired(k, s, head, x, b, deps).0.g,
            head,
            x,
            b,
            quiet(s, head_fired(k, s, head, x, b, deps).0),
        ),
        head_met(
            k,
            head_fired(k, s, head, x, b, deps).0.g,
            head,
            x,
            b,
            |t: HNode| s.g.valid(t) && blocked(k, s.g, t),
            true,
        ),
{
    let n = s.g.nodes.len() as int;
    let out = head_fired(k, s, head, x, b, deps).0;
    lemma_unfolds_atom(k, s, head[0], x, b, deps);
    match head[0] {
        Atom::Class(c, v) => {
            lemma_var_node_valid(v, x, b, n);
            if let Some(t) = var_node(v, x, b) {
                assert(s.g.node_wf(s.g.nodes[t.at()], t.at()));
                crate::node::lemma_with_label(s.g.at(t), c, deps);
            }
        },
        Atom::Exists(role, c, v) => {
            lemma_var_node_valid(v, x, b, n);
            if let Some(t) = var_node(v, x, b) {
                let (s1, stopped) = check_blocked(k, s, t);
                lemma_block_counts(k, s, t);
                lemma_block_check_stats(k, s.g, t, s.stats, SearchStats::zero());
                if !witnessed(k, s.g, t, role, c) && !stopped {
                    lemma_sprout_witness(k, s1, t, role, c, deps);
                }
            }
        },
        Atom::AtLeast(role, qual, m, v) => {
            lemma_var_node_valid(v, x, b, n);
            if let Some(t) = var_node(v, x, b) {
                let r = s.g.rep(t);
                let c = (role, qual, m);
                assert(s.g.root[t.at()].at() < s.g.root.len());
                assert(out.g.root[t.at()] == s.g.root[t.at()]);
                lemma_block_counts(k, s, r);
                lemma_block_check_stats(k, s.g, r, s.stats, SearchStats::zero());
                lemma_unfolds_at_least(k, s, t, role, qual, m, deps);
                if successors(k, s.g, r, role, qual).len() >= m {
                    lemma_counted_supply(k, s.g, r, c);
                }
            }
        },
        Atom::AtMost(role, qual, m, v) => {
            lemma_var_node_valid(v, x, b, n);
            if let Some(t) = var_node(v, x, b) {
                lemma_push_contains(s.g.at(t).at_most, (role, qual, m));
            }
        },
        Atom::Role(role, u, v) => {
            lemma_var_node_valid(u, x, b, n);
            lemma_var_node_valid(v, x, b, n);
            if let (Some(src), Some(tgt)) = (var_node(u, x, b), var_node(v, x, b)) {
                assert(s.g.root[src.at()].at() < s.g.root.len());
                assert(s.g.root[tgt.at()].at() < s.g.root.len());
                let (from, r, to) = stored_edge(s.g, role, src, tgt);
                lemma_push_contains(s.g.at(from).edges, (r, to));
                crate::rules_wf::lemma_edge_derived(s, role, src, tgt, deps);
            }
        },
        _ => {},
    }
}

proof fn lemma_bindings_done(
    k: Config,
    s: State,
    ci: int,
    x: HNode,
    bs: Seq<Seq<(Var, HNode)>>,
    i: int,
    changed: bool,
)
    requires
        s.wf(),
        s.g.valid(x),
        0 <= i,
        0 <= ci < k.clauses.len(),
        all_valid(bs, s.g.nodes.len() as int),
    ensures
        !stops(bindings_fired(k, s, ci, x, bs, i, changed).1) ==> {
            let out = bindings_fired(k, s, ci, x, bs, i, changed).0;
            &&& unfolds(k, s, out)
            &&& forall|j: int|
                i <= j < bs.len() ==> head_done(
                    k,
                    out.g,
                    k.clauses[ci].head,
                    x,
                    #[trigger] bs[j],
                    quiet(s, out),
                ) && head_met(
                    k,
                    out.g,
                    k.clauses[ci].head,
                    x,
                    bs[j],
                    |t: HNode| held_up(k, s.g, out.g, t),
                    true,
                )
        },
    decreases bs.len() - i,
{
    lemma_unfolds_refl(k, s);
    if i < bs.len() && !stops(bindings_fired(k, s, ci, x, bs, i, changed).1) {
        let cl = k.clauses[ci];
        let out = bindings_fired(k, s, ci, x, bs, i, changed).0;
        assert(binding_valid(bs[i], s.g.nodes.len() as int));
        let d = body_deps(s.g, cl.body, x, bs[i]);
        let (s1, o) = head_fired(k, s, cl.head, x, bs[i], d);
        lemma_head_put(k, s, cl.head, x, bs[i], d);
        lemma_head_fired(k, s, cl.head, x, bs[i], d);
        lemma_all_valid_grows(bs, s.g.nodes.len() as int, s1.g.nodes.len() as int);
        let ch = if o is Changed {
            true
        } else {
            changed
        };
        lemma_bindings_done(k, s1, ci, x, bs, i + 1, ch);
        assert(out == bindings_fired(k, s1, ci, x, bs, i + 1, ch).0);
        lemma_unfolds_trans(k, s, s1, out);
        assert(binding_valid(bs[i], s1.g.nodes.len() as int));
        lemma_head_stays(k, s1, out, cl.head, x, bs[i], quiet(s, out));
        let off = |t: HNode| held_up(k, s.g, out.g, t);
        let now = |t: HNode| s.g.valid(t) && blocked(k, s.g, t);
        let later = |t: HNode| held_up(k, s1.g, out.g, t);
        lemma_met_stays(k, s1, out, cl.head, x, bs[i], now, true);
        assert forall|t: HNode| #[trigger] now(t) implies off(t) by {
            assert(holds_up(k, s.g, s.g, out.g, t));
        }
        lemma_met_weaker(k, out.g, cl.head, x, bs[i], now, off, true, true);
        assert forall|j: int| i <= j < bs.len() implies head_met(
            k,
            out.g,
            cl.head,
            x,
            #[trigger] bs[j],
            off,
            true,
        ) by {
            if j > i {
                assert forall|t: HNode| #[trigger] later(t) implies off(t) by {
                    lemma_held_up_wider(k, s.g, s1.g, out.g, out.g, t);
                }
                lemma_met_weaker(k, out.g, cl.head, x, bs[j], later, off, true, true);
            }
        }
    }
}

/// The binding is one that matching may find: its variables are those that
/// role atoms lead to, each bound once, in order.
pub open spec fn proper(body: Seq<Atom>, b: Seq<(Var, HNode)>) -> bool {
    &&& distinct_vars(b)
    &&& increasing_vars(b)
    &&& forall|m: int|
        0 <= m < b.len() ==> exists|q: int|
            0 <= q < body.len() && (#[trigger] body[q] matches Atom::Role(r, u, v) && v == (
            #[trigger] b[m]).0)
}

/// The body has a shape that matching supports.
pub open spec fn supported(body: Seq<Atom>) -> bool {
    plan_of(body) is Some
}

/// The clause was fired at `x` for all that matches there.
spec fn done_at(k: Config, s0: State, s1: State, ci: int, x: HNode) -> bool {
    forall|b: Seq<(Var, HNode)>|
        proper(k.clauses[ci].body, b) && binding_valid(b, s0.g.nodes.len() as int) && body_holds(
            s0.g.nodes,
            k.roles,
            k.clauses[ci].body,
            x,
            b,
        ) ==> #[trigger] head_done(k, s1.g, k.clauses[ci].head, x, b, quiet(s0, s1)) && head_met(
            k,
            s1.g,
            k.clauses[ci].head,
            x,
            b,
            |t: HNode| held_up(k, s0.g, s1.g, t),
            true,
        )
}

proof fn lemma_clause_done(k: Config, s: State, ci: int, x: HNode)
    requires
        k.wf(),
        s.wf(),
        s.g.valid(x),
        0 <= ci < k.clauses.len(),
        !stops(clause_fired(k, s, ci, x).1),
    ensures
        unfolds(k, s, clause_fired(k, s, ci, x).0),
        k.clauses[ci].horn() && supported(k.clauses[ci].body) ==> done_at(
            k,
            s,
            clause_fired(k, s, ci, x).0,
            ci,
            x,
        ),
{
    let out = clause_fired(k, s, ci, x).0;
    let s1 = State {
        stats: SearchStats {
            match_attempts: crate::graph::tick(s.stats.match_attempts),
            ..s.stats
        },
        ..s
    };
    lemma_unfolds_refl(k, s);
    assert(unfolds(k, s, s1));
    if k.clauses[ci].horn() {
        let cl = k.clauses[ci];
        lemma_matches_valid(s1.g, k.roles, cl.body, x);
        if let Some(bs) = matches_of(s1.g.nodes, k.roles, cl.body, x) {
            lemma_bindings_done(k, s1, ci, x, bs, 0, false);
            lemma_unfolds_trans(k, s, s1, out);
            if supported(cl.body) {
                assert forall|b: Seq<(Var, HNode)>|
                    proper(cl.body, b) && binding_valid(b, s.g.nodes.len() as int) && body_holds(
                        s.g.nodes,
                        k.roles,
                        cl.body,
                        x,
                        b,
                    ) implies #[trigger] head_done(k, out.g, cl.head, x, b, quiet(s, out))
                    && head_met(
                    k,
                    out.g,
                    cl.head,
                    x,
                    b,
                    |t: HNode| held_up(k, s.g, out.g, t),
                    true,
                ) by {
                    lemma_matches_complete(s.g.nodes, k.roles, cl.body, x, b);
                    let j = bs.index_of(b);
                    assert(bs[j] == b);
                }
            }
        }
    }
}

/// Firing persists: what was done before or is done after is done.
proof fn lemma_done_before(k: Config, s0: State, s1: State, s2: State, ci: int, x: HNode)
    requires
        s0.wf(),
        s1.wf(),
        s0.g.valid(x),
        unfolds(k, s0, s1),
        unfolds(k, s1, s2),
        done_at(k, s0, s1, ci, x) || done_at(k, s1, s2, ci, x),
    ensures
        done_at(k, s0, s2, ci, x),
{
    let cl = k.clauses[ci];
    assert forall|b: Seq<(Var, HNode)>|
        proper(cl.body, b) && binding_valid(b, s0.g.nodes.len() as int) && body_holds(
            s0.g.nodes,
            k.roles,
            cl.body,
            x,
            b,
        ) implies #[trigger] head_done(k, s2.g, cl.head, x, b, quiet(s0, s2)) && head_met(
        k,
        s2.g,
        cl.head,
        x,
        b,
        |t: HNode| held_up(k, s0.g, s2.g, t),
        true,
    ) by {
        assert(binding_valid(b, s1.g.nodes.len() as int));
        lemma_body_holds_grows(s0.g, s1.g, k.roles, cl.body, x, b);
        let off = |t: HNode| held_up(k, s0.g, s2.g, t);
        if done_at(k, s0, s1, ci, x) {
            assert(head_done(k, s1.g, cl.head, x, b, quiet(s0, s1)));
            lemma_head_stays(k, s1, s2, cl.head, x, b, quiet(s0, s2));
            let was = |t: HNode| held_up(k, s0.g, s1.g, t);
            lemma_met_stays(k, s1, s2, cl.head, x, b, was, true);
            assert forall|t: HNode| #[trigger] was(t) implies off(t) by {
                lemma_held_up_wider(k, s0.g, s0.g, s1.g, s2.g, t);
            }
            lemma_met_weaker(k, s2.g, cl.head, x, b, was, off, true, true);
        } else {
            assert(head_done(k, s2.g, cl.head, x, b, quiet(s1, s2)));
            let was = |t: HNode| held_up(k, s1.g, s2.g, t);
            assert forall|t: HNode| #[trigger] was(t) implies off(t) by {
                lemma_held_up_wider(k, s0.g, s1.g, s2.g, s2.g, t);
            }
            lemma_met_weaker(k, s2.g, cl.head, x, b, was, off, true, true);
        }
    }
}

proof fn lemma_list_done(k: Config, s: State, cis: Seq<usize>, i: int, n: HNode)
    requires
        k.wf(),
        s.wf(),
        s.g.valid(n),
        0 <= i,
        listed_below(cis, k.clauses.len() as int),
        !stops(list_fired(k, s, cis, i, n).1),
    ensures
        unfolds(k, s, list_fired(k, s, cis, i, n).0),
        forall|j: int|
            #![trigger cis[j]]
            i <= j < cis.len() && k.clauses[cis[j] as int].horn() && supported(k.clauses[cis[j] as int].body) ==> done_at(k, s, list_fired(k, s, cis, i, n).0, cis[j] as int, n),
    decreases cis.len() - i,
{
    lemma_unfolds_refl(k, s);
    if i < cis.len() {
        let out = list_fired(k, s, cis, i, n).0;
        let s1 = clause_fired(k, s, cis[i] as int, n).0;
        lemma_clause_done(k, s, cis[i] as int, n);
        lemma_clause_fired(k, s, cis[i] as int, n);
        lemma_list_done(k, s1, cis, i + 1, n);
        lemma_unfolds_trans(k, s, s1, out);
        assert forall|j: int|
            #![trigger cis[j]]
            i <= j < cis.len() && k.clauses[cis[j] as int].horn() && supported(k.clauses[cis[j] as int].body) implies done_at(k, s, out, cis[j] as int, n) by {
            lemma_done_before(k, s, s1, out, cis[j] as int, n);
        }
    }
}

proof fn lemma_list_at_done(k: Config, s: State, cis: Seq<usize>, ns: Seq<HNode>, q: int)
    requires
        k.wf(),
        s.wf(),
        nodes_valid(s.g, ns),
        0 <= q,
        listed_below(cis, k.clauses.len() as int),
        !stops(list_fired_at(k, s, cis, ns, q).1),
    ensures
        unfolds(k, s, list_fired_at(k, s, cis, ns, q).0),
        forall|j: int, p: int|
            #![trigger cis[j], ns[p]]
            0 <= j < cis.len() && q <= p < ns.len() && k.clauses[cis[j] as int].horn()
                && supported(k.clauses[cis[j] as int].body) ==> done_at(
                k,
                s,
                list_fired_at(k, s, cis, ns, q).0,
                cis[j] as int,
                ns[p],
            ),
    decreases ns.len() - q,
{
    lemma_unfolds_refl(k, s);
    if q < ns.len() {
        let out = list_fired_at(k, s, cis, ns, q).0;
        let s1 = list_fired(k, s, cis, 0, ns[q]).0;
        lemma_list_done(k, s, cis, 0, ns[q]);
        lemma_list_fired(k, s, cis, 0, ns[q]);
        assert forall|i: int| 0 <= i < ns.len() implies s1.g.valid(#[trigger] ns[i]) by {
            assert(s.g.valid(ns[i]));
        }
        lemma_list_at_done(k, s1, cis, ns, q + 1);
        lemma_unfolds_trans(k, s, s1, out);
        assert forall|j: int, p: int|
            #![trigger cis[j], ns[p]]
            0 <= j < cis.len() && q <= p < ns.len() && k.clauses[cis[j] as int].horn()
                && supported(k.clauses[cis[j] as int].body) implies done_at(
            k,
            s,
            out,
            cis[j] as int,
            ns[p],
        ) by {
            assert(s.g.valid(ns[p]));
            lemma_done_before(k, s, s1, out, cis[j] as int, ns[p]);
        }
    }
}

/// Processing the event fires clause `ci` at `x`.
spec fn rings(k: Config, g: Graph, e: Event, ci: usize, x: HNode) -> bool {
    match e {
        Event::Label(n, c) => {
            ||| row(k.index.x, c.0 as int).contains(ci) && n == x
            ||| row(k.index.succ, c.0 as int).contains(ci) && sources(g, n).contains(x)
        },
        Event::Edge(a, r, t) => {
            ||| row(k.index.role, r.id().0 as int).contains(ci) && a == x
            ||| row(k.index.back, r.id().0 as int).contains(ci) && sources(g, a).contains(x)
            ||| row(k.index.inverse_first, r.id().0 as int).contains(ci) && t == x
        },
        Event::NodeNew(n) => k.index.empty.contains(ci) && n == x,
    }
}

proof fn lemma_sources_grow(s0: State, s1: State, n: HNode, x: HNode)
    requires
        crate::graph::grows(s0.g, s1.g),
        s0.g.valid(n),
        sources(s0.g, n).contains(x),
    ensures
        sources(s1.g, n).contains(x),
{
    let i = choose|i: int| 0 <= i < sources(s0.g, n).len() && sources(s0.g, n)[i] == x;
    let e = s0.g.at(n).preds[i];
    assert(node_grows(s0.g.nodes[n.at()], s1.g.nodes[n.at()]));
    assert(s0.g.at(n).preds.contains(e));
    assert(s1.g.at(n).preds.contains(e));
    let j = s1.g.at(n).preds.index_of(e);
    assert(sources(s1.g, n)[j] == x);
}

/// A bell once heard stays heard.
proof fn lemma_rings_stay(k: Config, s0: State, s1: State, e: Event, ci: usize, x: HNode)
    requires
        crate::graph::grows(s0.g, s1.g),
        event_valid(s0.g, e),
        rings(k, s0.g, e, ci, x),
    ensures
        rings(k, s1.g, e, ci, x),
{
    match e {
        Event::Label(n, c) => {
            if sources(s0.g, n).contains(x) {
                lemma_sources_grow(s0, s1, n, x);
            }
        },
        Event::Edge(a, r, t) => {
            if sources(s0.g, a).contains(x) {
                lemma_sources_grow(s0, s1, a, x);
            }
        },
        Event::NodeNew(n) => {},
    }
}

/// The state after the event has merged nodes for a nominal, if it does.
spec fn merging(k: Config, s: State, ev: Event) -> State {
    match ev {
        Event::Label(n, c) => nominal_merged(k, s, n, c).0,
        _ => s,
    }
}

proof fn lemma_event_fires(k: Config, sa: State, ev: Event)
    requires
        k.wf(),
        sa.wf(),
        event_valid(sa.g, ev),
        !stops(event_done(k, sa, ev).1),
    ensures
        merging(k, sa, ev).wf(),
        unfolds(k, merging(k, sa, ev), event_done(k, sa, ev).0),
        forall|ci: usize, x: HNode| #[trigger]
            rings(k, merging(k, sa, ev).g, ev, ci, x) && merging(k, sa, ev).g.valid(x) && ci
                < k.clauses.len() && k.clauses[ci as int].horn() && supported(
                k.clauses[ci as int].body,
            ) ==> done_at(k, merging(k, sa, ev), event_done(k, sa, ev).0, ci as int, x),
{
    let n0 = k.clauses.len() as int;
    let out = event_done(k, sa, ev).0;
    let s = merging(k, sa, ev);
    if let Event::Label(n, c) = ev {
        lemma_nominal_merged(k, sa, n, c);
    }
    match ev {
        Event::Label(n, c) => {
            let key = c.0 as int;
            lemma_row_below(k.index.x, key, n0);
            lemma_row_below(k.index.succ, key, n0);
            let xs = row(k.index.x, key);
            let ss = row(k.index.succ, key);
            lemma_list_done(k, s, xs, 0, n);
            lemma_list_fired(k, s, xs, 0, n);
            let s2 = list_fired(k, s, xs, 0, n).0;
            lemma_sources_valid(s2.g, n);
            lemma_list_at_done(k, s2, ss, sources(s2.g, n), 0);
            lemma_unfolds_trans(k, s, s2, out);
            assert forall|ci: usize, x: HNode| #[trigger]
                rings(k, s.g, ev, ci, x) && s.g.valid(x) && ci < k.clauses.len()
                    && k.clauses[ci as int].horn() && supported(k.clauses[ci as int].body) implies done_at(k, s, out, ci as int, x) by {
                if xs.contains(ci) && n == x {
                    let j = xs.index_of(ci);
                    assert(xs[j] == ci);
                    assert(done_at(k, s, s2, ci as int, x));
                } else {
                    lemma_sources_grow(s, s2, n, x);
                    let j = ss.index_of(ci);
                    let p = sources(s2.g, n).index_of(x);
                    assert(ss[j] == ci && sources(s2.g, n)[p] == x);
                    assert(done_at(k, s2, out, ci as int, x));
                }
                lemma_done_before(k, s, s2, out, ci as int, x);
            }
        },
        Event::Edge(src, role, tgt) => {
            let key = role.id().0 as int;
            lemma_row_below(k.index.role, key, n0);
            lemma_row_below(k.index.back, key, n0);
            lemma_row_below(k.index.inverse_first, key, n0);
            let rs = row(k.index.role, key);
            let bs = row(k.index.back, key);
            let is = row(k.index.inverse_first, key);
            lemma_list_done(k, s, rs, 0, src);
            lemma_list_fired(k, s, rs, 0, src);
            let s1 = list_fired(k, s, rs, 0, src).0;
            lemma_sources_valid(s1.g, src);
            lemma_list_at_done(k, s1, bs, sources(s1.g, src), 0);
            lemma_list_fired_at(k, s1, bs, sources(s1.g, src), 0);
            let s2 = list_fired_at(k, s1, bs, sources(s1.g, src), 0).0;
            lemma_list_done(k, s2, is, 0, tgt);
            lemma_unfolds_trans(k, s, s1, s2);
            lemma_unfolds_trans(k, s1, s2, out);
            lemma_unfolds_trans(k, s, s2, out);
            assert forall|ci: usize, x: HNode| #[trigger]
                rings(k, s.g, ev, ci, x) && s.g.valid(x) && ci < k.clauses.len()
                    && k.clauses[ci as int].horn() && supported(k.clauses[ci as int].body) implies done_at(k, s, out, ci as int, x) by {
                if rs.contains(ci) && src == x {
                    let j = rs.index_of(ci);
                    assert(rs[j] == ci);
                    assert(done_at(k, s, s1, ci as int, x));
                    lemma_done_before(k, s, s1, out, ci as int, x);
                } else if bs.contains(ci) && sources(s.g, src).contains(x) {
                    lemma_sources_grow(s, s1, src, x);
                    let j = bs.index_of(ci);
                    let p = sources(s1.g, src).index_of(x);
                    assert(bs[j] == ci && sources(s1.g, src)[p] == x);
                    assert(done_at(k, s1, s2, ci as int, x));
                    lemma_done_before(k, s, s1, s2, ci as int, x);
                    lemma_done_before(k, s, s2, out, ci as int, x);
                } else {
                    let j = is.index_of(ci);
                    assert(is[j] == ci);
                    assert(done_at(k, s2, out, ci as int, x));
                    lemma_done_before(k, s, s2, out, ci as int, x);
                }
            }
        },
        Event::NodeNew(n) => {
            let es = k.index.empty;
            assert forall|i: int| 0 <= i < es.len() implies #[trigger] es[i] < n0 by {}
            lemma_list_done(k, s, es, 0, n);
            assert forall|ci: usize, x: HNode| #[trigger]
                rings(k, s.g, ev, ci, x) && s.g.valid(x) && ci < k.clauses.len()
                    && k.clauses[ci as int].horn() && supported(k.clauses[ci as int].body) implies done_at(k, s, out, ci as int, x) by {
                let j = es.index_of(ci);
                assert(es[j] == ci);
            }
        },
    }
}

/// Among the facts, an edge leads from `x` to the node `m` of `v`, by an atom
/// of the body that leads from the central variable to `v`.
pub open spec fn stepped(body: Seq<Atom>, es: Seq<Event>, x: HNode, v: Var, m: HNode) -> bool {
    exists|q: int| 0 <= q < body.len() && #[trigger] steps(body[q], es[q], x, v, m)
}

/// The atom leads from the central variable to `v`, and the edge from `x` to
/// `m`.
pub open spec fn steps(atom: Atom, e: Event, x: HNode, v: Var, m: HNode) -> bool {
    &&& atom matches Atom::Role(r, u, w) && u == X && w == v
    &&& e matches Event::Edge(a, r, t) && a == x && t == m
}

/// The fact `es[q]` makes atom `q` hold under `b`, and is one that the clause
/// listens to. Class atoms are on the central variable or one step from it.
/// Edges have the property that the atom asks for; they leave the central
/// variable or a node one step from it, or lead to the central variable
/// where an inverse or symmetric property is asked for.
pub open spec fn vouches(
    h: Option<HierarchyView>,
    body: Seq<Atom>,
    x: HNode,
    b: Seq<(Var, HNode)>,
    es: Seq<Event>,
    q: int,
) -> bool {
    match body[q] {
        Atom::Class(c, v) => match var_node(v, x, b) {
            Some(m) => es[q] == Event::Label(m, c) && (v == X || stepped(body, es, x, v, m)),
            None => false,
        },
        Atom::Role(r, u, v) => match (var_node(u, x, b), var_node(v, x, b), es[q]) {
            (Some(a), Some(m), Event::Edge(from, e, to)) => {
                ||| {
                    &&& from == a && to == m
                    &&& e.id() == r.id() && role_sat(e, r, h)
                    &&& u == X || stepped(body, es, x, u, a)
                }
                ||| {
                    &&& u == X && from == m && to == a
                    &&& e.id() == r.id() && role_sat(e.flipped(), r, h)
                    &&& r is Inverse || (h matches Some(hv) && hv.sym(r.id()))
                }
            },
            _ => false,
        },
        _ => false,
    }
}

/// The facts `es` make the body of clause `ci` hold at `x` under `b`, between
/// nodes that were not merged away, and the clause listens to each of them.
pub open spec fn enabled(
    k: Config,
    g: Graph,
    ci: int,
    x: HNode,
    b: Seq<(Var, HNode)>,
    es: Seq<Event>,
) -> bool {
    let body = k.clauses[ci].body;
    &&& 0 <= ci < k.clauses.len()
    &&& k.clauses[ci].horn()
    &&& supported(body)
    &&& proper(body, b)
    &&& g.valid(x)
    &&& g.rep(x) == x
    &&& binding_valid(b, g.nodes.len() as int)
    &&& forall|m: int| 0 <= m < b.len() ==> g.rep((#[trigger] b[m]).1) == b[m].1
    &&& es.len() == body.len()
    &&& forall|q: int| 0 <= q < body.len() ==> vouches(k.roles, body, x, b, es, q)
    &&& forall|q: int| 0 <= q < es.len() ==> fact(g, #[trigger] es[q])
}

/// The Horn clauses that are not put off have fired: where the body of one
/// holds by facts that the clause listens to, the head is there. In particular
/// no clause without a head is enabled. With `all`, none is put off.
pub open spec fn horn_fired(k: Config, g: Graph, all: bool) -> bool {
    forall|ci: int, x: HNode, b: Seq<(Var, HNode)>, es: Seq<Event>| #[trigger]
        enabled(k, g, ci, x, b, es) ==> head_done(k, g, k.clauses[ci].head, x, b, all)
}

/// What has fired with nothing put off has fired.
pub proof fn lemma_fired_weaker(k: Config, g: Graph, a: bool, b: bool)
    requires
        horn_fired(k, g, a),
        b ==> a,
    ensures
        horn_fired(k, g, b),
{
    assert forall|ci: int, x: HNode, bd: Seq<(Var, HNode)>, es: Seq<Event>| #[trigger]
        enabled(k, g, ci, x, bd, es) implies head_done(k, g, k.clauses[ci].head, x, bd, b) by {
        assert(head_done(k, g, k.clauses[ci].head, x, bd, a));
    }
}

proof fn lemma_stepped_source(
    g: Graph,
    body: Seq<Atom>,
    es: Seq<Event>,
    x: HNode,
    v: Var,
    m: HNode,
)
    requires
        mirrored(g),
        es.len() == body.len(),
        forall|q: int| 0 <= q < es.len() ==> fact(g, #[trigger] es[q]),
        stepped(body, es, x, v, m),
    ensures
        g.valid(m),
        sources(g, m).contains(x),
{
    let q = choose|q: int| 0 <= q < body.len() && #[trigger] steps(body[q], es[q], x, v, m);
    assert(fact(g, es[q]));
    let e = es[q]->Edge_1;
    assert(g.at(x).edges.contains((e, m)));
    assert(g.at(m).preds.contains((e, x)));
    let j = g.at(m).preds.index_of((e, x));
    assert(sources(g, m)[j] == x);
}

/// An enabled body holds.
proof fn lemma_enabled_holds(
    k: Config,
    g: Graph,
    ci: int,
    x: HNode,
    b: Seq<(Var, HNode)>,
    es: Seq<Event>,
)
    requires
        mirrored(g),
        enabled(k, g, ci, x, b, es),
    ensures
        body_holds(g.nodes, k.roles, k.clauses[ci].body, x, b),
{
    let body = k.clauses[ci].body;
    assert forall|q: int| 0 <= q < body.len() implies atom_holds(
        g.nodes,
        k.roles,
        #[trigger] body[q],
        x,
        b,
    ) by {
        assert(vouches(k.roles, body, x, b, es, q));
        assert(fact(g, es[q]));
        if let Atom::Role(r, u, v) = body[q] {
            let a = var_node(u, x, b)->0;
            let m = var_node(v, x, b)->0;
            if let Event::Edge(from, e, to) = es[q] {
                if from == a && to == m && role_sat(e, r, k.roles) {
                    assert(g.nodes[a.at()].edges.contains((e, m)));
                } else {
                    assert(g.at(m).edges.contains((e, a)));
                    assert(g.nodes[a.at()].preds.contains((e, m)));
                }
            }
        }
    }
}

/// Each of the facts rings for the clause.
proof fn lemma_enabled_rings(
    k: Config,
    g: Graph,
    ci: usize,
    x: HNode,
    b: Seq<(Var, HNode)>,
    es: Seq<Event>,
    q: int,
)
    requires
        k.index.of(k.clauses, k.roles),
        mirrored(g),
        enabled(k, g, ci as int, x, b, es),
        0 <= q < es.len(),
    ensures
        rings(k, g, es[q], ci, x),
{
    let cl = k.clauses[ci as int];
    let body = cl.body;
    let n = body.len() as int;
    assert(vouches(k.roles, body, x, b, es, q));
    match body[q] {
        Atom::Class(c, v) => {
            let key = c.0 as int;
            let m = var_node(v, x, b)->0;
            if v == X {
                assert(listens(Trigger::XClass, body[q], key, k.roles));
                assert(clause_listens(Trigger::XClass, cl, n, key, k.roles));
                assert(row(k.index.x, key).contains(ci));
            } else {
                lemma_stepped_source(g, body, es, x, v, m);
                assert(listens(Trigger::SuccClass, body[q], key, k.roles));
                assert(clause_listens(Trigger::SuccClass, cl, n, key, k.roles));
                assert(row(k.index.succ, key).contains(ci));
            }
        },
        Atom::Role(r, u, v) => {
            let a = var_node(u, x, b)->0;
            let m = var_node(v, x, b)->0;
            let key = r.id().0 as int;
            if let Event::Edge(from, e, to) = es[q] {
                assert(e.id() == r.id());
                if from == a && to == m && role_sat(e, r, k.roles) && u == X {
                    assert(listens(Trigger::AnyRole, body[q], key, k.roles));
                    assert(clause_listens(Trigger::AnyRole, cl, n, key, k.roles));
                    assert(row(k.index.role, key).contains(ci));
                } else if u != X {
                    lemma_stepped_source(g, body, es, x, u, a);
                    assert(listens(Trigger::BackRole, body[q], key, k.roles));
                    assert(clause_listens(Trigger::BackRole, cl, n, key, k.roles));
                    assert(row(k.index.back, key).contains(ci));
                } else {
                    assert(listens(Trigger::InverseFirst, body[q], key, k.roles));
                    assert(clause_listens(Trigger::InverseFirst, cl, n, key, k.roles));
                    assert(row(k.index.inverse_first, key).contains(ci));
                }
            }
        },
        _ => {},
    }
}

/// Under `b`, the body of the Horn clause `ci` holds at `x`, between nodes
/// that were not merged away.
pub open spec fn due(k: Config, g: Graph, ci: int, x: HNode, b: Seq<(Var, HNode)>) -> bool {
    let body = k.clauses[ci].body;
    &&& 0 <= ci < k.clauses.len()
    &&& k.clauses[ci].horn()
    &&& supported(body)
    &&& proper(body, b)
    &&& g.valid(x)
    &&& g.rep(x) == x
    &&& binding_valid(b, g.nodes.len() as int)
    &&& forall|m: int| 0 <= m < b.len() ==> g.rep((#[trigger] b[m]).1) == b[m].1
    &&& body_holds(g.nodes, k.roles, body, x, b)
}

/// The graph is closed under the Horn clauses, but for those that generate
/// nodes: where the body of one holds, the head is there, whichever facts
/// make it hold. In particular no clause without a head has a body that
/// holds. With `all`, those that generate nodes are not left out.
pub open spec fn horn_closed(k: Config, g: Graph, all: bool) -> bool {
    forall|ci: int, x: HNode, b: Seq<(Var, HNode)>| #[trigger]
        due(k, g, ci, x, b) ==> head_done(k, g, k.clauses[ci].head, x, b, all)
}

/// Since `s0` no node was found to be blocked, and no nodes are merged for a
/// nominal in a way that could undo a `≥n`.
spec fn whole(k: Config, s0: State, s: State) -> bool {
    quiet(s0, s) && individual(k, s.g)
}

/// The head is in the graph, or is put off. The search began at `s0`.
spec fn seen_to(k: Config, s0: State, s: State, ci: int, x: HNode, b: Seq<(Var, HNode)>) -> bool {
    let head = k.clauses[ci].head;
    &&& head_done(k, s.g, head, x, b, whole(k, s0, s))
    &&& head_met(
        k,
        s.g,
        head,
        x,
        b,
        |t: HNode| put_off(k, s0, ci, x, b, t),
        individual(k, s.g),
    )
}

/// What is enabled and not done has an event in the worklist that will fire
/// it. The search began at `s0`.
spec fn on_the_way(k: Config, s0: State, s: State) -> bool {
    forall|ci: int, x: HNode, b: Seq<(Var, HNode)>, es: Seq<Event>| #[trigger]
        enabled(k, s.g, ci, x, b, es) ==> seen_to(k, s0, s, ci, x, b) || has_ring(k, s, ci, x)
}

/// An event in the worklist fires clause `ci` at `x`.
spec fn has_ring(k: Config, s: State, ci: int, x: HNode) -> bool {
    exists|e: Event| #[trigger] s.work.contains(e) && rings(k, s.g, e, ci as usize, x)
}

/// An event merges nodes for a nominal, or merges none.
proof fn lemma_event_coarser(k: Config, s: State, ev: Event)
    requires
        k.wf(),
        s.wf(),
        event_valid(s.g, ev),
        !stops(event_done(k, s, ev).1),
    ensures
        coarser(s.g, event_done(k, s, ev).0.g),
        k.nominals is None || unmerged(event_done(k, s, ev).0.g) ==> merging(k, s, ev) == s,
{
    let n0 = k.clauses.len() as int;
    let out = event_done(k, s, ev).0;
    if let Event::Label(n, c) = ev {
        let s1 = nominal_merged(k, s, n, c).0;
        let rn = s.g.rep(n);
        assert(s.g.root[n.at()].at() < s.g.root.len());
        lemma_nominal_merged(k, s, n, c);
        lemma_bearer(s.g, rn, c, 0);
        if let Some(m) = bearer_from(s.g, rn, c, 0) {
            let cause = nominal_cause(s.g, n, m, c);
            lemma_merged_coarser(k, s, rn, m, cause);
            if nominal(k, c) {
                assert(s1.g.root == merged(k, s, rn, m, cause).0.g.root);
                assert(rn != m && s.g.root[m.at()] == m && s.g.root[rn.at()] == rn);
                crate::rules_wf::lemma_joined_nodes(
                    s,
                    rn,
                    m,
                    if k.nn_taint_disabled {
                        DepSet::empty()
                    } else {
                        cause
                    },
                );
                assert(s1.g.root[m.at()] == rn);
                assert(!unmerged(s1.g));
            }
        }
        assert(coarser(s.g, s1.g));
        let key = c.0 as int;
        lemma_row_below(k.index.x, key, n0);
        lemma_row_below(k.index.succ, key, n0);
        let xs = row(k.index.x, key);
        let ss = row(k.index.succ, key);
        lemma_list_done(k, s1, xs, 0, n);
        lemma_list_fired(k, s1, xs, 0, n);
        let s2 = list_fired(k, s1, xs, 0, n).0;
        lemma_sources_valid(s2.g, n);
        lemma_list_at_done(k, s2, ss, sources(s2.g, n), 0);
        lemma_unfolds_trans(k, s1, s2, out);
        lemma_unfolds_coarser(k, s1, out);
        lemma_coarser_trans(s.g, s1.g, out.g);
        if unmerged(out.g) {
            lemma_unmerged_before(s1.g, out.g);
        }
    } else {
        lemma_event_fires(k, s, ev);
        lemma_unfolds_coarser(k, s, out);
    }
}

proof fn lemma_drained_coarser(k: Config, s: State, left: nat)
    requires
        k.wf(),
        s.wf(),
        drained(k, s, left).1 is Sat,
    ensures
        coarser(s.g, drained(k, s, left).0.g),
    decreases left,
{
    if s.work.len() > 0 && left > 0 {
        let s1 = State { work: s.work.drop_last(), ..s };
        let ev = s.work.last();
        assert(event_valid(s.g, s.work[s.work.len() - 1]));
        let s2 = event_done(k, s1, ev).0;
        lemma_event_done(k, s1, ev);
        lemma_event_coarser(k, s1, ev);
        lemma_drained_coarser(k, s2, (left - 1) as nat);
        lemma_coarser_trans(s.g, s2.g, drained(k, s, left).0.g);
    }
}

/// Saturation merges nodes, or merges none.
pub proof fn lemma_saturation_coarser(k: Config, s: State, max_iters: nat)
    requires
        k.wf(),
        s.wf(),
        saturated(k, s, max_iters).1 is Sat,
    ensures
        coarser(s.g, saturated(k, s, max_iters).0.g),
{
    lemma_seeds(k, s.g, 0, Seq::empty());
    lemma_drained_coarser(k, reseeded(k, s), max_iters);
}

/// Node `a` was not merged away and bears the nominal `c`.
pub open spec fn stands_for(k: Config, g: Graph, a: HNode, c: ClassId) -> bool {
    g.valid(a) && g.rep(a) == a && nominal(k, c) && g.at(a).has(c)
}

/// Of the nodes that were not merged away, one at most bears each nominal.
pub open spec fn sole(k: Config, g: Graph) -> bool {
    forall|a: HNode, b: HNode, c: ClassId| #[trigger]
        stands_for(k, g, a, c) && #[trigger] stands_for(k, g, b, c) ==> a == b
}

/// An event for the nominal waits at one of the two nodes.
spec fn waits(s: State, a: HNode, b: HNode, c: ClassId) -> bool {
    exists|n: HNode| #[trigger] waits_at(s, n, a, b, c)
}

spec fn waits_at(s: State, n: HNode, a: HNode, b: HNode, c: ClassId) -> bool {
    &&& s.work.contains(Event::Label(n, c))
    &&& s.g.valid(n)
    &&& s.g.rep(n) == a || s.g.rep(n) == b
}

/// Of two nodes that bear the same nominal, one has an event in the worklist
/// for it.
spec fn settling(k: Config, s: State) -> bool {
    forall|a: HNode, b: HNode, c: ClassId| #[trigger]
        stands_for(k, s.g, a, c) && #[trigger] stands_for(k, s.g, b, c) ==> a == b || waits(
            s,
            a,
            b,
            c,
        )
}

proof fn lemma_bearer_none(g: Graph, n: HNode, c: ClassId, i: int, m: HNode)
    requires
        g.wf(),
        0 <= i <= m.at(),
        g.valid(m),
        g.rep(m) == m,
        m != n,
        g.at(m).has(c),
    ensures
        bearer_from(g, n, c, i) is Some,
    decreases m.at() - i,
{
    if i < m.at() {
        lemma_bearer_none(g, n, c, i + 1, m);
    } else {
        assert(g.root[i].at() == i);
    }
}

/// An event leaves an event for each two nodes that bear the same nominal.
proof fn lemma_settling_step(k: Config, s: State, s1: State, s2: State, ev: Event)
    requires
        s.wf(),
        s1 == (State { work: s.work.drop_last(), ..s }),
        s1.wf(),
        s.work.len() > 0,
        ev == s.work.last(),
        event_valid(s.g, ev),
        settling(k, s),
        ev matches Event::Label(n, c) ==> nominal_merged(k, s1, n, c).1 !is Clash,
        merging(k, s1, ev).wf(),
        unfolds(k, merging(k, s1, ev), s2),
        s2.wf(),
    ensures
        settling(k, s2),
{
    let sm = merging(k, s1, ev);
    assert forall|a: HNode, b: HNode, c: ClassId| #[trigger]
        stands_for(k, s2.g, a, c) && #[trigger] stands_for(k, s2.g, b, c) implies a == b || waits(
        s2,
        a,
        b,
        c,
    ) by {
        let ea = Event::Label(a, c);
        let eb = Event::Label(b, c);
        assert(fact(s2.g, ea) && fact(s2.g, eb));
        if a == b {
        } else if !fact(sm.g, ea) {
            assert(waits_at(s2, a, a, b, c));
        } else if !fact(sm.g, eb) {
            assert(waits_at(s2, b, a, b, c));
        } else {
            lemma_settling_merge(k, s, s1, ev, a, b, c);
            let n = choose|n: HNode| #[trigger] waits_at(sm, n, a, b, c);
            lemma_stays_queued(k, sm, s2, Event::Label(n, c));
            assert(s2.g.root[n.at()] == sm.g.root[n.at()]);
            assert(waits_at(s2, n, a, b, c));
        }
    }
}

/// As [`lemma_settling_step`], for the merge that an event makes.
proof fn lemma_settling_merge(
    k: Config,
    s: State,
    s1: State,
    ev: Event,
    a: HNode,
    b: HNode,
    c: ClassId,
)
    requires
        s.wf(),
        s1 == (State { work: s.work.drop_last(), ..s }),
        s1.wf(),
        s.work.len() > 0,
        ev == s.work.last(),
        event_valid(s.g, ev),
        settling(k, s),
        ev matches Event::Label(n, x) ==> nominal_merged(k, s1, n, x).1 !is Clash,
        a != b,
        nominal(k, c),
        fact(merging(k, s1, ev).g, Event::Label(a, c)),
        fact(merging(k, s1, ev).g, Event::Label(b, c)),
    ensures
        waits(merging(k, s1, ev), a, b, c),
{
    let sm = merging(k, s1, ev);
    let ea = Event::Label(a, c);
    let eb = Event::Label(b, c);
    if let Event::Label(n0, c0) = ev {
        lemma_nominal_takes_in(k, s1, n0, c0);
        let i = s1.g.rep(n0);
        let other = bearer_from(s1.g, i, c0, 0);
        if nominal(k, c0) && other is Some {
            let j = other->0;
            if !fact(s.g, ea) {
                assert(sm.work.contains(ea));
                assert(waits_at(sm, a, a, b, c));
            } else if !fact(s.g, eb) {
                assert(sm.work.contains(eb));
                assert(waits_at(sm, b, a, b, c));
            } else {
                assert(sm.g.root[j.at()] == i);
                assert(a != j && b != j);
                assert(stands_for(k, s.g, a, c) && stands_for(k, s.g, b, c));
                let n = choose|n: HNode| #[trigger] waits_at(s, n, a, b, c);
                if n == n0 && c == c0 {
                    let z = if i == a {
                        b
                    } else {
                        a
                    };
                    assert(stands_for(k, s.g, j, c) && stands_for(k, s.g, z, c));
                    let m = choose|m: HNode| #[trigger] waits_at(s, m, j, z, c);
                    lemma_still_waits(s, s1, ev, Event::Label(m, c));
                    lemma_kept_queued(s1, sm, Event::Label(m, c));
                    assert(sm.g.root[m.at()] == if s.g.root[m.at()] == j {
                        i
                    } else {
                        s.g.root[m.at()]
                    });
                    assert(waits_at(sm, m, a, b, c));
                } else {
                    lemma_still_waits(s, s1, ev, Event::Label(n, c));
                    lemma_kept_queued(s1, sm, Event::Label(n, c));
                    assert(sm.g.root[n.at()] == s.g.root[n.at()]);
                    assert(waits_at(sm, n, a, b, c));
                }
            }
        } else {
            assert(sm == s1);
            assert(stands_for(k, s.g, a, c) && stands_for(k, s.g, b, c));
            let n = choose|n: HNode| #[trigger] waits_at(s, n, a, b, c);
            if n == n0 && c == c0 {
                let z = if i == a {
                    b
                } else {
                    a
                };
                lemma_bearer_none(s1.g, i, c0, 0, z);
            } else {
                lemma_still_waits(s, s1, ev, Event::Label(n, c));
                assert(waits_at(sm, n, a, b, c));
            }
        }
    } else {
        assert(stands_for(k, s.g, a, c) && stands_for(k, s.g, b, c));
        let n = choose|n: HNode| #[trigger] waits_at(s, n, a, b, c);
        lemma_still_waits(s, s1, ev, Event::Label(n, c));
        assert(waits_at(sm, n, a, b, c));
    }
}

proof fn lemma_still_waits(s: State, s1: State, ev: Event, e: Event)
    requires
        s1.work == s.work.drop_last(),
        s.work.len() > 0,
        ev == s.work.last(),
        s.work.contains(e),
        e != ev,
    ensures
        s1.work.contains(e),
{
    let q = choose|q: int| 0 <= q < s.work.len() && s.work[q] == e;
    assert(s1.work[q] == e);
}

proof fn lemma_way_kept(k: Config, s0: State, s: State, i: nat, left: nat)
    requires
        s == after(k, s0, i),
        k.wf(),
        k.index.of(k.clauses, k.roles),
        s.wf(),
        mirrored(s.g),
        on_the_way(k, s0, s),
        s0.stats.blocks_fired <= s.stats.blocks_fired,
        drained(k, s, left).1 is Sat,
    ensures
        horn_fired(k, drained(k, s, left).0.g, whole(k, s0, drained(k, s, left).0)),
        horn_met(k, s0, drained(k, s, left).0.g),
        mirrored(drained(k, s, left).0.g),
    decreases left,
{
    if s.work.len() == 0 {
        let out = drained(k, s, left).0;
        assert(out.g == s.g);
        assert forall|ci: int, x: HNode, b: Seq<(Var, HNode)>, es: Seq<Event>| #[trigger]
            enabled(k, out.g, ci, x, b, es) implies head_done(
            k,
            out.g,
            k.clauses[ci].head,
            x,
            b,
            whole(k, s0, out),
        ) && head_met(
            k,
            out.g,
            k.clauses[ci].head,
            x,
            b,
            |t: HNode| put_off(k, s0, ci, x, b, t),
            individual(k, out.g),
        ) by {
            assert(enabled(k, s.g, ci, x, b, es));
            if has_ring(k, s, ci, x) {
                let e = choose|e: Event| #[trigger]
                    s.work.contains(e) && rings(k, s.g, e, ci as usize, x);
                assert(s.work.contains(e));
            }
        }
    } else if left > 0 {
        let s1 = State { work: s.work.drop_last(), ..s };
        let ev = s.work.last();
        assert(event_valid(s.g, s.work[s.work.len() - 1]));
        let (s2, o) = event_done(k, s1, ev);
        lemma_event_done(k, s1, ev);
        lemma_event_coarser(k, s1, ev);
        lemma_event_fires(k, s1, ev);
        lemma_merging_kept(k, s1, ev);
        assert(on_the_way(k, s0, s2)) by {
            assert forall|ci: int, x: HNode, b: Seq<(Var, HNode)>, es: Seq<Event>| #[trigger]
                enabled(k, s2.g, ci, x, b, es) implies seen_to(k, s0, s2, ci, x, b) || has_ring(
                k,
                s2,
                ci,
                x,
            ) by {
                lemma_way_step(k, s0, s, s1, s2, ev, i, ci, x, b, es);
            }
        }
        lemma_way_kept(k, s0, s2, i + 1, (left - 1) as nat);
    }
}

/// Saturation leaves each nominal with one node, edges along named roles, and
/// what is tidy tidy, if no nodes are merged.
proof fn lemma_drained_settles(k: Config, s: State, left: nat)
    requires
        k.wf(),
        s.wf(),
        drained(k, s, left).1 is Sat,
    ensures
        settling(k, s) ==> sole(k, drained(k, s, left).0.g),
        all_assured(k, s.g) ==> all_assured(k, drained(k, s, left).0.g),
        forward_only(k) && along_named(s.g) ==> along_named(drained(k, s, left).0.g),
        forward_only(k) && tidy(k, s.g) && unmerged(drained(k, s, left).0.g) ==> tidy(
            k,
            drained(k, s, left).0.g,
        ),
    decreases left,
{
    let out = drained(k, s, left).0;
    if s.work.len() == 0 {
        assert(out.g == s.g);
        if settling(k, s) {
            assert forall|a: HNode, b: HNode, c: ClassId| #[trigger]
                stands_for(k, out.g, a, c) && #[trigger] stands_for(k, out.g, b, c) implies a == b by {
                assert(stands_for(k, s.g, a, c) && stands_for(k, s.g, b, c));
                if a != b {
                    let n = choose|n: HNode| #[trigger] waits_at(s, n, a, b, c);
                    assert(s.work.contains(Event::Label(n, c)));
                }
            }
        }
    } else if left > 0 {
        let s1 = State { work: s.work.drop_last(), ..s };
        let ev = s.work.last();
        assert(event_valid(s.g, s.work[s.work.len() - 1]));
        let s2 = event_done(k, s1, ev).0;
        lemma_event_done(k, s1, ev);
        lemma_event_fires(k, s1, ev);
        if settling(k, s) {
            lemma_settling_step(k, s, s1, s2, ev);
        }
        if let Event::Label(n, c) = ev {
            lemma_nominal_keeps(k, s1, n, c);
        }
        if all_assured(k, s.g) {
            if let Event::Label(n, c) = ev {
                lemma_nominal_assured(k, s1, n, c);
            }
            lemma_assured_unfolds(k, merging(k, s1, ev), s2);
        }
        if forward_only(k) && tidy(k, s.g) && unmerged(out.g) {
            lemma_event_coarser(k, s1, ev);
            lemma_drained_coarser(k, s2, (left - 1) as nat);
            lemma_unmerged_before(s2.g, out.g);
            lemma_tidy_unfolds(k, s1, s2);
        }
        lemma_drained_settles(k, s2, (left - 1) as nat);
    }
}

/// What the merge of an event keeps.
proof fn lemma_merging_kept(k: Config, s: State, ev: Event)
    requires
        k.wf(),
        s.wf(),
        event_valid(s.g, ev),
        !stops(event_done(k, s, ev).1),
    ensures
        kept(s, merging(k, s, ev)),
        merging(k, s, ev).g.nodes.len() == s.g.nodes.len(),
        forall|m: HNode|
            s.g.valid(m) && #[trigger] merging(k, s, ev).g.rep(m) == m ==> s.g.rep(m) == m,
        mirrored(s.g) ==> mirrored(merging(k, s, ev).g),
{
    let sm = merging(k, s, ev);
    if let Event::Label(n, c) = ev {
        lemma_nominal_takes_in(k, s, n, c);
        lemma_nominal_keeps(k, s, n, c);
        if sm != s {
            let i = s.g.rep(n);
            let j = bearer_from(s.g, i, c, 0)->0;
            assert forall|m: HNode| s.g.valid(m) && #[trigger] sm.g.rep(m) == m implies s.g.rep(m)
                == m by {
                assert(sm.g.root[m.at()] == if s.g.root[m.at()] == j {
                    i
                } else {
                    s.g.root[m.at()]
                });
            }
        }
    }
}

/// One event processed: what it fires is done, what else was on the way still
/// is, and what came to be enabled is queued.
proof fn lemma_way_step(
    k: Config,
    s0: State,
    s: State,
    s1: State,
    s2: State,
    ev: Event,
    i: nat,
    ci: int,
    x: HNode,
    b: Seq<(Var, HNode)>,
    es: Seq<Event>,
)
    requires
        k.wf(),
        k.index.of(k.clauses, k.roles),
        s.wf(),
        mirrored(s.g),
        on_the_way(k, s0, s),
        s0.stats.blocks_fired <= s.stats.blocks_fired,
        s.work.len() > 0,
        ev == s.work.last(),
        s1 == (State { work: s.work.drop_last(), ..s }),
        s1.wf(),
        event_valid(s1.g, ev),
        s == after(k, s0, i),
        s2 == event_done(k, s1, ev).0,
        !stops(event_done(k, s1, ev).1),
        s2.wf(),
        enabled(k, s2.g, ci, x, b, es),
    ensures
        seen_to(k, s0, s2, ci, x, b) || has_ring(k, s2, ci, x),
{
    let cl = k.clauses[ci];
    let cu = ci as usize;
    let sm = merging(k, s1, ev);
    lemma_event_fires(k, s1, ev);
    lemma_merging_kept(k, s1, ev);
    if cl.body.len() == 0 && !fact(sm.g, Event::NodeNew(x)) {
        assert(k.index.empty.contains(cu));
        assert(fact(s2.g, Event::NodeNew(x)));
        assert(s2.work.contains(Event::NodeNew(x)));
        assert(rings(k, s2.g, Event::NodeNew(x), cu, x));
    } else if exists|q: int| 0 <= q < es.len() && !fact(s.g, #[trigger] es[q]) {
        let q = choose|q: int| 0 <= q < es.len() && !fact(s.g, #[trigger] es[q]);
        assert(vouches(k.roles, cl.body, x, b, es, q));
        assert(fact(s2.g, es[q]));
        if fact(sm.g, es[q]) {
            assert(sm.work.contains(es[q]));
            lemma_stays_queued(k, sm, s2, es[q]);
        } else {
            assert(es[q] !is NodeNew);
            assert(s2.work.contains(es[q]));
        }
        lemma_enabled_rings(k, s2.g, cu, x, b, es, q);
    } else {
        if cl.body.len() == 0 {
            assert(sm.g.rep(x) == x);
            assert(fact(s1.g, Event::NodeNew(x)));
        }
        lemma_enabled_mid(k, s1, sm, s2, ci, x, b, es);
        lemma_way_before(k, s0, s, s1, s2, ev, i, ci, x, b, es);
    }
}

/// If the facts were there before the merge, the clause was enabled before and
/// after it.
proof fn lemma_enabled_mid(
    k: Config,
    s1: State,
    sm: State,
    s2: State,
    ci: int,
    x: HNode,
    b: Seq<(Var, HNode)>,
    es: Seq<Event>,
)
    requires
        s1.wf(),
        sm.wf(),
        s2.wf(),
        kept(s1, sm),
        sm.g.nodes.len() == s1.g.nodes.len(),
        forall|m: HNode| s1.g.valid(m) && #[trigger] sm.g.rep(m) == m ==> s1.g.rep(m) == m,
        unfolds(k, sm, s2),
        mirrored(s1.g),
        mirrored(sm.g),
        enabled(k, s2.g, ci, x, b, es),
        forall|q: int| 0 <= q < es.len() ==> fact(s1.g, #[trigger] es[q]),
        k.clauses[ci].body.len() == 0 ==> fact(s1.g, Event::NodeNew(x)),
    ensures
        enabled(k, s1.g, ci, x, b, es),
        enabled(k, sm.g, ci, x, b, es),
{
    assert forall|q: int| 0 <= q < es.len() implies fact(sm.g, #[trigger] es[q]) by {
        assert(fact(s1.g, es[q]) && fact(s2.g, es[q]));
        let m = event_node(es[q]);
        assert(s1.g.valid(m));
        assert(s2.g.root[m.at()] == sm.g.root[m.at()]);
        assert(node_grows(s1.g.nodes[m.at()], sm.g.nodes[m.at()]));
    }
    if k.clauses[ci].body.len() == 0 {
        assert(s2.g.root[x.at()] == sm.g.root[x.at()]);
    }
    lemma_enabled_before(k, sm, s2, ci, x, b, es);
    assert forall|m: int| 0 <= m < b.len() implies s1.g.rep((#[trigger] b[m]).1) == b[m].1 by {
        assert(sm.g.rep(b[m].1) == b[m].1);
    }
    assert(sm.g.rep(x) == x);
}

/// As [`lemma_way_step`], for what was enabled before the event.
proof fn lemma_way_before(
    k: Config,
    s0: State,
    s: State,
    s1: State,
    s2: State,
    ev: Event,
    i: nat,
    ci: int,
    x: HNode,
    b: Seq<(Var, HNode)>,
    es: Seq<Event>,
)
    requires
        k.wf(),
        k.index.of(k.clauses, k.roles),
        s.wf(),
        mirrored(s.g),
        on_the_way(k, s0, s),
        s0.stats.blocks_fired <= s.stats.blocks_fired,
        s.work.len() > 0,
        ev == s.work.last(),
        s1 == (State { work: s.work.drop_last(), ..s }),
        s1.wf(),
        event_valid(s1.g, ev),
        s == after(k, s0, i),
        s2 == event_done(k, s1, ev).0,
        !stops(event_done(k, s1, ev).1),
        s2.wf(),
        enabled(k, s1.g, ci, x, b, es),
        enabled(k, merging(k, s1, ev).g, ci, x, b, es),
    ensures
        seen_to(k, s0, s2, ci, x, b) || has_ring(k, s2, ci, x),
{
    let cl = k.clauses[ci];
    let cu = ci as usize;
    let sm = merging(k, s1, ev);
    lemma_event_fires(k, s1, ev);
    lemma_merging_kept(k, s1, ev);
    lemma_event_coarser(k, s1, ev);
    if unmerged(s2.g) {
        lemma_unmerged_before(s1.g, s2.g);
    }
    assert(whole(k, s0, s2) ==> whole(k, s0, s));
    assert(enabled(k, s.g, ci, x, b, es));
    let off = |t: HNode| put_off(k, s0, ci, x, b, t);
    if seen_to(k, s0, s, ci, x, b) {
        if whole(k, s0, s2) && sm == s1 {
            lemma_head_stays(k, s1, s2, cl.head, x, b, true);
        } else {
            let all = whole(k, s0, s2);
            lemma_head_kept(k, s1, sm, cl.head, x, b, all);
            lemma_head_stays(k, sm, s2, cl.head, x, b, all);
        }
        let sound = individual(k, s2.g);
        lemma_met_weaker(k, s1.g, cl.head, x, b, off, off, individual(k, s.g), sound);
        if sm != s1 {
            lemma_met_kept(k, s1, sm, cl.head, x, b, off, sound);
        }
        lemma_met_stays(k, sm, s2, cl.head, x, b, off, sound);
    } else {
        let e = choose|e: Event| #[trigger] s.work.contains(e) && rings(k, s.g, e, cu, x);
        let q = choose|q: int| 0 <= q < s.work.len() && s.work[q] == e;
        assert(event_valid(s.g, s.work[q]));
        lemma_rings_stay(k, s1, sm, e, cu, x);
        if e == ev {
            assert(whole(k, s0, s2) ==> quiet(sm, s2));
            lemma_rung(k, sm, s2, ci, x, b, es, whole(k, s0, s2));
            lemma_enabled_holds(k, sm.g, ci, x, b, es);
            let here = |t: HNode| held_up(k, sm.g, s2.g, t);
            assert forall|t: HNode| #[trigger] here(t) implies off(t) by {
                let g = choose|g: Graph| #[trigger] holds_up(k, sm.g, g, s2.g, t);
                lemma_grows_trans(s.g, sm.g, g);
                lemma_body_holds_grows(sm.g, g, k.roles, cl.body, x, b);
                assert(after(k, s0, i + 1) == s2);
                assert(puts_off(k, s0, ci, x, b, t, i, g));
            }
            lemma_met_weaker(k, s2.g, cl.head, x, b, here, off, true, individual(k, s2.g));
        } else {
            lemma_still_waits(s, s1, ev, e);
            lemma_kept_queued(s1, sm, e);
            lemma_stays_queued(k, sm, s2, e);
            lemma_rings_stay(k, sm, s2, e, cu, x);
        }
    }
}

/// A clause that an event fired is done where it was enabled.
proof fn lemma_rung(
    k: Config,
    sm: State,
    s2: State,
    ci: int,
    x: HNode,
    b: Seq<(Var, HNode)>,
    es: Seq<Event>,
    all: bool,
)
    requires
        mirrored(sm.g),
        enabled(k, sm.g, ci, x, b, es),
        done_at(k, sm, s2, ci, x),
        all ==> quiet(sm, s2),
    ensures
        head_done(k, s2.g, k.clauses[ci].head, x, b, all),
        head_met(
            k,
            s2.g,
            k.clauses[ci].head,
            x,
            b,
            |t: HNode| held_up(k, sm.g, s2.g, t),
            true,
        ),
{
    lemma_enabled_holds(k, sm.g, ci, x, b, es);
    assert(head_done(k, s2.g, k.clauses[ci].head, x, b, quiet(sm, s2)));
}

proof fn lemma_head_weaker(
    k: Config,
    g: Graph,
    head: Seq<Atom>,
    x: HNode,
    b: Seq<(Var, HNode)>,
    a: bool,
    c: bool,
)
    requires
        head_done(k, g, head, x, b, a),
        c ==> a,
    ensures
        head_done(k, g, head, x, b, c),
{
}

/// A head between nodes that are not merged away stays in the graph through a
/// merge, unless it asks for `≥n`.
proof fn lemma_head_kept(
    k: Config,
    s0: State,
    s1: State,
    head: Seq<Atom>,
    x: HNode,
    b: Seq<(Var, HNode)>,
    all: bool,
)
    requires
        s0.wf(),
        s1.wf(),
        kept(s0, s1),
        s1.g.nodes.len() == s0.g.nodes.len(),
        forall|m: HNode| s0.g.valid(m) && #[trigger] s1.g.rep(m) == m ==> s0.g.rep(m) == m,
        s0.g.valid(x),
        s1.g.rep(x) == x,
        binding_valid(b, s0.g.nodes.len() as int),
        forall|m: int| 0 <= m < b.len() ==> s1.g.rep((#[trigger] b[m]).1) == b[m].1,
        head_done(k, s0.g, head, x, b, all),
        all ==> head[0] !is AtLeast,
    ensures
        head_done(k, s1.g, head, x, b, all),
{
    let n = s0.g.nodes.len() as int;
    match head[0] {
        Atom::Class(c, v) => {
            lemma_var_node_valid(v, x, b, n);
            if let Some(t) = var_node(v, x, b) {
                assert(node_grows(s0.g.nodes[t.at()], s1.g.nodes[t.at()]));
            }
        },
        Atom::AtMost(role, qual, m, v) => {
            lemma_var_node_valid(v, x, b, n);
        },
        Atom::Exists(role, c, v) => {
            lemma_var_node_valid(v, x, b, n);
            if let Some(t) = var_node(v, x, b) {
                if all {
                    lemma_witness_stays(k, s0.g, s1.g, t, role, c);
                }
            }
        },
        Atom::Role(role, u, v) => {
            lemma_var_node_valid(u, x, b, n);
            lemma_var_node_valid(v, x, b, n);
            lemma_var_node_bound(b, x, u);
            lemma_var_node_bound(b, x, v);
            if let (Some(src), Some(tgt)) = (var_node(u, x, b), var_node(v, x, b)) {
                assert(s1.g.rep(src) == src) by {
                    if src != x {
                        let j = choose|j: int| 0 <= j < b.len() && (#[trigger] b[j]).1 == src;
                        assert(s1.g.rep(b[j].1) == b[j].1);
                    }
                }
                assert(s1.g.rep(tgt) == tgt) by {
                    if tgt != x {
                        let j = choose|j: int| 0 <= j < b.len() && (#[trigger] b[j]).1 == tgt;
                        assert(s1.g.rep(b[j].1) == b[j].1);
                    }
                }
                let from = stored_edge(s0.g, role, src, tgt).0;
                assert(node_grows(s0.g.nodes[from.at()], s1.g.nodes[from.at()]));
            }
        },
        _ => {},
    }
}

/// If the facts were there before, the clause was enabled before.
proof fn lemma_enabled_before(
    k: Config,
    s1: State,
    s2: State,
    ci: int,
    x: HNode,
    b: Seq<(Var, HNode)>,
    es: Seq<Event>,
)
    requires
        s1.wf(),
        s2.wf(),
        unfolds(k, s1, s2),
        mirrored(s1.g),
        enabled(k, s2.g, ci, x, b, es),
        forall|q: int| 0 <= q < es.len() ==> fact(s1.g, #[trigger] es[q]),
        k.clauses[ci].body.len() == 0 ==> fact(s1.g, Event::NodeNew(x)),
    ensures
        enabled(k, s1.g, ci, x, b, es),
{
    let body = k.clauses[ci].body;
    assert forall|m: int| 0 <= m < b.len() implies (#[trigger] b[m]).1.at() < s1.g.nodes.len() by {
        let q = choose|q: int|
            0 <= q < body.len() && (#[trigger] body[q] matches Atom::Role(r, u, v) && v == (
            #[trigger] b[m]).0);
        assert(vouches(k.roles, body, x, b, es, q));
        assert(fact(s1.g, es[q]));
        crate::match_laws::lemma_var_node(b, x, b[m].0, b[m].1);
        assert(b.contains(b[m]));
        if let Event::Edge(from, e, to) = es[q] {
            assert(s1.g.at(from).edges.contains((e, to)));
        }
    }
    if body.len() > 0 {
        assert(vouches(k.roles, body, x, b, es, 0));
        assert(fact(s1.g, es[0]));
        lemma_enabled_at(k, s1.g, body, x, b, es);
        assert(s2.g.root[x.at()] == s1.g.root[x.at()]);
    }
}

/// The node that an enabled clause is about is in the graph.
proof fn lemma_enabled_at(
    k: Config,
    g: Graph,
    body: Seq<Atom>,
    x: HNode,
    b: Seq<(Var, HNode)>,
    es: Seq<Event>,
)
    requires
        mirrored(g),
        body.len() > 0,
        es.len() == body.len(),
        forall|q: int| 0 <= q < body.len() ==> vouches(k.roles, body, x, b, es, q),
        forall|q: int| 0 <= q < es.len() ==> fact(g, #[trigger] es[q]),
    ensures
        g.valid(x),
{
    assert(vouches(k.roles, body, x, b, es, 0));
    assert(fact(g, es[0]));
    match body[0] {
        Atom::Class(c, v) => {
            if v != X {
                let m = var_node(v, x, b)->0;
                let q = choose|q: int|
                    0 <= q < body.len() && #[trigger] steps(body[q], es[q], x, v, m);
                assert(fact(g, es[q]));
            }
        },
        Atom::Role(r, u, v) => {
            if u != X {
                let a = var_node(u, x, b)->0;
                let q = choose|q: int|
                    0 <= q < body.len() && #[trigger] steps(body[q], es[q], x, u, a);
                assert(fact(g, es[q]));
            } else {
                if let Event::Edge(from, e, to) = es[0] {
                    assert(g.at(from).edges.contains((e, to)));
                }
            }
        },
        _ => {},
    }
}

/// The label was there when the snapshot was captured, and no added clause
/// listens to it: it is not processed again.
pub open spec fn passed_over(k: Config, e: Event) -> bool {
    e matches Event::Label(n, c) && replayed(k, n.at(), c)
}

/// Node `x` has all that the body of the Horn clause `ci` asks for by labels
/// that are passed over.
pub open spec fn skipped(k: Config, ci: int, x: HNode) -> bool {
    let body = k.clauses[ci].body;
    &&& 0 <= ci < k.clauses.len()
    &&& k.clauses[ci].horn()
    &&& supported(body)
    &&& body.len() > 0
    &&& forall|q: int|
        0 <= q < body.len() ==> (#[trigger] body[q] matches Atom::Class(c, v) && v == X && replayed(
            k,
            x.at(),
            c,
        ))
}

/// What labels that are passed over ask for is in the graph already: they are
/// labels of its nodes, and ask for labels and successors that are there.
pub open spec fn primed(k: Config, g: Graph) -> bool {
    &&& k.lazy matches Some(l) ==> l.captured.len() <= g.nodes.len()
    &&& forall|ci: int, x: HNode| #[trigger]
        skipped(k, ci, x) ==> {
            let head = k.clauses[ci].head;
            &&& head.len() > 0 && (head[0] is Class || head[0] is Exists)
            &&& head_done(k, g, head, x, Seq::empty(), true)
        }
}

/// Where nothing is replayed, nothing is passed over.
pub proof fn lemma_primed(k: Config, g: Graph)
    requires
        k.lazy is None,
    ensures
        primed(k, g),
{
    assert forall|ci: int, x: HNode| !(#[trigger] skipped(k, ci, x)) by {
        if skipped(k, ci, x) {
            assert(k.clauses[ci].body[0] is Class);
        }
    }
}

/// What is in the graph already stays there.
pub proof fn lemma_primed_grows(k: Config, g0: Graph, g1: Graph)
    requires
        g0.wf(),
        primed(k, g0),
        crate::graph::grows(g0, g1),
    ensures
        primed(k, g1),
{
    assert forall|ci: int, x: HNode| #[trigger] skipped(k, ci, x) implies head_done(
        k,
        g1,
        k.clauses[ci].head,
        x,
        Seq::empty(),
        true,
    ) by {
        let b = Seq::<(Var, HNode)>::empty();
        assert(k.clauses[ci].body[0] is Class);
        assert(g0.valid(x));
        match k.clauses[ci].head[0] {
            Atom::Class(c, v) => {
                lemma_var_node_valid(v, x, b, g0.nodes.len() as int);
                if let Some(t) = var_node(v, x, b) {
                    assert(node_grows(g0.nodes[t.at()], g1.nodes[t.at()]));
                }
            },
            Atom::Exists(role, c, v) => {
                lemma_var_node_valid(v, x, b, g0.nodes.len() as int);
                if let Some(t) = var_node(v, x, b) {
                    lemma_witness_stays(k, g0, g1, t, role, c);
                }
            },
            _ => {},
        }
    }
}

/// What is enabled by labels that are passed over, and by nothing else, is in
/// the graph already.
proof fn lemma_primed_done(
    k: Config,
    g: Graph,
    ci: int,
    x: HNode,
    b: Seq<(Var, HNode)>,
    es: Seq<Event>,
)
    requires
        primed(k, g),
        enabled(k, g, ci, x, b, es),
        es.len() > 0,
        forall|q: int| 0 <= q < es.len() ==> passed_over(k, #[trigger] es[q]),
    ensures
        head_done(k, g, k.clauses[ci].head, x, b, true),
{
    let body = k.clauses[ci].body;
    assert forall|q: int| 0 <= q < body.len() implies (#[trigger] body[q] matches Atom::Class(c, v)
        && v == X && replayed(k, x.at(), c)) by {
        assert(passed_over(k, es[q]));
        assert(vouches(k.roles, body, x, b, es, q));
        if let Atom::Class(c, v) = body[q] {
            if v != X {
                let m = var_node(v, x, b)->0;
                assert(stepped(body, es, x, v, m));
                let p = choose|p: int| 0 <= p < body.len() && #[trigger] steps(body[p], es[p], x, v, m);
                assert(passed_over(k, es[p]));
            }
        }
    }
    assert(skipped(k, ci, x));
    assert(b.len() == 0) by {
        if b.len() > 0 {
            assert(b[0] == b[0]);
            let q = choose|q: int|
                0 <= q < body.len() && (#[trigger] body[q] matches Atom::Role(r, u, v) && v
                    == b[0].0);
            assert(body[q] is Class);
        }
    }
    assert(b =~= Seq::empty());
}

proof fn lemma_label_events_all(k: Config, g: Graph, i: int, j: int, work: Seq<Event>, e: Event)
    requires
        0 <= i < g.nodes.len() <= u32::MAX + 1,
        0 <= j,
        work.contains(e) || (!passed_over(k, e) && exists|p: int|
            j <= p < g.nodes[i].labels.len() && e == Event::Label(
                HNode(i as u32),
                #[trigger] g.nodes[i].labels[p],
            )),
    ensures
        label_events(k, g, i, j, work).contains(e),
    decreases g.nodes[i].labels.len() - j,
{
    if j < g.nodes[i].labels.len() {
        let c = g.nodes[i].labels[j];
        let f = Event::Label(HNode(i as u32), c);
        lemma_push_contains(work, f);
        let w1 = if replayed(k, i, c) {
            work
        } else {
            work.push(f)
        };
        lemma_label_events_all(k, g, i, j + 1, w1, e);
    }
}

proof fn lemma_edge_events_all(g: Graph, i: int, j: int, work: Seq<Event>, e: Event)
    requires
        0 <= i < g.nodes.len() <= u32::MAX + 1,
        0 <= j,
        work.contains(e) || exists|p: int|
            j <= p < g.nodes[i].edges.len() && e == Event::Edge(
                HNode(i as u32),
                (#[trigger] g.nodes[i].edges[p]).0,
                g.nodes[i].edges[p].1,
            ),
    ensures
        edge_events(g, i, j, work).contains(e),
    decreases g.nodes[i].edges.len() - j,
{
    if j < g.nodes[i].edges.len() {
        let (r, t) = g.nodes[i].edges[j];
        let f = Event::Edge(HNode(i as u32), r, t);
        lemma_push_contains(work, f);
        lemma_edge_events_all(g, i, j + 1, work.push(f), e);
    }
}

/// The node that an event is about.
spec fn event_node(e: Event) -> HNode {
    match e {
        Event::Label(n, c) => n,
        Event::Edge(a, r, t) => a,
        Event::NodeNew(n) => n,
    }
}

/// The worklist made anew holds all that is in the graph and not passed over.
proof fn lemma_seeds_all(k: Config, g: Graph, i: int, work: Seq<Event>, e: Event)
    requires
        g.wf(),
        0 <= i,
        work.contains(e) || (!passed_over(k, e) && fact(g, e) && i <= event_node(e).at() && (e is NodeNew
            ==> k.index.empty.len() > 0)),
    ensures
        seeds_from(k, g, i, work).contains(e),
    decreases g.nodes.len() - i,
{
    if i < g.nodes.len() {
        if g.root[i].at() != i {
            lemma_seeds_all(k, g, i + 1, work, e);
        } else {
            let n = HNode(i as u32);
            let f = Event::NodeNew(n);
            lemma_push_contains(work, f);
            let w1 = if k.index.empty.len() > 0 {
                work.push(f)
            } else {
                work
            };
            let w2 = label_events(k, g, i, 0, w1);
            let w3 = edge_events(g, i, 0, w2);
            if w1.contains(e) {
                lemma_label_events_all(k, g, i, 0, w1, e);
                lemma_edge_events_all(g, i, 0, w2, e);
            } else if event_node(e).at() == i {
                match e {
                    Event::Label(m, c) => {
                        assert(m == n);
                        let p = g.nodes[i].labels.index_of(c);
                        assert(g.nodes[i].labels[p] == c);
                        lemma_label_events_all(k, g, i, 0, w1, e);
                        lemma_edge_events_all(g, i, 0, w2, e);
                    },
                    Event::Edge(a, r, t) => {
                        assert(a == n);
                        let p = g.nodes[i].edges.index_of((r, t));
                        assert(g.nodes[i].edges[p] == (r, t));
                        lemma_edge_events_all(g, i, 0, w2, e);
                    },
                    Event::NodeNew(m) => {
                        assert(m == n);
                    },
                }
            }
            lemma_seeds_all(k, g, i + 1, w3, e);
        }
    }
}

/// Saturation that comes to an end without a clash is a fixpoint: every Horn
/// clause whose body holds by facts it listens to has fired. A snapshot may
/// be replayed lazily, if what its labels enable is there already.
pub proof fn lemma_saturation_closed(k: Config, s: State, max_iters: nat)
    requires
        k.wf(),
        primed(k, s.g),
        k.index.of(k.clauses, k.roles),
        s.wf(),
        mirrored(s.g),
        saturated(k, s, max_iters).1 is Sat,
    ensures
        horn_fired(
            k,
            saturated(k, s, max_iters).0.g,
            quiet(s, saturated(k, s, max_iters).0) && individual(
                k,
                saturated(k, s, max_iters).0.g,
            ),
        ),
        horn_met(k, reseeded(k, s), saturated(k, s, max_iters).0.g),
        mirrored(saturated(k, s, max_iters).0.g),
{
    lemma_seeds(k, s.g, 0, Seq::empty());
    let s0 = reseeded(k, s);
    assert(on_the_way(k, s0, s0)) by {
        assert forall|ci: int, x: HNode, b: Seq<(Var, HNode)>, es: Seq<Event>| #[trigger]
            enabled(k, s0.g, ci, x, b, es) implies seen_to(k, s0, s0, ci, x, b) || has_ring(
            k,
            s0,
            ci,
            x,
        ) by {
            let cl = k.clauses[ci];
            if cl.body.len() == 0 {
                let e = Event::NodeNew(x);
                assert(k.index.empty.contains(ci as usize));
                lemma_seeds_all(k, s.g, 0, Seq::empty(), e);
                assert(rings(k, s0.g, e, ci as usize, x));
                assert(s0.work.contains(e));
            } else if exists|q: int| 0 <= q < es.len() && !passed_over(k, #[trigger] es[q]) {
                let q = choose|q: int| 0 <= q < es.len() && !passed_over(k, #[trigger] es[q]);
                assert(vouches(k.roles, cl.body, x, b, es, q));
                assert(fact(s0.g, es[q]));
                lemma_seeds_all(k, s.g, 0, Seq::empty(), es[q]);
                lemma_enabled_rings(k, s0.g, ci as usize, x, b, es, q);
                assert(s0.work.contains(es[q]));
            } else {
                assert(enabled(k, s.g, ci, x, b, es));
                lemma_primed_done(k, s.g, ci, x, b, es);
                lemma_head_weaker(k, s.g, cl.head, x, b, true, whole(k, s0, s0));
                let off = |t: HNode| put_off(k, s0, ci, x, b, t);
                lemma_done_met(k, s.g, cl.head, x, b, off, individual(k, s0.g));
            }
        }
    }
    lemma_way_kept(k, s0, s0, 0, max_iters);
}

/// Where nothing is replayed lazily, saturation leaves each nominal with one
/// node, of those not merged away. Every `≥n` that was made to hold goes on
/// holding. Edges stay along named roles, if no head asks for others. Where no nodes are merged, what is tidy stays tidy.
pub proof fn lemma_saturation_settles(k: Config, s: State, max_iters: nat)
    requires
        k.wf(),
        s.wf(),
        saturated(k, s, max_iters).1 is Sat,
    ensures
        k.lazy is None ==> sole(k, saturated(k, s, max_iters).0.g),
        all_assured(k, s.g) ==> all_assured(k, saturated(k, s, max_iters).0.g),
        forward_only(k) && along_named(s.g) ==> along_named(saturated(k, s, max_iters).0.g),
        forward_only(k) && tidy(k, s.g) && unmerged(saturated(k, s, max_iters).0.g) ==> tidy(
            k,
            saturated(k, s, max_iters).0.g,
        ),
{
    lemma_seeds(k, s.g, 0, Seq::empty());
    let s0 = reseeded(k, s);
    if k.lazy is None {
        assert forall|a: HNode, b: HNode, c: ClassId| #[trigger]
            stands_for(k, s0.g, a, c) && #[trigger] stands_for(k, s0.g, b, c) implies a == b
            || waits(s0, a, b, c) by {
            lemma_seeds_all(k, s.g, 0, Seq::empty(), Event::Label(a, c));
            assert(waits_at(s0, a, a, b, c));
        }
        assert(settling(k, s0));
    }
    lemma_drained_settles(k, s0, max_iters);
}

} // verus!
