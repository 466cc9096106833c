//! A search that is not stopped by a deadline stalls only where something
//! gives out: events, node ids, nested branches, or patience.

use vstd::prelude::*;
use crate::clause::{Atom, Var};
use crate::completion::{
    choice_wf, decided, disjunctions_hold, lemma_blocks_wf, lemma_grouped_wf, matched,
};
use crate::dep_set::DepSet;
use crate::fixpoint::{
    drained, event_done, lemma_saturated, list_fired, list_fired_at, reseeded, saturated,
};
use crate::graph::{Config, Event, FireOutcome, Graph, HyperResult, SearchStats, State};
use crate::horn_closure::after;
use crate::ids::HNode;
use crate::index::row;
use crate::matching::matches_of;
use crate::node::Card;
use crate::queries::{block_check, body_deps, check_blocked, some_head_holds, successors};
use crate::refutation::lemma_partitions_frame;
use crate::rules::{atom_asserted, bindings_fired, clause_fired, head_fired};
use crate::rules_wf::lemma_atom_asserted;
use crate::search::{
    blocks_merged, branches, budget_checked, crowded, deepened, disjunct_taken, ended, groups_wf,
    inspected, joinable, lemma_open_disjunction, level, merges, open_binding_from,
    open_clause_from, open_disjunction_from, partition_taken, partitions, pending, placements,
    prepared, restored, searches, solves, tried, Choice, FIXPOINT_ITERS,
};

verus! {

/// No node ids are left for what the head atom asks for.
pub open spec fn short_of(at: Atom, g: Graph) -> bool {
    match at {
        Atom::Exists(role, c, v) => g.nodes.len() > u32::MAX,
        Atom::AtLeast(role, qual, n, v) => g.nodes.len() + n > u32::MAX + 1,
        _ => false,
    }
}

/// No node ids are left for what some head atom asks for.
pub open spec fn short(k: Config, g: Graph) -> bool {
    exists|ci: int, j: int|
        0 <= ci < k.clauses.len() && 0 <= j < k.clauses[ci].head.len() && #[trigger] short_of(
            k.clauses[ci].head[j],
            g,
        )
}

proof fn lemma_atom_full(
    k: Config,
    s: State,
    head: Atom,
    x: HNode,
    b: Seq<(Var, HNode)>,
    deps: DepSet,
)
    requires
        atom_asserted(k, s, head, x, b, deps).1 is Full,
    ensures
        short_of(head, atom_asserted(k, s, head, x, b, deps).0.g),
        atom_asserted(k, s, head, x, b, deps).0.g == s.g,
{
}

proof fn lemma_bindings_full(
    k: Config,
    s: State,
    ci: int,
    x: HNode,
    bs: Seq<Seq<(Var, HNode)>>,
    i: int,
    changed: bool,
)
    requires
        0 <= ci < k.clauses.len(),
        bindings_fired(k, s, ci, x, bs, i, changed).1 is Full,
    ensures
        short(k, bindings_fired(k, s, ci, x, bs, i, changed).0.g),
    decreases bs.len() - i,
{
    if 0 <= i < bs.len() {
        let cl = k.clauses[ci];
        let d = body_deps(s.g, cl.body, x, bs[i]);
        let (s1, o) = head_fired(k, s, cl.head, x, bs[i], d);
        match o {
            FireOutcome::Clash => {},
            FireOutcome::Full => {
                lemma_atom_full(k, s, cl.head[0], x, bs[i], d);
                assert(short_of(k.clauses[ci].head[0], s1.g));
            },
            FireOutcome::Changed => lemma_bindings_full(k, s1, ci, x, bs, i + 1, true),
            FireOutcome::NoChange => lemma_bindings_full(k, s1, ci, x, bs, i + 1, changed),
        }
    }
}

proof fn lemma_clause_full(k: Config, s: State, ci: int, x: HNode)
    requires
        0 <= ci < k.clauses.len(),
        clause_fired(k, s, ci, x).1 is Full,
    ensures
        short(k, clause_fired(k, s, ci, x).0.g),
{
    let s1 = State {
        stats: SearchStats {
            match_attempts: crate::graph::tick(s.stats.match_attempts),
            ..s.stats
        },
        ..s
    };
    if let Some(bs) = matches_of(s1.g.nodes, k.roles, k.clauses[ci].body, x) {
        lemma_bindings_full(k, s1, ci, x, bs, 0, false);
    }
}

proof fn lemma_list_full(k: Config, s: State, cis: Seq<usize>, i: int, n: HNode)
    requires
        forall|q: int| 0 <= q < cis.len() ==> #[trigger] cis[q] < k.clauses.len(),
        list_fired(k, s, cis, i, n).1 is Full,
    ensures
        short(k, list_fired(k, s, cis, i, n).0.g),
    decreases cis.len() - i,
{
    if 0 <= i < cis.len() {
        let (s1, o) = clause_fired(k, s, cis[i] as int, n);
        if o is Full {
            lemma_clause_full(k, s, cis[i] as int, n);
        } else {
            lemma_list_full(k, s1, cis, i + 1, n);
        }
    }
}

proof fn lemma_list_at_full(k: Config, s: State, cis: Seq<usize>, ns: Seq<HNode>, j: int)
    requires
        forall|q: int| 0 <= q < cis.len() ==> #[trigger] cis[q] < k.clauses.len(),
        list_fired_at(k, s, cis, ns, j).1 is Full,
    ensures
        short(k, list_fired_at(k, s, cis, ns, j).0.g),
    decreases ns.len() - j,
{
    if 0 <= j < ns.len() {
        let (s1, o) = list_fired(k, s, cis, 0, ns[j]);
        if o is Full {
            lemma_list_full(k, s, cis, 0, ns[j]);
        } else {
            lemma_list_at_full(k, s1, cis, ns, j + 1);
        }
    }
}

proof fn lemma_event_full(k: Config, s: State, ev: Event)
    requires
        k.wf(),
        event_done(k, s, ev).1 is Full,
    ensures
        short(k, event_done(k, s, ev).0.g),
{
    let n0 = k.clauses.len() as int;
    match ev {
        Event::Label(n, c) => {
            let xs = row(k.index.x, c.0 as int);
            let ss = row(k.index.succ, c.0 as int);
            crate::fixpoint::lemma_row_below(k.index.x, c.0 as int, n0);
            crate::fixpoint::lemma_row_below(k.index.succ, c.0 as int, n0);
            let s1 = crate::rules::nominal_merged(k, s, n, c).0;
            let (s2, o2) = list_fired(k, s1, xs, 0, n);
            if o2 is Full {
                lemma_list_full(k, s1, xs, 0, n);
            } else {
                lemma_list_at_full(k, s2, ss, crate::fixpoint::sources(s2.g, n), 0);
            }
        },
        Event::Edge(src, role, tgt) => {
            let key = role.id().0 as int;
            let rs = row(k.index.role, key);
            let bs = row(k.index.back, key);
            let is = row(k.index.inverse_first, key);
            crate::fixpoint::lemma_row_below(k.index.role, key, n0);
            crate::fixpoint::lemma_row_below(k.index.back, key, n0);
            crate::fixpoint::lemma_row_below(k.index.inverse_first, key, n0);
            let (s1, o1) = list_fired(k, s, rs, 0, src);
            let from = crate::fixpoint::sources(s1.g, src);
            let (s2, o2) = list_fired_at(k, s1, bs, from, 0);
            if o1 is Full {
                lemma_list_full(k, s, rs, 0, src);
            } else if o2 is Full {
                lemma_list_at_full(k, s1, bs, from, 0);
            } else {
                lemma_list_full(k, s2, is, 0, tgt);
            }
        },
        Event::NodeNew(n) => lemma_list_full(k, s, k.index.empty, 0, n),
    }
}

proof fn lemma_drained_stalls(k: Config, z: State, i: nat, left: nat)
    requires
        k.wf(),
        drained(k, after(k, z, i), left).1 is Stalled,
    ensures
        after(k, z, i + left).work.len() > 0 || short(k, drained(k, after(k, z, i), left).0.g),
    decreases left,
{
    let s = after(k, z, i);
    if s.work.len() > 0 && left > 0 {
        let s1 = State { work: s.work.drop_last(), ..s };
        let (s2, o) = event_done(k, s1, s.work.last());
        assert(after(k, z, i + 1) == s2);
        if o is Full {
            lemma_event_full(k, s1, s.work.last());
        } else {
            lemma_drained_stalls(k, z, i + 1, (left - 1) as nat);
            assert((i + 1) + (left - 1) as nat == i + left);
        }
    }
}

/// Saturation stalls only if an event is left after as many as it may process,
/// or if no node ids are left.
pub proof fn lemma_saturation_stalls(k: Config, s: State, max_iters: nat)
    requires
        k.wf(),
        saturated(k, s, max_iters).1 is Stalled,
    ensures
        after(k, reseeded(k, s), max_iters).work.len() > 0 || short(
            k,
            saturated(k, s, max_iters).0.g,
        ),
{
    lemma_drained_stalls(k, reseeded(k, s), 0, max_iters);
}

/// State `s` is `q`, in which the graph is `p`, with a head atom of clause `ci`
/// asserted.
pub open spec fn decides(
    k: Config,
    p: Graph,
    s: State,
    q: State,
    ci: int,
    j: int,
    n: HNode,
    b: Seq<(Var, HNode)>,
    deps: DepSet,
) -> bool {
    &&& q.g == p
    &&& 0 <= ci < k.clauses.len()
    &&& 0 <= j < k.clauses[ci].head.len()
    &&& s == atom_asserted(k, q, k.clauses[ci].head[j], n, b, deps).0
}

/// State `s` is `q`, in which the graph is `p`, with groups of nodes merged.
pub open spec fn groups_up(k: Config, p: Graph, s: State, q: State, groups: Seq<Seq<HNode>>) -> bool {
    q.g == p && s == blocks_merged(k, q, groups, 0).0
}

/// State `s` is the graph `p` with one choice made.
#[verifier::opaque]
pub open spec fn chosen(k: Config, p: Graph, s: State) -> bool {
    ||| exists|
        q: State,
        ci: int,
        j: int,
        n: HNode,
        b: Seq<(Var, HNode)>,
        deps: DepSet,
    | #[trigger] decides(k, p, s, q, ci, j, n, b, deps)
    ||| exists|q: State, groups: Seq<Seq<HNode>>| #[trigger] groups_up(k, p, s, q, groups)
}

/// State `b` is what saturation makes of `a`, without a clash, with one choice
/// made.
pub open spec fn goes_on(k: Config, a: State, b: State) -> bool {
    prepared(k, a).1 is Sat && chosen(k, prepared(k, a).0.g, b)
}

/// Each state goes on to the next.
pub open spec fn path_of(k: Config, s0: State, i: nat, s: State, path: Seq<State>) -> bool {
    &&& path.len() == i + 1
    &&& path[0] == s0
    &&& path[i as int] == s
    &&& forall|j: int| 0 <= j < i ==> goes_on(k, #[trigger] path[j], path[j + 1])
}

/// State `s` comes of `s0` by `i` choices, each made after saturation had come
/// to an end without a clash.
#[verifier::opaque]
pub open spec fn nested(k: Config, s0: State, i: nat, s: State) -> bool {
    exists|path: Seq<State>| #[trigger] path_of(k, s0, i, s, path)
}

/// After `i` choices saturation comes to the graph `g`.
#[verifier::opaque]
spec fn poised(k: Config, z: State, i: nat, g: Graph) -> bool {
    exists|p: State| #[trigger]
        nested(k, z, i, p) && prepared(k, p).1 is Sat && prepared(k, p).0.g == g
}

/// Something gives out at `s`: the search is cut off for want of progress, 100000
/// events do not saturate the graph, no node ids are left, or something is left
/// to decide where no more branches may be nested (`last`).
#[verifier::opaque]
pub open spec fn gives_out(k: Config, s: State, last: bool) -> bool {
    ||| budget_checked(k, s).1
    ||| after(k, reseeded(k, budget_checked(k, s).0), 100_000).work.len() > 0
    ||| short(k, prepared(k, s).0.g)
    ||| last && prepared(k, s).1 is Sat && !decided(k, prepared(k, s).0.g)
}

/// After at most `depth` choices something gives out.
#[verifier::opaque]
pub open spec fn gave_out(k: Config, s0: State, depth: nat) -> bool {
    exists|i: nat, s: State| #[trigger]
        nested(k, s0, i, s) && i <= depth && gives_out(k, s, i == depth)
}

proof fn lemma_nested_next(k: Config, z: State, i: nat, g: Graph, s: State)
    requires
        poised(k, z, i, g),
        chosen(k, g, s),
    ensures
        nested(k, z, i + 1, s),
{
    reveal(nested);
    reveal(poised);
    let p = choose|p: State| #[trigger]
        nested(k, z, i, p) && prepared(k, p).1 is Sat && prepared(k, p).0.g == g;
    let path = choose|path: Seq<State>| #[trigger] path_of(k, z, i, p, path);
    let longer = path.push(s);
    assert forall|j: int| 0 <= j < i + 1 implies goes_on(k, #[trigger] longer[j], longer[j + 1]) by {
        if j < i {
            assert(goes_on(k, path[j], path[j + 1]));
        }
    }
    assert(path_of(k, z, i + 1, s, longer));
}

proof fn lemma_poised(k: Config, z: State, i: nat, p: State)
    requires
        nested(k, z, i, p),
        prepared(k, p).1 is Sat,
    ensures
        poised(k, z, i, prepared(k, p).0.g),
{
    reveal(poised);
}

proof fn lemma_nested_none(k: Config, z: State)
    ensures
        nested(k, z, 0, z),
{
    reveal(nested);
    assert(path_of(k, z, 0, z, seq![z]));
}

proof fn lemma_decides(
    k: Config,
    q: State,
    s: State,
    ci: int,
    j: int,
    n: HNode,
    b: Seq<(Var, HNode)>,
    deps: DepSet,
)
    requires
        0 <= ci < k.clauses.len(),
        0 <= j < k.clauses[ci].head.len(),
        s == atom_asserted(k, q, k.clauses[ci].head[j], n, b, deps).0,
    ensures
        chosen(k, q.g, s),
{
    reveal(chosen);
    assert(decides(k, q.g, s, q, ci, j, n, b, deps));
}

proof fn lemma_groups_up(k: Config, q: State, groups: Seq<Seq<HNode>>)
    ensures
        chosen(k, q.g, blocks_merged(k, q, groups, 0).0),
{
    reveal(chosen);
    assert(groups_up(k, q.g, blocks_merged(k, q, groups, 0).0, q, groups));
}

/// A branch that could not be taken gives out.
proof fn lemma_branch_full(
    k: Config,
    z: State,
    i: nat,
    q: State,
    depth: nat,
    ci: int,
    j: int,
    n: HNode,
    b: Seq<(Var, HNode)>,
    deps: DepSet,
)
    requires
        poised(k, z, i, q.g),
        0 <= ci < k.clauses.len(),
        0 <= j < k.clauses[ci].head.len(),
        atom_asserted(k, q, k.clauses[ci].head[j], n, b, deps).1 is Full,
    ensures
        gave_out(k, z, i + depth),
{
    reveal(gives_out);
    reveal(poised);
    let p = choose|p: State| #[trigger]
        nested(k, z, i, p) && prepared(k, p).1 is Sat && prepared(k, p).0.g == q.g;
    lemma_atom_full(k, q, k.clauses[ci].head[j], n, b, deps);
    assert(short_of(k.clauses[ci].head[j], q.g));
    lemma_gave_out(k, z, i, p, i + depth);
}

proof fn lemma_gave_out(k: Config, z: State, i: nat, s: State, depth: nat)
    requires
        nested(k, z, i, s),
        i <= depth,
        gives_out(k, s, i == depth),
    ensures
        gave_out(k, z, depth),
{
    reveal(gave_out);
}

proof fn lemma_open_binding_fails(
    k: Config,
    g: Graph,
    ci: int,
    x: HNode,
    bs: Seq<Seq<(Var, HNode)>>,
    i: int,
)
    requires
        0 <= i,
    ensures
        open_binding_from(k, g, ci, x, bs, i) matches Some(b) ==> bs.contains(b)
            && !some_head_holds(k, g, k.clauses[ci].head, x, b),
    decreases bs.len() - i,
{
    if i < bs.len() {
        lemma_open_binding_fails(k, g, ci, x, bs, i + 1);
    }
}

proof fn lemma_open_clause_fails(k: Config, g: Graph, x: HNode, ci: int)
    requires
        0 <= ci,
        k.clauses.len() <= usize::MAX,
        open_clause_from(k, g, x, ci) is Some,
    ensures
        !disjunctions_hold(k, g, x),
    decreases k.clauses.len() - ci,
{
    if ci < k.clauses.len() {
        if k.clauses[ci].horn() {
            lemma_open_clause_fails(k, g, x, ci + 1);
        } else if let Some(bs) = matches_of(g.nodes, k.roles, k.clauses[ci].body, x) {
            lemma_open_binding_fails(k, g, ci, x, bs, 0);
            match open_binding_from(k, g, ci, x, bs, 0) {
                Some(b) => {
                    assert(matched(k, g, ci, x, b));
                },
                None => lemma_open_clause_fails(k, g, x, ci + 1),
            }
        } else {
            lemma_open_clause_fails(k, g, x, ci + 1);
        }
    }
}

proof fn lemma_open_undecided(k: Config, s: State, i: int)
    requires
        0 <= i,
        s.g.nodes.len() <= u32::MAX + 1,
        k.clauses.len() <= usize::MAX,
        open_disjunction_from(k, s, i).1 is Some,
    ensures
        !decided(k, s.g),
    decreases s.g.nodes.len() - i,
{
    if i < s.g.nodes.len() {
        let n = HNode(i as u32);
        let (s1, stopped) = check_blocked(k, s, n);
        if stopped || open_clause_from(k, s1.g, n, 0) is None {
            lemma_open_undecided(k, s1, i + 1);
        } else {
            lemma_open_clause_fails(k, s1.g, n, 0);
            assert(!block_check(k, s.g, n, s.stats).1);
        }
    }
}

proof fn lemma_crowded_over(k: Config, g: Graph, i: int, j: int)
    requires
        0 <= i,
        0 <= j,
    ensures
        crate::queries::open_at_most_from(k, g, i, j) matches Some((n, s, bound)) ==> s.len()
            > bound,
    decreases g.nodes.len() - i, g.nodes[i].at_most.len() - j,
{
    if i < g.nodes.len() {
        if g.root[i].at() != i || j >= g.nodes[i].at_most.len() {
            lemma_crowded_over(k, g, i + 1, 0);
        } else {
            lemma_crowded_over(k, g, i, j + 1);
        }
    }
}

proof fn lemma_crowded_undecided(k: Config, g: Graph)
    requires
        g.wf(),
        crate::queries::open_at_most_from(k, g, 0, 0) is Some,
    ensures
        !decided(k, g),
{
    let (n, succs, bound) = crate::queries::open_at_most_from(k, g, 0, 0)->0;
    lemma_crowded_over(k, g, 0, 0);
    crate::truth_card::lemma_open_at_most(k, g, 0, 0);
    let c = choose|c: Card| c.2 == bound && #[trigger] crate::truth_card::counted_by(
        k,
        g,
        n,
        c,
        succs,
    );
    assert(g.at(n).at_most.contains(c));
    assert(successors(k, g, n, c.0, c.1).len() > c.2);
}

proof fn lemma_solves_stalls(
    k: Config,
    z: State,
    i: nat,
    s0: State,
    depth: nat,
    s1: State,
)
    requires
        k.wf(),
        k.deadline is None,
        s0.wf(),
        depth <= k.init_depth,
        nested(k, z, i, s0),
        solves(k, s0, depth, s1, HyperResult::Stalled),
    ensures
        gave_out(k, z, i + depth),
    decreases depth, 1int, 0int, 0int,
{
    reveal(solves);
    reveal(searches);
    reveal(gives_out);
    let sa = budget_checked(k, s0).0;
    let (sb, rf) = prepared(k, s0);
    lemma_saturated(k, sa, FIXPOINT_ITERS as nat);
    lemma_open_disjunction(k, sb, 0);
    let sc = inspected(k, s0);
    let sd = deepened(k, sc, depth as int);
    let r = HyperResult::Stalled;
    if budget_checked(k, s0).1 {
        lemma_gave_out(k, z, i, s0, i + depth);
    } else if rf !is Sat {
        lemma_saturation_stalls(k, sa, FIXPOINT_ITERS as nat);
        lemma_gave_out(k, z, i, s0, i + depth);
    } else {
        match pending(k, s0) {
            Some((ci, n, b)) => {
                if depth == 0 {
                    lemma_open_undecided(k, sb, 0);
                    lemma_gave_out(k, z, i, s0, i);
                } else {
                    reveal(branches);
                    lemma_poised(k, z, i, s0);
                    let c = Choice { ci: ci as int, n, b };
                    lemma_branches_stalls(
                        k,
                        z,
                        i,
                        sd,
                        depth,
                        c,
                        0,
                        DepSet::empty(),
                        false,
                        s1,
                    );
                }
            },
            None => {
                if let Some((n, succs, bound)) = crowded(k, s0) {
                    lemma_crowded_undecided(k, sc.g);
                    if depth == 0 {
                        lemma_gave_out(k, z, i, s0, i);
                    } else {
                        reveal(merges);
                        lemma_poised(k, z, i, s0);
                        crate::truth_card::lemma_open_at_most(k, sc.g, 0, 0);
                        let c = choose|c: Card|
                            c.2 == bound && #[trigger] crate::truth_card::counted_by(
                                k,
                                sc.g,
                                n,
                                c,
                                succs,
                            );
                        assert(sc.g.node_wf(sc.g.nodes[n.at()], n.at()));
                        crate::queries::lemma_role_succ_valid(
                            sc.g,
                            k.roles,
                            sc.g.at(n).edges,
                            c.0,
                            c.1,
                        );
                        let (sz, stalled, found) = choose|sz: State, stalled: bool, found: bool|
                            #[trigger]
                            tried(sz, stalled, found) && partitions(
                                k,
                                sd,
                                depth,
                                succs,
                                0,
                                Seq::empty(),
                                bound as nat,
                                false,
                                sz,
                                stalled,
                                found,
                            ) && if found {
                                s1 == sz && r is Sat
                            } else if stalled {
                                s1 == sz && r is Stalled
                            } else {
                                s1 == (State { clash: DepSet::all(), ..sz }) && r is Unsat
                            };
                        reveal(partitions);
                        lemma_partitions_stalls(
                            k,
                            z,
                            i,
                            sd,
                            depth,
                            succs,
                            0,
                            Seq::empty(),
                            bound as nat,
                            false,
                            sz,
                            stalled,
                            found,
                        );
                    }
                }
            },
        }
    }
}

#[verifier::rlimit(60)]
proof fn lemma_branches_stalls(
    k: Config,
    z: State,
    i: nat,
    s: State,
    depth: nat,
    c: Choice,
    j: int,
    combined: DepSet,
    stalled: bool,
    s1: State,
)
    requires
        k.wf(),
        k.deadline is None,
        s.wf(),
        depth <= k.init_depth,
        choice_wf(k, s.g, c),
        0 <= j,
        poised(k, z, i, s.g),
        stalled ==> gave_out(k, z, i + depth),
        branches(k, s, depth, c, j, combined, stalled, s1, HyperResult::Stalled),
    ensures
        gave_out(k, z, i + depth),
    decreases depth, 0int, k.clauses[c.ci].head.len() - j, 0int,
{
    reveal_with_fuel(branches, 2);
    let cl = k.clauses[c.ci];
    let d = level(k, depth as int);
    let r = HyperResult::Stalled;
    if j < cl.head.len() {
        let deps = body_deps(s.g, cl.body, c.n, c.b).plus(d);
        let q = disjunct_taken(s);
        let (sy, o) = atom_asserted(k, q, cl.head[j], c.n, c.b, deps);
        lemma_atom_asserted(k, q, cl.head[j], c.n, c.b, deps);
        if o is Full {
            lemma_branch_full(k, z, i, q, depth, c.ci, j, c.n, c.b, deps);
            let s2 = restored(sy, s.g);
            lemma_branches_stalls(k, z, i, s2, depth, c, j + 1, combined, true, s1);
        } else {
            reveal(solves);
            reveal(searches);
            let (sz, rz) = choose|sz: State, rz: HyperResult| #[trigger]
                ended(sz, rz) && solves(k, sy, (depth - 1) as nat, sz, rz) && match rz {
                    HyperResult::Sat => s1 == sz && r is Sat,
                    HyperResult::Unsat => if !sz.clash.has(d) {
                        s1 == restored(sz, s.g) && r is Unsat
                    } else {
                        branches(
                            k,
                            restored(sz, s.g),
                            depth,
                            c,
                            j + 1,
                            combined.joined(sz.clash),
                            stalled,
                            s1,
                            r,
                        )
                    },
                    HyperResult::Stalled => branches(
                        k,
                        restored(sz, s.g),
                        depth,
                        c,
                        j + 1,
                        combined,
                        true,
                        s1,
                        r,
                    ),
                };
            let s2 = restored(sz, s.g);
            if rz is Stalled {
                lemma_decides(k, q, sy, c.ci, j, c.n, c.b, deps);
                lemma_nested_next(k, z, i, s.g, sy);
                lemma_solves_stalls(k, z, i + 1, sy, (depth - 1) as nat, sz);
                lemma_branches_stalls(k, z, i, s2, depth, c, j + 1, combined, true, s1);
            } else {
                let both = combined.joined(sz.clash);
                lemma_branches_stalls(k, z, i, s2, depth, c, j + 1, both, stalled, s1);
            }
        }
    }
}

#[verifier::rlimit(60)]
proof fn lemma_partitions_stalls(
    k: Config,
    z: State,
    i: nat,
    s: State,
    depth: nat,
    succs: Seq<HNode>,
    idx: int,
    groups: Seq<Seq<HNode>>,
    n: nat,
    stalled0: bool,
    s1: State,
    stalled1: bool,
    found: bool,
)
    requires
        k.wf(),
        k.deadline is None,
        s.wf(),
        depth <= k.init_depth,
        forall|q: int| 0 <= q < succs.len() ==> s.g.valid(#[trigger] succs[q]),
        groups_wf(s.g, groups),
        poised(k, z, i, s.g),
        stalled0 ==> gave_out(k, z, i + depth),
        partitions(k, s, depth, succs, idx, groups, n, stalled0, s1, stalled1, found),
    ensures
        stalled1 && !found ==> gave_out(k, z, i + depth),
    decreases depth, 0int, 2 * (succs.len() - idx) + 1, 0int,
{
    reveal(partitions);
    if idx < succs.len() {
        reveal(placements);
        lemma_placements_stalls(
            k,
            z,
            i,
            s,
            depth,
            succs,
            idx,
            groups,
            0,
            n,
            stalled0,
            s1,
            stalled1,
            found,
        );
    } else {
        let q = partition_taken(s);
        let (sy, clash) = blocks_merged(k, q, groups, 0);
        lemma_blocks_wf(k, q, groups, 0);
        if !clash {
            reveal(solves);
            reveal(searches);
            let (sz, rz) = choose|sz: State, rz: HyperResult| #[trigger]
                ended(sz, rz) && solves(k, sy, (depth - 1) as nat, sz, rz) && match rz {
                    HyperResult::Sat => s1 == sz && stalled1 == stalled0 && found,
                    HyperResult::Unsat => s1 == restored(sz, s.g) && stalled1 == stalled0
                        && !found,
                    HyperResult::Stalled => s1 == restored(sz, s.g) && stalled1 && !found,
                };
            if rz is Stalled {
                lemma_groups_up(k, q, groups);
                lemma_nested_next(k, z, i, s.g, sy);
                lemma_solves_stalls(k, z, i + 1, sy, (depth - 1) as nat, sz);
            }
        }
    }
}

proof fn lemma_placements_stalls(
    k: Config,
    z: State,
    i: nat,
    s: State,
    depth: nat,
    succs: Seq<HNode>,
    idx: int,
    groups: Seq<Seq<HNode>>,
    gi: int,
    n: nat,
    stalled0: bool,
    s1: State,
    stalled1: bool,
    found: bool,
)
    requires
        k.wf(),
        k.deadline is None,
        s.wf(),
        depth <= k.init_depth,
        forall|q: int| 0 <= q < succs.len() ==> s.g.valid(#[trigger] succs[q]),
        groups_wf(s.g, groups),
        poised(k, z, i, s.g),
        stalled0 ==> gave_out(k, z, i + depth),
        placements(k, s, depth, succs, idx, groups, gi, n, stalled0, s1, stalled1, found),
    ensures
        stalled1 && !found ==> gave_out(k, z, i + depth),
    decreases depth, 0int, 2 * (succs.len() - idx), groups.len() - gi,
{
    reveal_with_fuel(placements, 2);
    reveal(partitions);
    let m = succs[idx];
    lemma_grouped_wf(s.g, groups, m);
    if gi < groups.len() {
        if joinable(k, s.g, m, groups[gi]) {
            let groups1 = groups.update(gi, groups[gi].push(m));
            let (sm, sl, f) = choose|sm: State, sl: bool, f: bool| #[trigger]
                tried(sm, sl, f) && partitions(
                    k,
                    s,
                    depth,
                    succs,
                    idx + 1,
                    groups1,
                    n,
                    stalled0,
                    sm,
                    sl,
                    f,
                ) && if f {
                    s1 == sm && stalled1 == sl && found
                } else {
                    placements(k, sm, depth, succs, idx, groups, gi + 1, n, sl, s1, stalled1, found)
                };
            lemma_partitions_stalls(
                k,
                z,
                i,
                s,
                depth,
                succs,
                idx + 1,
                groups1,
                n,
                stalled0,
                sm,
                sl,
                f,
            );
            if !f {
                lemma_partitions_frame(
                    k,
                    s,
                    depth,
                    succs,
                    idx + 1,
                    groups1,
                    n,
                    stalled0,
                    sm,
                    sl,
                    f,
                );
                lemma_placements_stalls(
                    k,
                    z,
                    i,
                    sm,
                    depth,
                    succs,
                    idx,
                    groups,
                    gi + 1,
                    n,
                    sl,
                    s1,
                    stalled1,
                    found,
                );
            }
        } else {
            lemma_placements_stalls(
                k,
                z,
                i,
                s,
                depth,
                succs,
                idx,
                groups,
                gi + 1,
                n,
                stalled0,
                s1,
                stalled1,
                found,
            );
        }
    } else if groups.len() < n {
        lemma_partitions_stalls(
            k,
            z,
            i,
            s,
            depth,
            succs,
            idx + 1,
            groups.push(seq![m]),
            n,
            stalled0,
            s1,
            stalled1,
            found,
        );
    }
}

/// A search without a deadline stalls only where something gives out, after no
/// more choices than may be nested; and for want of nested branches only after
/// as many choices as may be, with something still to decide.
pub proof fn lemma_stalls(k: Config, s0: State, s1: State)
    requires
        k.wf(),
        k.deadline is None,
        s0.wf(),
        solves(k, s0, k.init_depth as nat, s1, HyperResult::Stalled),
    ensures
        gave_out(k, s0, k.init_depth as nat),
{
    lemma_nested_none(k, s0);
    lemma_solves_stalls(k, s0, 0, s0, k.init_depth as nat, s1);
}

} // verus!
