//! What a graph is read to say: when a head atom holds, what a match and a
//! violated bound rest on, and what the blocking check counts; and what
//! asserting a head atom changes.

use vstd::prelude::*;
use crate::clause::{role_sat, Atom, Var};
use crate::dep_set::{lemma_empty_and_all, lemma_joined_has, DepSet};
use crate::generation::{lemma_stocked, lemma_stocked_counted, lemma_witness, stocked};
use crate::graph::{tick, Config, Event, Graph, SearchStats, State};
use crate::horn_closure::lemma_counted_supply;
use crate::ids::{ClassId, HNode, Role};
use crate::index::disjoint_in;
use crate::matching::{binding_valid, lemma_var_node_valid, var_node};
use crate::node::lemma_with_label;
use crate::queries::{
    apart, atom_deps, block_check, blocked, blocker_from, body_deps, bound_deps, called, card_deps,
    check_blocked, compared, head_holds, join_all, join_nodes, labels_clash,
    lemma_block_check_stats, pair_blocker_from, successors, witnessed,
};
use crate::rules::atom_asserted;

verus! {

/// A head atom of a disjunction holds exactly if its node carries the class,
/// or leads along the role to one that does, or is bound to have no more than
/// `n` successors or has no more. Others never do.
pub proof fn lemma_head_reads(k: Config, g: Graph, head: Atom, x: HNode, b: Seq<(Var, HNode)>)
    requires
        g.wf(),
        g.valid(x),
        binding_valid(b, g.nodes.len() as int),
    ensures
        match head {
            Atom::Class(c, v) => head_holds(k, g, head, x, b) <==> (var_node(v, x, b) matches Some(
                t,
            ) && g.at(t).labels.contains(c)),
            Atom::Exists(role, c, v) => head_holds(k, g, head, x, b) <==> (var_node(
                v,
                x,
                b,
            ) matches Some(t) && exists|e: (Role, HNode)| #[trigger]
                g.at(t).edges.contains(e) && role_sat(e.0, role, k.roles) && g.at(
                    e.1,
                ).labels.contains(c)),
            Atom::AtMost(role, qual, n, v) => n < u32::MAX ==> (head_holds(k, g, head, x, b) <==> (
            var_node(v, x, b) matches Some(t) && (g.at(t).at_most.contains((role, qual, n))
                || !stocked(k, g, t, role, qual, (n + 1) as u32)))),
            _ => !head_holds(k, g, head, x, b),
        },
{
    match head {
        Atom::Exists(role, c, v) => {
            if let Some(t) = var_node(v, x, b) {
                if witnessed(k, g, t, role, c) {
                    lemma_witness(k, g, t, role, c);
                }
                if exists|e: (Role, HNode)| #[trigger]
                    g.at(t).edges.contains(e) && role_sat(e.0, role, k.roles) && g.at(
                        e.1,
                    ).labels.contains(c) {
                    let e = choose|e: (Role, HNode)| #[trigger]
                        g.at(t).edges.contains(e) && role_sat(e.0, role, k.roles) && g.at(
                            e.1,
                        ).labels.contains(c);
                    let i = g.at(t).edges.index_of(e);
                    assert(g.at(t).edges[i] == e);
                    assert(witnessed(k, g, t, role, c));
                }
            }
        },
        Atom::AtMost(role, qual, n, v) => {
            lemma_var_node_valid(v, x, b, g.nodes.len() as int);
            if let Some(t) = var_node(v, x, b) {
                if n < u32::MAX {
                    let m = (n + 1) as u32;
                    if stocked(k, g, t, role, qual, m) {
                        lemma_stocked_counted(k, g, t, role, qual, m);
                    }
                    if successors(k, g, t, role, qual).len() > n {
                        lemma_counted_supply(k, g, t, (role, qual, m));
                        lemma_stocked(k, g, t, (role, qual, m));
                    }
                }
            }
        },
        _ => {},
    }
}

proof fn lemma_join_all_has(acc: DepSet, ds: Seq<DepSet>, l: u32)
    ensures
        join_all(acc, ds).has(l) <==> acc.has(l) || exists|i: int|
            0 <= i < ds.len() && (#[trigger] ds[i]).has(l),
    decreases ds.len(),
{
    if ds.len() > 0 {
        let rest = ds.drop_last();
        lemma_join_all_has(acc, rest, l);
        lemma_joined_has(join_all(acc, rest), ds.last(), l);
        assert(ds[ds.len() - 1] == ds.last());
        if exists|i: int| 0 <= i < rest.len() && (#[trigger] rest[i]).has(l) {
            let i = choose|i: int| 0 <= i < rest.len() && (#[trigger] rest[i]).has(l);
            assert(ds[i].has(l));
        }
        if exists|i: int| 0 <= i < ds.len() && (#[trigger] ds[i]).has(l) {
            let i = choose|i: int| 0 <= i < ds.len() && (#[trigger] ds[i]).has(l);
            if i < rest.len() {
                assert(rest[i].has(l));
            }
        }
    }
}

proof fn lemma_bound_deps_has(g: Graph, acc: DepSet, b: Seq<(Var, HNode)>, l: u32)
    ensures
        bound_deps(g, acc, b).has(l) <==> acc.has(l) || exists|i: int|
            0 <= i < b.len() && g.at((#[trigger] b[i]).1).birth_deps.has(l),
    decreases b.len(),
{
    if b.len() > 0 {
        let rest = b.drop_last();
        lemma_bound_deps_has(g, acc, rest, l);
        lemma_joined_has(bound_deps(g, acc, rest), g.at(b.last().1).birth_deps, l);
        assert(b[b.len() - 1] == b.last());
        if exists|i: int| 0 <= i < rest.len() && g.at((#[trigger] rest[i]).1).birth_deps.has(l) {
            let i = choose|i: int|
                0 <= i < rest.len() && g.at((#[trigger] rest[i]).1).birth_deps.has(l);
            assert(b[i] == rest[i]);
        }
        if exists|i: int| 0 <= i < b.len() && g.at((#[trigger] b[i]).1).birth_deps.has(l) {
            let i = choose|i: int| 0 <= i < b.len() && g.at((#[trigger] b[i]).1).birth_deps.has(l);
            if i < rest.len() {
                assert(rest[i] == b[i]);
            }
        }
    }
}

/// That the atom holds rests on level `l`.
pub open spec fn rests_on(g: Graph, at: Atom, x: HNode, b: Seq<(Var, HNode)>, l: u32) -> bool {
    at matches Atom::Class(c, v) && (var_node(v, x, b) matches Some(n) && g.at(n).deps_of(c).has(l))
}

proof fn lemma_atom_deps_has(
    g: Graph,
    acc: DepSet,
    body: Seq<Atom>,
    x: HNode,
    b: Seq<(Var, HNode)>,
    l: u32,
)
    ensures
        atom_deps(g, acc, body, x, b).has(l) <==> acc.has(l) || exists|q: int|
            0 <= q < body.len() && rests_on(g, #[trigger] body[q], x, b, l),
    decreases body.len(),
{
    if body.len() > 0 {
        let rest = body.drop_last();
        let d = atom_deps(g, acc, rest, x, b);
        lemma_atom_deps_has(g, acc, rest, x, b, l);
        if let Atom::Class(c, v) = body.last() {
            if let Some(n) = var_node(v, x, b) {
                lemma_joined_has(d, g.at(n).deps_of(c), l);
            }
        }
        assert(body[body.len() - 1] == body.last());
        if exists|q: int| 0 <= q < rest.len() && rests_on(g, #[trigger] rest[q], x, b, l) {
            let q = choose|q: int| 0 <= q < rest.len() && rests_on(g, #[trigger] rest[q], x, b, l);
            assert(body[q] == rest[q]);
        }
        if exists|q: int| 0 <= q < body.len() && rests_on(g, #[trigger] body[q], x, b, l) {
            let q = choose|q: int| 0 <= q < body.len() && rests_on(g, #[trigger] body[q], x, b, l);
            if q < rest.len() {
                assert(rest[q] == body[q]);
            }
        }
    }
}

/// A match rests on exactly the levels that its nodes and their edges rest on,
/// and that the labels it asks for rest on.
pub proof fn lemma_body_deps(g: Graph, body: Seq<Atom>, x: HNode, b: Seq<(Var, HNode)>, l: u32)
    ensures
        body_deps(g, body, x, b).has(l) <==> g.at(x).birth_deps.has(l) || (exists|i: int|
            0 <= i < b.len() && g.at((#[trigger] b[i]).1).birth_deps.has(l)) || (exists|q: int|
            0 <= q < body.len() && rests_on(g, #[trigger] body[q], x, b, l)),
{
    let acc = g.at(x).birth_deps;
    lemma_bound_deps_has(g, acc, b, l);
    lemma_atom_deps_has(g, bound_deps(g, acc, b), body, x, b, l);
}

/// That the node exists with its edges and labels rests on level `l`.
pub open spec fn node_rests_on(g: Graph, n: HNode, l: u32) -> bool {
    g.at(g.rep(n)).birth_deps.has(l) || exists|i: int|
        0 <= i < g.at(g.rep(n)).label_deps.len() && (#[trigger] g.at(g.rep(n)).label_deps[i]).has(l)
}

proof fn lemma_join_nodes_has(g: Graph, acc: DepSet, ns: Seq<HNode>, l: u32)
    ensures
        join_nodes(g, acc, ns).has(l) <==> acc.has(l) || exists|i: int|
            0 <= i < ns.len() && node_rests_on(g, #[trigger] ns[i], l),
    decreases ns.len(),
{
    if ns.len() > 0 {
        let rest = ns.drop_last();
        let v = g.at(g.rep(ns.last()));
        lemma_join_nodes_has(g, acc, rest, l);
        lemma_joined_has(join_nodes(g, acc, rest), v.birth_deps, l);
        lemma_join_all_has(join_nodes(g, acc, rest).joined(v.birth_deps), v.label_deps, l);
        assert(ns[ns.len() - 1] == ns.last());
        if exists|i: int| 0 <= i < rest.len() && node_rests_on(g, #[trigger] rest[i], l) {
            let i = choose|i: int| 0 <= i < rest.len() && node_rests_on(g, #[trigger] rest[i], l);
            assert(ns[i] == rest[i]);
        }
        if exists|i: int| 0 <= i < ns.len() && node_rests_on(g, #[trigger] ns[i], l) {
            let i = choose|i: int| 0 <= i < ns.len() && node_rests_on(g, #[trigger] ns[i], l);
            if i < rest.len() {
                assert(rest[i] == ns[i]);
            }
        }
    }
}

/// A violated `≤n` that no merge can repair is said to rest on everything,
/// unless that is to be told precisely, the constraint came of no merge, the
/// node itself generated the successors, and no two are kept apart by `≠` alone.
/// Then it rests on what the constraint, the node and the successors rest on.
pub proof fn lemma_card_deps(k: Config, g: Graph, parent: HNode, succs: Seq<HNode>, l: u32)
    requires
        g.root[g.rep(parent).at()] == g.rep(parent),
    ensures
        ({
            let p = g.rep(parent);
            let plain = k.precise_card_deps && !g.at(p).at_most_tainted && (forall|i: int|
                0 <= i < succs.len() ==> g.at(#[trigger] succs[i]).parent == Some(p)) && (forall|
                i: int,
                j: int,
            |
                0 <= i < j < succs.len() && apart(g, #[trigger] succs[i], #[trigger] succs[j])
                    ==> labels_clash(k, g, succs[i], succs[j]));
            &&& !plain ==> card_deps(k, g, parent, succs).has(l)
            &&& plain ==> (card_deps(k, g, parent, succs).has(l) <==> g.at(p).at_most_dep.has(l)
                || node_rests_on(g, p, l) || exists|i: int|
                0 <= i < succs.len() && node_rests_on(g, #[trigger] succs[i], l))
        }),
{
    let p = g.rep(parent);
    let all = seq![p] + succs;
    lemma_empty_and_all(l);
    lemma_join_nodes_has(g, g.at(p).at_most_dep, all, l);
    assert(all[0] == p);
    if exists|i: int| 0 <= i < succs.len() && node_rests_on(g, #[trigger] succs[i], l) {
        let i = choose|i: int| 0 <= i < succs.len() && node_rests_on(g, #[trigger] succs[i], l);
        assert(all[i + 1] == succs[i]);
    }
    if exists|i: int| 0 <= i < all.len() && node_rests_on(g, #[trigger] all[i], l) {
        let i = choose|i: int| 0 <= i < all.len() && node_rests_on(g, #[trigger] all[i], l);
        if i > 0 {
            assert(succs[i - 1] == all[i]);
        }
    }
}

/// Two nodes have clashing labels exactly if they carry two different classes
/// that are recorded as disjoint.
pub proof fn lemma_labels_clash(k: Config, g: Graph, a: HNode, b: HNode)
    ensures
        labels_clash(k, g, a, b) <==> exists|x: ClassId, y: ClassId|
            g.at(g.rep(a)).labels.contains(x) && g.at(g.rep(b)).labels.contains(y) && x != y
                && #[trigger] disjoint_in(k.disjoint, x, y),
{
    if labels_clash(k, g, a, b) {
        let (x, y) = choose|x: ClassId, y: ClassId|
            #![trigger g.at(g.rep(a)).has(x), g.at(g.rep(b)).has(y)]
            {
                &&& g.at(g.rep(a)).has(x)
                &&& g.at(g.rep(b)).has(y)
                &&& x != y
                &&& disjoint_in(k.disjoint, x, y)
            };
        assert(disjoint_in(k.disjoint, x, y));
    }
    if exists|x: ClassId, y: ClassId|
        g.at(g.rep(a)).labels.contains(x) && g.at(g.rep(b)).labels.contains(y) && x != y
            && #[trigger] disjoint_in(k.disjoint, x, y) {
        let (x, y) = choose|x: ClassId, y: ClassId|
            g.at(g.rep(a)).labels.contains(x) && g.at(g.rep(b)).labels.contains(y) && x != y
                && #[trigger] disjoint_in(k.disjoint, x, y);
        assert(g.at(g.rep(a)).has(x) && g.at(g.rep(b)).has(y));
    }
}

/// All counters but those of comparisons and of blockers found are the same.
spec fn compared_only(a: SearchStats, b: SearchStats, found: bool) -> bool {
    &&& b == (SearchStats {
        block_compares: b.block_compares,
        blocks_fired: b.blocks_fired,
        ..a
    })
    &&& a.block_compares <= b.block_compares
    &&& b.blocks_fired == if found {
        tick(a.blocks_fired)
    } else {
        a.blocks_fired
    }
    &&& found ==> b.block_compares > a.block_compares || b.block_compares == u64::MAX
}

proof fn lemma_blocker_counted(g: Graph, n: HNode, i: int, st: SearchStats)
    ensures
        compared_only(st, blocker_from(g, n, i, st).0, blocker_from(g, n, i, st).1),
    decreases g.nodes.len() - i,
{
    if 0 <= i < g.nodes.len() {
        lemma_blocker_counted(g, n, i + 1, st);
        lemma_blocker_counted(g, n, i + 1, compared(st));
    }
}

proof fn lemma_pair_blocker_counted(
    g: Graph,
    n: HNode,
    np: HNode,
    cands: Seq<HNode>,
    i: int,
    st: SearchStats,
)
    ensures
        compared_only(
            st,
            pair_blocker_from(g, n, np, cands, i, st).0,
            pair_blocker_from(g, n, np, cands, i, st).1,
        ),
    decreases cands.len() - i,
{
    if 0 <= i < cands.len() {
        lemma_pair_blocker_counted(g, n, np, cands, i + 1, st);
        lemma_pair_blocker_counted(g, n, np, cands, i + 1, compared(st));
    }
}

/// The blocking check changes nothing but counters: it counts itself, whether
/// the node was generated by another, and a blocker if it finds one, and it
/// finds one exactly if the node is blocked.
pub proof fn lemma_block_counted(k: Config, s: State, n: HNode)
    requires
        s.g.wf(),
    ensures
        ({
            let (out, found) = check_blocked(k, s, n);
            &&& found == blocked(k, s.g, n)
            &&& out == (State { stats: out.stats, ..s })
            &&& out.stats == (SearchStats {
                is_blocked_calls: tick(s.stats.is_blocked_calls),
                block_eligible: if s.g.at(n).parent is Some {
                    tick(s.stats.block_eligible)
                } else {
                    s.stats.block_eligible
                },
                blocks_fired: if found {
                    tick(s.stats.blocks_fired)
                } else {
                    s.stats.blocks_fired
                },
                block_compares: out.stats.block_compares,
                ..s.stats
            })
            &&& out.stats.block_compares >= s.stats.block_compares
            &&& found ==> out.stats.block_compares > s.stats.block_compares
                || out.stats.block_compares == u64::MAX
        }),
{
    let st = called(s.g, n, s.stats);
    lemma_block_check_stats(k, s.g, n, s.stats, SearchStats::zero());
    if k.double_blocking {
        if let Some(np) = s.g.at(n).parent {
            lemma_pair_blocker_counted(
                s.g,
                n,
                np,
                s.g.bucket(s.g.at(n).parent_role->0),
                0,
                st,
            );
        }
    } else {
        lemma_blocker_counted(s.g, n, 0, st);
    }
    assert(block_check(k, s.g, n, s.stats).1 == blocked(k, s.g, n));
}

/// Asserting a class puts it among the labels of the node, with what it rests
/// on, and queues it. A class that is there stays as it is.
pub proof fn lemma_class_asserted(
    k: Config,
    s: State,
    c: ClassId,
    v: Var,
    x: HNode,
    b: Seq<(Var, HNode)>,
    deps: DepSet,
    t: HNode,
)
    requires
        s.wf(),
        s.g.valid(x),
        binding_valid(b, s.g.nodes.len() as int),
        var_node(v, x, b) == Some(t),
    ensures
        ({
            let (out, o) = atom_asserted(k, s, Atom::Class(c, v), x, b, deps);
            &&& s.g.at(t).labels.contains(c) ==> o is NoChange && out == s
            &&& !s.g.at(t).labels.contains(c) ==> {
                &&& o is Changed
                &&& out.work == s.work.push(Event::Label(t, c))
                &&& out.g.at(t).deps_of(c) == deps
                &&& forall|d: ClassId| #[trigger]
                    out.g.at(t).labels.contains(d) <==> d == c || s.g.at(t).labels.contains(d)
                &&& forall|m: HNode|
                    s.g.valid(m) && m != t ==> #[trigger] out.g.at(m) == s.g.at(m)
            }
        }),
{
    lemma_var_node_valid(v, x, b, s.g.nodes.len() as int);
    assert(s.g.node_wf(s.g.nodes[t.at()], t.at()));
    lemma_with_label(s.g.at(t), c, deps);
    let out = atom_asserted(k, s, Atom::Class(c, v), x, b, deps).0;
    assert forall|d: ClassId| #[trigger]
        out.g.at(t).labels.contains(d) <==> d == c || s.g.at(t).labels.contains(d) by {
        assert(s.g.at(t).with_label(c, deps).has(d) <==> d == c || s.g.at(t).has(d));
    }
}

/// Asserting a role draws an edge between the nodes that the two were merged
/// into, along the property: from the first to the second, or back for an
/// inverse role. It is recorded at both ends and queued, unless it is there.
pub proof fn lemma_role_asserted(
    k: Config,
    s: State,
    role: Role,
    u: Var,
    v: Var,
    x: HNode,
    b: Seq<(Var, HNode)>,
    deps: DepSet,
    a: HNode,
    t: HNode,
)
    requires
        s.wf(),
        s.g.valid(x),
        binding_valid(b, s.g.nodes.len() as int),
        var_node(u, x, b) == Some(a),
        var_node(v, x, b) == Some(t),
    ensures
        ({
            let (out, o) = atom_asserted(k, s, Atom::Role(role, u, v), x, b, deps);
            let (p, from, to) = match role {
                Role::Named(p) => (p, s.g.rep(a), s.g.rep(t)),
                Role::Inverse(p) => (p, s.g.rep(t), s.g.rep(a)),
            };
            let e = (Role::Named(p), to);
            &&& s.g.at(from).edges.contains(e) ==> o is NoChange && out == s
            &&& !s.g.at(from).edges.contains(e) ==> {
                &&& o is Changed
                &&& out.work == s.work.push(Event::Edge(from, Role::Named(p), to))
                &&& out.g.at(from).edges == s.g.at(from).edges.push(e)
                &&& out.g.at(to).preds == s.g.at(to).preds.push((Role::Named(p), from))
            }
        }),
{
    lemma_var_node_valid(u, x, b, s.g.nodes.len() as int);
    lemma_var_node_valid(v, x, b, s.g.nodes.len() as int);
    assert(s.g.root[a.at()].at() < s.g.root.len());
    assert(s.g.root[t.at()].at() < s.g.root.len());
}

/// Asserting `≤n` binds the node by it.
pub proof fn lemma_at_most_asserted(
    k: Config,
    s: State,
    role: Role,
    qual: Option<ClassId>,
    n: u32,
    v: Var,
    x: HNode,
    b: Seq<(Var, HNode)>,
    deps: DepSet,
    t: HNode,
)
    requires
        s.wf(),
        s.g.valid(x),
        binding_valid(b, s.g.nodes.len() as int),
        var_node(v, x, b) == Some(t),
    ensures
        ({
            let (out, o) = atom_asserted(k, s, Atom::AtMost(role, qual, n, v), x, b, deps);
            &&& s.g.at(t).at_most.contains((role, qual, n)) ==> o is NoChange && out == s
            &&& !s.g.at(t).at_most.contains((role, qual, n)) ==> o is Changed && out.g.at(t).at_most
                == s.g.at(t).at_most.push((role, qual, n))
        }),
{
    lemma_var_node_valid(v, x, b, s.g.nodes.len() as int);
}

} // verus!
