//! Successors that clauses ask for are there, unless a node created before
//! carried all that the node carried when the clause fired.

use vstd::prelude::*;
use crate::clause::{role_sat, Atom, Var, X};
use crate::completion::{attended, closable, lemma_closable_attended, lemma_sat_decided, ripens};
use crate::dep_set::DepSet;
use crate::fixpoint::{drained, lemma_event_done, lemma_saturated, lemma_seeds, reseeded, saturated};
use crate::graph::{
    event_valid, grows, lemma_grows_trans, node_grows, Config, Event, Graph, HyperResult,
    SearchStats, State,
};
use crate::horn_closure::{
    after, at_least_seen, due, enabled, head_done, head_met, horn_met, individual,
    lemma_counted_supply, lemma_saturation_closed, lemma_saturation_settles, lemma_sprout_witness,
    put_off, puts_off, quiet, supported, vouches,
};
use crate::ids::{ClassId, HNode, Role, RoleId};
use crate::listening::{attentive, lemma_due_enabled};
use crate::match_laws::{atom_holds, body_holds, lemma_shape_iff, lemma_var_node_bound};
use crate::matching::{binding_valid, lemma_var_node_valid, scan_from, var_node, RoleAtom};
use crate::models::{lemma_role_succ_has, lemma_root_tidy};
use crate::node::{Card, NodeView};
use crate::queries::{
    blocked, check_blocked, lemma_block_check_stats, lemma_blocked_iff, lemma_pair_blocked_iff,
    pair_blocks, successors, witnessed,
};
use crate::rules::{atom_asserted, sprouted, sprouts};
use crate::rules_wf::{lemma_all_apart, lemma_sprouted, lemma_sprouts, lemma_with, lemma_work_grows};
use crate::search::{solves, FIXPOINT_ITERS};
use crate::setup::{lemma_seed_node, seed_node};
use crate::unfolding::{
    all_assured, along_named, assured, fact, lemma_assured_supplied, lemma_unfolds_at_least,
    mirrored, served, supplied, supply, unmerged,
};
use crate::verdicts::is_root_graph;

verus! {

/// Without pairwise blocking a node is blocked exactly if a node created
/// before it carries all that it carries.
pub proof fn lemma_blocked_plainly(k: Config, g: Graph, t: HNode)
    requires
        g.wf(),
        g.valid(t),
        !k.double_blocking,
    ensures
        blocked(k, g, t) <==> exists|m: HNode| #[trigger]
            g.valid(m) && m.at() < t.at() && forall|c: ClassId|
                g.at(t).labels.contains(c) ==> g.at(m).labels.contains(c),
{
    lemma_blocked_iff(k, g, t, SearchStats::zero());
    assert(g.node_wf(g.nodes[t.at()], t.at()));
    assert forall|m: HNode| #[trigger] g.valid(m) implies g.at(m).order == m.at() by {
        assert(g.node_wf(g.nodes[m.at()], m.at()));
    }
}

/// With pairwise blocking a node is blocked exactly if it was generated, and
/// among those filed under the role that it was generated along there is one
/// created before it that carries just what it carries, and that was generated
/// by one that carries just what its own parent carries.
pub proof fn lemma_blocked_pairwise(k: Config, g: Graph, t: HNode)
    requires
        g.wf(),
        g.valid(t),
        k.double_blocking,
    ensures
        blocked(k, g, t) <==> exists|m: HNode, p: HNode, q: HNode|
            #![trigger g.at(m), g.at(p), g.at(q)]
            g.bucket(g.at(t).parent_role->0).contains(m) && m.at() < t.at() && g.at(t).parent
                == Some(p) && g.at(m).parent == Some(q) && g.at(m).labels == g.at(t).labels
                && g.at(q).labels == g.at(p).labels && g.valid(m) && g.valid(p) && g.valid(q),
{
    lemma_pair_blocked_iff(k, g, t, SearchStats::zero());
    let r = g.at(t).parent_role->0;
    let fs = g.bucket(r);
    assert(g.node_wf(g.nodes[t.at()], t.at()));
    assert forall|j: int| 0 <= j < fs.len() implies g.valid(#[trigger] fs[j]) && g.at(fs[j]).order
        == fs[j].at() && (g.at(fs[j]).parent matches Some(q) ==> g.valid(q)) by {
        assert(g.valid(g.bucket(r)[j]));
        assert(g.node_wf(g.nodes[fs[j].at()], fs[j].at()));
    }
    if blocked(k, g, t) {
        let p = g.at(t).parent->0;
        let j = choose|j: int|
            0 <= j < g.bucket(r).len() && g.at(#[trigger] g.bucket(r)[j]).order < g.at(t).order && (
            g.at(g.bucket(r)[j]).parent matches Some(mp) && pair_blocks(
                g,
                t,
                p,
                g.bucket(r)[j],
                mp,
            ));
        let m = fs[j];
        let q = g.at(m).parent->0;
        assert(fs.contains(m));
        assert(g.at(m).labels == g.at(t).labels && g.at(q).labels == g.at(p).labels);
    }
    if exists|m: HNode, p: HNode, q: HNode|
        #![trigger g.at(m), g.at(p), g.at(q)]
        fs.contains(m) && m.at() < t.at() && g.at(t).parent == Some(p) && g.at(m).parent == Some(q)
            && g.at(m).labels == g.at(t).labels && g.at(q).labels == g.at(p).labels && g.valid(m)
            && g.valid(p) && g.valid(q) {
        let (m, p, q) = choose|m: HNode, p: HNode, q: HNode|
            #![trigger g.at(m), g.at(p), g.at(q)]
            fs.contains(m) && m.at() < t.at() && g.at(t).parent == Some(p) && g.at(m).parent
                == Some(q) && g.at(m).labels == g.at(t).labels && g.at(q).labels == g.at(p).labels
                && g.valid(m) && g.valid(p) && g.valid(q);
        let j = fs.index_of(m);
        assert(g.at(g.bucket(r)[j]).order < g.at(t).order);
        assert(pair_blocks(g, t, p, g.bucket(r)[j], q));
    }
}

/// However nodes are blocked, one created before carries all that the blocked
/// one carries.
proof fn lemma_blocked_older(k: Config, g: Graph, t: HNode)
    requires
        g.wf(),
        g.valid(t),
        blocked(k, g, t),
    ensures
        exists|m: HNode| #[trigger]
            g.valid(m) && m.at() < t.at() && forall|c: ClassId|
                g.at(t).labels.contains(c) ==> g.at(m).labels.contains(c),
{
    if k.double_blocking {
        lemma_blocked_pairwise(k, g, t);
        let (m, p, q) = choose|m: HNode, p: HNode, q: HNode|
            #![trigger g.at(m), g.at(p), g.at(q)]
            g.bucket(g.at(t).parent_role->0).contains(m) && m.at() < t.at() && g.at(t).parent
                == Some(p) && g.at(m).parent == Some(q) && g.at(m).labels == g.at(t).labels
                && g.at(q).labels == g.at(p).labels && g.valid(m) && g.valid(p) && g.valid(q);
        assert(g.valid(m));
    } else {
        lemma_blocked_plainly(k, g, t);
    }
}

/// Node `x` has `n` edges along the role, to nodes that are different once
/// those that were merged are taken for one, and that carry the class, if one
/// is asked for.
pub open spec fn stocked(
    k: Config,
    g: Graph,
    x: HNode,
    role: Role,
    qual: Option<ClassId>,
    n: u32,
) -> bool {
    exists|ts: Seq<HNode>|
        {
            &&& #[trigger] ts.len() == n
            &&& forall|i: int|
                0 <= i < ts.len() ==> {
                    &&& g.valid(#[trigger] ts[i])
                    &&& exists|e: Role| #[trigger]
                        g.at(x).edges.contains((e, ts[i])) && role_sat(e, role, k.roles)
                    &&& qual matches Some(q) ==> g.at(g.rep(ts[i])).labels.contains(q)
                }
            &&& forall|i: int, j: int|
                0 <= i < j < ts.len() ==> g.rep(#[trigger] ts[i]) != g.rep(#[trigger] ts[j])
        }
}

pub proof fn lemma_stocked(k: Config, g: Graph, x: HNode, c: Card)
    requires
        supplied(k, g, x, c),
    ensures
        stocked(k, g, x, c.0, c.1, c.2),
{
    let ts = choose|ts: Seq<HNode>| #[trigger] supply(k, g, x, c, ts);
    assert(ts.len() == c.2);
    assert forall|i: int| 0 <= i < ts.len() implies {
        &&& g.valid(#[trigger] ts[i])
        &&& exists|e: Role| #[trigger]
            g.at(x).edges.contains((e, ts[i])) && role_sat(e, c.0, k.roles)
        &&& c.1 matches Some(q) ==> g.at(g.rep(ts[i])).labels.contains(q)
    } by {
        assert(served(k, g, x, c.0, c.1, ts[i]));
    }
}

proof fn lemma_none_stocked(k: Config, g: Graph, x: HNode, role: Role, qual: Option<ClassId>)
    ensures
        stocked(k, g, x, role, qual, 0),
{
    let ts = Seq::<HNode>::empty();
    assert(ts.len() == 0u32);
}

pub proof fn lemma_witness(k: Config, g: Graph, t: HNode, role: Role, c: ClassId)
    requires
        witnessed(k, g, t, role, c),
    ensures
        exists|e: (Role, HNode)| #[trigger]
            g.at(t).edges.contains(e) && role_sat(e.0, role, k.roles) && g.at(
                e.1,
            ).labels.contains(c),
{
    let i = choose|i: int|
        0 <= i < g.at(t).edges.len() && role_sat((#[trigger] g.at(t).edges[i]).0, role, k.roles)
            && g.at(g.at(t).edges[i].1).has(c);
    assert(g.at(t).edges.contains(g.at(t).edges[i]));
}

/// A successor is made where one is asked for, unless the outcome is that no
/// room is left: after `∃role.c` was asserted at a node that is not blocked,
/// the node has an edge along the role to a node that carries the class.
pub proof fn lemma_exists_asserted(
    k: Config,
    s: State,
    role: Role,
    c: ClassId,
    v: Var,
    x: HNode,
    b: Seq<(Var, HNode)>,
    deps: DepSet,
    t: HNode,
)
    requires
        s.wf(),
        s.g.valid(x),
        binding_valid(b, s.g.nodes.len() as int),
        var_node(v, x, b) == Some(t),
        !blocked(k, s.g, t),
        atom_asserted(k, s, Atom::Exists(role, c, v), x, b, deps).1 !is Full,
    ensures
        ({
            let g = atom_asserted(k, s, Atom::Exists(role, c, v), x, b, deps).0.g;
            exists|e: (Role, HNode)| #[trigger]
                g.at(t).edges.contains(e) && role_sat(e.0, role, k.roles) && g.at(
                    e.1,
                ).labels.contains(c)
        }),
{
    let g = atom_asserted(k, s, Atom::Exists(role, c, v), x, b, deps).0.g;
    lemma_var_node_valid(v, x, b, s.g.nodes.len() as int);
    lemma_block_check_stats(k, s.g, t, s.stats, SearchStats::zero());
    if !witnessed(k, s.g, t, role, c) {
        lemma_sprout_witness(k, check_blocked(k, s, t).0, t, role, c, deps);
    }
    lemma_witness(k, g, t, role, c);
}

/// As [`lemma_exists_asserted`], for `≥n` along a named role: the node has as
/// many edges along the role, to different nodes that carry the class, unless
/// it is recorded that they were made before.
pub proof fn lemma_at_least_asserted(
    k: Config,
    s: State,
    role: Role,
    qual: Option<ClassId>,
    n: u32,
    v: Var,
    x: HNode,
    b: Seq<(Var, HNode)>,
    deps: DepSet,
    t: HNode,
)
    requires
        s.wf(),
        s.g.valid(x),
        binding_valid(b, s.g.nodes.len() as int),
        var_node(v, x, b) == Some(t),
        role is Named,
        !blocked(k, s.g, s.g.rep(t)),
        !s.g.at(s.g.rep(t)).at_least_done.contains((role, qual, n)),
        atom_asserted(k, s, Atom::AtLeast(role, qual, n, v), x, b, deps).1 !is Full,
    ensures
        ({
            let g = atom_asserted(k, s, Atom::AtLeast(role, qual, n, v), x, b, deps).0.g;
            stocked(k, g, s.g.rep(t), role, qual, n)
        }),
{
    let out = atom_asserted(k, s, Atom::AtLeast(role, qual, n, v), x, b, deps).0;
    let r = s.g.rep(t);
    lemma_var_node_valid(v, x, b, s.g.nodes.len() as int);
    assert(s.g.root[t.at()].at() < s.g.root.len());
    lemma_block_check_stats(k, s.g, r, s.stats, SearchStats::zero());
    if n == 0 {
        lemma_none_stocked(k, out.g, r, role, qual);
    } else {
        lemma_unfolds_at_least(k, s, t, role, qual, n, deps);
        if successors(k, s.g, r, role, qual).len() >= n {
            lemma_counted_supply(k, s.g, r, (role, qual, n));
        }
        lemma_stocked(k, out.g, r, (role, qual, n));
    }
}

/// Where generated nodes are filed, a node that is generated along a role is
/// filed under it, after those that were, and nowhere else.
pub proof fn lemma_sprouted_filed(
    k: Config,
    s: State,
    x: HNode,
    role: Role,
    qual: Option<ClassId>,
    deps: DepSet,
)
    requires
        s.g.filing,
    ensures
        ({
            let g = sprouted(k, s, x, role, qual, deps).g;
            &&& g.filing
            &&& g.bucket(role) == s.g.bucket(role).push(HNode(s.g.nodes.len() as u32))
            &&& forall|r: Role| r != role ==> #[trigger] g.bucket(r) == s.g.bucket(r)
        }),
{
}

/// Of `∃role.c` at a node: where the node is blocked, or leads along the role
/// to one that carries the class, nothing is made. Else one node is, unless no
/// id is left for it.
pub proof fn lemma_exists_outcome(
    k: Config,
    s: State,
    role: Role,
    c: ClassId,
    v: Var,
    x: HNode,
    b: Seq<(Var, HNode)>,
    deps: DepSet,
    t: HNode,
)
    requires
        s.wf(),
        s.g.valid(x),
        binding_valid(b, s.g.nodes.len() as int),
        var_node(v, x, b) == Some(t),
    ensures
        ({
            let (out, o) = atom_asserted(k, s, Atom::Exists(role, c, v), x, b, deps);
            let there = exists|e: (Role, HNode)| #[trigger]
                s.g.at(t).edges.contains(e) && role_sat(e.0, role, k.roles) && s.g.at(
                    e.1,
                ).labels.contains(c);
            &&& there || blocked(k, s.g, t) ==> o is NoChange && out.g == s.g && out.work == s.work
            &&& !there && !blocked(k, s.g, t) && s.g.nodes.len() > u32::MAX ==> o is Full && out.g
                == s.g
            &&& !there && !blocked(k, s.g, t) && s.g.nodes.len() <= u32::MAX ==> o is Changed
                && out.g.nodes.len() == s.g.nodes.len() + 1 && out.g.at(t).edges == s.g.at(
                t,
            ).edges.push((role, HNode(s.g.nodes.len() as u32)))
        }),
{
    lemma_var_node_valid(v, x, b, s.g.nodes.len() as int);
    lemma_block_check_stats(k, s.g, t, s.stats, SearchStats::zero());
    let s1 = check_blocked(k, s, t).0;
    if witnessed(k, s.g, t, role, c) {
        lemma_witness(k, s.g, t, role, c);
    }
    if exists|e: (Role, HNode)| #[trigger]
        s.g.at(t).edges.contains(e) && role_sat(e.0, role, k.roles) && s.g.at(
            e.1,
        ).labels.contains(c) {
        let e = choose|e: (Role, HNode)| #[trigger]
            s.g.at(t).edges.contains(e) && role_sat(e.0, role, k.roles) && s.g.at(
                e.1,
            ).labels.contains(c);
        let i = s.g.at(t).edges.index_of(e);
        assert(s.g.at(t).edges[i] == e);
        assert(witnessed(k, s.g, t, role, c));
    }
    if s.g.nodes.len() <= u32::MAX {
        lemma_sprouted(k, s1, t, role, Some(c), deps);
        lemma_sprouted(k, s1, t, role, None, deps);
        assert(sprouted(k, s1, t, role, Some(c), deps).g.at(t).edges == sprouted(
            k,
            s1,
            t,
            role,
            None,
            deps,
        ).g.at(t).edges);
    }
}

/// Of `≥n` at a node: where the node is blocked, or has as many successors
/// already, nothing is made. Else `n` nodes are, if it is not recorded that
/// they were, and unless no ids are left for them. Nothing is made along an
/// inverse role.
pub proof fn lemma_at_least_outcome(
    k: Config,
    s: State,
    role: Role,
    qual: Option<ClassId>,
    n: u32,
    v: Var,
    x: HNode,
    b: Seq<(Var, HNode)>,
    deps: DepSet,
    t: HNode,
)
    requires
        s.wf(),
        s.g.valid(x),
        binding_valid(b, s.g.nodes.len() as int),
        var_node(v, x, b) == Some(t),
    ensures
        ({
            let (out, o) = atom_asserted(k, s, Atom::AtLeast(role, qual, n, v), x, b, deps);
            let r = s.g.rep(t);
            let done = role is Inverse || stocked(k, s.g, r, role, qual, n) || s.g.at(
                r,
            ).at_least_done.contains((role, qual, n)) || blocked(k, s.g, r);
            &&& done ==> o is NoChange && out.g == s.g && out.work == s.work
            &&& !done && s.g.nodes.len() + n > u32::MAX + 1 ==> o is Full && out.g == s.g
            &&& !done && s.g.nodes.len() + n <= u32::MAX + 1 ==> o is Changed
                && out.g.nodes.len() == s.g.nodes.len() + n
        }),
{
    let (out, o) = atom_asserted(k, s, Atom::AtLeast(role, qual, n, v), x, b, deps);
    let r = s.g.rep(t);
    let c: Card = (role, qual, n);
    lemma_var_node_valid(v, x, b, s.g.nodes.len() as int);
    assert(s.g.root[t.at()].at() < s.g.root.len());
    lemma_block_check_stats(k, s.g, r, s.stats, SearchStats::zero());
    if n == 0 {
        lemma_none_stocked(k, s.g, r, role, qual);
    }
    if successors(k, s.g, r, role, qual).len() >= n {
        lemma_counted_supply(k, s.g, r, c);
        lemma_stocked(k, s.g, r, c);
    }
    if stocked(k, s.g, r, role, qual, n) {
        lemma_stocked_counted(k, s.g, r, role, qual, n);
    }
    if o is Changed {
        let s1 = check_blocked(k, s, r).0;
        let u = s1.g.at(r);
        let made = NodeView { at_least_done: u.at_least_done.push(c), ..u };
        assert(s1.g.node_wf(s1.g.nodes[r.at()], r.at()));
        lemma_with(s1.g, r, made);
        let s2 = State { g: s1.g.with(r, made), ..s1 };
        lemma_work_grows(s1.g, s2.g, s1.work);
        lemma_sprouts(k, s2, r, role, qual, deps, n as nat);
        let (s3, fresh) = sprouts(k, s2, r, role, qual, deps, n as nat);
        assert forall|q: int| 0 <= q < fresh.len() implies s3.g.valid(#[trigger] fresh[q]) by {}
        lemma_all_apart(s3.g, fresh, 0, 1);
    }
}

/// As many successors are counted as there are.
pub proof fn lemma_stocked_counted(
    k: Config,
    g: Graph,
    x: HNode,
    role: Role,
    qual: Option<ClassId>,
    n: u32,
)
    requires
        g.wf(),
        g.valid(x),
        stocked(k, g, x, role, qual, n),
    ensures
        successors(k, g, x, role, qual).len() >= n,
{
    let ss = successors(k, g, x, role, qual);
    let ts = choose|ts: Seq<HNode>|
        {
            &&& #[trigger] ts.len() == n
            &&& forall|i: int|
                0 <= i < ts.len() ==> {
                    &&& g.valid(#[trigger] ts[i])
                    &&& exists|e: Role| #[trigger]
                        g.at(x).edges.contains((e, ts[i])) && role_sat(e, role, k.roles)
                    &&& qual matches Some(q) ==> g.at(g.rep(ts[i])).labels.contains(q)
                }
            &&& forall|i: int, j: int|
                0 <= i < j < ts.len() ==> g.rep(#[trigger] ts[i]) != g.rep(#[trigger] ts[j])
        };
    let rs = ts.map_values(|t: HNode| g.rep(t));
    assert forall|i: int| 0 <= i < rs.len() implies ss.contains(#[trigger] rs[i]) by {
        assert(g.valid(ts[i]));
        let e = choose|e: Role| #[trigger]
            g.at(x).edges.contains((e, ts[i])) && role_sat(e, role, k.roles);
        let q = g.at(x).edges.index_of((e, ts[i]));
        assert(g.at(x).edges[q] == (e, ts[i]));
        lemma_role_succ_has(k.roles, g, g.at(x).edges, e, role, qual, ts[i]);
    }
    assert(rs.no_duplicates()) by {
        assert forall|i: int, j: int| 0 <= i < rs.len() && 0 <= j < rs.len() && i != j implies rs[i]
            != rs[j] by {
            if i < j {
                assert(g.rep(ts[i]) != g.rep(ts[j]));
            } else {
                assert(g.rep(ts[j]) != g.rep(ts[i]));
            }
        }
    }
    assert(rs.to_set().subset_of(ss.to_set())) by {
        assert forall|y: HNode| rs.to_set().contains(y) implies ss.to_set().contains(y) by {
            let i = rs.index_of(y);
            assert(ss.contains(rs[i]));
        }
    }
    rs.unique_seq_to_set();
    vstd::seq_lib::seq_to_set_is_finite(ss);
    vstd::set_lib::lemma_len_subset(rs.to_set(), ss.to_set());
    ss.lemma_cardinality_of_set();
}

/// The body of clause `ci` holds at `x` under `b` by facts that the clause
/// listens to.
pub open spec fn heard(k: Config, g: Graph, ci: int, x: HNode, b: Seq<(Var, HNode)>) -> bool {
    exists|es: Seq<Event>| #[trigger] enabled(k, g, ci, x, b, es)
}

/// A body that asks for classes of the one node is heard wherever it holds.
/// So is any body that is attentive, where edges are recorded at both ends and
/// run along named roles.
pub proof fn lemma_heard(k: Config, g: Graph, ci: int, x: HNode, b: Seq<(Var, HNode)>)
    requires
        g.wf(),
        due(k, g, ci, x, b),
        (forall|q: int|
            0 <= q < k.clauses[ci].body.len() ==> (
            #[trigger] k.clauses[ci].body[q] matches Atom::Class(c, v) && v == X)) || (mirrored(g)
            && along_named(g) && attentive(k.roles, k.clauses[ci].body)),
    ensures
        heard(k, g, ci, x, b),
{
    let body = k.clauses[ci].body;
    if forall|q: int|
        0 <= q < body.len() ==> (#[trigger] body[q] matches Atom::Class(c, v) && v == X) {
        let es = Seq::new(body.len(), |q: int| Event::Label(x, body[q]->Class_0));
        assert forall|q: int| 0 <= q < body.len() implies vouches(k.roles, body, x, b, es, q)
            && fact(g, #[trigger] es[q]) by {
            assert(body[q] is Class);
            assert(atom_holds(g.nodes, k.roles, body[q], x, b));
            assert(var_node(X, x, b) == Some(x));
        }
        assert(enabled(k, g, ci, x, b, es));
    } else {
        let es = lemma_due_enabled(k, g, ci, x, b);
        assert(enabled(k, g, ci, x, b, es));
    }
}

/// A node `m` created before `t` carries, in `hi`, all that `t` carried in `lo`
/// and all that the body asks of it. With pairwise blocking both were
/// generated by others.
pub open spec fn outshines(
    k: Config,
    lo: Graph,
    hi: Graph,
    body: Seq<Atom>,
    x: HNode,
    b: Seq<(Var, HNode)>,
    t: HNode,
    m: HNode,
) -> bool {
    &&& hi.valid(m)
    &&& m.at() < t.at()
    &&& forall|c: ClassId|
        lo.valid(t) && #[trigger] lo.at(t).labels.contains(c) ==> hi.at(m).labels.contains(c)
    &&& forall|q: int|
        0 <= q < body.len() ==> (#[trigger] body[q] matches Atom::Class(c, v) ==> (var_node(
            v,
            x,
            b,
        ) == Some(t) ==> hi.at(m).labels.contains(c)))
    &&& k.double_blocking ==> hi.at(t).parent is Some && hi.at(m).parent is Some
}

/// A node that was created before `t` outshines it.
pub open spec fn outshone(
    k: Config,
    lo: Graph,
    hi: Graph,
    body: Seq<Atom>,
    x: HNode,
    b: Seq<(Var, HNode)>,
    t: HNode,
) -> bool {
    exists|m: HNode| #[trigger] outshines(k, lo, hi, body, x, b, t, m)
}

proof fn lemma_after(k: Config, z: State, i: nat)
    requires
        z.wf(),
    ensures
        after(k, z, i).wf(),
        grows(z.g, after(k, z, i).g),
    decreases i,
{
    if i > 0 {
        let s = after(k, z, (i - 1) as nat);
        lemma_after(k, z, (i - 1) as nat);
        if s.work.len() > 0 {
            assert(event_valid(s.g, s.work[s.work.len() - 1]));
            let s1 = State { work: s.work.drop_last(), ..s };
            lemma_event_done(k, s1, s.work.last());
            lemma_grows_trans(z.g, s.g, after(k, z, i).g);
        }
    }
}

proof fn lemma_after_idle(k: Config, z: State, i: nat, j: nat)
    requires
        after(k, z, i).work.len() == 0,
        i <= j,
    ensures
        after(k, z, j) == after(k, z, i),
    decreases j - i,
{
    if i < j {
        lemma_after_idle(k, z, i, (j - 1) as nat);
    }
}

/// What saturation comes to holds all that there was after any of its events.
proof fn lemma_after_drained(k: Config, z: State, i: nat, left: nat, j: nat)
    requires
        z.wf(),
        i <= j,
        drained(k, after(k, z, i), left).1 is Sat,
    ensures
        grows(after(k, z, j).g, drained(k, after(k, z, i), left).0.g),
    decreases left,
{
    let s = after(k, z, i);
    lemma_after(k, z, i);
    if s.work.len() == 0 {
        lemma_after_idle(k, z, i, j);
    } else if left > 0 {
        let s2 = after(k, z, i + 1);
        assert(drained(k, s, left) == drained(k, s2, (left - 1) as nat));
        if j == i {
            lemma_after_drained(k, z, i + 1, (left - 1) as nat, i + 1);
            assert(event_valid(s.g, s.work[s.work.len() - 1]));
            lemma_event_done(k, State { work: s.work.drop_last(), ..s }, s.work.last());
            lemma_grows_trans(s.g, s2.g, drained(k, s, left).0.g);
        } else {
            lemma_after_drained(k, z, i + 1, (left - 1) as nat, j);
        }
    }
}

/// What was put off was outshone.
proof fn lemma_put_off_outshone(
    k: Config,
    z: State,
    max_iters: nat,
    ci: int,
    x: HNode,
    b: Seq<(Var, HNode)>,
    t: HNode,
)
    requires
        z.wf(),
        drained(k, z, max_iters).1 is Sat,
        put_off(k, z, ci, x, b, t),
    ensures
        outshone(k, z.g, drained(k, z, max_iters).0.g, k.clauses[ci].body, x, b, t),
{
    let body = k.clauses[ci].body;
    let hi = drained(k, z, max_iters).0.g;
    let (i, g) = choose|i: nat, g: Graph| #[trigger] puts_off(k, z, ci, x, b, t, i, g);
    lemma_after(k, z, i);
    lemma_after_drained(k, z, 0, max_iters, i + 1);
    lemma_grows_trans(z.g, after(k, z, i).g, g);
    lemma_grows_trans(g, after(k, z, i + 1).g, hi);
    lemma_blocked_older(k, g, t);
    let m = if k.double_blocking {
        lemma_blocked_pairwise(k, g, t);
        let (m, p, q) = choose|m: HNode, p: HNode, q: HNode|
            #![trigger g.at(m), g.at(p), g.at(q)]
            g.bucket(g.at(t).parent_role->0).contains(m) && m.at() < t.at() && g.at(t).parent
                == Some(p) && g.at(m).parent == Some(q) && g.at(m).labels == g.at(t).labels
                && g.at(q).labels == g.at(p).labels && g.valid(m) && g.valid(p) && g.valid(q);
        m
    } else {
        choose|m: HNode| #[trigger]
            g.valid(m) && m.at() < t.at() && forall|c: ClassId|
                g.at(t).labels.contains(c) ==> g.at(m).labels.contains(c)
    };
    assert(node_grows(g.nodes[m.at()], hi.nodes[m.at()]));
    assert(node_grows(g.nodes[t.at()], hi.nodes[t.at()]));
    assert forall|c: ClassId| g.at(t).labels.contains(c) implies hi.at(m).labels.contains(c) by {
        assert(g.at(m).has(c));
        assert(hi.at(m).has(c));
    }
    assert forall|c: ClassId| z.g.valid(t) && #[trigger] z.g.at(t).labels.contains(c) implies hi.at(
        m,
    ).labels.contains(c) by {
        assert(node_grows(z.g.nodes[t.at()], g.nodes[t.at()]));
        assert(z.g.at(t).has(c));
        assert(g.at(t).has(c));
    }
    assert forall|q: int| 0 <= q < body.len() implies (
    #[trigger] body[q] matches Atom::Class(c, v) ==> (var_node(v, x, b) == Some(t) ==> hi.at(
        m,
    ).labels.contains(c))) by {
        assert(atom_holds(g.nodes, k.roles, body[q], x, b));
    }
    assert(outshines(k, z.g, hi, body, x, b, t, m));
}

/// What is asked for is there, or the node was outshone.
proof fn lemma_met_generated(
    k: Config,
    s: State,
    max_iters: nat,
    ci: int,
    x: HNode,
    b: Seq<(Var, HNode)>,
)
    requires
        s.wf(),
        saturated(k, s, max_iters).1 is Sat,
        horn_met(k, reseeded(k, s), saturated(k, s, max_iters).0.g),
        all_assured(k, saturated(k, s, max_iters).0.g),
        heard(k, saturated(k, s, max_iters).0.g, ci, x, b),
    ensures
        generated_or_outshone(k, s.g, saturated(k, s, max_iters).0.g, ci, x, b),
{
    let z = reseeded(k, s);
    let g = saturated(k, s, max_iters).0.g;
    let cl = k.clauses[ci];
    let off = |t: HNode| put_off(k, z, ci, x, b, t);
    lemma_saturated(k, s, max_iters);
    lemma_seeds(k, s.g, 0, Seq::empty());
    let es = choose|es: Seq<Event>| #[trigger] enabled(k, g, ci, x, b, es);
    assert(head_met(k, g, cl.head, x, b, off, individual(k, g)));
    assert forall|t: HNode| #[trigger] off(t) implies outshone(k, s.g, g, cl.body, x, b, t) by {
        lemma_put_off_outshone(k, z, max_iters, ci, x, b, t);
    }
    match cl.head[0] {
        Atom::Exists(role, c, v) => {
            if let Some(t) = var_node(v, x, b) {
                if witnessed(k, g, t, role, c) {
                    lemma_witness(k, g, t, role, c);
                } else {
                    assert(off(t));
                }
            }
        },
        Atom::AtLeast(role, qual, n, v) => {
            lemma_var_node_valid(v, x, b, g.nodes.len() as int);
            lemma_var_node_bound(b, x, v);
            if let Some(t) = var_node(v, x, b) {
                if t != x {
                    let j = choose|j: int| 0 <= j < b.len() && (#[trigger] b[j]).1 == t;
                    assert(g.rep(b[j].1) == b[j].1);
                }
                assert(g.rep(t) == t);
                if role is Named && individual(k, g) {
                    if n == 0 {
                        lemma_none_stocked(k, g, t, role, qual);
                    } else if at_least_seen(k, g, t, (role, qual, n)) {
                        if !supplied(k, g, t, (role, qual, n)) {
                            lemma_assured_supplied(k, g, t, (role, qual, n));
                        }
                        lemma_stocked(k, g, t, (role, qual, n));
                    } else {
                        assert(off(t));
                    }
                }
            }
        },
        _ => {},
    }
}

/// Where the head of clause `ci` asks for a successor with a class, the node
/// has an edge along the role to a node that carries it; where it asks for `n`
/// along a named role, the node has `n` that are different. Or else the node
/// is outshone.
pub open spec fn generated_or_outshone(
    k: Config,
    lo: Graph,
    g: Graph,
    ci: int,
    x: HNode,
    b: Seq<(Var, HNode)>,
) -> bool {
    let body = k.clauses[ci].body;
    let head = k.clauses[ci].head;
    &&& head.len() > 0
    &&& match head[0] {
        Atom::Exists(role, c, v) => var_node(v, x, b) matches Some(t) ==> outshone(
            k,
            lo,
            g,
            body,
            x,
            b,
            t,
        ) || exists|e: (Role, HNode)| #[trigger]
            g.at(t).edges.contains(e) && role_sat(e.0, role, k.roles) && g.at(
                e.1,
            ).labels.contains(c),
        Atom::AtLeast(role, qual, n, v) => role is Named && (k.nominals is None || unmerged(g)) ==> (
        var_node(v, x, b) matches Some(t) ==> outshone(k, lo, g, body, x, b, t) || stocked(
            k,
            g,
            t,
            role,
            qual,
            n,
        )),
        _ => true,
    }
}

/// Saturation that ends in `Sat` leaves no Horn clause with a body that holds
/// and without a head. And it makes the successors that are asked for: a node
/// that no node created before it outshines has them all. In particular the
/// first node has, and one with a class, from the start or asked for by the
/// clause, that no node created before it comes to have.
///
/// Different successors are owed where no nodes were merged for a nominal: such
/// a merge may take two that were counted for one. A snapshot may be replayed
/// lazily, if what its labels ask for is there.
pub proof fn lemma_run_generates(
    k: Config,
    s: State,
    max_iters: nat,
    ci: int,
    x: HNode,
    b: Seq<(Var, HNode)>,
)
    requires
        k.wf(),
        attended(k, s.g),
        s.wf(),
        mirrored(s.g),
        all_assured(k, s.g),
        saturated(k, s, max_iters).1 is Sat,
        heard(k, saturated(k, s, max_iters).0.g, ci, x, b),
    ensures
        generated_or_outshone(k, s.g, saturated(k, s, max_iters).0.g, ci, x, b),
{
    lemma_saturation_closed(k, s, max_iters);
    lemma_saturation_settles(k, s, max_iters);
    lemma_met_generated(k, s, max_iters, ci, x, b);
}

/// A search that ends in `Sat` leaves no Horn clause with a body that holds
/// and without a head, and makes the successors that are asked for, as
/// [`lemma_run_generates`] has it.
pub proof fn lemma_sat_generates(
    k: Config,
    s0: State,
    s1: State,
    ci: int,
    x: HNode,
    b: Seq<(Var, HNode)>,
)
    requires
        k.wf(),
        attended(k, s0.g),
        s0.wf(),
        mirrored(s0.g),
        all_assured(k, s0.g),
        solves(k, s0, k.init_depth as nat, s1, HyperResult::Sat),
        heard(k, s1.g, ci, x, b),
    ensures
        generated_or_outshone(k, s0.g, s1.g, ci, x, b),
{
    lemma_sat_decided(k, s0, k.init_depth as nat, s1);
    let s = choose|s: State| #[trigger]
        ripens(k, s0.g, s, s1.g) && horn_met(k, reseeded(k, s), s1.g);
    lemma_met_generated(k, s, FIXPOINT_ITERS as nat, ci, x, b);
    let body = k.clauses[ci].body;
    assert forall|t: HNode| #[trigger] outshone(k, s.g, s1.g, body, x, b, t) implies outshone(
        k,
        s0.g,
        s1.g,
        body,
        x,
        b,
        t,
    ) by {
        let m = choose|m: HNode| #[trigger] outshines(k, s.g, s1.g, body, x, b, t, m);
        assert forall|c: ClassId|
            s0.g.valid(t) && #[trigger] s0.g.at(t).labels.contains(c) implies s1.g.at(
            m,
        ).labels.contains(c) by {
            assert(node_grows(s0.g.nodes[t.at()], s.g.nodes[t.at()]));
            assert(s0.g.at(t).has(c));
            assert(s.g.at(t).has(c));
        }
        assert(outshines(k, s0.g, s1.g, body, x, b, t, m));
    }
}

/// The node of a class that is searched for has the successors that are asked
/// for by clauses about its classes, if it was not merged into another.
pub proof fn lemma_root_generates(k: Config, c: ClassId, s0: State, s1: State, ci: int)
    requires
        k.wf(),
        closable(k),
        s0.wf(),
        is_root_graph(s0.g, c),
        solves(k, s0, k.init_depth as nat, s1, HyperResult::Sat),
        s1.g.rep(HNode(0)) == HNode(0),
        0 <= ci < k.clauses.len(),
        k.clauses[ci].head.len() <= 1,
        forall|q: int|
            0 <= q < k.clauses[ci].body.len() ==> (
            #[trigger] k.clauses[ci].body[q] matches Atom::Class(d, v) && v == X && s1.g.at(
                HNode(0),
            ).labels.contains(d)),
    ensures
        k.clauses[ci].head.len() == 1,
        match k.clauses[ci].head[0] {
            Atom::Class(d, v) => v == X ==> s1.g.at(HNode(0)).labels.contains(d),
            Atom::Exists(role, d, v) => v == X ==> exists|e: (Role, HNode)| #[trigger]
                s1.g.at(HNode(0)).edges.contains(e) && role_sat(e.0, role, k.roles) && s1.g.at(
                    e.1,
                ).labels.contains(d),
            Atom::AtLeast(role, qual, n, v) => v == X && role is Named && (k.nominals is None
                || unmerged(s1.g)) ==> stocked(k, s1.g, HNode(0), role, qual, n),
            Atom::AtMost(role, qual, n, v) => v == X && n < u32::MAX ==> !stocked(
                k,
                s1.g,
                HNode(0),
                role,
                qual,
                (n + 1) as u32,
            ),
            _ => true,
        },
{
    let x = HNode(0);
    let b = Seq::<(Var, HNode)>::empty();
    let g = s1.g;
    let cl = k.clauses[ci];
    lemma_closable_attended(k, s0.g);
    lemma_root_tidy(k, s0.g, c);
    lemma_seed_node(0, c);
    assert(all_assured(k, s0.g)) by {
        assert forall|n: HNode, q: Card|
            s0.g.valid(n) && #[trigger] s0.g.at(n).at_least_done.contains(q) implies assured(
            k,
            s0.g,
            n,
            q,
        ) by {
            assert(s0.g.at(n) == seed_node(0, c));
        }
    }
    lemma_sat_decided(k, s0, k.init_depth as nat, s1);
    assert(var_node(X, x, b) == Some(x));
    assert(body_holds(g.nodes, k.roles, cl.body, x, b)) by {
        assert forall|q: int| 0 <= q < cl.body.len() implies atom_holds(
            g.nodes,
            k.roles,
            #[trigger] cl.body[q],
            x,
            b,
        ) by {
            assert(cl.body[q] is Class);
        }
    }
    lemma_class_body_supported(cl.body);
    assert(due(k, g, ci, x, b));
    lemma_heard(k, g, ci, x, b);
    lemma_sat_generates(k, s0, s1, ci, x, b);
    assert forall|m: HNode| !(#[trigger] outshines(k, s0.g, g, cl.body, x, b, x, m)) by {}
    let es = choose|es: Seq<Event>| #[trigger] enabled(k, g, ci, x, b, es);
    assert(head_done(k, g, cl.head, x, b, quiet(s0, s1) && individual(k, g)));
    if let Atom::AtMost(role, qual, n, v) = cl.head[0] {
        if v == X && n < u32::MAX && stocked(k, g, x, role, qual, (n + 1) as u32) {
            lemma_stocked_counted(k, g, x, role, qual, (n + 1) as u32);
            assert(g.at(x).at_most.contains((role, qual, n)));
        }
    }
}

/// A class that asks for more than it allows is not found satisfiable, as long
/// as its node is not merged into another: not with `≥n` and `≤m` along the
/// same named role, where `m` is smaller than `n`.
pub proof fn lemma_bounds_refuse(
    k: Config,
    c: ClassId,
    s0: State,
    s1: State,
    ci: int,
    cj: int,
    p: RoleId,
    qual: Option<ClassId>,
    n: u32,
    m: u32,
)
    requires
        k.wf(),
        closable(k),
        k.nominals is None,
        s0.wf(),
        is_root_graph(s0.g, c),
        0 <= ci < k.clauses.len(),
        0 <= cj < k.clauses.len(),
        k.clauses[ci].body == seq![Atom::Class(c, X)],
        k.clauses[ci].head == seq![Atom::AtLeast(Role::Named(p), qual, n, X)],
        k.clauses[cj].body == seq![Atom::Class(c, X)],
        k.clauses[cj].head == seq![Atom::AtMost(Role::Named(p), qual, m, X)],
        m < n,
        solves(k, s0, k.init_depth as nat, s1, HyperResult::Sat),
    ensures
        s1.g.rep(HNode(0)) != HNode(0),
{
    let x = HNode(0);
    if s1.g.rep(x) == x {
        lemma_seed_node(0, c);
        lemma_sat_decided(k, s0, k.init_depth as nat, s1);
        assert(s0.g.nodes[0] == seed_node(0, c));
        assert(s0.g.at(x).labels[0] == c);
        assert(s0.g.at(x).has(c));
        assert(node_grows(s0.g.nodes[0], s1.g.nodes[0]));
        assert(s1.g.at(x).has(c));
        lemma_root_generates(k, c, s0, s1, ci);
        lemma_root_generates(k, c, s0, s1, cj);
        let role = Role::Named(p);
        lemma_fewer_stocked(k, s1.g, x, role, qual, n, (m + 1) as u32);
    }
}

proof fn lemma_scan_classes(body: Seq<Atom>, i: int)
    requires
        0 <= i,
        forall|q: int|
            0 <= q < body.len() ==> (#[trigger] body[q] matches Atom::Class(c, v) && v == X),
    ensures
        scan_from(body, i, Seq::empty(), Seq::empty()) == Some(
            (Seq::<RoleAtom>::empty(), Seq::<(ClassId, Var)>::empty()),
        ),
    decreases body.len() - i,
{
    if i < body.len() {
        assert(body[i] is Class);
        lemma_scan_classes(body, i + 1);
    }
}

/// A body that asks for classes of the one node can be matched.
pub proof fn lemma_class_body_supported(body: Seq<Atom>)
    requires
        body.len() <= usize::MAX,
        forall|q: int|
            0 <= q < body.len() ==> (#[trigger] body[q] matches Atom::Class(c, v) && v == X),
    ensures
        supported(body),
{
    lemma_scan_classes(body, 0);
    lemma_shape_iff(body);
}

/// Who has `n` successors has fewer.
proof fn lemma_fewer_stocked(
    k: Config,
    g: Graph,
    x: HNode,
    role: Role,
    qual: Option<ClassId>,
    n: u32,
    m: u32,
)
    requires
        g.wf(),
        g.valid(x),
        m <= n,
        stocked(k, g, x, role, qual, n),
    ensures
        stocked(k, g, x, role, qual, m),
{
    lemma_stocked_counted(k, g, x, role, qual, n);
    lemma_counted_supply(k, g, x, (role, qual, m));
    lemma_stocked(k, g, x, (role, qual, m));
}

} // verus!
