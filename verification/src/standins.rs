//! A completion in which nodes were blocked or merged is a model of the
//! clauses too, where a node that lacks successors has another to stand in
//! for it.

use vstd::prelude::*;
use crate::clause::{role_sat, Atom, ClauseView, HierarchyView, Var, X};
use crate::completion::{attended, decided, disjunctions_hold, lemma_sat_decided, matched};
use crate::graph::{grows, node_grows, Config, Graph, HyperResult, SearchStats, State};
use crate::horn_closure::{
    at_least_seen, due, head_done, horn_closed, individual, lemma_fired_weaker, quiet, sole,
    stands_for, supported,
};
use crate::ids::{ClassId, HNode, Role, RoleId};
use crate::listening::{lemma_listening_closed, listening};
use crate::match_laws::{body_holds, lemma_matches_complete};
use crate::matching::{matches_of, var_node};
use crate::models::{
    binds, directed, elements, handed_over, led_to, lemma_binding, lemma_body_pictured,
    lemma_elements, lemma_role_succ_has, lemma_root_tidy, lemma_seed_started,
    lemma_tidy_handed_over, outward, picture, plain, plain_body, reaches,
};
use crate::node::Card;
use crate::queries::{
    block_check, blocked, head_holds, nominal, some_head_holds, successors, witnessed,
};
use crate::refutation::coherent;
use crate::rules::stored_edge;
use crate::search::solves;
use crate::seed::AboxSeed;
use crate::semantics::Interp;
use crate::setup::lemma_seed_node;
use crate::unfolding::{
    along_named, forward_atom, forward_only, lemma_unmerged_before, mirrored, served, supplied,
    supply, unmerged,
};
use crate::verdicts::{is_root_graph, lemma_abox_unsat_sound, lemma_class_unsat_sound, reliable};

verus! {

/// The head atom asks nothing of other nodes than that they are in a class:
/// it restricts named roles at the central variable, or leads from there.
pub open spec fn central(body: Seq<Atom>, at: Atom) -> bool {
    match at {
        Atom::Class(c, w) => w == X || led_to(body, w),
        Atom::Exists(r, c, w) => r is Named && w == X,
        Atom::AtMost(r, q, n, w) => r is Named && w == X,
        Atom::AtLeast(r, q, n, w) => r is Named && w == X,
        Atom::Role(r, u, w) => r is Named && u == X && led_out(body, w),
        Atom::Equal(u, w) => false,
    }
}

/// A role atom of the body leads to the variable along a named role.
pub open spec fn led_out(body: Seq<Atom>, w: Var) -> bool {
    exists|q: int|
        0 <= q < body.len() && (#[trigger] body[q] matches Atom::Role(r, u, t) && t == w
            && r is Named)
}

/// The clause is about a node and its successors along named roles, and with
/// pairwise blocking also about its predecessors.
pub open spec fn starry(pairwise: bool, cl: ClauseView) -> bool {
    &&& supported(cl.body)
    &&& forall|q: int|
        0 <= q < cl.body.len() ==> (#[trigger] cl.body[q] matches Atom::Role(r, u, w) ==> u == X
            && (r is Named || pairwise))
    &&& forall|j: int| 0 <= j < cl.head.len() ==> central(cl.body, #[trigger] cl.head[j])
}

/// The head asks for successors.
pub open spec fn generates(head: Seq<Atom>) -> bool {
    head.len() > 0 && (head[0] is Exists || head[0] is AtLeast)
}

/// The successors that are due at `m` are there.
pub open spec fn sated(k: Config, g: Graph, m: HNode) -> bool {
    forall|ci: int, b: Seq<(Var, HNode)>| #[trigger]
        due(k, g, ci, m, b) && generates(k.clauses[ci].head) ==> head_done(
            k,
            g,
            k.clauses[ci].head,
            m,
            b,
            true,
        )
}

/// Node `b` leads to `m` along `r`, with the same labels as `a`.
pub open spec fn leads_alike(g: Graph, m: HNode, r: Role, a: HNode, b: HNode) -> bool {
    &&& g.valid(b) && g.rep(b) == b
    &&& g.at(m).preds.contains((r, b))
    &&& g.at(b).labels == g.at(a).labels
}

/// What leads to `n` has its like among what leads to `m`.
#[verifier::opaque]
pub open spec fn led_alike(g: Graph, n: HNode, m: HNode) -> bool {
    forall|r: Role, a: HNode|
        g.valid(a) && g.rep(a) == a && #[trigger] g.at(n).preds.contains((r, a))
            ==> exists|b: HNode| #[trigger] leads_alike(g, m, r, a, b)
}

proof fn lemma_led_alike_self(g: Graph, n: HNode)
    ensures
        led_alike(g, n, n),
{
    reveal(led_alike);
    assert forall|r: Role, a: HNode|
        g.valid(a) && g.rep(a) == a && #[trigger] g.at(n).preds.contains((r, a)) implies exists|
        b: HNode,
    | #[trigger] leads_alike(g, n, r, a, b) by {
        assert(leads_alike(g, n, r, a, a));
    }
}

/// `m` can stand in for `n`: it has the same labels, is not blocked, and
/// lacks no successor that is due. With pairwise blocking, what leads to `n`
/// has its like among what leads to `m`.
pub open spec fn stands_in(k: Config, g: Graph, n: HNode, m: HNode) -> bool {
    &&& g.valid(m) && g.rep(m) == m
    &&& g.at(m).labels == g.at(n).labels
    &&& !blocked(k, g, m)
    &&& sated(k, g, m)
    &&& k.double_blocking ==> led_alike(g, n, m)
}

/// Every node that was not merged away can stand for itself, or has another
/// to stand in for it.
pub open spec fn standing(k: Config, g: Graph) -> bool {
    forall|n: HNode|
        #![trigger g.at(n)]
        g.valid(n) && g.rep(n) == n ==> exists|m: HNode| stands_in(k, g, n, m)
}

/// The node that stands in for `n`: the node itself if it can.
pub open spec fn stand_in(k: Config, g: Graph, n: HNode) -> HNode {
    if stands_in(k, g, n, n) {
        n
    } else {
        choose|m: HNode| stands_in(k, g, n, m)
    }
}

/// The graph as an interpretation: its elements are the nodes that were not
/// merged away, with their labels, and with the edges of their stand-ins.
pub open spec fn drawn(k: Config, g: Graph) -> Interp<HNode> {
    Interp {
        domain: |n: HNode| g.valid(n) && g.rep(n) == n,
        class: |c: ClassId, n: HNode| g.at(n).has(c),
        pairs: |r: RoleId, a: HNode, b: HNode|
            reaches(k.roles, g, Role::Named(r), stand_in(k, g, a), b),
    }
}

/// What the graph has to be for it to be a model.
pub open spec fn standing_model(k: Config, g: Graph) -> bool {
    &&& g.wf()
    &&& decided(k, g)
    &&& horn_closed(k, g, false)
    &&& sole(k, g)
    &&& standing(k, g)
    &&& handed_over(k, g)
    &&& k.double_blocking ==> mirrored(g) && along_named(g)
}

/// A role atom of the body leads to the variable along the inverse of `p`.
spec fn led_in(body: Seq<Atom>, w: Var, p: RoleId) -> bool {
    exists|q: int|
        0 <= q < body.len() && (#[trigger] body[q] matches Atom::Role(r, u, t) && t == w && r
            == Role::Inverse(p))
}

/// Node `b` leads to `m` along the role, or along one below it, with the same
/// labels as `a`.
spec fn partner(k: Config, g: Graph, m: HNode, p: RoleId, a: HNode, b: HNode) -> bool {
    exists|e: Role| #[trigger] leads_alike(g, m, e, a, b) && role_sat(e, Role::Named(p), k.roles)
}

/// What leads to `m` as `a` leads to the node that `m` stands in for.
spec fn like(k: Config, g: Graph, m: HNode, p: RoleId, a: HNode) -> HNode {
    choose|b: HNode| #[trigger] partner(k, g, m, p, a, b)
}

/// The valuation with the stand-in for the central variable, and for what
/// leads to it what leads to the stand-in.
spec fn moved(k: Config, g: Graph, body: Seq<Atom>, v: spec_fn(Var) -> HNode) -> spec_fn(
    Var,
) -> HNode {
    |w: Var| if w == X {
        stand_in(k, g, v(X))
    } else if exists|p: RoleId| #[trigger] led_in(body, w, p) {
        let p = choose|p: RoleId| #[trigger] led_in(body, w, p);
        like(k, g, stand_in(k, g, v(X)), p, v(w))
    } else {
        v(w)
    }
}

/// All role atoms of a supported body that lead to a variable are one.
proof fn lemma_one_leader(body: Seq<Atom>, q1: int, q2: int)
    requires
        body.len() <= usize::MAX,
        supported(body),
        0 <= q1 < body.len(),
        0 <= q2 < body.len(),
        body[q1] is Role,
        body[q2] is Role,
        body[q1]->Role_2 == body[q2]->Role_2,
    ensures
        body[q1] == body[q2],
{
    crate::match_laws::lemma_shape_iff(body);
    crate::match_laws::lemma_scan(body, 0, Seq::empty(), Seq::empty());
    let p = crate::matching::plan_of(body)->0;
    if let (Atom::Role(r1, u1, t1), Atom::Role(r2, u2, t2)) = (body[q1], body[q2]) {
        assert(p.roles.contains((r1, u1, t1)));
        assert(p.roles.contains((r2, u2, t2)));
        let i = choose|i: int| 0 <= i < p.roles.len() && p.roles[i] == (r1, u1, t1);
        let j = choose|j: int| 0 <= j < p.roles.len() && p.roles[j] == (r2, u2, t2);
        if i < j {
            assert(p.roles[i].2 != p.roles[j].2);
        } else if j < i {
            assert(p.roles[j].2 != p.roles[i].2);
        }
    }
}

/// A like of what leads to `n`, among what leads to `m`.
proof fn lemma_led_alike(g: Graph, n: HNode, m: HNode, r: Role, a: HNode) -> (b: HNode)
    requires
        led_alike(g, n, m),
        g.valid(a),
        g.rep(a) == a,
        g.at(n).preds.contains((r, a)),
    ensures
        leads_alike(g, m, r, a, b),
{
    reveal(led_alike);
    choose|b: HNode| #[trigger] leads_alike(g, m, r, a, b)
}

/// What leads to a node has its like among what leads to the stand-in.
proof fn lemma_partner(k: Config, g: Graph, p: RoleId, n: HNode, a: HNode, m: HNode, sa: HNode)
    requires
        mirrored(g),
        g.valid(n),
        stands_in(k, g, n, m),
        stands_in(k, g, a, sa),
        k.double_blocking,
        reaches(k.roles, g, Role::Named(p), sa, n),
    ensures
        partner(k, g, m, p, a, like(k, g, m, p, a)),
{
    let e = choose|e: Role| #[trigger]
        g.at(sa).edges.contains((e, n)) && role_sat(e, Role::Named(p), k.roles);
    assert(g.at(n).preds.contains((e, sa)));
    let b = lemma_led_alike(g, n, m, e, sa);
    assert(leads_alike(g, m, e, a, b));
    assert(partner(k, g, m, p, a, b));
}

proof fn lemma_stand_in(k: Config, g: Graph, n: HNode)
    requires
        standing(k, g),
        g.valid(n),
        g.rep(n) == n,
    ensures
        stands_in(k, g, n, stand_in(k, g, n)),
{
    assert(g.at(n) == g.at(n));
    let m = choose|m: HNode| stands_in(k, g, n, m);
    assert(stands_in(k, g, n, m));
}

/// What leads to the element of the central variable is moved to its like.
proof fn lemma_moved_in(
    k: Config,
    g: Graph,
    body: Seq<Atom>,
    v: spec_fn(Var) -> HNode,
    w: Var,
    p: RoleId,
)
    requires
        mirrored(g),
        standing(k, g),
        k.double_blocking,
        supported(body),
        body.len() <= usize::MAX,
        forall|q: int|
            0 <= q < body.len() ==> (#[trigger] body[q] matches Atom::Role(r, u, t) ==> u == X),
        drawn(k, g).valuation(v),
        drawn(k, g).all(body, v),
        led_in(body, w, p),
    ensures
        w != X,
        partner(k, g, stand_in(k, g, v(X)), p, v(w), moved(k, g, body, v)(w)),
{
    let q = choose|q: int|
        0 <= q < body.len() && (#[trigger] body[q] matches Atom::Role(r, y, t) && t == w && r
            == Role::Inverse(p));
    assert(led_to(body, w)) by {
        assert(body[q] is Role);
    }
    lemma_targets_not_x(body);
    let p1 = choose|p1: RoleId| #[trigger] led_in(body, w, p1);
    let q1 = choose|q1: int|
        0 <= q1 < body.len() && (#[trigger] body[q1] matches Atom::Role(r, y, t) && t == w && r
            == Role::Inverse(p1));
    lemma_one_leader(body, q, q1);
    assert(p1 == p);
    assert(drawn(k, g).atom(body[q], v));
    assert(drawn(k, g).within(v(w)));
    assert(drawn(k, g).within(v(X)));
    lemma_stand_in(k, g, v(X));
    lemma_stand_in(k, g, v(w));
    lemma_partner(k, g, p, v(X), v(w), stand_in(k, g, v(X)), stand_in(k, g, v(w)));
}

/// Moved variables stand for nodes with the same labels, and what the element
/// of the central variable leads to stays.
proof fn lemma_moved_to(k: Config, g: Graph, body: Seq<Atom>, v: spec_fn(Var) -> HNode, w: Var)
    requires
        k.double_blocking ==> mirrored(g),
        standing(k, g),
        supported(body),
        body.len() <= usize::MAX,
        forall|q: int|
            0 <= q < body.len() ==> (#[trigger] body[q] matches Atom::Role(r, u, t) ==> u == X && (
            r is Named || k.double_blocking)),
        drawn(k, g).valuation(v),
        drawn(k, g).all(body, v),
    ensures
        ({
            let n = moved(k, g, body, v)(w);
            g.valid(n) && g.rep(n) == n && g.at(n).labels == g.at(v(w)).labels
        }),
        led_out(body, w) ==> moved(k, g, body, v)(w) == v(w),
{
    assert(drawn(k, g).within(v(w)));
    assert(drawn(k, g).within(v(X)));
    if exists|p: RoleId| #[trigger] led_in(body, w, p) {
        let p = choose|p: RoleId| #[trigger] led_in(body, w, p);
        let q1 = choose|q1: int|
            0 <= q1 < body.len() && (#[trigger] body[q1] matches Atom::Role(r, y, t) && t == w && r
                == Role::Inverse(p));
        assert(k.double_blocking);
        lemma_moved_in(k, g, body, v, w, p);
        if led_out(body, w) {
            let q = choose|q: int|
                0 <= q < body.len() && (#[trigger] body[q] matches Atom::Role(r, y, t) && t == w
                    && r is Named);
            lemma_one_leader(body, q, q1);
        }
    } else if w == X {
        lemma_stand_in(k, g, v(X));
        if led_out(body, w) {
            assert(led_to(body, w));
            lemma_targets_not_x(body);
        }
    }
}

/// The body is true where it is moved to.
proof fn lemma_moved_body(k: Config, g: Graph, body: Seq<Atom>, v: spec_fn(Var) -> HNode, q: int)
    requires
        k.double_blocking ==> mirrored(g),
        standing(k, g),
        supported(body),
        body.len() <= usize::MAX,
        forall|q: int|
            0 <= q < body.len() ==> (#[trigger] body[q] matches Atom::Role(r, u, t) ==> u == X && (
            r is Named || k.double_blocking)),
        drawn(k, g).valuation(v),
        drawn(k, g).all(body, v),
        0 <= q < body.len(),
    ensures
        picture(k.roles, g).atom(body[q], moved(k, g, body, v)),
{
    let u = moved(k, g, body, v);
    let m = stand_in(k, g, v(X));
    assert(drawn(k, g).atom(body[q], v));
    lemma_targets_not_x(body);
    assert(body[q] is Class || body[q] is Role);
    match body[q] {
        Atom::Class(c, w) => {
            lemma_moved_to(k, g, body, v, w);
        },
        Atom::Role(r, x, w) => {
            match r {
                Role::Inverse(p) => {
                    assert(led_in(body, w, p));
                    lemma_moved_in(k, g, body, v, w, p);
                    let e = choose|e: Role| #[trigger]
                        leads_alike(g, m, e, v(w), u(w)) && role_sat(e, Role::Named(p), k.roles);
                    assert(drawn(k, g).within(v(X)));
                    lemma_stand_in(k, g, v(X));
                    assert(g.at(u(w)).edges.contains((e, m)));
                    assert(reaches(k.roles, g, Role::Named(p), u(w), m));
                },
                Role::Named(p) => {
                    assert(led_out(body, w));
                    lemma_moved_to(k, g, body, v, w);
                    assert(reaches(k.roles, g, r, m, v(w)));
                },
            }
        },
        _ => {},
    }
}

/// A body that is true holds in the graph at the stand-in.
proof fn lemma_moved(k: Config, g: Graph, cl: ClauseView, v: spec_fn(Var) -> HNode) -> (b: Seq<
    (Var, HNode),
>)
    requires
        standing_model(k, g),
        directed(k.roles),
        starry(k.double_blocking, cl),
        cl.body.len() <= usize::MAX,
        drawn(k, g).valuation(v),
        drawn(k, g).all(cl.body, v),
    ensures
        stands_in(k, g, v(X), moved(k, g, cl.body, v)(X)),
        picture(k.roles, g).valuation(moved(k, g, cl.body, v)),
        forall|w: Var|
            g.rep(#[trigger] moved(k, g, cl.body, v)(w)) == moved(k, g, cl.body, v)(w) && g.at(
                moved(k, g, cl.body, v)(w),
            ).labels == g.at(v(w)).labels,
        forall|w: Var| #[trigger] led_out(cl.body, w) ==> moved(k, g, cl.body, v)(w) == v(w),
        binds(g, cl.body, moved(k, g, cl.body, v), b),
        body_holds(g.nodes, k.roles, cl.body, moved(k, g, cl.body, v)(X), b),
{
    let body = cl.body;
    let u = moved(k, g, body, v);
    assert(drawn(k, g).within(v(X)));
    lemma_stand_in(k, g, v(X));
    assert forall|w: Var|
        g.valid(#[trigger] u(w)) && g.rep(u(w)) == u(w) && g.at(u(w)).labels == g.at(
            v(w),
        ).labels by {
        lemma_moved_to(k, g, body, v, w);
    }
    assert forall|w: Var| #[trigger] led_out(body, w) implies u(w) == v(w) by {
        lemma_moved_to(k, g, body, v, w);
    }
    assert forall|w: Var| picture(k.roles, g).within(#[trigger] u(w)) by {}
    assert forall|q: int| 0 <= q < body.len() implies picture(k.roles, g).atom(
        #[trigger] body[q],
        u,
    ) by {
        lemma_moved_body(k, g, body, v, q);
    }
    let b = lemma_binding(k.roles, g, cl.body, u);
    lemma_directed_plain(k.roles, body);
    assert(outward(body) || k.double_blocking);
    lemma_body_pictured(k, g, cl.body, u, b);
    b
}

/// Where no role is symmetric, all are plain.
proof fn lemma_directed_plain(h: Option<HierarchyView>, body: Seq<Atom>)
    requires
        directed(h),
    ensures
        plain_body(h, body),
{
    assert forall|q: int| 0 <= q < body.len() implies (#[trigger] body[q] matches Atom::Role(
        r,
        y,
        w,
    ) ==> plain(h, r.id())) by {}
}

/// No role atom of a supported body leads to the central variable.
proof fn lemma_targets_not_x(body: Seq<Atom>)
    requires
        body.len() <= usize::MAX,
        supported(body),
    ensures
        forall|w: Var| #[trigger] led_to(body, w) ==> w != X,
        forall|q: int| 0 <= q < body.len() ==> #[trigger] body[q] is Class || body[q] is Role,
{
    crate::match_laws::lemma_shape_iff(body);
    crate::match_laws::lemma_scan(body, 0, Seq::empty(), Seq::empty());
    let p = crate::matching::plan_of(body)->0;
    assert forall|w: Var| #[trigger] led_to(body, w) implies w != X by {
        let q = choose|q: int|
            0 <= q < body.len() && (#[trigger] body[q] matches Atom::Role(r, u, t) && t == w);
        if let Atom::Role(r, u, t) = body[q] {
            assert(p.roles.contains((r, u, t)));
            let i = choose|i: int| 0 <= i < p.roles.len() && p.roles[i] == (r, u, t);
            assert(p.roles[i].2 != X);
        }
    }
}

/// A successor with a class is one of the elements.
proof fn lemma_witness_drawn(k: Config, g: Graph, a: HNode, m: HNode, role: Role, c: ClassId)
    requires
        g.wf(),
        handed_over(k, g),
        m == stand_in(k, g, a),
        g.valid(m),
        g.rep(m) == m,
        role is Named,
        witnessed(k, g, m, role, c),
    ensures
        drawn(k, g).some(role, c, a),
{
    let i = choose|i: int|
        0 <= i < g.at(m).edges.len() && role_sat((#[trigger] g.at(m).edges[i]).0, role, k.roles)
            && g.at(g.at(m).edges[i].1).has(c);
    let (e, t) = g.at(m).edges[i];
    assert(g.node_wf(g.nodes[m.at()], m.at()));
    assert(g.at(m).edges.contains((e, t)));
    assert(g.at(m).edges.contains((e, g.rep(t))));
    assert(g.root[t.at()].at() < g.root.len());
    assert(reaches(k.roles, g, role, m, g.rep(t)));
    assert(drawn(k, g).within(g.rep(t)));
    assert(drawn(k, g).role(role, a, g.rep(t)));
}

/// No more elements count than there are successors.
proof fn lemma_at_most_drawn(
    k: Config,
    g: Graph,
    a: HNode,
    m: HNode,
    role: Role,
    qual: Option<ClassId>,
    n: u32,
)
    requires
        g.wf(),
        m == stand_in(k, g, a),
        role is Named,
        successors(k, g, m, role, qual).len() <= n,
    ensures
        drawn(k, g).at_most(role, qual, n, a),
{
    let ss = successors(k, g, m, role, qual);
    let i = drawn(k, g);
    assert forall|s: Seq<HNode>| #[trigger] i.counted(role, qual, a, s) implies s.len() <= n by {
        assert forall|t: HNode| #[trigger] s.to_set().contains(t) implies ss.to_set().contains(t) by {
            let j = choose|j: int| 0 <= j < s.len() && s[j] == t;
            assert(i.counts(role, qual, a, s[j]));
            let e = choose|e: Role| #[trigger]
                g.at(m).edges.contains((e, t)) && role_sat(e, role, k.roles);
            lemma_role_succ_has(k.roles, g, g.at(m).edges, e, role, qual, t);
        }
        s.unique_seq_to_set();
        ss.lemma_cardinality_of_set();
        vstd::set_lib::lemma_len_subset(s.to_set(), ss.to_set());
    }
}

/// The successors that were made to be there count.
proof fn lemma_at_least_drawn(k: Config, g: Graph, a: HNode, m: HNode, c: Card)
    requires
        g.wf(),
        handed_over(k, g),
        m == stand_in(k, g, a),
        g.valid(m),
        g.rep(m) == m,
        c.0 is Named,
        supplied(k, g, m, c),
    ensures
        drawn(k, g).at_least(c.0, c.1, c.2, a),
{
    let i = drawn(k, g);
    let ts = choose|ts: Seq<HNode>| #[trigger] supply(k, g, m, c, ts);
    let us = ts.map_values(|t: HNode| g.rep(t));
    assert forall|j: int| 0 <= j < us.len() implies i.counts(c.0, c.1, a, #[trigger] us[j]) by {
        let t = ts[j];
        assert(served(k, g, m, c.0, c.1, t));
        let e = choose|e: Role| #[trigger]
            g.at(m).edges.contains((e, t)) && role_sat(e, c.0, k.roles);
        assert(g.at(m).edges.contains((e, g.rep(t))));
        assert(g.root[t.at()].at() < g.root.len());
        assert(reaches(k.roles, g, c.0, m, g.rep(t)));
    }
    assert forall|p: int, q: int| 0 <= p < us.len() && 0 <= q < us.len() && p != q implies us[p]
        != us[q] by {
        if p < q {
            assert(g.rep(ts[p]) != g.rep(ts[q]));
        } else {
            assert(g.rep(ts[q]) != g.rep(ts[p]));
        }
    }
    assert(i.counted(c.0, c.1, a, us));
}

/// A clause with several head atoms is true.
proof fn lemma_disjunction_drawn(k: Config, g: Graph, ci: int, v: spec_fn(Var) -> HNode)
    requires
        k.wf(),
        directed(k.roles),
        standing_model(k, g),
        0 <= ci < k.clauses.len(),
        starry(k.double_blocking, k.clauses[ci]),
        !k.clauses[ci].horn(),
        drawn(k, g).valuation(v),
        drawn(k, g).all(k.clauses[ci].body, v),
    ensures
        drawn(k, g).any(k.clauses[ci].head, v),
{
    let cl = k.clauses[ci];
    let u = moved(k, g, cl.body, v);
    let m = u(X);
    let b = lemma_moved(k, g, cl, v);
    assert(matches_of(g.nodes, k.roles, cl.body, m) is Some);
    lemma_matches_complete(g.nodes, k.roles, cl.body, m, b);
    assert(matched(k, g, ci, m, b));
    assert(!block_check(k, g, m, SearchStats::zero()).1);
    assert(disjunctions_hold(k, g, m));
    assert(some_head_holds(k, g, cl.head, m, b));
    let j = choose|j: int| 0 <= j < cl.head.len() && head_holds(k, g, #[trigger] cl.head[j], m, b);
    assert(central(cl.body, cl.head[j]));
    match cl.head[j] {
        Atom::Class(c, w) => {
            assert(g.at(u(w)).labels == g.at(v(w)).labels);
        },
        Atom::Exists(r, c, w) => {
            lemma_witness_drawn(k, g, v(X), m, r, c);
        },
        Atom::AtMost(r, q, n, w) => {
            lemma_at_most_drawn(k, g, v(X), m, r, q, n);
        },
        _ => {},
    }
    assert(drawn(k, g).atom(cl.head[j], v));
}

/// A Horn clause is true.
proof fn lemma_horn_drawn(k: Config, g: Graph, ci: int, v: spec_fn(Var) -> HNode)
    requires
        k.wf(),
        directed(k.roles),
        standing_model(k, g),
        0 <= ci < k.clauses.len(),
        starry(k.double_blocking, k.clauses[ci]),
        k.clauses[ci].horn(),
        drawn(k, g).valuation(v),
        drawn(k, g).all(k.clauses[ci].body, v),
    ensures
        drawn(k, g).any(k.clauses[ci].head, v),
{
    let cl = k.clauses[ci];
    let u = moved(k, g, cl.body, v);
    let m = u(X);
    let b = lemma_moved(k, g, cl, v);
    assert forall|j: int| 0 <= j < b.len() implies g.rep((#[trigger] b[j]).1) == b[j].1 by {
        crate::match_laws::lemma_var_node(b, m, b[j].0, b[j].1);
        assert(b.contains(b[j]));
        assert(led_to(cl.body, b[j].0));
        assert(var_node(b[j].0, m, b) == Some(u(b[j].0)));
    }
    assert(due(k, g, ci, m, b));
    assert(head_done(k, g, cl.head, m, b, false));
    assert(central(cl.body, cl.head[0]));
    assert(head_done(k, g, cl.head, m, b, true));
    assert forall|w: Var| g.valid(#[trigger] v(w)) && g.rep(v(w)) == v(w) by {
        assert(drawn(k, g).within(v(w)));
    }
    match cl.head[0] {
        Atom::Class(c, w) => {
            assert(g.at(u(w)).labels == g.at(v(w)).labels);
        },
        Atom::Exists(r, c, w) => {
            lemma_witness_drawn(k, g, v(X), m, r, c);
        },
        Atom::AtMost(r, q, n, w) => {
            assert(g.at(m).at_most.contains((r, q, n)));
            lemma_at_most_drawn(k, g, v(X), m, r, q, n);
        },
        Atom::AtLeast(r, q, n, w) => {
            assert(at_least_seen(k, g, m, (r, q, n)));
            if n == 0 {
                assert(drawn(k, g).counted(r, q, v(X), Seq::empty()));
            } else {
                lemma_at_least_drawn(k, g, v(X), m, (r, q, n));
            }
        },
        Atom::Role(r, a, w) => {
            assert(led_to(cl.body, w));
            assert(u(w) == v(w));
            assert(stored_edge(g, r, m, v(w)) == (m, r, v(w)));
            assert(g.at(m).edges.contains((r, v(w))));
            assert(reaches(k.roles, g, r, m, v(w)));
        },
        Atom::Equal(a, w) => {},
    }
    assert(drawn(k, g).atom(cl.head[0], v));
}

/// A graph in which every node has a stand-in, and what was merged away
/// handed over what it had, is a model.
pub proof fn lemma_standing_models(k: Config, g: Graph)
    requires
        k.wf(),
        directed(k.roles),
        forall|ci: int| 0 <= ci < k.clauses.len() ==> starry(k.double_blocking, #[trigger] k.clauses[ci]),
        standing_model(k, g),
    ensures
        drawn(k, g).models(k),
{
    let i = drawn(k, g);
    assert forall|ci: int| 0 <= ci < k.clauses.len() implies i.clause(#[trigger] k.clauses[ci]) by {
        assert forall|v: spec_fn(Var) -> HNode|
            i.valuation(v) && #[trigger] i.all(k.clauses[ci].body, v) implies i.any(
            k.clauses[ci].head,
            v,
        ) by {
            assert(starry(k.double_blocking, k.clauses[ci]));
            if k.clauses[ci].horn() {
                lemma_horn_drawn(k, g, ci, v);
            } else {
                lemma_disjunction_drawn(k, g, ci, v);
            }
        }
    }
    assert forall|c: ClassId, a: HNode, b: HNode|
        i.within(a) && i.within(b) && nominal(k, c) && #[trigger] i.in_class(c, a)
            && #[trigger] i.in_class(c, b) implies a == b by {
        assert(stands_for(k, g, a, c) && stands_for(k, g, b, c));
    }
}

/// All that saturation was to see to is seen to. No Horn clause is left that
/// could fire, but for those that generate nodes, and nodes that bear the same
/// nominal were merged.
///
/// The one need not be asked for where all Horn clauses are attentive and the
/// edges at the start run along named roles, the other where no snapshot is
/// replayed lazily.
pub open spec fn at_rest(k: Config, s0: State, s1: State) -> bool {
    &&& horn_closed(k, s1.g, false) || (listening(k) && attended(k, s0.g) && mirrored(s0.g)
        && along_named(s0.g))
    &&& k.lazy is None || sole(k, s1.g)
}

/// No head leads along an inverse role.
proof fn lemma_starry_forward(k: Config)
    requires
        forall|ci: int| 0 <= ci < k.clauses.len() ==> starry(k.double_blocking, #[trigger] k.clauses[ci]),
    ensures
        forward_only(k),
{
    assert forall|ci: int, j: int|
        0 <= ci < k.clauses.len() && 0 <= j < k.clauses[ci].head.len() implies forward_atom(
        #[trigger] k.clauses[ci].head[j],
    ) by {
        assert(starry(k.double_blocking, k.clauses[ci]));
        assert(central(k.clauses[ci].body, k.clauses[ci].head[j]));
    }
}

/// `Sat` is right where nodes were blocked or merged: the completion, with
/// the edges of a node that lacks successors taken from a node that stands in
/// for it, is a model of the clauses and the nominals. Its elements are the
/// nodes that were not merged away, in the classes that they are labelled
/// with and no others.
///
/// This is for clauses about a node and its successors, and with pairwise
/// blocking also about its predecessors, over a hierarchy without symmetric
/// roles. Each node that is blocked or lacks a successor that is due has in the
/// end the same labels as one that is not and does not; with pairwise blocking
/// see [`lemma_pairwise_standing`]. An edge that leads to a node that was
/// merged away is doubled by one to where it was merged, which is so if the two
/// were successors of one node along the same role and the one had no other
/// predecessor. What saturation was to see to is seen to, see [`at_rest`].
pub proof fn lemma_sat_standing(k: Config, s0: State, depth: nat, s1: State)
    requires
        k.wf(),
        s0.wf(),
        depth <= k.init_depth,
        directed(k.roles),
        forall|ci: int| 0 <= ci < k.clauses.len() ==> starry(k.double_blocking, #[trigger] k.clauses[ci]),
        solves(k, s0, depth, s1, HyperResult::Sat),
        at_rest(k, s0, s1),
        k.double_blocking ==> mirrored(s0.g) && along_named(s0.g),
        standing(k, s1.g),
        handed_over(k, s1.g),
    ensures
        drawn(k, s1.g).models(k),
        s1.wf(),
        grows(s0.g, s1.g),
{
    lemma_sat_decided(k, s0, depth, s1);
    lemma_starry_forward(k);
    if !horn_closed(k, s1.g, false) {
        lemma_fired_weaker(k, s1.g, quiet(s0, s1) && individual(k, s1.g), false);
        lemma_listening_closed(k, s1.g, false);
    }
    lemma_standing_models(k, s1.g);
}

/// Every node stands for itself where no node was found to be blocked and no
/// `≥n` could be undone, see [`individual`], so that all that
/// [`lemma_sat_standing`] asks for then is that what was merged away handed
/// over what it had. All Horn clauses are attentive, or else none is left that
/// could fire.
pub proof fn lemma_quiet_standing(k: Config, s0: State, depth: nat, s1: State)
    requires
        k.wf(),
        s0.wf(),
        depth <= k.init_depth,
        forall|ci: int| 0 <= ci < k.clauses.len() ==> starry(k.double_blocking, #[trigger] k.clauses[ci]),
        solves(k, s0, depth, s1, HyperResult::Sat),
        quiet(s0, s1),
        individual(k, s1.g),
        horn_closed(k, s1.g, true) || (listening(k) && attended(k, s0.g) && mirrored(s0.g)
            && along_named(s0.g)),
    ensures
        standing(k, s1.g),
{
    lemma_sat_decided(k, s0, depth, s1);
    if !horn_closed(k, s1.g, true) {
        lemma_starry_forward(k);
        lemma_listening_closed(k, s1.g, true);
    }
    assert forall|n: HNode| #[trigger] s1.g.valid(n) && s1.g.rep(n) == n implies exists|m: HNode|
        stands_in(k, s1.g, n, m) by {
        lemma_led_alike_self(s1.g, n);
        assert(stands_in(k, s1.g, n, n));
    }
}

/// A node that was generated has one predecessor, its parent, and is filed
/// under the role that leads there.
pub open spec fn sprung(g: Graph) -> bool {
    &&& forall|n: HNode|
        #![trigger g.at(n)]
        g.valid(n) && g.rep(n) == n ==> (g.at(n).parent matches Some(p) ==> born_of(g, n, p))
    &&& forall|r: Role, j: int|
        0 <= j < g.bucket(r).len() ==> g.rep(#[trigger] g.bucket(r)[j]) == g.bucket(r)[j] && g.at(
            g.bucket(r)[j],
        ).parent_role == Some(r)
}

/// Node `p` is all that leads to `n`.
pub open spec fn born_of(g: Graph, n: HNode, p: HNode) -> bool {
    &&& g.rep(p) == p
    &&& g.at(n).parent_role matches Some(r) && g.at(n).preds.contains((r, p))
    &&& forall|e: Role, a: HNode|
        g.rep(a) == a && #[trigger] g.at(n).preds.contains((e, a)) ==> a == p && Some(e) == g.at(
            n,
        ).parent_role
}

/// What leads to the one is like what leads to the other, if their parents
/// have the same labels.
proof fn lemma_born_alike(g: Graph, n: HNode, np: HNode, m: HNode, mp: HNode)
    requires
        born_of(g, n, np),
        born_of(g, m, mp),
        g.valid(mp),
        g.at(n).parent_role == g.at(m).parent_role,
        g.at(np).labels == g.at(mp).labels,
    ensures
        led_alike(g, n, m),
{
    reveal(led_alike);
    assert forall|r: Role, a: HNode|
        g.valid(a) && g.rep(a) == a && #[trigger] g.at(n).preds.contains((r, a)) implies exists|
        b: HNode,
    | #[trigger] leads_alike(g, m, r, a, b) by {
        assert(leads_alike(g, m, r, a, mp));
    }
}

/// A node that is blocked has a node to stand in for it: the first of those
/// that block it.
proof fn lemma_blocker_stands(k: Config, g: Graph, n: HNode, np: HNode) -> (m: HNode)
    requires
        g.wf(),
        k.double_blocking,
        sprung(g),
        forall|m: HNode|
            g.valid(m) && g.rep(m) == m && !(#[trigger] blocked(k, g, m)) ==> sated(k, g, m),
        g.valid(n),
        g.rep(n) == n,
        blocked(k, g, n),
        g.at(n).parent == Some(np),
    ensures
        stands_in(k, g, n, m),
        g.at(m).parent_role == g.at(n).parent_role,
        g.at(m).parent matches Some(mp) && g.at(mp).labels == g.at(np).labels,
    decreases n.at(),
{
    let st = SearchStats::zero();
    crate::queries::lemma_pair_blocked_iff(k, g, n, st);
    assert(born_of(g, n, np));
    let r = g.at(n).parent_role->0;
    let j = choose|j: int|
        0 <= j < g.bucket(r).len() && g.at(#[trigger] g.bucket(r)[j]).order < g.at(n).order && (g.at(
            g.bucket(r)[j],
        ).parent matches Some(mp) && crate::queries::pair_blocks(g, n, np, g.bucket(r)[j], mp));
    let m = g.bucket(r)[j];
    let mp = g.at(m).parent->0;
    assert(g.valid(g.bucket(r)[j]));
    assert(g.node_wf(g.nodes[m.at()], m.at()));
    assert(g.node_wf(g.nodes[n.at()], n.at()));
    assert(born_of(g, m, mp));
    if blocked(k, g, m) {
        let z = lemma_blocker_stands(k, g, m, mp);
        let zp = g.at(z).parent->0;
        assert(g.node_wf(g.nodes[z.at()], z.at()));
        assert(g.at(z) == g.at(z));
        assert(born_of(g, z, zp));
        lemma_born_alike(g, n, np, z, zp);
        z
    } else {
        lemma_born_alike(g, n, np, m, mp);
        m
    }
}

/// With pairwise blocking each node has one to stand in for it, where each
/// node that was generated has no predecessor but its parent, and a node that
/// is not blocked lacks no successor that is due. So `Sat` is right with
/// clauses about predecessors, which plain blocking does not look at.
pub proof fn lemma_pairwise_standing(k: Config, g: Graph)
    requires
        g.wf(),
        k.double_blocking,
        sprung(g),
        forall|m: HNode|
            g.valid(m) && g.rep(m) == m && !(#[trigger] blocked(k, g, m)) ==> sated(k, g, m),
    ensures
        standing(k, g),
{
    assert forall|n: HNode| #[trigger] g.valid(n) && g.rep(n) == n implies exists|m: HNode|
        stands_in(k, g, n, m) by {
        if blocked(k, g, n) {
            crate::queries::lemma_pair_blocked_iff(k, g, n, SearchStats::zero());
            let np = g.at(n).parent->0;
            let m = lemma_blocker_stands(k, g, n, np);
            assert(stands_in(k, g, n, m));
        } else {
            lemma_led_alike_self(g, n);
            assert(stands_in(k, g, n, n));
        }
    }
}

/// A class that is found satisfiable is not empty in some model, and no class
/// that is missing at the root is above it: the node that the root was merged
/// into, which is the root itself if it was not merged, is an element that is
/// in the class and in none of those. This holds where
/// [`lemma_sat_standing`] does.
pub proof fn lemma_class_sat_standing(k: Config, c: ClassId, s0: State, s1: State)
    requires
        k.wf(),
        directed(k.roles),
        forall|ci: int| 0 <= ci < k.clauses.len() ==> starry(k.double_blocking, #[trigger] k.clauses[ci]),
        s0.wf(),
        is_root_graph(s0.g, c),
        solves(k, s0, k.init_depth as nat, s1, HyperResult::Sat),
        at_rest(k, s0, s1),
        standing(k, s1.g),
        unmerged(s1.g) || handed_over(k, s1.g),
    ensures
        drawn(k, s1.g).models(k),
        drawn(k, s1.g).within(s1.g.rep(HNode(0))),
        drawn(k, s1.g).in_class(c, s1.g.rep(HNode(0))),
        forall|d: ClassId| #[trigger]
            drawn(k, s1.g).in_class(d, s1.g.rep(HNode(0))) <==> s1.g.at(s1.g.rep(HNode(0))).has(d),
{
    lemma_seed_node(0, c);
    if !handed_over(k, s1.g) {
        lemma_sat_decided(k, s0, k.init_depth as nat, s1);
        lemma_root_tidy(k, s0.g, c);
        lemma_starry_forward(k);
        lemma_tidy_handed_over(k, s1.g);
    }
    lemma_sat_standing(k, s0, k.init_depth as nat, s1);
    assert(s0.g.at(HNode(0)).labels =~= seq![c]);
    assert(s0.g.at(HNode(0)).labels[0] == c);
    assert(s0.g.at(HNode(0)).has(c));
    assert(node_grows(s0.g.nodes[0], s1.g.nodes[0]));
    assert(s1.g.at(HNode(0)).has(c));
    assert(s1.g.root[0].at() < s1.g.root.len());
}

/// Two searches for a class, under the same clauses but with whatever else
/// switched on or bounded in either, do not contradict each other: if one
/// ends in `Sat`, in a way that [`lemma_sat_standing`] covers, the other does
/// not end in `Unsat`. In particular how precisely the dependencies of a
/// violated `≤n` are reported does not turn one verdict into the other, also
/// where nodes were merged to meet it.
pub proof fn lemma_verdicts_agree_standing(
    k: Config,
    s0: State,
    s1: State,
    l: Config,
    t0: State,
    t1: State,
    c: ClassId,
    r: HyperResult,
)
    requires
        k.wf(),
        directed(k.roles),
        forall|ci: int| 0 <= ci < k.clauses.len() ==> starry(k.double_blocking, #[trigger] k.clauses[ci]),
        s0.wf(),
        is_root_graph(s0.g, c),
        solves(k, s0, k.init_depth as nat, s1, HyperResult::Sat),
        at_rest(k, s0, s1),
        standing(k, s1.g),
        unmerged(s1.g) || handed_over(k, s1.g),
        coherent(l),
        l.clauses == k.clauses,
        l.roles == k.roles,
        l.nominals == k.nominals,
        t0.wf(),
        is_root_graph(t0.g, c),
        reliable(l),
        solves(l, t0, l.init_depth as nat, t1, r),
    ensures
        r !is Unsat,
{
    lemma_class_sat_standing(k, c, s0, s1);
    let i = drawn(k, s1.g);
    let e = s1.g.rep(HNode(0));
    assert(i.models(l));
    if r is Unsat {
        lemma_class_unsat_sound(i, l, c, t0, t1, e);
    }
}

/// Assertions that are found consistent are true in some model, in which each
/// individual is in the classes that its node, or the one that it was merged
/// into, is labelled with and in no others. This holds where
/// [`lemma_sat_standing`] does, the assertions are along named roles, and the
/// nodes of the individuals are not blocked and lack no successor that is due.
pub proof fn lemma_abox_sat_standing(k: Config, seed: AboxSeed, s0: State, s1: State)
    requires
        k.wf(),
        directed(k.roles),
        forall|ci: int| 0 <= ci < k.clauses.len() ==> starry(k.double_blocking, #[trigger] k.clauses[ci]),
        seed.wf(),
        seed.num_individuals > 0,
        forall|p: int|
            0 <= p < seed.property_assertions@.len() ==> (
            #[trigger] seed.property_assertions@[p]).1 is Named,
        s0.wf(),
        s0.g.nodes == seed.state(k).g.nodes,
        s0.g.root == seed.state(k).g.root,
        solves(k, s0, k.init_depth as nat, s1, HyperResult::Sat),
        at_rest(k, s0, s1),
        standing(k, s1.g),
        unmerged(s1.g) || handed_over(k, s1.g),
        forall|q: int|
            0 <= q < seed.num_individuals ==> !blocked(k, s1.g, #[trigger] elements(seed, s1.g)[q])
                && sated(k, s1.g, elements(seed, s1.g)[q]),
    ensures
        drawn(k, s1.g).models(k),
        seed.holds(drawn(k, s1.g), elements(seed, s1.g)),
        forall|q: u32, d: ClassId|
            q < seed.num_individuals ==> (#[trigger] drawn(k, s1.g).in_class(
                d,
                elements(seed, s1.g)[q as int],
            ) <==> s1.g.at(s1.g.rep(HNode(q))).has(d)),
{
    lemma_sat_decided(k, s0, k.init_depth as nat, s1);
    lemma_seed_started(k, seed, s0.g);
    if !handed_over(k, s1.g) {
        lemma_unmerged_before(s0.g, s1.g);
        lemma_starry_forward(k);
        lemma_tidy_handed_over(k, s1.g);
    }
    lemma_sat_standing(k, s0, k.init_depth as nat, s1);
    lemma_elements(k, seed, s0, s1);
    let i = drawn(k, s1.g);
    let h = elements(seed, s1.g);
    assert forall|p: int| 0 <= p < seed.property_assertions@.len() implies ({
        let (from, role, to) = #[trigger] seed.property_assertions@[p];
        from < h.len() && to < h.len() ==> i.role(role, h[from as int], h[to as int])
    }) by {
        let (from, role, to) = seed.property_assertions@[p];
        if from < h.len() && to < h.len() {
            let n = h[from as int];
            lemma_led_alike_self(s1.g, n);
            assert(stands_in(k, s1.g, n, n));
            assert(s1.g.at(n).edges.contains((role, h[to as int])));
            assert(reaches(k.roles, s1.g, role, n, h[to as int]));
        }
    }
}

/// Two searches on the same assertions, under the same clauses but with
/// whatever else switched on or bounded in either, do not contradict each
/// other: if one ends in `Sat`, in a way that [`lemma_abox_sat_standing`]
/// covers, the other does not end in `Unsat`.
pub proof fn lemma_abox_verdicts_agree_standing(
    k: Config,
    seed: AboxSeed,
    s0: State,
    s1: State,
    l: Config,
    t0: State,
    t1: State,
    r: HyperResult,
)
    requires
        k.wf(),
        directed(k.roles),
        forall|ci: int| 0 <= ci < k.clauses.len() ==> starry(k.double_blocking, #[trigger] k.clauses[ci]),
        seed.wf(),
        seed.num_individuals > 0,
        forall|p: int|
            0 <= p < seed.property_assertions@.len() ==> (
            #[trigger] seed.property_assertions@[p]).1 is Named,
        s0.wf(),
        s0.g.nodes == seed.state(k).g.nodes,
        s0.g.root == seed.state(k).g.root,
        solves(k, s0, k.init_depth as nat, s1, HyperResult::Sat),
        at_rest(k, s0, s1),
        standing(k, s1.g),
        unmerged(s1.g) || handed_over(k, s1.g),
        forall|q: int|
            0 <= q < seed.num_individuals ==> !blocked(k, s1.g, #[trigger] elements(seed, s1.g)[q])
                && sated(k, s1.g, elements(seed, s1.g)[q]),
        coherent(l),
        l.clauses == k.clauses,
        l.roles == k.roles,
        l.nominals == k.nominals,
        t0.wf(),
        t0.g.nodes == seed.state(l).g.nodes,
        t0.g.root == seed.state(l).g.root,
        t0.g.neq == seed.state(l).g.neq,
        reliable(l),
        solves(l, t0, l.init_depth as nat, t1, r),
    ensures
        r !is Unsat,
{
    lemma_abox_sat_standing(k, seed, s0, s1);
    let i = drawn(k, s1.g);
    assert(i.models(l));
    if r is Unsat {
        lemma_abox_unsat_sound(i, l, seed, t0, t1, elements(seed, s1.g));
    }
}

} // verus!
