//! A completion in which nothing was put off, and what was merged away handed
//! over what it had, is a model of the clauses.

use vstd::prelude::*;
use crate::clause::{role_sat, Atom, ClauseView, HierarchyView, Var, X};
use crate::completion::{
    attended, closable, decided, disjunctions_hold, lemma_closable_attended, lemma_sat_decided,
    matched, unblocked,
};
use crate::dep_set::DepSet;
use crate::graph::{
    grows, lemma_grows_trans, node_grows, Config, Graph, HyperResult, SearchStats, State,
};
use crate::horn_closure::{
    at_least_seen, due, head_done, horn_closed, individual, proper, quiet, sole, stands_for,
    supported,
};
use crate::ids::{ClassId, HNode, Role, RoleId};
use crate::invariants::lemma_merged_neq;
use crate::listening::{lemma_listening_closed, listening, symmetric};
use crate::match_laws::{
    atom_holds, body_holds, bound_before, lemma_matches_complete, lemma_order_of, lemma_scan,
    lemma_sort_binding, lemma_var_node, scanned_only,
};
use crate::matching::{
    binding_valid, distinct_vars, matches_of, plan_of, role_target, sort_binding, var_node,
    RoleAtom,
};
use crate::node::Card;
use crate::queries::{
    block_check, head_holds, nominal, qualifies, role_succ, some_head_holds, successors, witnessed,
};
use crate::refutation::coherent;
use crate::rules::{edge_in, merged, stored_edge};
use crate::rules_wf::{lemma_edge_in, lemma_merged, lemma_push_contains};
use crate::search::solves;
use crate::seed::{asserted, lemma_seed_nodes, same_merged, AboxSeed};
use crate::semantics::Interp;
use crate::setup::{bare_graph, fresh_state, lemma_seed_node, seed_node};
use crate::unfolding::{
    along_named, coarser, forward_atom, forward_only, lemma_coarser_trans, lemma_merged_coarser,
    lemma_merged_in_order, lemma_unmerged_before, mirrored, served, supplied, supply, tidy,
    unmerged,
};
use crate::union_find::discrete;
use crate::verdicts::{
    is_root_graph, lemma_abox_unsat_sound, lemma_class_unsat_sound, lemma_seed_mirrored, reliable,
};

verus! {

/// A role atom of the body leads to the variable.
pub open spec fn led_to(body: Seq<Atom>, w: Var) -> bool {
    exists|q: int|
        0 <= q < body.len() && (#[trigger] body[q] matches Atom::Role(r, u, t) && t == w)
}

/// Role `p` is role `r` or below it.
pub open spec fn below(h: Option<HierarchyView>, p: RoleId, r: RoleId) -> bool {
    role_sat(Role::Named(p), Role::Named(r), h)
}

/// An edge along the role, or along one below it, leads one way only: none of
/// these is symmetric.
pub open spec fn one_way(h: Option<HierarchyView>, r: RoleId) -> bool {
    forall|p: RoleId| #[trigger] below(h, p, r) ==> !symmetric(h, Role::Named(p))
}

/// Where a symmetric role is the role or below it, there is no other role but
/// the role itself. An edge is walked backwards for its own role only.
pub open spec fn plain(h: Option<HierarchyView>, r: RoleId) -> bool {
    forall|e: RoleId, p: RoleId| #[trigger]
        below(h, e, p) && symmetric(h, Role::Named(p)) && #[trigger] below(h, p, r) ==> e == r
}

/// The head atom of a Horn clause is enforced: it is about variables of the
/// body, restricts named roles, allows only so many successors along roles
/// that are not symmetric, and is no equality.
pub open spec fn enforced(h: Option<HierarchyView>, body: Seq<Atom>, at: Atom) -> bool {
    match at {
        Atom::Class(c, w) => w == X || led_to(body, w),
        Atom::Exists(r, c, w) => r is Named && (w == X || led_to(body, w)),
        Atom::AtMost(r, q, n, w) => r is Named && one_way(h, r.id()) && (w == X || led_to(body, w)),
        Atom::AtLeast(r, q, n, w) => r is Named && (w == X || led_to(body, w)),
        Atom::Role(r, u, w) => (u == X || led_to(body, u)) && (w == X || led_to(body, w)),
        Atom::Equal(u, w) => false,
    }
}

/// The head atom of a clause with several can be decided on: it restricts
/// named roles, and allows only so many successors along roles that are not
/// symmetric.
pub open spec fn decidable(h: Option<HierarchyView>, at: Atom) -> bool {
    match at {
        Atom::Exists(r, c, w) => r is Named,
        Atom::AtMost(r, q, n, w) => r is Named && one_way(h, r.id()),
        _ => true,
    }
}

/// The roles of the body are plain.
pub open spec fn plain_body(h: Option<HierarchyView>, body: Seq<Atom>) -> bool {
    forall|q: int|
        0 <= q < body.len() ==> (#[trigger] body[q] matches Atom::Role(r, u, w) ==> plain(
            h,
            r.id(),
        ))
}

/// The clause has a form for which matching misses nothing and heads are
/// enforced.
pub open spec fn fits(h: Option<HierarchyView>, cl: ClauseView) -> bool {
    &&& supported(cl.body)
    &&& plain_body(h, cl.body)
    &&& if cl.horn() {
        cl.head.len() > 0 ==> enforced(h, cl.body, cl.head[0])
    } else {
        forall|j: int| 0 <= j < cl.head.len() ==> decidable(h, #[trigger] cl.head[j])
    }
}

/// The hierarchy is closed.
pub open spec fn ordered(h: Option<HierarchyView>) -> bool {
    h matches Some(h) ==> forall|r: RoleId, s: RoleId, t: RoleId| #[trigger]
        h.sub(r, s) && #[trigger] h.sub(s, t) ==> h.sub(r, t)
}

/// The hierarchy is closed, and no role is symmetric.
pub open spec fn directed(h: Option<HierarchyView>) -> bool {
    ordered(h) && (h matches Some(h) ==> forall|r: RoleId| !#[trigger] h.sym(r))
}

/// Completions under these clauses can be models: the hierarchy is closed, and
/// the clauses have forms for which matching misses nothing and heads are
/// enforced.
pub open spec fn modelable(k: Config) -> bool {
    &&& ordered(k.roles)
    &&& forall|ci: int| 0 <= ci < k.clauses.len() ==> fits(k.roles, #[trigger] k.clauses[ci])
}

/// An edge along the role, or along one below it, leads from `a` to `b`.
pub open spec fn reaches(h: Option<HierarchyView>, g: Graph, r: Role, a: HNode, b: HNode) -> bool {
    exists|e: Role| #[trigger] g.at(a).edges.contains((e, b)) && role_sat(e, r, h)
}

/// The edge along `e` leads back from `b` to `a`, by the symmetric role `p`.
pub open spec fn led_back(
    h: Option<HierarchyView>,
    g: Graph,
    r: RoleId,
    a: HNode,
    b: HNode,
    e: RoleId,
    p: RoleId,
) -> bool {
    &&& g.at(b).edges.contains((Role::Named(e), a))
    &&& below(h, e, p) && symmetric(h, Role::Named(p)) && below(h, p, r)
}

/// An edge along a symmetric role that is the role or below it, or along one
/// below that, leads from `b` to `a`.
pub open spec fn backs(h: Option<HierarchyView>, g: Graph, r: RoleId, a: HNode, b: HNode) -> bool {
    exists|e: RoleId, p: RoleId| led_back(h, g, r, a, b, e, p)
}

/// What was merged away handed over what it had: an edge that leads to it is
/// doubled by one to the node that it was merged into, and that node has its
/// labels. What was made to hold of `≥n` still holds.
pub open spec fn handed_over(k: Config, g: Graph) -> bool {
    &&& forall|a: HNode, r: Role, t: HNode|
        g.valid(a) && g.rep(a) == a && #[trigger] g.at(a).edges.contains((r, t)) ==> g.at(
            a,
        ).edges.contains((r, g.rep(t)))
    &&& forall|t: HNode, c: ClassId|
        g.valid(t) && #[trigger] g.at(t).has(c) ==> g.at(g.rep(t)).has(c)
    &&& forall|n: HNode, c: Card|
        g.valid(n) && g.rep(n) == n && #[trigger] g.at(n).at_least_done.contains(c) ==> supplied(
            k,
            g,
            n,
            c,
        )
}

/// Where no nodes were merged, there was nothing to hand over.
pub proof fn lemma_tidy_handed_over(k: Config, g: Graph)
    requires
        g.wf(),
        tidy(k, g),
    ensures
        handed_over(k, g),
{
    assert forall|t: HNode| #[trigger] g.valid(t) implies g.rep(t) == t by {
        assert(g.root[t.at()].at() == t.at());
    }
    assert forall|a: HNode, r: Role, t: HNode|
        g.valid(a) && g.rep(a) == a && #[trigger] g.at(a).edges.contains((r, t)) implies g.at(
        a,
    ).edges.contains((r, g.rep(t))) by {
        assert(g.node_wf(g.nodes[a.at()], a.at()));
        let j = g.at(a).edges.index_of((r, t));
        assert(g.valid(g.at(a).edges[j].1));
    }
}

/// The graph as an interpretation: its elements are the nodes that were not
/// merged away, with their labels and edges. An edge along a symmetric role
/// leads both ways.
pub open spec fn picture(h: Option<HierarchyView>, g: Graph) -> Interp<HNode> {
    Interp {
        domain: |n: HNode| g.valid(n) && g.rep(n) == n,
        class: |c: ClassId, n: HNode| g.at(n).has(c),
        pairs: |r: RoleId, a: HNode, b: HNode|
            reaches(h, g, Role::Named(r), a, b) || backs(h, g, r, a, b),
    }
}

/// What is below a role that is below another is below that.
proof fn lemma_below(h: Option<HierarchyView>, e: RoleId, r: RoleId, s: RoleId)
    requires
        ordered(h),
        below(h, e, r),
        below(h, r, s),
    ensures
        below(h, e, s),
{
}

/// The picture keeps to the hierarchy.
proof fn lemma_respects(h: Option<HierarchyView>, g: Graph)
    requires
        ordered(h),
        along_named(g),
    ensures
        picture(h, g).respects(h),
{
    let i = picture(h, g);
    if let Some(hv) = h {
        assert forall|r: RoleId, s: RoleId, a: HNode, b: HNode|
            i.within(a) && i.within(b) && hv.sub(r, s) && #[trigger] (i.pairs)(
                r,
                a,
                b,
            ) implies #[trigger] (i.pairs)(s, a, b) by {
            assert(below(h, r, s));
            if reaches(h, g, Role::Named(r), a, b) {
                let e = choose|e: Role| #[trigger]
                    g.at(a).edges.contains((e, b)) && role_sat(e, Role::Named(r), h);
                assert(e is Named);
                lemma_below(h, e.id(), r, s);
                assert(role_sat(e, Role::Named(s), h));
                assert(reaches(h, g, Role::Named(s), a, b));
            } else {
                let (e, p) = choose|e: RoleId, p: RoleId| led_back(h, g, r, a, b, e, p);
                lemma_below(h, p, r, s);
                assert(led_back(h, g, s, a, b, e, p));
            }
        }
        assert forall|r: RoleId, a: HNode, b: HNode|
            i.within(a) && i.within(b) && hv.sym(r) && #[trigger] (i.pairs)(
                r,
                a,
                b,
            ) implies (i.pairs)(r, b, a) by {
            assert(symmetric(h, Role::Named(r)));
            assert(below(h, r, r));
            if reaches(h, g, Role::Named(r), a, b) {
                let e = choose|e: Role| #[trigger]
                    g.at(a).edges.contains((e, b)) && role_sat(e, Role::Named(r), h);
                assert(e is Named);
                assert(e == Role::Named(e.id()));
                assert(led_back(h, g, r, b, a, e.id(), r));
            } else {
                let (e, p) = choose|e: RoleId, p: RoleId| led_back(h, g, r, a, b, e, p);
                lemma_below(h, e, p, r);
                assert(reaches(h, g, Role::Named(r), b, a));
            }
        }
    }
}

/// The nodes that `v` gives to the variables.
spec fn entries(roles: Seq<RoleAtom>, order: Seq<usize>, v: spec_fn(Var) -> HNode) -> Seq<
    (Var, HNode),
> {
    Seq::new(order.len(), |j: int| (roles[order[j] as int].2, v(roles[order[j] as int].2)))
}

/// `b` binds exactly the variables that role atoms lead to, each to the node
/// that `v` gives it.
pub open spec fn binds(g: Graph, body: Seq<Atom>, v: spec_fn(Var) -> HNode, b: Seq<(Var, HNode)>) -> bool {
    &&& proper(body, b)
    &&& binding_valid(b, g.nodes.len() as int)
    &&& forall|w: Var| #[trigger]
        led_to(body, w) ==> w != X && var_node(w, v(X), b) == Some(v(w))
    &&& forall|w: Var| w != X && #[trigger] var_node(w, v(X), b) is Some ==> led_to(body, w)
}

/// The atoms of the body are about classes and roles. They are on the central
/// variable or on one that a role atom leads to, and role atoms lead from
/// there.
pub open spec fn rooted(body: Seq<Atom>) -> bool {
    forall|q: int|
        0 <= q < body.len() ==> match #[trigger] body[q] {
            Atom::Class(c, w) => w == X || led_to(body, w),
            Atom::Role(r, u, w) => u == X || led_to(body, u),
            _ => false,
        }
}

/// A role atom that a scan kept is one of the body.
proof fn lemma_kept_leads(
    body: Seq<Atom>,
    roles: Seq<RoleAtom>,
    classes: Seq<(ClassId, Var)>,
    i: int,
)
    requires
        scanned_only(body, body.len() as int, roles, classes),
        0 <= i < roles.len(),
    ensures
        led_to(body, roles[i].2),
{
    let q = choose|q: int|
        0 <= q < body.len() && #[trigger] body[q] == Atom::Role(
            roles[i].0,
            roles[i].1,
            roles[i].2,
        );
    assert(body[q] is Role);
}

/// A valuation under which a body is true gives a binding.
pub proof fn lemma_binding(
    h: Option<HierarchyView>,
    g: Graph,
    body: Seq<Atom>,
    v: spec_fn(Var) -> HNode,
) -> (b: Seq<(Var, HNode)>)
    requires
        body.len() <= usize::MAX,
        supported(body),
        picture(h, g).valuation(v),
        picture(h, g).all(body, v),
    ensures
        binds(g, body, v, b),
        rooted(body),
{
    let x = v(X);
    lemma_scan(body, 0, Seq::empty(), Seq::empty());
    let p = plan_of(body)->0;
    let roles = p.roles;
    let classes = p.classes;
    let order = p.order;
    lemma_order_of(roles);
    let b0 = entries(roles, order, v);
    let b = sort_binding(b0);
    assert(distinct_vars(b0)) by {
        assert forall|i: int, j: int| 0 <= i < j < b0.len() implies b0[i].0 != b0[j].0 by {
            assert(!bound_before(roles, order, j, roles[order[j] as int].2));
            assert(roles[order[i] as int].2 == b0[i].0);
        }
        assert forall|j: int| 0 <= j < b0.len() implies (#[trigger] b0[j]).0 != X by {
            assert(!bound_before(roles, order, j, roles[order[j] as int].2));
        }
    }
    lemma_sort_binding(b0);
    assert forall|m: int| 0 <= m < b.len() implies (#[trigger] b[m]).1.at() < g.nodes.len()
        && led_to(body, b[m].0) by {
        assert(b.contains(b[m]));
        let j = choose|j: int| 0 <= j < b0.len() && b0[j] == b[m];
        assert(picture(h, g).within(v(b0[j].0)));
        lemma_kept_leads(body, roles, classes, order[j] as int);
    }
    assert(proper(body, b)) by {
        assert forall|m: int| 0 <= m < b.len() implies exists|q: int|
            0 <= q < body.len() && (#[trigger] body[q] matches Atom::Role(r, u, t) && t == (
            #[trigger] b[m]).0) by {
            assert(led_to(body, b[m].0));
        }
    }
    assert forall|w: Var| #[trigger] led_to(body, w) implies w != X && var_node(w, x, b)
        == Some(v(w)) by {
        let q = choose|q: int|
            0 <= q < body.len() && (#[trigger] body[q] matches Atom::Role(r, u, t) && t
                == w);
        if let Atom::Role(r, u, t) = body[q] {
            assert(roles.contains((r, u, t)));
            let i = choose|i: int| 0 <= i < roles.len() && roles[i] == (r, u, t);
            assert(order.contains(i as usize));
            let j = choose|j: int| 0 <= j < order.len() && order[j] == i as usize;
            assert(!bound_before(roles, order, j, roles[order[j] as int].2));
            assert(b0[j] == (w, v(w)));
            assert(b0.contains((w, v(w))));
            assert(b.contains((w, v(w))));
            lemma_var_node(b, x, w, v(w));
        }
    }
    assert forall|w: Var| w != X && #[trigger] var_node(w, x, b) is Some implies led_to(
        body,
        w,
    ) by {
        let n = var_node(w, x, b)->0;
        lemma_var_node(b, x, w, n);
        let m = choose|m: int| 0 <= m < b.len() && b[m] == (w, n);
        assert(led_to(body, b[m].0));
    }
    assert forall|q: int| 0 <= q < body.len() implies match #[trigger] body[q] {
        Atom::Class(c, w) => w == X || led_to(body, w),
        Atom::Role(r, u, w) => u == X || led_to(body, u),
        _ => false,
    } by {
        if let Atom::Class(c, w) = body[q] {
            if w != X {
                assert(classes.contains((c, w)));
                let i = choose|i: int| 0 <= i < classes.len() && classes[i] == (c, w);
                assert(role_target(roles, classes[i].1));
                let j = choose|j: int| 0 <= j < roles.len() && (#[trigger] roles[j]).2 == w;
                lemma_kept_leads(body, roles, classes, j);
            }
        }
        if let Atom::Role(r, u, w) = body[q] {
            assert(roles.contains((r, u, w)));
            let i = choose|i: int| 0 <= i < roles.len() && roles[i] == (r, u, w);
            assert(order.contains(i as usize));
            let j = choose|j: int| 0 <= j < order.len() && order[j] == i as usize;
            assert(bound_before(roles, order, j, u));
            if u != X {
                let p = choose|p: int|
                    0 <= p < j && roles[#[trigger] order[p] as int].2 == u;
                lemma_kept_leads(body, roles, classes, order[p] as int);
            }
        }
    }
    b
}

/// The body asks for named roles only.
pub open spec fn outward(body: Seq<Atom>) -> bool {
    forall|q: int|
        0 <= q < body.len() ==> (#[trigger] body[q] matches Atom::Role(r, u, w) ==> r is Named)
}

/// Where a valuation makes the body true, it holds in the graph.
pub proof fn lemma_body_pictured(
    k: Config,
    g: Graph,
    body: Seq<Atom>,
    v: spec_fn(Var) -> HNode,
    b: Seq<(Var, HNode)>,
)
    requires
        (mirrored(g) && along_named(g) && plain_body(k.roles, body)) || (outward(body) && directed(
            k.roles,
        )),
        picture(k.roles, g).valuation(v),
        picture(k.roles, g).all(body, v),
        binds(g, body, v, b),
        rooted(body),
    ensures
        body_holds(g.nodes, k.roles, body, v(X), b),
{
    assert forall|q: int| 0 <= q < body.len() implies atom_holds(
        g.nodes,
        k.roles,
        #[trigger] body[q],
        v(X),
        b,
    ) by {
        assert(picture(k.roles, g).atom(body[q], v));
        match body[q] {
            Atom::Class(c, w) => {},
            Atom::Role(r, u, w) => {
                assert(led_to(body, w));
                let a = v(u);
                let m = v(w);
                assert(picture(k.roles, g).within(a) && picture(k.roles, g).within(m));
                match r {
                    Role::Named(p) => {
                        if reaches(k.roles, g, r, a, m) {
                            let e = choose|e: Role| #[trigger]
                                g.at(a).edges.contains((e, m)) && role_sat(e, r, k.roles);
                            assert(g.nodes[a.at()].edges.contains((e, m)));
                        } else {
                            let (e, s) = choose|e: RoleId, s: RoleId|
                                led_back(k.roles, g, p, a, m, e, s);
                            assert(symmetric(k.roles, Role::Named(s)));
                            assert(below(k.roles, s, s));
                            assert(e == p && s == p);
                            assert(g.nodes[a.at()].preds.contains((Role::Named(e), m)));
                            assert(role_sat(Role::Named(e).flipped(), r, k.roles));
                        }
                    },
                    Role::Inverse(p) => {
                        if reaches(k.roles, g, Role::Named(p), m, a) {
                            let e = choose|e: Role| #[trigger]
                                g.at(m).edges.contains((e, a)) && role_sat(
                                    e,
                                    Role::Named(p),
                                    k.roles,
                                );
                            assert(e is Named);
                            assert(g.nodes[a.at()].preds.contains((e, m)));
                            assert(role_sat(e.flipped(), r, k.roles));
                        } else {
                            let (e, s) = choose|e: RoleId, s: RoleId|
                                led_back(k.roles, g, p, m, a, e, s);
                            assert(symmetric(k.roles, Role::Named(s)));
                            assert(below(k.roles, s, s));
                            assert(e == p && s == p);
                            assert(g.nodes[a.at()].edges.contains((Role::Named(e), m)));
                            assert(role_sat(Role::Named(e), r, k.roles));
                        }
                    },
                }
            },
            _ => {},
        }
    }
}

proof fn lemma_witness_pictured(k: Config, g: Graph, t: HNode, role: Role, c: ClassId)
    requires
        g.wf(),
        handed_over(k, g),
        role is Named,
        g.valid(t),
        g.rep(t) == t,
        witnessed(k, g, t, role, c),
    ensures
        picture(k.roles, g).some(role, c, t),
{
    let i = choose|i: int|
        0 <= i < g.at(t).edges.len() && role_sat((#[trigger] g.at(t).edges[i]).0, role, k.roles)
            && g.at(g.at(t).edges[i].1).has(c);
    let (e, m) = g.at(t).edges[i];
    assert(g.node_wf(g.nodes[t.at()], t.at()));
    assert(g.at(t).edges.contains((e, m)));
    assert(g.at(t).edges.contains((e, g.rep(m))));
    assert(g.root[m.at()].at() < g.root.len());
    assert(reaches(k.roles, g, role, t, g.rep(m)));
    assert(picture(k.roles, g).within(g.rep(m)));
    assert(picture(k.roles, g).role(role, t, g.rep(m)));
}

/// A node that an edge leads to is among the successors.
pub proof fn lemma_role_succ_has(
    h: Option<HierarchyView>,
    g: Graph,
    edges: Seq<(Role, HNode)>,
    e: Role,
    role: Role,
    qual: Option<ClassId>,
    t: HNode,
)
    requires
        edges.contains((e, t)),
        role_sat(e, role, h),
        qualifies(g.at(g.rep(t)), qual),
    ensures
        role_succ(g, h, edges, role, qual).contains(g.rep(t)),
    decreases edges.len(),
{
    let p = choose|p: int| 0 <= p < edges.len() && edges[p] == (e, t);
    let rest = edges.drop_last();
    let seen = role_succ(g, h, rest, role, qual);
    if p < rest.len() {
        assert(rest[p] == (e, t));
        lemma_role_succ_has(h, g, rest, e, role, qual, t);
        let q = choose|q: int| 0 <= q < seen.len() && seen[q] == g.rep(t);
        assert(role_succ(g, h, edges, role, qual)[q] == g.rep(t));
    } else {
        assert(edges.last() == (e, t));
        if !seen.contains(g.rep(t)) {
            assert(role_succ(g, h, edges, role, qual)[seen.len() as int] == g.rep(t));
        }
    }
}

/// No more nodes count than there are successors.
proof fn lemma_at_most_pictured(
    k: Config,
    g: Graph,
    t: HNode,
    role: Role,
    qual: Option<ClassId>,
    n: u32,
)
    requires
        g.wf(),
        role is Named,
        one_way(k.roles, role.id()),
        g.valid(t),
        successors(k, g, t, role, qual).len() <= n,
    ensures
        picture(k.roles, g).at_most(role, qual, n, t),
{
    let ss = successors(k, g, t, role, qual);
    assert forall|s: Seq<HNode>| #[trigger] picture(k.roles, g).counted(role, qual, t, s) implies s.len()
        <= n by {
        assert forall|m: HNode| #[trigger] s.to_set().contains(m) implies ss.to_set().contains(m) by {
            let i = choose|i: int| 0 <= i < s.len() && s[i] == m;
            assert(picture(k.roles, g).counts(role, qual, t, s[i]));
            assert(picture(k.roles, g).within(m));
            assert forall|e: RoleId, p: RoleId| !led_back(k.roles, g, role.id(), t, m, e, p) by {
                if led_back(k.roles, g, role.id(), t, m, e, p) {
                    assert(below(k.roles, p, role.id()));
                }
            }
            assert(reaches(k.roles, g, role, t, m));
            let e = choose|e: Role| #[trigger]
                g.at(t).edges.contains((e, m)) && role_sat(e, role, k.roles);
            lemma_role_succ_has(k.roles, g, g.at(t).edges, e, role, qual, m);
        }
        s.unique_seq_to_set();
        ss.lemma_cardinality_of_set();
        vstd::set_lib::lemma_len_subset(s.to_set(), ss.to_set());
    }
}

/// The successors that were made to be there count.
proof fn lemma_at_least_pictured(k: Config, g: Graph, t: HNode, c: Card)
    requires
        g.wf(),
        handed_over(k, g),
        g.valid(t),
        g.rep(t) == t,
        c.0 is Named,
        supplied(k, g, t, c),
    ensures
        picture(k.roles, g).at_least(c.0, c.1, c.2, t),
{
    let ts = choose|ts: Seq<HNode>| #[trigger] supply(k, g, t, c, ts);
    let us = ts.map_values(|m: HNode| g.rep(m));
    assert forall|i: int| 0 <= i < us.len() implies picture(k.roles, g).counts(c.0, c.1, t, #[trigger] us[i]) by {
        let m = ts[i];
        assert(served(k, g, t, c.0, c.1, m));
        let e = choose|e: Role| #[trigger]
            g.at(t).edges.contains((e, m)) && role_sat(e, c.0, k.roles);
        assert(g.at(t).edges.contains((e, g.rep(m))));
        assert(g.root[m.at()].at() < g.root.len());
        assert(reaches(k.roles, g, c.0, t, g.rep(m)));
    }
    assert forall|i: int, j: int| 0 <= i < us.len() && 0 <= j < us.len() && i != j implies us[i]
        != us[j] by {
        if i < j {
            assert(g.rep(ts[i]) != g.rep(ts[j]));
        } else {
            assert(g.rep(ts[j]) != g.rep(ts[i]));
        }
    }
    assert(picture(k.roles, g).counted(c.0, c.1, t, us));
}

/// The graph is finished: nothing is open or put off, and what was merged away
/// handed over what it had.
pub open spec fn finished(k: Config, g: Graph) -> bool {
    &&& g.wf()
    &&& mirrored(g)
    &&& along_named(g)
    &&& handed_over(k, g)
    &&& decided(k, g)
    &&& unblocked(k, g)
    &&& sole(k, g)
    &&& horn_closed(k, g, true)
}

/// A head atom of a disjunction that holds in the graph is true.
proof fn lemma_choice_pictured(
    k: Config,
    g: Graph,
    cl: ClauseView,
    v: spec_fn(Var) -> HNode,
    b: Seq<(Var, HNode)>,
    j: int,
)
    requires
        finished(k, g),
        picture(k.roles, g).valuation(v),
        binds(g, cl.body, v, b),
        0 <= j < cl.head.len(),
        decidable(k.roles, cl.head[j]),
        head_holds(k, g, cl.head[j], v(X), b),
    ensures
        picture(k.roles, g).any(cl.head, v),
{
    match cl.head[j] {
        Atom::Class(c, w) => {
            assert(w == X || led_to(cl.body, w));
        },
        Atom::Exists(r, c, w) => {
            assert(w == X || led_to(cl.body, w));
            assert(picture(k.roles, g).within(v(w)));
            lemma_witness_pictured(k, g, v(w), r, c);
        },
        Atom::AtMost(r, q, n, w) => {
            assert(w == X || led_to(cl.body, w));
            let t = v(w);
            assert(picture(k.roles, g).within(t));
            lemma_at_most_pictured(k, g, t, r, q, n);
        },
        _ => {},
    }
    assert(picture(k.roles, g).atom(cl.head[j], v));
}

/// A clause with several head atoms is true in a finished graph.
proof fn lemma_disjunction_pictured(k: Config, g: Graph, ci: int, v: spec_fn(Var) -> HNode)
    requires
        k.wf(),
        modelable(k),
        finished(k, g),
        0 <= ci < k.clauses.len(),
        !k.clauses[ci].horn(),
        picture(k.roles, g).valuation(v),
        picture(k.roles, g).all(k.clauses[ci].body, v),
    ensures
        picture(k.roles, g).any(k.clauses[ci].head, v),
{
    let cl = k.clauses[ci];
    let x = v(X);
    assert(picture(k.roles, g).within(x));
    assert(fits(k.roles, cl));
    let b = lemma_binding(k.roles, g, cl.body, v);
    lemma_body_pictured(k, g, cl.body, v, b);
    assert(matches_of(g.nodes, k.roles, cl.body, x) is Some);
    lemma_matches_complete(g.nodes, k.roles, cl.body, x, b);
    assert(matched(k, g, ci, x, b));
    assert(!block_check(k, g, x, SearchStats::zero()).1);
    assert(disjunctions_hold(k, g, x));
    assert(some_head_holds(k, g, cl.head, x, b));
    let j = choose|j: int| 0 <= j < cl.head.len() && head_holds(k, g, #[trigger] cl.head[j], x, b);
    lemma_choice_pictured(k, g, cl, v, b, j);
}

/// A Horn clause is true in a finished graph.
proof fn lemma_horn_pictured(k: Config, g: Graph, ci: int, v: spec_fn(Var) -> HNode)
    requires
        k.wf(),
        modelable(k),
        finished(k, g),
        0 <= ci < k.clauses.len(),
        k.clauses[ci].horn(),
        picture(k.roles, g).valuation(v),
        picture(k.roles, g).all(k.clauses[ci].body, v),
    ensures
        picture(k.roles, g).any(k.clauses[ci].head, v),
{
    let cl = k.clauses[ci];
    assert(fits(k.roles, cl));
    let b = lemma_binding(k.roles, g, cl.body, v);
    assert forall|w: Var| g.valid(#[trigger] v(w)) && g.rep(v(w)) == v(w) by {
        assert(picture(k.roles, g).within(v(w)));
    }
    lemma_body_pictured(k, g, cl.body, v, b);
    assert forall|m: int| 0 <= m < b.len() implies g.rep((#[trigger] b[m]).1) == b[m].1 by {
        lemma_var_node(b, v(X), b[m].0, b[m].1);
        assert(b.contains(b[m]));
        assert(led_to(cl.body, b[m].0));
        assert(var_node(b[m].0, v(X), b) == Some(v(b[m].0)));
    }
    assert(due(k, g, ci, v(X), b));
    assert(head_done(k, g, cl.head, v(X), b, true));
    assert(enforced(k.roles, cl.body, cl.head[0]));
    match cl.head[0] {
        Atom::Class(c, w) => {},
        Atom::Exists(r, c, w) => {
            lemma_witness_pictured(k, g, v(w), r, c);
        },
        Atom::AtMost(r, q, n, w) => {
            lemma_at_most_pictured(k, g, v(w), r, q, n);
        },
        Atom::AtLeast(r, q, n, w) => {
            assert(at_least_seen(k, g, v(w), (r, q, n)));
            if n == 0 {
                assert(picture(k.roles, g).counted(r, q, v(w), Seq::empty()));
            } else {
                lemma_at_least_pictured(k, g, v(w), (r, q, n));
            }
        },
        Atom::Role(r, u, w) => {
            assert(stored_edge(g, r, v(u), v(w)) == if r is Inverse {
                (v(w), r.flipped(), v(u))
            } else {
                (v(u), r, v(w))
            });
        },
        Atom::Equal(u, w) => {},
    }
    assert(picture(k.roles, g).atom(cl.head[0], v));
}

/// A finished graph is a model.
pub proof fn lemma_finished_models(k: Config, g: Graph)
    requires
        k.wf(),
        modelable(k),
        finished(k, g),
    ensures
        picture(k.roles, g).models(k),
{
    let i = picture(k.roles, g);
    lemma_respects(k.roles, g);
    assert forall|ci: int| 0 <= ci < k.clauses.len() implies i.clause(#[trigger] k.clauses[ci]) by {
        assert forall|v: spec_fn(Var) -> HNode|
            i.valuation(v) && #[trigger] i.all(k.clauses[ci].body, v) implies i.any(
            k.clauses[ci].head,
            v,
        ) by {
            if k.clauses[ci].horn() {
                lemma_horn_pictured(k, g, ci, v);
            } else {
                lemma_disjunction_pictured(k, g, ci, v);
            }
        }
    }
    assert forall|c: ClassId, a: HNode, b: HNode|
        i.within(a) && i.within(b) && nominal(k, c) && #[trigger] i.in_class(c, a)
            && #[trigger] i.in_class(c, b) implies a == b by {
        assert(stands_for(k, g, a, c) && stands_for(k, g, b, c));
    }
}

/// No head leads along an inverse role.
proof fn lemma_modelable_forward(k: Config)
    requires
        modelable(k),
    ensures
        forward_only(k),
{
    assert forall|ci: int, j: int|
        0 <= ci < k.clauses.len() && 0 <= j < k.clauses[ci].head.len() implies forward_atom(
        #[trigger] k.clauses[ci].head[j],
    ) by {
        let cl = k.clauses[ci];
        assert(fits(k.roles, cl));
        if cl.horn() {
            assert(j == 0);
        } else {
            assert(decidable(k.roles, cl.head[j]));
        }
    }
}

/// `Sat` is right: where no node was found to be blocked, the completion is a
/// model of the clauses and the nominals. Its elements are the nodes that were
/// not merged away, in the classes that they are labelled with and no others.
/// Labels and edges that were there at the start are there still.
///
/// The clauses have bodies that matching supports and heads that are
/// enforced, and no more is asked of a symmetric role than the search sees to:
/// there is no `≤n` along it, and it is asked for by its own name. All Horn
/// clauses are attentive, and no nodes were merged for a nominal or none of
/// the clauses asks for `≥n`, or else no Horn clause is left that could fire.
/// Where nodes were merged, an edge that leads to one that was merged away is
/// doubled by one to where it was merged, which is so if the two were
/// successors of one node along the same role and the one had no other
/// predecessor. Where a node was found to be blocked, see `standins`.
pub proof fn lemma_sat_model(k: Config, s0: State, depth: nat, s1: State)
    requires
        k.wf(),
        s0.wf(),
        depth <= k.init_depth,
        modelable(k),
        attended(k, s0.g),
        mirrored(s0.g),
        along_named(s0.g),
        solves(k, s0, depth, s1, HyperResult::Sat),
        quiet(s0, s1),
        k.lazy is None || sole(k, s1.g),
        (tidy(k, s0.g) && unmerged(s1.g)) || handed_over(k, s1.g),
        (listening(k) && individual(k, s1.g)) || horn_closed(k, s1.g, true),
    ensures
        picture(k.roles, s1.g).models(k),
        s1.wf(),
        grows(s0.g, s1.g),
{
    lemma_modelable_forward(k);
    lemma_sat_decided(k, s0, depth, s1);
    if !handed_over(k, s1.g) {
        lemma_tidy_handed_over(k, s1.g);
    }
    if !horn_closed(k, s1.g, true) {
        lemma_listening_closed(k, s1.g, true);
    }
    lemma_finished_models(k, s1.g);
}

/// The graph that a search for a class begins with is tidy.
pub proof fn lemma_root_tidy(k: Config, g: Graph, c: ClassId)
    requires
        g.wf(),
        is_root_graph(g, c),
    ensures
        tidy(k, g),
{
    lemma_seed_node(0, c);
    assert forall|a: HNode, r: Role, t: HNode|
        g.valid(a) && #[trigger] g.at(a).edges.contains((r, t)) implies false by {
        assert(g.at(a) == seed_node(0, c));
    }
    assert forall|n: HNode, q: Card|
        g.valid(n) && #[trigger] g.at(n).at_least_done.contains(q) implies false by {
        assert(g.at(n) == seed_node(0, c));
    }
}

/// A class that is found satisfiable is not empty in some model, and no class
/// that is missing at the root is above it: the node that the root was merged
/// into, which is the root itself if it was not merged, is an element that is
/// in the class and in none of those. This holds where [`lemma_sat_model`]
/// does.
pub proof fn lemma_class_sat_sound(k: Config, c: ClassId, s0: State, s1: State)
    requires
        k.wf(),
        modelable(k),
        closable(k),
        s0.wf(),
        is_root_graph(s0.g, c),
        solves(k, s0, k.init_depth as nat, s1, HyperResult::Sat),
        quiet(s0, s1),
        unmerged(s1.g) || handed_over(k, s1.g),
        (listening(k) && individual(k, s1.g)) || horn_closed(k, s1.g, true),
    ensures
        picture(k.roles, s1.g).models(k),
        picture(k.roles, s1.g).within(s1.g.rep(HNode(0))),
        picture(k.roles, s1.g).in_class(c, s1.g.rep(HNode(0))),
        forall|d: ClassId| #[trigger]
            picture(k.roles, s1.g).in_class(d, s1.g.rep(HNode(0))) <==> s1.g.at(
                s1.g.rep(HNode(0)),
            ).has(d),
{
    lemma_seed_node(0, c);
    lemma_root_tidy(k, s0.g, c);
    lemma_closable_attended(k, s0.g);
    lemma_sat_model(k, s0, k.init_depth as nat, s1);
    assert(s0.g.at(HNode(0)).labels =~= seq![c]);
    assert(s0.g.at(HNode(0)).labels[0] == c);
    assert(s0.g.at(HNode(0)).has(c));
    assert(node_grows(s0.g.nodes[0], s1.g.nodes[0]));
    assert(s1.g.at(HNode(0)).has(c));
    assert(s1.g.root[0].at() < s1.g.root.len());
    if !handed_over(k, s1.g) {
        assert(s1.g.root[0].at() == 0);
        assert(s1.g.rep(HNode(0)) == HNode(0));
    }
}

/// Two searches for a class, under the same clauses but with whatever else
/// switched on or bounded in either, do not contradict each other: if one
/// ends in `Sat`, in a way that [`lemma_sat_model`] covers, the other does
/// not end in `Unsat`. In particular how precisely the dependencies of a
/// violated `≤n` are reported does not turn one verdict into the other.
pub proof fn lemma_verdicts_agree(
    k: Config,
    s0: State,
    s1: State,
    l: Config,
    t0: State,
    t1: State,
    c: ClassId,
    r: HyperResult,
)
    requires
        k.wf(),
        modelable(k),
        closable(k),
        s0.wf(),
        is_root_graph(s0.g, c),
        solves(k, s0, k.init_depth as nat, s1, HyperResult::Sat),
        quiet(s0, s1),
        unmerged(s1.g) || handed_over(k, s1.g),
        (listening(k) && individual(k, s1.g)) || horn_closed(k, s1.g, true),
        coherent(l),
        l.clauses == k.clauses,
        l.roles == k.roles,
        l.nominals == k.nominals,
        t0.wf(),
        is_root_graph(t0.g, c),
        reliable(l),
        solves(l, t0, l.init_depth as nat, t1, r),
    ensures
        r !is Unsat,
{
    lemma_class_sat_sound(k, c, s0, s1);
    let i = picture(k.roles, s1.g);
    assert(i.models(l));
    if r is Unsat {
        lemma_class_unsat_sound(i, l, c, t0, t1, s1.g.rep(HNode(0)));
    }
}

/// Asserting edges adds them, and nothing else.
proof fn lemma_asserted_edges(g: Graph, ps: Seq<(u32, Role, u32)>, p: int)
    requires
        g.wf(),
        0 <= p,
    ensures
        asserted(g, ps, p).wf(),
        grows(g, asserted(g, ps, p)),
        asserted(g, ps, p).root == g.root,
        asserted(g, ps, p).neq == g.neq,
        asserted(g, ps, p).nodes.len() == g.nodes.len(),
        forall|i: int|
            0 <= i < g.nodes.len() ==> (#[trigger] asserted(g, ps, p).nodes[i]).at_least_done
                == g.nodes[i].at_least_done,
        forall|a: HNode, r: Role, t: HNode|
            g.valid(a) && #[trigger] asserted(g, ps, p).at(a).edges.contains((r, t)) ==> g.at(
                a,
            ).edges.contains((r, t)) || exists|q: int| p <= q < ps.len() && (#[trigger] ps[q]).1 == r,
        forall|q: int|
            p <= q < ps.len() ==> ({
                let (from, role, to) = #[trigger] ps[q];
                g.valid(HNode(from)) && g.valid(HNode(to)) ==> asserted(g, ps, p).at(
                    HNode(from),
                ).edges.contains((role, HNode(to)))
            }),
    decreases ps.len() - p,
{
    if p < ps.len() {
        let (from, role, to) = ps[p];
        let (a, b) = (HNode(from), HNode(to));
        let g1 = if g.valid(a) && g.valid(b) {
            edge_in(g, a, role, b)
        } else {
            g
        };
        if g.valid(a) && g.valid(b) {
            lemma_edge_in(g, a, role, b);
            lemma_push_contains(g.at(a).edges, (role, b));
        }
        lemma_asserted_edges(g1, ps, p + 1);
        let out = asserted(g, ps, p);
        lemma_grows_trans(g, g1, out);
        assert forall|i: int| 0 <= i < g.nodes.len() implies (
        #[trigger] out.nodes[i]).at_least_done == g.nodes[i].at_least_done by {
            assert(g1.nodes[i].at_least_done == g.nodes[i].at_least_done);
        }
        assert forall|x: HNode, r: Role, t: HNode|
            g.valid(x) && #[trigger] out.at(x).edges.contains((r, t)) implies g.at(
            x,
        ).edges.contains((r, t)) || exists|q: int| p <= q < ps.len() && (#[trigger] ps[q]).1 == r by {
            if g1.at(x).edges.contains((r, t)) && !g.at(x).edges.contains((r, t)) {
                assert(ps[p].1 == r);
            }
        }
        assert forall|q: int| p <= q < ps.len() implies ({
            let (from, role, to) = #[trigger] ps[q];
            g.valid(HNode(from)) && g.valid(HNode(to)) ==> out.at(HNode(from)).edges.contains(
                (role, HNode(to)),
            )
        }) by {
            if q == p && g.valid(a) && g.valid(b) {
                assert(g1.at(a).edges.contains((role, b)));
                assert(node_grows(g1.nodes[a.at()], out.nodes[a.at()]));
            }
        }
    }
}

/// Merging the pairs merges each, and loses nothing.
proof fn lemma_same_started(k: Config, s: State, ps: Seq<(u32, u32)>, p: int)
    requires
        s.wf(),
        s.g.neq.len() == 0,
        0 <= p,
    ensures
        coarser(s.g, same_merged(k, s, ps, p).g),
        same_merged(k, s, ps, p).g.nodes.len() == s.g.nodes.len(),
        along_named(s.g) ==> along_named(same_merged(k, s, ps, p).g),
        unmerged(same_merged(k, s, ps, p).g) ==> same_merged(k, s, ps, p).g == s.g,
        forall|q: int|
            p <= q < ps.len() ==> ({
                let (a, b) = #[trigger] ps[q];
                s.g.valid(HNode(a)) && s.g.valid(HNode(b)) ==> same_merged(k, s, ps, p).g.rep(
                    HNode(a),
                ) == same_merged(k, s, ps, p).g.rep(HNode(b))
            }),
    decreases ps.len() - p,
{
    if p < ps.len() {
        let (a, b) = (HNode(ps[p].0), HNode(ps[p].1));
        let out = same_merged(k, s, ps, p).g;
        if s.g.valid(a) && s.g.valid(b) {
            let s1 = merged(k, s, a, b, DepSet::empty()).0;
            lemma_merged(k, s, a, b, DepSet::empty());
            lemma_merged_neq(k, s, a, b, DepSet::empty());
            lemma_merged_coarser(k, s, a, b, DepSet::empty());
            lemma_merged_in_order(k, s, a, b, DepSet::empty());
            let (i, j) = (s.g.rep(a), s.g.rep(b));
            assert(s.g.root[a.at()].at() < s.g.root.len());
            assert(s.g.root[b.at()].at() < s.g.root.len());
            if i != j {
                assert(s.g.root[i.at()] == i && s.g.root[j.at()] == j);
                crate::rules_wf::lemma_joined_nodes(s, i, j, DepSet::empty());
            }
            assert(s1.g.root[a.at()] == s1.g.root[b.at()]);
            lemma_same_started(k, s1, ps, p + 1);
            lemma_coarser_trans(s.g, s1.g, out);
            if unmerged(out) {
                lemma_unmerged_before(s1.g, out);
            }
        } else {
            lemma_same_started(k, s, ps, p + 1);
        }
    } else {
        assert(coarser(s.g, s.g));
    }
}

/// The graph that a seeded search begins with. The node that an individual's
/// was merged into bears the individual's nominal and has the edges asserted
/// of it, and what is said to be the same is merged.
pub proof fn lemma_seed_started(k: Config, seed: AboxSeed, g: Graph)
    requires
        seed.wf(),
        seed.num_individuals > 0,
        forall|p: int|
            0 <= p < seed.property_assertions@.len() ==> (
            #[trigger] seed.property_assertions@[p]).1 is Named,
        g.nodes == seed.state(k).g.nodes,
        g.root == seed.state(k).g.root,
    ensures
        mirrored(g),
        along_named(g),
        unmerged(g) ==> tidy(k, g),
        g.nodes.len() == seed.num_individuals,
        forall|q: int|
            0 <= q < g.nodes.len() ==> #[trigger] g.at(g.rep(HNode(q as u32))).has(
                ClassId((seed.nominal_base + q) as u32),
            ),
        forall|p: int|
            0 <= p < seed.property_assertions@.len() ==> ({
                let (from, role, to) = #[trigger] seed.property_assertions@[p];
                g.valid(HNode(from)) && g.valid(HNode(to)) ==> g.at(
                    g.rep(HNode(from)),
                ).edges.contains((role, HNode(to)))
            }),
        forall|p: int|
            0 <= p < seed.same_pairs@.len() ==> ({
                let (a, b) = #[trigger] seed.same_pairs@[p];
                g.valid(HNode(a)) && g.valid(HNode(b)) ==> g.rep(HNode(a)) == g.rep(HNode(b))
            }),
{
    let g0 = bare_graph(seed.nodes(), discrete(seed.num_individuals as nat), false);
    let ps = seed.property_assertions@;
    lemma_seed_nodes(seed);
    lemma_asserted_edges(g0, ps, 0);
    assert forall|q: int| 0 <= q < g0.nodes.len() implies (#[trigger] g0.nodes[q]).labels =~= seq![
        ClassId((seed.nominal_base + q) as u32),
    ] && g0.nodes[q].edges.len() == 0 && g0.nodes[q].at_least_done.len() == 0 by {
        let c = ClassId((seed.nominal_base + q) as u32);
        lemma_seed_node(q as u32, c);
        assert(g0.nodes[q] == seed_node(q as u32, c));
    }
    let g1 = seed.graph();
    let gs = seed.state(k).g;
    assert(along_named(g1)) by {
        assert forall|a: HNode, r: Role, t: HNode|
            g1.valid(a) && #[trigger] g1.at(a).edges.contains((r, t)) implies r is Named by {
            assert(!g0.nodes[a.at()].edges.contains((r, t)));
            let q = choose|q: int| 0 <= q < ps.len() && (#[trigger] ps[q]).1 == r;
            assert(ps[q].1 is Named);
        }
    }
    lemma_same_started(k, fresh_state(g1), seed.same_pairs@, 0);
    lemma_seed_mirrored(k, seed);
    assert forall|a: HNode, r: Role, t: HNode|
        g.valid(a) && #[trigger] g.at(a).edges.contains((r, t)) implies gs.at(a).edges.contains(
        (r, t),
    ) by {}
    assert forall|q: int| 0 <= q < g.nodes.len() implies #[trigger] g.at(
        g.rep(HNode(q as u32)),
    ).has(ClassId((seed.nominal_base + q) as u32)) by {
        let c = ClassId((seed.nominal_base + q) as u32);
        let n = HNode(q as u32);
        assert(g0.nodes[q].labels[0] == c);
        assert(g0.nodes[q].has(c));
        assert(node_grows(g0.nodes[q], g1.nodes[q]));
        assert(g1.root[q].at() == q);
        assert(g1.rep(n) == n);
        assert(g1.at(g1.rep(n)).has(c));
    }
    assert forall|p: int| 0 <= p < ps.len() implies ({
        let (from, role, to) = #[trigger] ps[p];
        g.valid(HNode(from)) && g.valid(HNode(to)) ==> g.at(g.rep(HNode(from))).edges.contains(
            (role, HNode(to)),
        )
    }) by {
        let (from, role, to) = ps[p];
        let n = HNode(from);
        if g.valid(n) && g.valid(HNode(to)) {
            assert(g1.root[n.at()].at() == n.at());
            assert(g1.rep(n) == n);
            assert(g1.at(g1.rep(n)).edges.contains((role, HNode(to))));
        }
    }
    assert(mirrored(g)) by {
        assert forall|a: HNode, r: Role, t: HNode|
            g.valid(a) && #[trigger] g.at(a).edges.contains((r, t)) implies g.valid(t) && g.at(
            t,
        ).preds.contains((r, a)) by {
            assert(gs.at(a).edges.contains((r, t)));
        }
        assert forall|a: HNode, r: Role, t: HNode|
            g.valid(t) && #[trigger] g.at(t).preds.contains((r, a)) implies g.valid(a) && g.at(
            a,
        ).edges.contains((r, t)) by {
            assert(gs.at(t).preds.contains((r, a)));
        }
    }
    if unmerged(g) {
        assert(unmerged(gs));
        assert forall|n: HNode, c: Card|
            g.valid(n) && #[trigger] g.at(n).at_least_done.contains(c) implies supplied(
            k,
            g,
            n,
            c,
        ) by {
            assert(g1.nodes[n.at()].at_least_done == g0.nodes[n.at()].at_least_done);
            assert(g0.nodes[n.at()].at_least_done.len() == 0);
        }
    }
}

/// Assertions that are found consistent are true in some model, in which each
/// individual is in the classes that its node, or the one that it was merged
/// into, is labelled with and in no others. This holds where
/// [`lemma_sat_model`] does, and the assertions are along named roles.
pub proof fn lemma_abox_sat_sound(k: Config, seed: AboxSeed, s0: State, s1: State)
    requires
        k.wf(),
        modelable(k),
        closable(k),
        seed.wf(),
        seed.num_individuals > 0,
        forall|p: int|
            0 <= p < seed.property_assertions@.len() ==> (
            #[trigger] seed.property_assertions@[p]).1 is Named,
        s0.wf(),
        s0.g.nodes == seed.state(k).g.nodes,
        s0.g.root == seed.state(k).g.root,
        solves(k, s0, k.init_depth as nat, s1, HyperResult::Sat),
        quiet(s0, s1),
        unmerged(s1.g) || handed_over(k, s1.g),
        (listening(k) && individual(k, s1.g)) || horn_closed(k, s1.g, true),
    ensures
        picture(k.roles, s1.g).models(k),
        seed.holds(picture(k.roles, s1.g), elements(seed, s1.g)),
        forall|q: u32, d: ClassId|
            q < seed.num_individuals ==> (#[trigger] picture(k.roles, s1.g).in_class(
                d,
                elements(seed, s1.g)[q as int],
            ) <==> s1.g.at(s1.g.rep(HNode(q))).has(d)),
{
    lemma_sat_decided(k, s0, k.init_depth as nat, s1);
    lemma_seed_started(k, seed, s0.g);
    if !handed_over(k, s1.g) {
        lemma_unmerged_before(s0.g, s1.g);
        lemma_modelable_forward(k);
        lemma_tidy_handed_over(k, s1.g);
    }
    lemma_closable_attended(k, s0.g);
    lemma_sat_model(k, s0, k.init_depth as nat, s1);
    let i = picture(k.roles, s1.g);
    lemma_elements(k, seed, s0, s1);
    let h = elements(seed, s1.g);
    assert forall|p: int| 0 <= p < seed.property_assertions@.len() implies ({
        let (from, role, to) = #[trigger] seed.property_assertions@[p];
        from < h.len() && to < h.len() ==> i.role(role, h[from as int], h[to as int])
    }) by {
        let (from, role, to) = seed.property_assertions@[p];
        if from < h.len() && to < h.len() {
            assert(s1.g.at(h[from as int]).edges.contains((role, h[to as int])));
            assert(reaches(k.roles, s1.g, role, h[from as int], h[to as int]));
        }
    }
}

/// Two searches on the same assertions, under the same clauses but with
/// whatever else switched on or bounded in either, do not contradict each
/// other: if one ends in `Sat`, in a way that [`lemma_abox_sat_sound`] covers,
/// the other does not end in `Unsat`.
pub proof fn lemma_abox_verdicts_agree(
    k: Config,
    seed: AboxSeed,
    s0: State,
    s1: State,
    l: Config,
    t0: State,
    t1: State,
    r: HyperResult,
)
    requires
        k.wf(),
        modelable(k),
        closable(k),
        seed.wf(),
        seed.num_individuals > 0,
        forall|p: int|
            0 <= p < seed.property_assertions@.len() ==> (
            #[trigger] seed.property_assertions@[p]).1 is Named,
        s0.wf(),
        s0.g.nodes == seed.state(k).g.nodes,
        s0.g.root == seed.state(k).g.root,
        solves(k, s0, k.init_depth as nat, s1, HyperResult::Sat),
        quiet(s0, s1),
        unmerged(s1.g) || handed_over(k, s1.g),
        (listening(k) && individual(k, s1.g)) || horn_closed(k, s1.g, true),
        coherent(l),
        l.clauses == k.clauses,
        l.roles == k.roles,
        l.nominals == k.nominals,
        t0.wf(),
        t0.g.nodes == seed.state(l).g.nodes,
        t0.g.root == seed.state(l).g.root,
        t0.g.neq == seed.state(l).g.neq,
        reliable(l),
        solves(l, t0, l.init_depth as nat, t1, r),
    ensures
        r !is Unsat,
{
    lemma_abox_sat_sound(k, seed, s0, s1);
    let i = picture(k.roles, s1.g);
    assert(i.models(l));
    if r is Unsat {
        lemma_abox_unsat_sound(i, l, seed, t0, t1, elements(seed, s1.g));
    }
}

/// The nodes that stand for the individuals: the individual's own, or the one
/// that it was merged into.
pub open spec fn elements(seed: AboxSeed, g: Graph) -> Seq<HNode> {
    Seq::new(seed.num_individuals as nat, |q: int| g.rep(HNode(q as u32)))
}

/// In the end, the nodes that stand for the individuals bear their nominals
/// and have the edges asserted of them, and what is said to be the same is.
pub proof fn lemma_elements(k: Config, seed: AboxSeed, s0: State, s1: State)
    requires
        seed.wf(),
        seed.num_individuals > 0,
        forall|p: int|
            0 <= p < seed.property_assertions@.len() ==> (
            #[trigger] seed.property_assertions@[p]).1 is Named,
        s0.wf(),
        s0.g.nodes == seed.state(k).g.nodes,
        s0.g.root == seed.state(k).g.root,
        s1.wf(),
        coarser(s0.g, s1.g),
        handed_over(k, s1.g),
    ensures
        forall|q: int|
            0 <= q < seed.num_individuals ==> {
                let n = #[trigger] elements(seed, s1.g)[q];
                &&& s1.g.valid(n) && s1.g.rep(n) == n
                &&& s1.g.at(n).has(ClassId((seed.nominal_base + q) as u32))
            },
        forall|p: int|
            0 <= p < seed.property_assertions@.len() ==> ({
                let (from, role, to) = #[trigger] seed.property_assertions@[p];
                from < seed.num_individuals && to < seed.num_individuals ==> s1.g.at(
                    elements(seed, s1.g)[from as int],
                ).edges.contains((role, elements(seed, s1.g)[to as int]))
            }),
        forall|p: int|
            0 <= p < seed.same_pairs@.len() ==> ({
                let (a, b) = #[trigger] seed.same_pairs@[p];
                a < seed.num_individuals && b < seed.num_individuals ==> elements(
                    seed,
                    s1.g,
                )[a as int] == elements(seed, s1.g)[b as int]
            }),
{
    lemma_seed_started(k, seed, s0.g);
    let h = elements(seed, s1.g);
    assert forall|q: int| 0 <= q < seed.num_individuals implies {
        let n = #[trigger] h[q];
        &&& s1.g.valid(n) && s1.g.rep(n) == n
        &&& s1.g.at(n).has(ClassId((seed.nominal_base + q) as u32))
    } by {
        let m = HNode(q as u32);
        assert(s1.g.root[m.at()].at() < s1.g.root.len());
        assert(s0.g.at(s0.g.rep(m)).has(ClassId((seed.nominal_base + q) as u32)));
    }
    assert forall|p: int| 0 <= p < seed.property_assertions@.len() implies ({
        let (from, role, to) = #[trigger] seed.property_assertions@[p];
        from < seed.num_individuals && to < seed.num_individuals ==> s1.g.at(
            h[from as int],
        ).edges.contains((role, h[to as int]))
    }) by {
        let (from, role, to) = seed.property_assertions@[p];
        if from < seed.num_individuals && to < seed.num_individuals {
            let m = HNode(from);
            assert(s0.g.valid(m) && s0.g.valid(HNode(to)));
            assert(s0.g.at(s0.g.rep(m)).edges.contains((role, HNode(to))));
            assert(h[from as int] == s1.g.rep(m));
            assert(s1.g.at(h[from as int]).edges.contains((role, HNode(to))));
        }
    }
    assert forall|p: int| 0 <= p < seed.same_pairs@.len() implies ({
        let (a, b) = #[trigger] seed.same_pairs@[p];
        a < seed.num_individuals && b < seed.num_individuals ==> h[a as int] == h[b as int]
    }) by {
        let (a, b) = seed.same_pairs@[p];
        if a < seed.num_individuals && b < seed.num_individuals {
            assert(s0.g.valid(HNode(a)) && s0.g.valid(HNode(b)));
            assert(s0.g.root[a as int] == s0.g.root[b as int]);
            assert(s1.g.root[a as int] == s1.g.root[b as int]);
        }
    }
}

} // verus!
