//! Clauses that hear of whatever makes their bodies hold: under these, what
//! saturation fires is all that is due.

use vstd::prelude::*;
use crate::clause::{role_sat, Atom, HierarchyView, Var, X};
use crate::graph::{Config, Event, Graph};
use crate::horn_closure::{
    due, enabled, head_done, horn_closed, horn_fired, stepped, steps, vouches,
};
use crate::ids::{HNode, Role};
use crate::match_laws::{atom_holds, lemma_var_node_bound};
use crate::matching::{lemma_var_node_valid, var_node};
use crate::unfolding::{along_named, fact, mirrored};

verus! {

/// The role is symmetric.
pub open spec fn symmetric(h: Option<HierarchyView>, r: Role) -> bool {
    h matches Some(hv) && hv.sym(r.id())
}

/// A named role that is not symmetric leads from the central variable to the
/// variable.
pub open spec fn next_to_x(h: Option<HierarchyView>, body: Seq<Atom>, w: Var) -> bool {
    exists|q: int|
        0 <= q < body.len() && (#[trigger] body[q] matches Atom::Role(r, u, t) && u == X && t == w
            && r is Named && !symmetric(h, r))
}

/// No other role is below the role. An edge along a smaller role does not
/// make clauses on the role fire.
pub open spec fn lowest(h: Option<HierarchyView>, r: Role) -> bool {
    forall|e: Role| #[trigger] role_sat(e, r, h) ==> e.id() == r.id()
}

/// Whichever atom of the body comes to hold last, the clause is fired.
pub open spec fn attentive(h: Option<HierarchyView>, body: Seq<Atom>) -> bool {
    forall|q: int|
        0 <= q < body.len() ==> match #[trigger] body[q] {
            Atom::Class(c, w) => w == X || next_to_x(h, body, w),
            Atom::Role(r, u, w) => lowest(h, r) && (u == X || (r is Named && !symmetric(h, r)
                && next_to_x(h, body, u))),
            _ => false,
        }
}

/// All Horn clauses are attentive.
pub open spec fn listening(k: Config) -> bool {
    forall|ci: int|
        0 <= ci < k.clauses.len() && (#[trigger] k.clauses[ci]).horn() ==> attentive(
            k.roles,
            k.clauses[ci].body,
        )
}

/// An edge that leads from `a` to `m` satisfies the role.
spec fn leads_out(h: Option<HierarchyView>, g: Graph, a: HNode, m: HNode, r: Role, e: Role) -> bool {
    g.at(a).edges.contains((e, m)) && role_sat(e, r, h)
}

/// An edge that leads from `m` to `a` satisfies the role backwards.
spec fn leads_in(h: Option<HierarchyView>, g: Graph, a: HNode, m: HNode, r: Role, e: Role) -> bool {
    g.at(m).edges.contains((e, a)) && role_sat(e.flipped(), r, h)
}

/// The fact of the graph by which an atom holds.
spec fn evidence(
    h: Option<HierarchyView>,
    g: Graph,
    at: Atom,
    x: HNode,
    b: Seq<(Var, HNode)>,
) -> Event {
    match at {
        Atom::Class(c, w) => Event::Label(var_node(w, x, b)->0, c),
        Atom::Role(r, u, w) => {
            let a = var_node(u, x, b)->0;
            let m = var_node(w, x, b)->0;
            if exists|e: Role| leads_out(h, g, a, m, r, e) {
                Event::Edge(a, choose|e: Role| leads_out(h, g, a, m, r, e), m)
            } else {
                Event::Edge(m, choose|e: Role| leads_in(h, g, a, m, r, e), a)
            }
        },
        _ => Event::NodeNew(x),
    }
}

/// A role atom that holds is heard of: an edge leads out, or an inverse or
/// symmetric role is asked for and one leads in.
proof fn lemma_role_heard(
    k: Config,
    g: Graph,
    r: Role,
    u: Var,
    w: Var,
    x: HNode,
    b: Seq<(Var, HNode)>,
)
    requires
        g.wf(),
        mirrored(g),
        along_named(g),
        lowest(k.roles, r),
        atom_holds(g.nodes, k.roles, Atom::Role(r, u, w), x, b),
        var_node(u, x, b) matches Some(a) ==> g.valid(a) && g.rep(a) == a,
        var_node(w, x, b) matches Some(m) ==> g.valid(m) && g.rep(m) == m,
    ensures
        fact(g, evidence(k.roles, g, Atom::Role(r, u, w), x, b)),
        ({
            let a = var_node(u, x, b)->0;
            let m = var_node(w, x, b)->0;
            &&& var_node(u, x, b) is Some && var_node(w, x, b) is Some
            &&& evidence(k.roles, g, Atom::Role(r, u, w), x, b) matches Event::Edge(from, e, to)
            &&& e.id() == r.id()
            &&& {
                ||| from == a && to == m && role_sat(e, r, k.roles)
                ||| from == m && to == a && role_sat(e.flipped(), r, k.roles) && (r is Inverse
                    || symmetric(k.roles, r))
            }
            &&& r is Named && !symmetric(k.roles, r) ==> from == a && to == m
        }),
{
    let h = k.roles;
    let a = var_node(u, x, b)->0;
    let m = var_node(w, x, b)->0;
    let na = g.nodes[a.at()];
    if exists|e: Role| #[trigger] na.edges.contains((e, m)) && role_sat(e, r, h) {
        let e = choose|e: Role| #[trigger] na.edges.contains((e, m)) && role_sat(e, r, h);
        assert(leads_out(h, g, a, m, r, e));
        let f = choose|f: Role| leads_out(h, g, a, m, r, f);
        assert(leads_out(h, g, a, m, r, f));
    } else {
        let e = choose|e: Role| #[trigger]
            na.preds.contains((e, m)) && role_sat(e.flipped(), r, h);
        assert(g.at(a).preds.contains((e, m)));
        assert(leads_in(h, g, a, m, r, e));
        let f = choose|f: Role| leads_in(h, g, a, m, r, f);
        assert(leads_in(h, g, a, m, r, f));
        assert(f is Named);
        assert forall|e: Role| !leads_out(h, g, a, m, r, e) by {
            if leads_out(h, g, a, m, r, e) {
                assert(na.edges.contains((e, m)));
            }
        }
    }
}

/// What is due at an attentive clause enables it.
pub proof fn lemma_due_enabled(
    k: Config,
    g: Graph,
    ci: int,
    x: HNode,
    b: Seq<(Var, HNode)>,
) -> (es: Seq<Event>)
    requires
        g.wf(),
        mirrored(g),
        along_named(g),
        due(k, g, ci, x, b),
        attentive(k.roles, k.clauses[ci].body),
    ensures
        enabled(k, g, ci, x, b, es),
{
    let h = k.roles;
    let body = k.clauses[ci].body;
    let es = Seq::new(body.len(), |q: int| evidence(h, g, body[q], x, b));
    assert forall|v: Var| #[trigger] var_node(v, x, b) matches Some(m) ==> g.valid(m) && g.rep(m)
        == m by {
        lemma_var_node_valid(v, x, b, g.nodes.len() as int);
        lemma_var_node_bound(b, x, v);
        if let Some(m) = var_node(v, x, b) {
            if m != x {
                let j = choose|j: int| 0 <= j < b.len() && (#[trigger] b[j]).1 == m;
                assert(g.rep(b[j].1) == b[j].1);
            }
        }
    }
    assert forall|q: int| 0 <= q < body.len() implies fact(g, #[trigger] es[q]) by {
        assert(atom_holds(g.nodes, h, body[q], x, b));
        if let Atom::Role(r, u, w) = body[q] {
            lemma_role_heard(k, g, r, u, w, x, b);
        }
    }
    assert forall|w: Var| #[trigger] next_to_x(h, body, w) implies var_node(w, x, b) is Some
        && stepped(body, es, x, w, var_node(w, x, b)->0) by {
        let q = choose|q: int|
            0 <= q < body.len() && (#[trigger] body[q] matches Atom::Role(r, u, t) && u == X && t
                == w && r is Named && !symmetric(h, r));
        assert(atom_holds(g.nodes, h, body[q], x, b));
        if let Atom::Role(r, u, t) = body[q] {
            lemma_role_heard(k, g, r, u, t, x, b);
            assert(es[q] == evidence(h, g, body[q], x, b));
            assert(var_node(X, x, b) == Some(x));
            assert(steps(body[q], es[q], x, w, var_node(w, x, b)->0));
        }
    }
    assert forall|q: int| 0 <= q < body.len() implies vouches(h, body, x, b, es, q) by {
        assert(atom_holds(g.nodes, h, body[q], x, b));
        assert(es[q] == evidence(h, g, body[q], x, b));
        match body[q] {
            Atom::Class(c, w) => {
                if w != X {
                    assert(next_to_x(h, body, w));
                }
            },
            Atom::Role(r, u, w) => {
                lemma_role_heard(k, g, r, u, w, x, b);
                if u != X {
                    assert(next_to_x(h, body, u));
                }
            },
            _ => {},
        }
    }
    es
}

/// Where all Horn clauses are attentive, what has fired is all that is due.
pub proof fn lemma_listening_closed(k: Config, g: Graph, all: bool)
    requires
        g.wf(),
        mirrored(g),
        along_named(g),
        listening(k),
        horn_fired(k, g, all),
    ensures
        horn_closed(k, g, all),
{
    assert forall|ci: int, x: HNode, b: Seq<(Var, HNode)>| #[trigger]
        due(k, g, ci, x, b) implies head_done(k, g, k.clauses[ci].head, x, b, all) by {
        let es = lemma_due_enabled(k, g, ci, x, b);
        assert(enabled(k, g, ci, x, b, es));
    }
}

} // verus!
