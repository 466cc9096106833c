//! When a completion graph is true in an interpretation.
//!
//! The decisions on the current path are its levels. Relative to a set of
//! levels whose decisions are true, a fact of the graph is owed only if all
//! that it depends on is among them.

use vstd::prelude::*;
use crate::clause::{Atom, Var};
use crate::dep_set::{bit, lemma_empty_and_all, lemma_joined_has, DepSet};
use crate::graph::{Config, Graph};
use crate::ids::{ClassId, HNode, Role};
use crate::matching::{binding_valid, lemma_var_node_valid, var_node};
use crate::node::{Card, NodeView};
use crate::queries::{atom_deps, body_deps, bound_deps, join_all};
use crate::semantics::{lemma_role_flipped, lemma_role_sat, Interp};

verus! {

/// An interpretation, and the decisions that are true in it, by their
/// levels. Levels that no decision on the path has are to be among them.
/// Nothing is asked of the edges of the node `buried`, if there is one.
#[verifier::reject_recursive_types(D)]
pub struct World<D> {
    pub i: Interp<D>,
    pub t: Set<int>,
    pub buried: Option<HNode>,
}

impl<D> World<D> {
    /// All decisions are true.
    pub open spec fn full(self) -> bool {
        forall|l: int| 0 <= l ==> self.t.contains(l)
    }

    /// All that the set depends on is true.
    pub open spec fn active(self, ds: DepSet) -> bool {
        if ds.overflow {
            self.full()
        } else {
            forall|l: u32| #[trigger] bit(ds.bits, l) ==> self.t.contains(l as int)
        }
    }
}

/// What node `n` says of others, and of what was merged into it, is owed.
/// Where it was merged with others for a nominal that it bears only by a false
/// decision, it is not: all that such a merge rests on, its birth rests on.
pub open spec fn alive<D>(w: World<D>, g: Graph, n: HNode) -> bool {
    &&& w.buried != Some(n)
    &&& g.at(n).nn_tainted ==> w.active(g.at(n).birth_deps)
}

/// The edge from `a` to `b` is owed.
pub open spec fn owed<D>(w: World<D>, g: Graph, a: HNode, b: HNode) -> bool {
    alive(w, g, a) && reached(w, g, b)
}

/// Where all decisions are true, every node is alive.
pub proof fn lemma_alive<D>(w: World<D>, g: Graph, n: HNode)
    requires
        w.buried is None,
        w.full(),
    ensures
        alive(w, g, n),
{
    lemma_full_active(w, g.at(n).birth_deps);
}

pub proof fn lemma_joined<D>(w: World<D>, a: DepSet, b: DepSet)
    ensures
        w.active(a.joined(b)) <==> w.active(a) && w.active(b),
{
    let j = a.joined(b);
    assert forall|l: u32| bit(j.bits, l) <==> bit(a.bits, l) || bit(b.bits, l) by {
        lemma_joined_has(a, b, l);
    }
}

pub proof fn lemma_empty<D>(w: World<D>)
    ensures
        w.active(DepSet::empty()),
        w.active(DepSet::all()) <==> w.full(),
{
    assert forall|l: u32| !bit(0u128, l) by {
        lemma_empty_and_all(l);
    }
}

/// If all decisions are true, every set is active.
pub proof fn lemma_full_active<D>(w: World<D>, ds: DepSet)
    requires
        w.full(),
    ensures
        w.active(ds),
{
}

pub proof fn lemma_join_all<D>(w: World<D>, acc: DepSet, ds: Seq<DepSet>)
    ensures
        w.active(join_all(acc, ds)) <==> w.active(acc) && forall|i: int|
            0 <= i < ds.len() ==> w.active(#[trigger] ds[i]),
    decreases ds.len(),
{
    if ds.len() > 0 {
        let r = ds.drop_last();
        lemma_join_all(w, acc, r);
        lemma_joined(w, join_all(acc, r), ds.last());
        if w.active(join_all(acc, ds)) {
            assert forall|i: int| 0 <= i < ds.len() implies w.active(#[trigger] ds[i]) by {
                if i < r.len() {
                    assert(w.active(r[i]));
                }
            }
        }
        if w.active(acc) && forall|i: int| 0 <= i < ds.len() ==> w.active(#[trigger] ds[i]) {
            assert forall|i: int| 0 <= i < r.len() implies w.active(#[trigger] r[i]) by {
                assert(w.active(ds[i]));
            }
            assert(w.active(ds[ds.len() - 1]));
        }
    }
}

/// What holds of a node: of position `i`, in graph `g`, with nodes standing
/// for elements as `h` says.
pub open spec fn node_true<D>(w: World<D>, g: Graph, h: Seq<D>, i: int) -> bool {
    let v = g.nodes[i];
    &&& forall|c: ClassId| #[trigger] v.has(c) && w.active(v.deps_of(c)) ==> w.i.in_class(c, h[i])
    &&& forall|e: (Role, HNode)| #[trigger]
        v.edges.contains(e) && owed(w, g, HNode(i as u32), e.1) ==> w.i.role(
            e.0,
            h[i],
            h[e.1.at()],
        )
    &&& forall|e: (Role, HNode)| #[trigger]
        v.preds.contains(e) && owed(w, g, e.1, HNode(i as u32)) ==> w.i.role(
            e.0,
            h[e.1.at()],
            h[i],
        )
    &&& forall|c: Card| #[trigger]
        v.at_most.contains(c) && bounded(w, v) ==> w.i.at_most(c.0, c.1, c.2, h[i])
}

/// The `≤n` of the node are owed. Those that it got by a merge are only if all
/// decisions are true.
pub open spec fn bounded<D>(w: World<D>, v: NodeView) -> bool {
    w.active(v.at_most_dep) && (v.at_most_tainted ==> w.full())
}

/// Edges into `n` are owed, as far as `n` is concerned: what it depends on is
/// true, or it was merged into a node that is alive.
pub open spec fn reached<D>(w: World<D>, g: Graph, n: HNode) -> bool {
    w.active(g.at(n).birth_deps) || (g.rep(n) != n && alive(w, g, g.rep(n)))
}

/// The graph is true with nodes standing for elements as `h` says.
pub open spec fn true_in<D>(w: World<D>, g: Graph, h: Seq<D>) -> bool {
    &&& h.len() == g.nodes.len()
    &&& forall|i: int| 0 <= i < h.len() ==> w.i.within(#[trigger] h[i])
    &&& forall|i: int|
        0 <= i < h.len() ==> h[i] == h[(#[trigger] g.root[i]).at()] || !alive(w, g, g.root[i])
    &&& forall|i: int| 0 <= i < g.nodes.len() ==> #[trigger] node_true(w, g, h, i)
    &&& w.full() ==> forall|p: int|
        0 <= p < g.neq.len() ==> h[(#[trigger] g.neq[p]).0.at()] != h[g.neq[p].1.at()]
}

/// The variables stand for the elements of the nodes they are bound to.
pub open spec fn values<D>(h: Seq<D>, x: HNode, b: Seq<(Var, HNode)>) -> spec_fn(Var) -> D {
    |v: Var|
        match var_node(v, x, b) {
            Some(n) => h[n.at()],
            None => h[x.at()],
        }
}

/// The elements of nodes are in the domain.
pub proof fn lemma_values_within<D>(w: World<D>, g: Graph, h: Seq<D>, x: HNode, b: Seq<(Var, HNode)>)
    requires
        g.valid(x),
        binding_valid(b, g.nodes.len() as int),
        true_in(w, g, h),
    ensures
        w.i.valuation(values(h, x, b)),
{
    let v = values(h, x, b);
    assert forall|z: Var| w.i.within(#[trigger] v(z)) by {
        lemma_var_node_valid(z, x, b, g.nodes.len() as int);
    }
}

/// What a match depends on is on the path.
pub proof fn lemma_body_deps<D>(
    w: World<D>,
    g: Graph,
    h: Seq<D>,
    body: Seq<Atom>,
    x: HNode,
    b: Seq<(Var, HNode)>,
)
    requires
        g.wf(),
        g.valid(x),
        binding_valid(b, g.nodes.len() as int),
        true_in(w, g, h),
    ensures
        w.active(body_deps(g, body, x, b)) ==> {
            &&& w.active(g.at(x).birth_deps)
            &&& forall|j: int| 0 <= j < b.len() ==> w.active(g.at((#[trigger] b[j]).1).birth_deps)
            &&& forall|q: int|
                0 <= q < body.len() ==> (#[trigger] body[q] matches Atom::Class(c, v) ==> (var_node(
                    v,
                    x,
                    b,
                ) matches Some(n) ==> w.active(g.at(n).deps_of(c))))
        },
{
    assert(node_true(w, g, h, x.at()));
    lemma_bound_deps(w, g, h, g.at(x).birth_deps, b);
    lemma_atom_deps(w, g, h, bound_deps(g, g.at(x).birth_deps, b), body, x, b);
}

proof fn lemma_bound_deps<D>(w: World<D>, g: Graph, h: Seq<D>, acc: DepSet, b: Seq<(Var, HNode)>)
    requires
        binding_valid(b, g.nodes.len() as int),
        true_in(w, g, h),
    ensures
        w.active(bound_deps(g, acc, b)) ==> w.active(acc) && forall|j: int|
            0 <= j < b.len() ==> w.active(g.at((#[trigger] b[j]).1).birth_deps),
    decreases b.len(),
{
    if b.len() > 0 {
        let r = b.drop_last();
        assert forall|i: int| 0 <= i < r.len() implies (#[trigger] r[i]).1.at() < g.nodes.len() by {
            assert(b[i].1.at() < g.nodes.len());
        }
        lemma_bound_deps(w, g, h, acc, r);
        let n = b.last().1;
        assert(b[b.len() - 1].1.at() < g.nodes.len());
        assert(node_true(w, g, h, n.at()));
        lemma_joined(w, bound_deps(g, acc, r), g.at(n).birth_deps);
        if w.active(bound_deps(g, acc, b)) {
            assert forall|j: int| 0 <= j < b.len() implies w.active(
                g.at((#[trigger] b[j]).1).birth_deps,
            ) by {
                if j < r.len() {
                    assert(w.active(g.at(r[j].1).birth_deps));
                }
            }
        }
    }
}

proof fn lemma_atom_deps<D>(
    w: World<D>,
    g: Graph,
    h: Seq<D>,
    acc: DepSet,
    body: Seq<Atom>,
    x: HNode,
    b: Seq<(Var, HNode)>,
)
    requires
        g.wf(),
        g.valid(x),
        binding_valid(b, g.nodes.len() as int),
        true_in(w, g, h),
    ensures
        w.active(atom_deps(g, acc, body, x, b)) ==> w.active(acc) && forall|q: int|
            0 <= q < body.len() ==> (#[trigger] body[q] matches Atom::Class(c, v) ==> (var_node(
                v,
                x,
                b,
            ) matches Some(n) ==> w.active(g.at(n).deps_of(c)))),
    decreases body.len(),
{
    if body.len() > 0 {
        let r = body.drop_last();
        lemma_atom_deps(w, g, h, acc, r, x, b);
        let d = atom_deps(g, acc, r, x, b);
        if let Atom::Class(c, v) = body.last() {
            lemma_var_node_valid(v, x, b, g.nodes.len() as int);
            if let Some(n) = var_node(v, x, b) {
                assert(node_true(w, g, h, n.at()));
                lemma_empty(w);
                lemma_joined(w, d, g.at(n).deps_of(c));
            }
        }
        if w.active(atom_deps(g, acc, body, x, b)) {
            assert(w.active(d));
            assert forall|q: int| 0 <= q < body.len() implies (#[trigger] body[q] matches Atom::Class(
                c,
                v,
            ) ==> (var_node(v, x, b) matches Some(n) ==> w.active(g.at(n).deps_of(c)))) by {
                if q < r.len() {
                    assert(r[q] == body[q]);
                }
            }
        }
    }
}

/// If what a match depends on is true, the body is true.
pub proof fn lemma_body_true<D>(
    w: World<D>,
    k: Config,
    g: Graph,
    h: Seq<D>,
    body: Seq<Atom>,
    x: HNode,
    b: Seq<(Var, HNode)>,
)
    requires
        g.wf(),
        g.valid(x),
        binding_valid(b, g.nodes.len() as int),
        true_in(w, g, h),
        w.buried is None,
        w.i.respects(k.roles),
        crate::match_laws::body_holds(g.nodes, k.roles, body, x, b),
        w.active(body_deps(g, body, x, b)),
    ensures
        w.i.all(body, values(h, x, b)),
{
    let v = values(h, x, b);
    let n = g.nodes.len() as int;
    lemma_body_deps(w, g, h, body, x, b);
    assert forall|q: int| 0 <= q < body.len() implies w.i.atom(#[trigger] body[q], v) by {
        assert(crate::match_laws::atom_holds(g.nodes, k.roles, body[q], x, b));
        match body[q] {
            Atom::Class(c, z) => {
                lemma_var_node_valid(z, x, b, n);
                let m = var_node(z, x, b)->0;
                assert(node_true(w, g, h, m.at()));
                assert(g.at(m).has(c));
            },
            Atom::Role(r, y, z) => {
                lemma_var_node_valid(y, x, b, n);
                lemma_var_node_valid(z, x, b, n);
                let a = var_node(y, x, b)->0;
                let m = var_node(z, x, b)->0;
                lemma_bound_active(w, g, x, b, y);
                lemma_bound_active(w, g, x, b, z);
                assert(HNode(a.at() as u32) == a);
                assert(node_true(w, g, h, a.at()));
                let na = g.nodes[a.at()];
                if exists|e: Role| #[trigger]
                    na.edges.contains((e, m)) && crate::clause::role_sat(e, r, k.roles) {
                    let e = choose|e: Role| #[trigger]
                        na.edges.contains((e, m)) && crate::clause::role_sat(e, r, k.roles);
                    assert(owed(w, g, a, m));
                    assert(w.i.role(e, h[a.at()], h[m.at()]));
                    lemma_role_sat(w.i, k.roles, e, r, h[a.at()], h[m.at()]);
                } else {
                    let e = choose|e: Role| #[trigger]
                        na.preds.contains((e, m)) && crate::clause::role_sat(
                            e.flipped(),
                            r,
                            k.roles,
                        );
                    assert(owed(w, g, m, a));
                    assert(w.i.role(e, h[m.at()], h[a.at()]));
                    lemma_role_flipped(w.i, e, h[a.at()], h[m.at()]);
                    lemma_role_sat(w.i, k.roles, e.flipped(), r, h[a.at()], h[m.at()]);
                }
            },
            _ => {},
        }
    }
}

proof fn lemma_bound_active<D>(w: World<D>, g: Graph, x: HNode, b: Seq<(Var, HNode)>, v: Var)
    requires
        w.active(g.at(x).birth_deps),
        forall|j: int| 0 <= j < b.len() ==> w.active(g.at((#[trigger] b[j]).1).birth_deps),
    ensures
        var_node(v, x, b) matches Some(m) ==> w.active(g.at(m).birth_deps),
{
    crate::match_laws::lemma_var_node_bound(b, x, v);
    if let Some(m) = var_node(v, x, b) {
        if m != x {
            let j = choose|j: int| 0 <= j < b.len() && (#[trigger] b[j]).1 == m;
            assert(w.active(g.at(b[j].1).birth_deps));
        }
    }
}

} // verus!
