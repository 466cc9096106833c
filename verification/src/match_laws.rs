//! What a match is: a binding under which every atom of the body holds.

use vstd::prelude::*;
use crate::clause::{role_sat, Atom, HierarchyView, Var, X};
use crate::graph::{grows, node_grows, Graph};
use crate::ids::{ClassId, HNode, Role};
use crate::matching::{
    classes_hold, classes_reached, distinct_vars, leads, lemma_targets, lookup_from, matches_from,
    matches_of, matches_over, order_of, order_pass, order_rounds, order_start, place, plan_of,
    scan_from, sort_binding, targets, untaken, var_node, MAX_BODY_VARS, OrderState, PlanView,
    RoleAtom,
};
use crate::node::NodeView;

verus! {

/// The atom holds in the graph under the binding.
pub open spec fn atom_holds(
    nodes: Seq<NodeView>,
    h: Option<HierarchyView>,
    at: Atom,
    x: HNode,
    b: Seq<(Var, HNode)>,
) -> bool {
    match at {
        Atom::Class(c, v) => var_node(v, x, b) matches Some(m) && nodes[m.at()].has(c),
        Atom::Role(r, u, v) => {
            &&& var_node(u, x, b) matches Some(a)
            &&& var_node(v, x, b) matches Some(m)
            &&& leads(nodes[a.at()], h, r, m)
        },
        _ => false,
    }
}

/// Every atom of the body holds in the graph under the binding.
pub open spec fn body_holds(
    nodes: Seq<NodeView>,
    h: Option<HierarchyView>,
    body: Seq<Atom>,
    x: HNode,
    b: Seq<(Var, HNode)>,
) -> bool {
    forall|i: int| 0 <= i < body.len() ==> atom_holds(nodes, h, #[trigger] body[i], x, b)
}

/// With distinct variables, looking up finds exactly what is bound.
pub proof fn lemma_lookup(b: Seq<(Var, HNode)>, i: int, v: Var, n: HNode)
    requires
        distinct_vars(b),
        0 <= i <= b.len(),
    ensures
        lookup_from(b, i, v) == Some(n) <==> exists|j: int| i <= j < b.len() && #[trigger] b[j] == (v, n),
    decreases b.len() - i,
{
    if i < b.len() {
        lemma_lookup(b, i + 1, v, n);
        if b[i].0 == v {
            if exists|j: int| i <= j < b.len() && #[trigger] b[j] == (v, n) {
                let j = choose|j: int| i <= j < b.len() && #[trigger] b[j] == (v, n);
                if j > i {
                    assert(b[i].0 != b[j].0);
                }
            }
            if b[i].1 == n {
                assert(b[i] == (v, n));
            }
        }
    }
}

/// With distinct variables, a variable's node is what is bound to it.
pub proof fn lemma_var_node(b: Seq<(Var, HNode)>, x: HNode, v: Var, n: HNode)
    requires
        distinct_vars(b),
        v != X,
    ensures
        var_node(v, x, b) == Some(n) <==> b.contains((v, n)),
{
    lemma_lookup(b, 0, v, n);
}

/// A node that a variable leads to is the match root or a bound node.
pub proof fn lemma_var_node_bound(b: Seq<(Var, HNode)>, x: HNode, v: Var)
    ensures
        var_node(v, x, b) matches Some(n) ==> n == x || exists|j: int|
            0 <= j < b.len() && (#[trigger] b[j]).1 == n,
{
    lemma_lookup_bound(b, 0, v);
}

proof fn lemma_lookup_bound(b: Seq<(Var, HNode)>, i: int, v: Var)
    requires
        0 <= i,
    ensures
        lookup_from(b, i, v) matches Some(n) ==> exists|j: int|
            0 <= j < b.len() && (#[trigger] b[j]).1 == n,
    decreases b.len() - i,
{
    if i < b.len() {
        if b[i].0 == v {
            assert(b[i].1 == b[i].1);
        } else {
            lemma_lookup_bound(b, i + 1, v);
        }
    }
}

pub proof fn lemma_place_members(b: Seq<(Var, HNode)>, e: (Var, HNode))
    ensures
        place(b, e).len() == b.len() + 1,
        forall|f: (Var, HNode)| #[trigger] place(b, e).contains(f) <==> b.contains(f) || f == e,
    decreases b.len(),
{
    if b.len() == 0 || b.last().0 <= e.0 {
        crate::rules_wf::lemma_push_contains(b, e);
    } else {
        let r = b.drop_last();
        lemma_place_members(r, e);
        crate::rules_wf::lemma_push_contains(place(r, e), b.last());
        assert forall|f: (Var, HNode)| #[trigger] place(b, e).contains(f) <==> b.contains(f) || f
            == e by {
            assert(b =~= r.push(b.last()));
            crate::rules_wf::lemma_push_contains(r, b.last());
        }
    }
}

/// By strictly increasing variable.
pub open spec fn increasing_vars(b: Seq<(Var, HNode)>) -> bool {
    forall|i: int, j: int| 0 <= i < j < b.len() ==> b[i].0 < b[j].0
}

pub proof fn lemma_place_sorted(b: Seq<(Var, HNode)>, e: (Var, HNode))
    requires
        increasing_vars(b),
        forall|i: int| 0 <= i < b.len() ==> (#[trigger] b[i]).0 != e.0,
    ensures
        increasing_vars(place(b, e)),
    decreases b.len(),
{
    if b.len() > 0 && b.last().0 > e.0 {
        let r = b.drop_last();
        lemma_place_sorted(r, e);
        lemma_place_members(r, e);
        let p = place(r, e);
        assert forall|i: int, j: int| 0 <= i < j < place(b, e).len() implies place(b, e)[i].0
            < place(b, e)[j].0 by {
            if j == p.len() {
                assert(p.contains(p[i]));
                if p[i] != e {
                    let q = choose|q: int| 0 <= q < r.len() && r[q] == p[i];
                    assert(b[q].0 < b[b.len() - 1].0);
                }
            }
        }
    } else if b.len() > 0 {
        assert forall|i: int, j: int| 0 <= i < j < b.push(e).len() implies b.push(e)[i].0 < b.push(
            e,
        )[j].0 by {
            if j == b.len() {
                assert(b[i].0 != e.0);
                if i < b.len() - 1 {
                    assert(b[i].0 < b[b.len() - 1].0);
                }
                assert(b[b.len() - 1].0 != e.0);
            }
        }
    }
}

/// Sorting a binding with distinct variables keeps its entries and puts
/// them by increasing variable.
pub proof fn lemma_sort_binding(b: Seq<(Var, HNode)>)
    requires
        distinct_vars(b),
    ensures
        sort_binding(b).len() == b.len(),
        forall|f: (Var, HNode)| #[trigger] sort_binding(b).contains(f) <==> b.contains(f),
        increasing_vars(sort_binding(b)),
        distinct_vars(sort_binding(b)),
    decreases b.len(),
{
    if b.len() > 0 {
        let r = b.drop_last();
        let e = b.last();
        assert(distinct_vars(r)) by {
            assert forall|i: int| 0 <= i < r.len() implies (#[trigger] r[i]).0 != X by {
                assert(b[i].0 != X);
            }
        }
        lemma_sort_binding(r);
        let s = sort_binding(r);
        lemma_place_members(s, e);
        assert forall|i: int| 0 <= i < s.len() implies (#[trigger] s[i]).0 != e.0 by {
            assert(s.contains(s[i]));
            let q = choose|q: int| 0 <= q < r.len() && r[q] == s[i];
            assert(b[q].0 != b[b.len() - 1].0);
        }
        lemma_place_sorted(s, e);
        assert(b =~= r.push(e));
        crate::rules_wf::lemma_push_contains(r, e);
        let out = sort_binding(b);
        assert forall|i: int| 0 <= i < out.len() implies (#[trigger] out[i]).0 != X by {
            assert(out.contains(out[i]));
            let q = choose|q: int| 0 <= q < b.len() && b[q] == out[i];
            assert(b[q].0 != X);
        }
    }
}

/// Sorting does not change what a variable is bound to.
pub proof fn lemma_sort_lookup(b: Seq<(Var, HNode)>, x: HNode, v: Var)
    requires
        distinct_vars(b),
    ensures
        var_node(v, x, sort_binding(b)) == var_node(v, x, b),
{
    lemma_sort_binding(b);
    if v != X {
        if let Some(n) = var_node(v, x, b) {
            lemma_var_node(b, x, v, n);
            lemma_var_node(sort_binding(b), x, v, n);
        }
        if let Some(n) = var_node(v, x, sort_binding(b)) {
            lemma_var_node(b, x, v, n);
            lemma_var_node(sort_binding(b), x, v, n);
        }
    }
}

/// A further entry for another variable does not change a variable's node.
proof fn lemma_var_node_push(b: Seq<(Var, HNode)>, e: (Var, HNode), x: HNode, v: Var)
    requires
        distinct_vars(b.push(e)),
        distinct_vars(b),
    ensures
        v != e.0 ==> var_node(v, x, b.push(e)) == var_node(v, x, b),
        var_node(v, x, b) matches Some(n) ==> var_node(v, x, b.push(e)) == Some(n),
        var_node(e.0, x, b.push(e)) == Some(e.1),
{
    let c = b.push(e);
    crate::rules_wf::lemma_push_contains(b, e);
    assert(c[b.len() as int] == e);
    lemma_var_node(c, x, e.0, e.1);
    if v != X {
        if let Some(n) = var_node(v, x, b) {
            lemma_var_node(b, x, v, n);
            lemma_var_node(c, x, v, n);
        }
        if let Some(n) = var_node(v, x, c) {
            lemma_var_node(b, x, v, n);
            lemma_var_node(c, x, v, n);
        }
    }
}

/// The first `i` atoms in order have been taken, each with its source bound
/// before and its target new.
pub open spec fn tree_order(atoms: Seq<RoleAtom>, order: Seq<usize>, i: int) -> bool {
    forall|j: int|
        0 <= j < i ==> {
            &&& (#[trigger] order[j]) < atoms.len()
            &&& bound_before(atoms, order, j, atoms[order[j] as int].1)
            &&& !bound_before(atoms, order, j, atoms[order[j] as int].2)
        }
}

/// The variable is `X` or the target of one of the first `j` atoms in order.
pub open spec fn bound_before(atoms: Seq<RoleAtom>, order: Seq<usize>, j: int, v: Var) -> bool {
    v == X || exists|q: int| 0 <= q < j && atoms[#[trigger] order[q] as int].2 == v
}

/// What holds while atoms are ordered.
spec fn order_inv(atoms: Seq<RoleAtom>, st: OrderState) -> bool {
    &&& st.used.len() == atoms.len()
    &&& tree_order(atoms, st.order, st.order.len() as int)
    &&& forall|v: Var|
        st.bound.contains(v) <==> bound_before(atoms, st.order, st.order.len() as int, v)
    &&& forall|j: int| 0 <= j < atoms.len() && st.used[j] ==> st.order.contains(j as usize)
    &&& forall|q: int| 0 <= q < st.order.len() ==> st.used[#[trigger] st.order[q] as int]
    &&& st.order.no_duplicates()
}

proof fn lemma_order_take(atoms: Seq<RoleAtom>, st: OrderState, i: int)
    requires
        order_inv(atoms, st),
        0 <= i < atoms.len() <= usize::MAX,
        !st.used[i],
        st.bound.contains(atoms[i].1),
        !st.bound.contains(atoms[i].2),
    ensures
        order_inv(
            atoms,
            (OrderState {
                bound: st.bound.push(atoms[i].2),
                order: st.order.push(i as usize),
                used: st.used.update(i, true),
            }),
        ),
{
    let st2 = OrderState {
        bound: st.bound.push(atoms[i].2),
        order: st.order.push(i as usize),
        used: st.used.update(i, true),
    };
    let n = st.order.len() as int;
    assert forall|j: int, v: Var| 0 <= j <= n implies bound_before(atoms, st2.order, j, v)
        == bound_before(atoms, st.order, j, v) by {
        if exists|q: int| 0 <= q < j && atoms[#[trigger] st2.order[q] as int].2 == v {
            let q = choose|q: int| 0 <= q < j && atoms[#[trigger] st2.order[q] as int].2 == v;
            assert(st.order[q] == st2.order[q]);
        }
        if exists|q: int| 0 <= q < j && atoms[#[trigger] st.order[q] as int].2 == v {
            let q = choose|q: int| 0 <= q < j && atoms[#[trigger] st.order[q] as int].2 == v;
            assert(st.order[q] == st2.order[q]);
        }
    }
    assert forall|j: int| 0 <= j < st2.order.len() implies {
        &&& (#[trigger] st2.order[j]) < atoms.len()
        &&& bound_before(atoms, st2.order, j, atoms[st2.order[j] as int].1)
        &&& !bound_before(atoms, st2.order, j, atoms[st2.order[j] as int].2)
    } by {
        if j < n {
            assert(st.order[j] < atoms.len());
        }
    }
    crate::rules_wf::lemma_push_contains(st.bound, atoms[i].2);
    crate::rules_wf::lemma_push_contains(st.order, i as usize);
    assert forall|v: Var|
        st2.bound.contains(v) <==> bound_before(atoms, st2.order, st2.order.len() as int, v) by {
        assert(st2.order[n] == i);
        if bound_before(atoms, st.order, n, v) && v != X {
            let q = choose|q: int| 0 <= q < n && atoms[#[trigger] st.order[q] as int].2 == v;
            assert(st2.order[q] == st.order[q]);
        }
        if bound_before(atoms, st2.order, n + 1, v) && v != X {
            let q = choose|q: int| 0 <= q < n + 1 && atoms[#[trigger] st2.order[q] as int].2 == v;
            if q < n {
                assert(st2.order[q] == st.order[q]);
            }
        }
    }
    assert forall|j: int| 0 <= j < atoms.len() && st2.used[j] implies st2.order.contains(
        j as usize,
    ) by {
        if j != i {
            assert(st.used[j]);
        }
    }
    assert forall|q: int| 0 <= q < st2.order.len() implies st2.used[#[trigger] st2.order[q] as int] by {
        if q < n {
            assert(st.used[st.order[q] as int]);
        }
    }
    assert forall|p: int, q: int|
        0 <= p < st2.order.len() && 0 <= q < st2.order.len() && p != q implies st2.order[p]
        != st2.order[q] by {
        if p < n && q == n {
            assert(st.used[st.order[p] as int]);
        }
        if q < n && p == n {
            assert(st.used[st.order[q] as int]);
        }
    }
}

proof fn lemma_order_pass(atoms: Seq<RoleAtom>, i: int, st: OrderState)
    requires
        order_inv(atoms, st),
        0 <= i,
        atoms.len() <= usize::MAX,
    ensures
        order_pass(atoms, i, st) matches Some(st2) ==> order_inv(atoms, st2),
    decreases atoms.len() - i,
{
    if i < atoms.len() {
        if st.used[i] || !st.bound.contains(atoms[i].1) {
            lemma_order_pass(atoms, i + 1, st);
        } else if !st.bound.contains(atoms[i].2) {
            lemma_order_take(atoms, st, i);
            lemma_order_pass(
                atoms,
                i + 1,
                OrderState {
                    bound: st.bound.push(atoms[i].2),
                    order: st.order.push(i as usize),
                    used: st.used.update(i, true),
                },
            );
        }
    }
}

/// A set of different positions below `n` has at most `n` members, and if it
/// has as many it has them all.
proof fn lemma_pigeonhole(order: Seq<usize>, n: nat)
    requires
        order.no_duplicates(),
        forall|q: int| 0 <= q < order.len() ==> #[trigger] order[q] < n,
    ensures
        order.len() <= n,
        order.len() == n ==> forall|j: int| 0 <= j < n ==> order.contains(#[trigger] (j as usize)),
    decreases n,
{
    if n == 0 {
        if order.len() > 0 {
            assert(order[0] < n);
        }
    } else {
        let last = (n - 1) as usize;
        if order.contains(last) {
            let p = choose|p: int| 0 <= p < order.len() && order[p] == last;
            let rest = order.remove(p);
            assert forall|q: int| 0 <= q < rest.len() implies #[trigger] rest[q] < n - 1 by {
                let o = if q < p {
                    q
                } else {
                    q + 1
                };
                assert(rest[q] == order[o]);
                assert(order[o] < n);
                assert(order[o] != order[p]);
            }
            assert(rest.no_duplicates());
            lemma_pigeonhole(rest, (n - 1) as nat);
            if order.len() == n {
                assert forall|j: int| 0 <= j < n implies order.contains(#[trigger] (j as usize)) by {
                    if j < n - 1 {
                        assert(rest.contains(j as usize));
                        let q = choose|q: int| 0 <= q < rest.len() && rest[q] == j as usize;
                        let o = if q < p {
                            q
                        } else {
                            q + 1
                        };
                        assert(order[o] == j as usize);
                    }
                }
            }
        } else {
            assert forall|q: int| 0 <= q < order.len() implies #[trigger] order[q] < n - 1 by {
                assert(order[q] < n);
            }
            lemma_pigeonhole(order, (n - 1) as nat);
        }
    }
}

proof fn lemma_order_rounds(atoms: Seq<RoleAtom>, st: OrderState)
    requires
        order_inv(atoms, st),
        atoms.len() <= usize::MAX,
    ensures
        order_rounds(atoms, st) matches Some(o) ==> {
            &&& tree_order(atoms, o, o.len() as int)
            &&& o.len() == atoms.len()
            &&& forall|j: int| 0 <= j < atoms.len() ==> o.contains(#[trigger] (j as usize))
        },
    decreases untaken(atoms, st),
{
    if st.order.len() >= atoms.len() {
        assert forall|q: int| 0 <= q < st.order.len() implies #[trigger] st.order[q]
            < atoms.len() by {}
        lemma_pigeonhole(st.order, atoms.len());
    } else {
        lemma_order_pass(atoms, 0, st);
        if let Some(st2) = order_pass(atoms, 0, st) {
            if st2.order.len() > st.order.len() {
                lemma_order_rounds(atoms, st2);
            }
        }
    }
}

/// The order found for the role atoms takes each of them once, with its
/// source bound before and its target new.
pub proof fn lemma_order_of(atoms: Seq<RoleAtom>)
    requires
        atoms.len() <= usize::MAX,
    ensures
        order_of(atoms) matches Some(o) ==> {
            &&& tree_order(atoms, o, o.len() as int)
            &&& o.len() == atoms.len()
            &&& forall|j: int| 0 <= j < atoms.len() ==> o.contains(#[trigger] (j as usize))
        },
{
    let st = order_start(atoms.len());
    assert(st.bound[0] == X);
    lemma_order_rounds(atoms, st);
}

/// The variable is reached from `X` by at most `n` role atoms.
pub open spec fn reached(atoms: Seq<RoleAtom>, v: Var, n: nat) -> bool
    decreases n,
{
    v == X || n > 0 && exists|j: int|
        0 <= j < atoms.len() && (#[trigger] atoms[j]).2 == v && reached(
            atoms,
            atoms[j].1,
            (n - 1) as nat,
        )
}

/// The variable is reached from `X` by role atoms.
pub open spec fn reachable(atoms: Seq<RoleAtom>, v: Var) -> bool {
    exists|n: nat| reached(atoms, v, n)
}

/// The role atoms are a tree rooted at `X`: their targets are different and
/// none is `X`, and each source is reached from `X`. With `X` there are at
/// most as many variables as matching supports.
pub open spec fn treelike(atoms: Seq<RoleAtom>) -> bool {
    &&& atoms.len() < MAX_BODY_VARS
    &&& forall|i: int| 0 <= i < atoms.len() ==> (#[trigger] atoms[i]).2 != X
    &&& forall|i: int, j: int|
        0 <= i < j < atoms.len() ==> (#[trigger] atoms[i]).2 != (#[trigger] atoms[j]).2
    &&& forall|i: int| 0 <= i < atoms.len() ==> reachable(atoms, (#[trigger] atoms[i]).1)
}

/// In a tree of which not all atoms are taken, some source of an atom that
/// is not taken is bound.
proof fn lemma_some_ready(atoms: Seq<RoleAtom>, st: OrderState, i: int, n: nat) -> (r: int)
    requires
        order_inv(atoms, st),
        0 <= i < atoms.len() <= usize::MAX,
        !st.used[i],
        reached(atoms, atoms[i].1, n),
    ensures
        0 <= r < atoms.len(),
        !st.used[r],
        st.bound.contains(atoms[r].1),
    decreases n,
{
    let v = atoms[i].1;
    let len = st.order.len() as int;
    if st.bound.contains(v) {
        i
    } else {
        assert(!bound_before(atoms, st.order, len, v));
        let j = choose|j: int|
            0 <= j < atoms.len() && (#[trigger] atoms[j]).2 == v && reached(
                atoms,
                atoms[j].1,
                (n - 1) as nat,
            );
        if st.used[j] {
            assert(st.order.contains(j as usize));
            let q = choose|q: int| 0 <= q < len && st.order[q] == j as usize;
            assert(atoms[st.order[q] as int].2 == v);
        }
        lemma_some_ready(atoms, st, j, (n - 1) as nat)
    }
}

/// What a pass over the atoms of a tree does: it succeeds, and takes an atom
/// whose source is bound.
proof fn lemma_tree_pass(atoms: Seq<RoleAtom>, i: int, st: OrderState)
    requires
        order_inv(atoms, st),
        treelike(atoms),
        0 <= i <= atoms.len(),
        st.bound.len() == st.order.len() + 1,
    ensures
        order_pass(atoms, i, st) matches Some(st2) && {
            &&& order_inv(atoms, st2)
            &&& st2.bound.len() == st2.order.len() + 1
            &&& st2.order.len() >= st.order.len()
            &&& (exists|r: int|
                i <= r < atoms.len() && !st.used[r] && #[trigger] st.bound.contains(atoms[r].1))
                ==> st2.order.len() > st.order.len()
        },
    decreases atoms.len() - i,
{
    if i < atoms.len() {
        if st.used[i] || !st.bound.contains(atoms[i].1) {
            lemma_tree_pass(atoms, i + 1, st);
        } else {
            let len = st.order.len() as int;
            if st.bound.contains(atoms[i].2) {
                assert(bound_before(atoms, st.order, len, atoms[i].2));
                let q = choose|q: int|
                    0 <= q < len && atoms[#[trigger] st.order[q] as int].2 == atoms[i].2;
                assert(st.used[st.order[q] as int]);
                assert(atoms[st.order[q] as int].2 != atoms[i].2);
            }
            let st2 = OrderState {
                bound: st.bound.push(atoms[i].2),
                order: st.order.push(i as usize),
                used: st.used.update(i, true),
            };
            lemma_order_take(atoms, st, i);
            assert forall|q: int| 0 <= q < st2.order.len() implies #[trigger] st2.order[q]
                < atoms.len() by {}
            lemma_pigeonhole(st2.order, atoms.len());
            lemma_tree_pass(atoms, i + 1, st2);
        }
    }
}

proof fn lemma_tree_rounds(atoms: Seq<RoleAtom>, st: OrderState)
    requires
        order_inv(atoms, st),
        treelike(atoms),
        st.bound.len() == st.order.len() + 1,
    ensures
        order_rounds(atoms, st) is Some,
    decreases untaken(atoms, st),
{
    if st.order.len() < atoms.len() {
        if forall|i: int| 0 <= i < atoms.len() ==> #[trigger] st.used[i] {
            lemma_all_taken(atoms, st);
        }
        let i = choose|i: int| 0 <= i < atoms.len() && !#[trigger] st.used[i];
        assert(reachable(atoms, atoms[i].1));
        let n = choose|n: nat| reached(atoms, atoms[i].1, n);
        let r = lemma_some_ready(atoms, st, i, n);
        lemma_tree_pass(atoms, 0, st);
        assert(st.bound.contains(atoms[r].1));
        lemma_tree_rounds(atoms, order_pass(atoms, 0, st)->0);
    }
}

/// If all atoms are taken, the order is as long as they are many.
proof fn lemma_all_taken(atoms: Seq<RoleAtom>, st: OrderState)
    requires
        order_inv(atoms, st),
        atoms.len() <= usize::MAX,
        forall|i: int| 0 <= i < atoms.len() ==> #[trigger] st.used[i],
    ensures
        st.order.len() >= atoms.len(),
{
    let all = Seq::new(atoms.len(), |i: int| i as usize);
    assert(all.no_duplicates());
    assert forall|e: usize| all.to_set().contains(e) implies st.order.to_set().contains(e) by {
        let i = choose|i: int| 0 <= i < all.len() && all[i] == e;
        assert(st.used[i]);
        assert(st.order.contains(i as usize));
    }
    all.unique_seq_to_set();
    st.order.unique_seq_to_set();
    vstd::set_lib::lemma_len_subset(all.to_set(), st.order.to_set());
}

/// Each variable bound in a tree order is reached from `X`.
proof fn lemma_ordered_reached(atoms: Seq<RoleAtom>, o: Seq<usize>, j: int, v: Var) -> (n: nat)
    requires
        tree_order(atoms, o, o.len() as int),
        0 <= j <= o.len(),
        bound_before(atoms, o, j, v),
    ensures
        reached(atoms, v, n),
    decreases j,
{
    if v == X {
        0
    } else {
        let q = choose|q: int| 0 <= q < j && atoms[#[trigger] o[q] as int].2 == v;
        assert(bound_before(atoms, o, q, atoms[o[q] as int].1));
        let n = lemma_ordered_reached(atoms, o, q, atoms[o[q] as int].1);
        assert(atoms[o[q] as int].2 == v);
        n + 1
    }
}

/// An order of the role atoms is found exactly if they are a tree rooted at
/// `X` with no more variables than matching supports.
pub proof fn lemma_order_iff(atoms: Seq<RoleAtom>)
    requires
        atoms.len() <= usize::MAX,
    ensures
        order_of(atoms) is Some <==> treelike(atoms),
        order_of(atoms) is Some <==> {
            &&& atoms.len() <= 7
            &&& forall|i: int| 0 <= i < atoms.len() ==> (#[trigger] atoms[i]).2 != X
            &&& forall|i: int, j: int|
                0 <= i < j < atoms.len() ==> (#[trigger] atoms[i]).2 != (#[trigger] atoms[j]).2
            &&& forall|i: int|
                0 <= i < atoms.len() ==> reachable(atoms, (#[trigger] atoms[i]).1)
        },
{
    let st = order_start(atoms.len());
    assert(st.bound[0] == X);
    if treelike(atoms) {
        lemma_tree_rounds(atoms, st);
    }
    if let Some(o) = order_of(atoms) {
        lemma_order_of(atoms);
        lemma_order_short(atoms, st);
        assert forall|i: int, j: int| 0 <= i < j < atoms.len() implies (#[trigger] atoms[i]).2 != (
        #[trigger] atoms[j]).2 by {
            assert(o.contains(i as usize) && o.contains(j as usize));
            let p = choose|p: int| 0 <= p < o.len() && o[p] == i as usize;
            let q = choose|q: int| 0 <= q < o.len() && o[q] == j as usize;
            assert(!bound_before(atoms, o, p, atoms[o[p] as int].2));
            assert(!bound_before(atoms, o, q, atoms[o[q] as int].2));
        }
        assert forall|i: int| 0 <= i < atoms.len() implies (#[trigger] atoms[i]).2 != X by {
            assert(o.contains(i as usize));
            let p = choose|p: int| 0 <= p < o.len() && o[p] == i as usize;
            assert(!bound_before(atoms, o, p, atoms[o[p] as int].2));
        }
        assert forall|i: int| 0 <= i < atoms.len() implies reachable(
            atoms,
            (#[trigger] atoms[i]).1,
        ) by {
            assert(o.contains(i as usize));
            let p = choose|p: int| 0 <= p < o.len() && o[p] == i as usize;
            assert(bound_before(atoms, o, p, atoms[o[p] as int].1));
            let n = lemma_ordered_reached(atoms, o, p, atoms[i].1);
        }
    }
}

/// A pass takes no more atoms than there may be variables.
proof fn lemma_order_pass_short(atoms: Seq<RoleAtom>, i: int, st: OrderState)
    requires
        0 <= i,
        st.bound.len() == st.order.len() + 1,
        st.bound.len() <= MAX_BODY_VARS,
    ensures
        order_pass(atoms, i, st) matches Some(st2) ==> st2.bound.len() == st2.order.len() + 1
            && st2.bound.len() <= MAX_BODY_VARS,
    decreases atoms.len() - i,
{
    if i < atoms.len() {
        if st.used[i] || !st.bound.contains(atoms[i].1) {
            lemma_order_pass_short(atoms, i + 1, st);
        } else if !st.bound.contains(atoms[i].2) && st.bound.len() < MAX_BODY_VARS {
            lemma_order_pass_short(
                atoms,
                i + 1,
                OrderState {
                    bound: st.bound.push(atoms[i].2),
                    order: st.order.push(i as usize),
                    used: st.used.update(i, true),
                },
            );
        }
    }
}

proof fn lemma_order_short(atoms: Seq<RoleAtom>, st: OrderState)
    requires
        st.bound.len() == st.order.len() + 1,
        st.bound.len() <= MAX_BODY_VARS,
    ensures
        order_rounds(atoms, st) matches Some(o) ==> o.len() < MAX_BODY_VARS,
    decreases untaken(atoms, st),
{
    if st.order.len() < atoms.len() {
        lemma_order_pass_short(atoms, 0, st);
        if let Some(st2) = order_pass(atoms, 0, st) {
            if st2.order.len() > st.order.len() {
                lemma_order_short(atoms, st2);
            }
        }
    }
}

/// The role atom holds in the graph under the binding.
pub open spec fn link_holds(
    nodes: Seq<NodeView>,
    h: Option<HierarchyView>,
    at: RoleAtom,
    x: HNode,
    b: Seq<(Var, HNode)>,
) -> bool {
    atom_holds(nodes, h, Atom::Role(at.0, at.1, at.2), x, b)
}

/// The binding covers the first `i` role atoms in order, and they hold.
spec fn partial(
    nodes: Seq<NodeView>,
    h: Option<HierarchyView>,
    x: HNode,
    p: PlanView,
    i: int,
    b: Seq<(Var, HNode)>,
) -> bool {
    &&& 0 <= i <= p.order.len()
    &&& b.len() == i
    &&& distinct_vars(b)
    &&& forall|j: int| 0 <= j < i ==> (#[trigger] b[j]).0 == p.roles[p.order[j] as int].2
    &&& forall|j: int|
        0 <= j < i ==> link_holds(nodes, h, p.roles[#[trigger] p.order[j] as int], x, b)
}

/// Role and class atoms of the plan hold under the binding.
pub open spec fn plan_holds(
    nodes: Seq<NodeView>,
    h: Option<HierarchyView>,
    x: HNode,
    p: PlanView,
    b: Seq<(Var, HNode)>,
) -> bool {
    &&& forall|j: int| 0 <= j < p.roles.len() ==> link_holds(nodes, h, #[trigger] p.roles[j], x, b)
    &&& classes_hold(nodes, p.classes, x, b)
}

/// The plan takes every role atom, in tree order.
pub open spec fn plan_full(p: PlanView) -> bool {
    &&& tree_order(p.roles, p.order, p.order.len() as int)
    &&& p.order.len() == p.roles.len()
    &&& forall|j: int| 0 <= j < p.roles.len() ==> p.order.contains(#[trigger] (j as usize))
    &&& p.roles.len() <= usize::MAX
}

/// Taking the next role atom to a node that it leads to.
proof fn lemma_partial_push(
    nodes: Seq<NodeView>,
    h: Option<HierarchyView>,
    x: HNode,
    p: PlanView,
    i: int,
    b: Seq<(Var, HNode)>,
    src: HNode,
    m: HNode,
)
    requires
        plan_full(p),
        partial(nodes, h, x, p, i, b),
        i < p.order.len(),
        var_node(p.roles[p.order[i] as int].1, x, b) == Some(src),
        leads(nodes[src.at()], h, p.roles[p.order[i] as int].0, m),
    ensures
        partial(nodes, h, x, p, i + 1, b.push((p.roles[p.order[i] as int].2, m))),
{
    let at = p.roles[p.order[i] as int];
    let e = (at.2, m);
    let c = b.push(e);
    assert(p.order[i] < p.roles.len());
    assert(!bound_before(p.roles, p.order, i, at.2));
    assert forall|j: int| 0 <= j < i implies (#[trigger] b[j]).0 != at.2 by {
        assert(p.roles[p.order[j] as int].2 == b[j].0);
    }
    assert(distinct_vars(c)) by {
        assert forall|q: int, j: int| 0 <= q < j < c.len() implies c[q].0 != c[j].0 by {
            if j == i {
                assert(b[q].0 != at.2);
            }
        }
        assert forall|j: int| 0 <= j < c.len() implies (#[trigger] c[j]).0 != X by {
            if j < i {
                assert(b[j].0 != X);
            }
        }
    }
    lemma_var_node_push(b, e, x, at.1);
    assert forall|j: int| 0 <= j < i + 1 implies link_holds(
        nodes,
        h,
        p.roles[#[trigger] p.order[j] as int],
        x,
        c,
    ) by {
        let aj = p.roles[p.order[j] as int];
        if j < i {
            assert(link_holds(nodes, h, aj, x, b));
            lemma_var_node_push(b, e, x, aj.1);
            lemma_var_node_push(b, e, x, aj.2);
        }
    }
}

proof fn lemma_partial_full(
    nodes: Seq<NodeView>,
    h: Option<HierarchyView>,
    x: HNode,
    p: PlanView,
    b: Seq<(Var, HNode)>,
)
    requires
        plan_full(p),
        partial(nodes, h, x, p, p.order.len() as int, b),
        classes_hold(nodes, p.classes, x, b),
    ensures
        plan_holds(nodes, h, x, p, sort_binding(b)),
        distinct_vars(sort_binding(b)),
{
    let c = sort_binding(b);
    lemma_sort_binding(b);
    assert forall|j: int| 0 <= j < p.roles.len() implies link_holds(
        nodes,
        h,
        #[trigger] p.roles[j],
        x,
        c,
    ) by {
        assert(p.order.contains(j as usize));
        let q = choose|q: int| 0 <= q < p.order.len() && p.order[q] == j as usize;
        let at = p.roles[p.order[q] as int];
        assert(link_holds(nodes, h, at, x, b));
        lemma_sort_lookup(b, x, at.1);
        lemma_sort_lookup(b, x, at.2);
    }
    assert forall|i: int| 0 <= i < p.classes.len() implies (var_node(
        (#[trigger] p.classes[i]).1,
        x,
        c,
    ) matches Some(m) && nodes[m.at()].has(p.classes[i].0)) by {
        lemma_sort_lookup(b, x, p.classes[i].1);
    }
}

proof fn lemma_matches_from_sound(
    nodes: Seq<NodeView>,
    h: Option<HierarchyView>,
    x: HNode,
    p: PlanView,
    i: int,
    b: Seq<(Var, HNode)>,
    out: Seq<(Var, HNode)>,
)
    requires
        plan_full(p),
        partial(nodes, h, x, p, i, b),
        matches_from(nodes, h, x, p, i, b).contains(out),
    ensures
        plan_holds(nodes, h, x, p, out),
        distinct_vars(out),
    decreases 2 * (p.order.len() - i) + 1, 0int,
{
    if i >= p.order.len() {
        lemma_partial_full(nodes, h, x, p, b);
    } else {
        let (role, u, v) = p.roles[p.order[i] as int];
        let src = var_node(u, x, b)->0;
        lemma_matches_over_sound(
            nodes,
            h,
            x,
            p,
            i,
            b,
            targets(nodes[src.at()], h, role),
            0,
            out,
        );
    }
}

proof fn lemma_matches_over_sound(
    nodes: Seq<NodeView>,
    h: Option<HierarchyView>,
    x: HNode,
    p: PlanView,
    i: int,
    b: Seq<(Var, HNode)>,
    ts: Seq<HNode>,
    j: int,
    out: Seq<(Var, HNode)>,
)
    requires
        plan_full(p),
        partial(nodes, h, x, p, i, b),
        i < p.order.len(),
        0 <= j,
        var_node(p.roles[p.order[i] as int].1, x, b) matches Some(src) && ts == targets(
            nodes[src.at()],
            h,
            p.roles[p.order[i] as int].0,
        ),
        matches_over(nodes, h, x, p, i, b, p.roles[p.order[i] as int].2, ts, j).contains(out),
    ensures
        plan_holds(nodes, h, x, p, out),
        distinct_vars(out),
    decreases 2 * (p.order.len() - i), ts.len() - j,
{
    let (role, u, v) = p.roles[p.order[i] as int];
    let src = var_node(u, x, b)->0;
    if j < ts.len() {
        let m = ts[j];
        let these = matches_from(nodes, h, x, p, i + 1, b.push((v, m)));
        let rest = matches_over(nodes, h, x, p, i, b, v, ts, j + 1);
        let all = these + rest;
        let q = choose|q: int| 0 <= q < all.len() && all[q] == out;
        if q < these.len() {
            assert(these[q] == out);
            assert(ts.contains(m));
            lemma_targets(nodes[src.at()], h, role, m);
            lemma_partial_push(nodes, h, x, p, i, b, src, m);
            lemma_matches_from_sound(nodes, h, x, p, i + 1, b.push((v, m)), out);
        } else {
            assert(rest[q - these.len()] == out);
            lemma_matches_over_sound(nodes, h, x, p, i, b, ts, j + 1, out);
        }
    }
}

/// What a scan keeps of the atoms before `i`.
pub open spec fn scanned(
    body: Seq<Atom>,
    i: int,
    roles: Seq<RoleAtom>,
    classes: Seq<(ClassId, Var)>,
) -> bool {
    forall|q: int|
        0 <= q < i ==> match #[trigger] body[q] {
            Atom::Class(c, v) => v == X || classes.contains((c, v)),
            Atom::Role(r, u, v) => roles.contains((r, u, v)),
            _ => false,
        }
}

/// Nothing but the atoms before `i` is kept.
pub open spec fn scanned_only(
    body: Seq<Atom>,
    i: int,
    roles: Seq<RoleAtom>,
    classes: Seq<(ClassId, Var)>,
) -> bool {
    &&& roles.len() <= i
    &&& forall|j: int|
        0 <= j < roles.len() ==> exists|q: int|
            0 <= q < i && #[trigger] body[q] == Atom::Role(
                (#[trigger] roles[j]).0,
                roles[j].1,
                roles[j].2,
            )
    &&& forall|j: int|
        0 <= j < classes.len() ==> (#[trigger] classes[j]).1 != X && exists|q: int|
            0 <= q < i && #[trigger] body[q] == Atom::Class(classes[j].0, classes[j].1)
}

pub proof fn lemma_scan(
    body: Seq<Atom>,
    i: int,
    roles: Seq<RoleAtom>,
    classes: Seq<(ClassId, Var)>,
)
    requires
        0 <= i <= body.len(),
        scanned(body, i, roles, classes),
        scanned_only(body, i, roles, classes),
    ensures
        match scan_from(body, i, roles, classes) {
            Some((rs, cs)) => scanned(body, body.len() as int, rs, cs) && scanned_only(
                body,
                body.len() as int,
                rs,
                cs,
            ),
            None => exists|q: int|
                0 <= q < body.len() && !((#[trigger] body[q]) is Class) && !(body[q] is Role),
        },
    decreases body.len() - i,
{
    if i < body.len() {
        match body[i] {
            Atom::Class(c, v) => {
                if v == X {
                    assert(scanned_only(body, i + 1, roles, classes));
                    lemma_scan(body, i + 1, roles, classes);
                } else {
                    crate::rules_wf::lemma_push_contains(classes, (c, v));
                    let cs = classes.push((c, v));
                    assert forall|j: int| 0 <= j < cs.len() implies (#[trigger] cs[j]).1 != X
                        && exists|q: int|
                        0 <= q < i + 1 && #[trigger] body[q] == Atom::Class(cs[j].0, cs[j].1) by {
                        if j < classes.len() {
                            assert(classes[j].1 != X);
                            let q = choose|q: int|
                                0 <= q < i && #[trigger] body[q] == Atom::Class(
                                    classes[j].0,
                                    classes[j].1,
                                );
                            assert(body[q] == Atom::Class(cs[j].0, cs[j].1));
                        } else {
                            assert(body[i] == Atom::Class(cs[j].0, cs[j].1));
                        }
                    }
                    assert(scanned_only(body, i + 1, roles, cs));
                    lemma_scan(body, i + 1, roles, cs);
                }
            },
            Atom::Role(r, u, v) => {
                crate::rules_wf::lemma_push_contains(roles, (r, u, v));
                let rs = roles.push((r, u, v));
                assert forall|j: int| 0 <= j < rs.len() implies exists|q: int|
                    0 <= q < i + 1 && #[trigger] body[q] == Atom::Role(
                        (#[trigger] rs[j]).0,
                        rs[j].1,
                        rs[j].2,
                    ) by {
                    if j < roles.len() {
                        let q = choose|q: int|
                            0 <= q < i && #[trigger] body[q] == Atom::Role(
                                roles[j].0,
                                roles[j].1,
                                roles[j].2,
                            );
                        assert(body[q] == Atom::Role(rs[j].0, rs[j].1, rs[j].2));
                    } else {
                        assert(body[i] == Atom::Role(rs[j].0, rs[j].1, rs[j].2));
                    }
                }
                assert(scanned_only(body, i + 1, rs, classes));
                lemma_scan(body, i + 1, rs, classes);
            },
            _ => {},
        }
    }
}

/// Which bodies are supported: those of class and role atoms alone, whose
/// role atoms are a tree rooted at `X`, with class atoms on variables of the
/// tree only. Nothing else decides whether a body can be matched.
pub proof fn lemma_shape_iff(body: Seq<Atom>)
    requires
        body.len() <= usize::MAX,
    ensures
        scan_from(body, 0, Seq::empty(), Seq::empty()) is Some <==> forall|q: int|
            0 <= q < body.len() ==> #[trigger] body[q] is Class || body[q] is Role,
        plan_of(body) is Some <==> (scan_from(body, 0, Seq::empty(), Seq::empty()) matches Some((
            roles,
            classes,
        )) && treelike(roles) && classes_reached(roles, classes)),
        forall|nodes: Seq<NodeView>, h: Option<HierarchyView>, x: HNode|
            (#[trigger] matches_of(nodes, h, body, x)) is Some <==> plan_of(body) is Some,
{
    lemma_scan(body, 0, Seq::empty(), Seq::empty());
    if let Some((roles, classes)) = scan_from(body, 0, Seq::empty(), Seq::empty()) {
        lemma_order_iff(roles);
    }
}

/// Every match found makes all atoms of the body hold.
pub proof fn lemma_matches_sound(
    nodes: Seq<NodeView>,
    h: Option<HierarchyView>,
    body: Seq<Atom>,
    x: HNode,
    b: Seq<(Var, HNode)>,
)
    requires
        body.len() <= usize::MAX,
        matches_of(nodes, h, body, x) matches Some(bs) && bs.contains(b),
    ensures
        body_holds(nodes, h, body, x, b),
        distinct_vars(b),
{
    lemma_scan(body, 0, Seq::empty(), Seq::empty());
    if let Some(p) = plan_of(body) {
        let roles = p.roles;
        let classes = p.classes;
        lemma_order_of(roles);
        lemma_matches_from_sound(nodes, h, x, p, 0, Seq::empty(), b);
        assert forall|q: int| 0 <= q < body.len() implies atom_holds(
            nodes,
            h,
            #[trigger] body[q],
            x,
            b,
        ) by {
            match body[q] {
                Atom::Class(c, v) => {
                    if v != X {
                        assert(classes.contains((c, v)));
                        let j = choose|j: int| 0 <= j < classes.len() && classes[j] == (c, v);
                        assert(classes[j].1 == v);
                    }
                },
                Atom::Role(r, u, v) => {
                    assert(roles.contains((r, u, v)));
                    let j = choose|j: int| 0 <= j < roles.len() && roles[j] == (r, u, v);
                    assert(link_holds(nodes, h, roles[j], x, b));
                },
                _ => {},
            }
        }
    }
}

/// Two bindings by increasing variable with the same entries are the same.
proof fn lemma_increasing_unique(a: Seq<(Var, HNode)>, b: Seq<(Var, HNode)>)
    requires
        increasing_vars(a),
        increasing_vars(b),
        forall|f: (Var, HNode)| a.contains(f) <==> b.contains(f),
    ensures
        a == b,
    decreases a.len(),
{
    lemma_same_len(a, b);
    if a.len() > 0 {
        let n = a.len() - 1;
        let (la, lb) = (a.last(), b.last());
        assert(a.contains(la) && b.contains(lb));
        let p = choose|p: int| 0 <= p < b.len() && b[p] == la;
        let q = choose|q: int| 0 <= q < a.len() && a[q] == lb;
        if p < n {
            assert(b[p].0 < b[n].0);
            if q < n {
                assert(a[q].0 < a[n].0);
            }
        }
        assert(la == lb);
        let (ra, rb) = (a.drop_last(), b.drop_last());
        assert forall|f: (Var, HNode)| ra.contains(f) <==> rb.contains(f) by {
            if ra.contains(f) {
                let j = choose|j: int| 0 <= j < ra.len() && ra[j] == f;
                assert(a[j] == f && a[j].0 < a[n].0);
                assert(b.contains(f));
                let m = choose|m: int| 0 <= m < b.len() && b[m] == f;
                assert(m != n);
                assert(rb[m] == f);
            }
            if rb.contains(f) {
                let j = choose|j: int| 0 <= j < rb.len() && rb[j] == f;
                assert(b[j] == f && b[j].0 < b[n].0);
                assert(a.contains(f));
                let m = choose|m: int| 0 <= m < a.len() && a[m] == f;
                assert(m != n);
                assert(ra[m] == f);
            }
        }
        lemma_increasing_unique(ra, rb);
        assert(a =~= ra.push(la));
        assert(b =~= rb.push(lb));
    }
}

/// Every variable bound is the target of a role atom.
pub open spec fn targeted(roles: Seq<RoleAtom>, b: Seq<(Var, HNode)>) -> bool {
    forall|m: int|
        0 <= m < b.len() ==> exists|j: int|
            0 <= j < roles.len() && (#[trigger] roles[j]).2 == (#[trigger] b[m]).0
}

/// The entries of `b` are those of `full` for the first `i` role atoms.
spec fn along(p: PlanView, i: int, b: Seq<(Var, HNode)>, full: Seq<(Var, HNode)>) -> bool {
    &&& 0 <= i <= p.order.len()
    &&& b.len() == i
    &&& distinct_vars(b)
    &&& forall|j: int|
        0 <= j < i ==> full.contains(#[trigger] b[j]) && b[j].0 == p.roles[p.order[j] as int].2
}

proof fn lemma_along_lookup(
    p: PlanView,
    i: int,
    x: HNode,
    b: Seq<(Var, HNode)>,
    full: Seq<(Var, HNode)>,
    v: Var,
)
    requires
        along(p, i, b, full),
        distinct_vars(full),
        bound_before(p.roles, p.order, i, v),
    ensures
        var_node(v, x, b) == var_node(v, x, full),
        var_node(v, x, b) is Some,
{
    if v != X {
        let q = choose|q: int| 0 <= q < i && p.roles[#[trigger] p.order[q] as int].2 == v;
        let e = b[q];
        assert(full.contains(e));
        assert(e.0 == v);
        lemma_var_node(b, x, v, e.1);
        lemma_var_node(full, x, v, e.1);
        assert(b.contains(e));
        assert(e == (v, e.1));
    }
}

proof fn lemma_matches_from_complete(
    nodes: Seq<NodeView>,
    h: Option<HierarchyView>,
    x: HNode,
    p: PlanView,
    i: int,
    b: Seq<(Var, HNode)>,
    full: Seq<(Var, HNode)>,
)
    requires
        plan_full(p),
        along(p, i, b, full),
        distinct_vars(full),
        increasing_vars(full),
        targeted(p.roles, full),
        plan_holds(nodes, h, x, p, full),
        forall|j: int| 0 <= j < p.classes.len() ==> (#[trigger] p.classes[j]).1 != X,
    ensures
        matches_from(nodes, h, x, p, i, b).contains(full),
    decreases p.order.len() - i,
{
    if i >= p.order.len() {
        lemma_sort_binding(b);
        let c = sort_binding(b);
        assert forall|f: (Var, HNode)| c.contains(f) implies full.contains(f) by {
            assert(b.contains(f));
            let j = choose|j: int| 0 <= j < b.len() && b[j] == f;
            assert(full.contains(b[j]));
        }
        assert forall|f: (Var, HNode)| full.contains(f) implies c.contains(f) by {
            let m = choose|m: int| 0 <= m < full.len() && full[m] == f;
            let j = choose|j: int| 0 <= j < p.roles.len() && (#[trigger] p.roles[j]).2 == full[m].0;
            assert(p.order.contains(j as usize));
            let q = choose|q: int| 0 <= q < p.order.len() && p.order[q] == j as usize;
            assert(full.contains(b[q]));
            let m2 = choose|m2: int| 0 <= m2 < full.len() && full[m2] == b[q];
            if m < m2 {
                assert(full[m].0 != full[m2].0);
            }
            if m2 < m {
                assert(full[m2].0 != full[m].0);
            }
            assert(b.contains(b[q]));
        }
        lemma_increasing_unique(c, full);
        assert(classes_hold(nodes, p.classes, x, b)) by {
            assert forall|j: int| 0 <= j < p.classes.len() implies (var_node(
                (#[trigger] p.classes[j]).1,
                x,
                b,
            ) matches Some(m) && nodes[m.at()].has(p.classes[j].0)) by {
                lemma_sort_lookup(b, x, p.classes[j].1);
            }
        }
        assert(matches_from(nodes, h, x, p, i, b)[0] == full);
    } else {
        let at = p.roles[p.order[i] as int];
        let (role, u, v) = at;
        assert(p.order[i] < p.roles.len());
        assert(link_holds(nodes, h, at, x, full));
        lemma_along_lookup(p, i, x, b, full, u);
        let src = var_node(u, x, b)->0;
        let m = var_node(v, x, full)->0;
        assert(!bound_before(p.roles, p.order, i, v));
        let ts = targets(nodes[src.at()], h, role);
        lemma_targets(nodes[src.at()], h, role, m);
        let j = choose|j: int| 0 <= j < ts.len() && ts[j] == m;
        let b1 = b.push((v, m));
        lemma_var_node(full, x, v, m);
        assert(along(p, i + 1, b1, full)) by {
            assert forall|q: int| 0 <= q < i implies (#[trigger] b[q]).0 != v by {
                assert(p.roles[p.order[q] as int].2 == b[q].0);
            }
            assert forall|q: int| 0 <= q < b1.len() implies (#[trigger] b1[q]).0 != X by {
                if q < i {
                    assert(b[q].0 != X);
                }
            }
        }
        lemma_matches_from_complete(nodes, h, x, p, i + 1, b1, full);
        lemma_matches_over_has(nodes, h, x, p, i, b, v, ts, 0, j, full);
    }
}

proof fn lemma_matches_over_has(
    nodes: Seq<NodeView>,
    h: Option<HierarchyView>,
    x: HNode,
    p: PlanView,
    i: int,
    b: Seq<(Var, HNode)>,
    v: Var,
    ts: Seq<HNode>,
    q: int,
    j: int,
    full: Seq<(Var, HNode)>,
)
    requires
        0 <= q <= j < ts.len(),
        0 <= i < p.order.len(),
        matches_from(nodes, h, x, p, i + 1, b.push((v, ts[j]))).contains(full),
    ensures
        matches_over(nodes, h, x, p, i, b, v, ts, q).contains(full),
    decreases j - q,
{
    let these = matches_from(nodes, h, x, p, i + 1, b.push((v, ts[q])));
    let rest = matches_over(nodes, h, x, p, i, b, v, ts, q + 1);
    let all = these + rest;
    if q == j {
        let m = choose|m: int| 0 <= m < these.len() && these[m] == full;
        assert(all[m] == full);
    } else {
        lemma_matches_over_has(nodes, h, x, p, i, b, v, ts, q + 1, j, full);
        let m = choose|m: int| 0 <= m < rest.len() && rest[m] == full;
        assert(all[these.len() + m] == full);
    }
}

/// Two bindings by increasing variable with the same entries have the same
/// length.
proof fn lemma_same_len(a: Seq<(Var, HNode)>, b: Seq<(Var, HNode)>)
    requires
        increasing_vars(a),
        increasing_vars(b),
        forall|f: (Var, HNode)| a.contains(f) <==> b.contains(f),
    ensures
        a.len() == b.len(),
{
    assert(a.no_duplicates());
    assert(b.no_duplicates());
    a.unique_seq_to_set();
    b.unique_seq_to_set();
    assert(a.to_set() =~= b.to_set());
}

/// No match is missed: a binding by increasing variable, each of them the
/// target of a role atom, under which all atoms of a supported body hold, is
/// found.
pub proof fn lemma_matches_complete(
    nodes: Seq<NodeView>,
    h: Option<HierarchyView>,
    body: Seq<Atom>,
    x: HNode,
    b: Seq<(Var, HNode)>,
)
    requires
        body.len() <= usize::MAX,
        matches_of(nodes, h, body, x) is Some,
        body_holds(nodes, h, body, x, b),
        distinct_vars(b),
        increasing_vars(b),
        forall|m: int|
            0 <= m < b.len() ==> exists|q: int|
                0 <= q < body.len() && (#[trigger] body[q] matches Atom::Role(r, u, v) && v
                    == (#[trigger] b[m]).0),
    ensures
        matches_of(nodes, h, body, x) matches Some(bs) && bs.contains(b),
{
    lemma_scan(body, 0, Seq::empty(), Seq::empty());
    let p = plan_of(body)->0;
    let roles = p.roles;
    let classes = p.classes;
    lemma_order_of(roles);
    assert forall|q: int| 0 <= q < body.len() implies (#[trigger] body[q] matches Atom::Class(
        c,
        v,
    ) ==> v == X ==> nodes[x.at()].has(c)) by {
        assert(atom_holds(nodes, h, body[q], x, b));
    }
    assert forall|j: int| 0 <= j < roles.len() implies link_holds(
        nodes,
        h,
        #[trigger] roles[j],
        x,
        b,
    ) by {
        let q = choose|q: int|
            0 <= q < body.len() && #[trigger] body[q] == Atom::Role(
                roles[j].0,
                roles[j].1,
                roles[j].2,
            );
        assert(atom_holds(nodes, h, body[q], x, b));
    }
    assert forall|j: int| 0 <= j < classes.len() implies (var_node(
        (#[trigger] classes[j]).1,
        x,
        b,
    ) matches Some(m) && nodes[m.at()].has(classes[j].0)) by {
        let q = choose|q: int|
            0 <= q < body.len() && #[trigger] body[q] == Atom::Class(
                classes[j].0,
                classes[j].1,
            );
        assert(atom_holds(nodes, h, body[q], x, b));
    }
    assert forall|m: int| 0 <= m < b.len() implies exists|j: int|
        0 <= j < roles.len() && (#[trigger] roles[j]).2 == (#[trigger] b[m]).0 by {
        let q = choose|q: int|
            0 <= q < body.len() && (#[trigger] body[q] matches Atom::Role(r, u, v) && v
                == b[m].0);
        if let Atom::Role(r, u, v) = body[q] {
            assert(roles.contains((r, u, v)));
            let j = choose|j: int| 0 <= j < roles.len() && roles[j] == (r, u, v);
            assert(roles[j].2 == b[m].0);
        }
    }
    lemma_matches_from_complete(nodes, h, x, p, 0, Seq::empty(), b);
}

/// A match stays a match when the graph grows.
pub proof fn lemma_body_holds_grows(
    g0: Graph,
    g1: Graph,
    h: Option<HierarchyView>,
    body: Seq<Atom>,
    x: HNode,
    b: Seq<(Var, HNode)>,
)
    requires
        grows(g0, g1),
        g0.valid(x),
        crate::matching::binding_valid(b, g0.nodes.len() as int),
        body_holds(g0.nodes, h, body, x, b),
    ensures
        body_holds(g1.nodes, h, body, x, b),
{
    assert forall|i: int| 0 <= i < body.len() implies atom_holds(
        g1.nodes,
        h,
        #[trigger] body[i],
        x,
        b,
    ) by {
        assert(atom_holds(g0.nodes, h, body[i], x, b));
        match body[i] {
            Atom::Class(c, v) => {
                crate::matching::lemma_var_node_valid(v, x, b, g0.nodes.len() as int);
                let m = var_node(v, x, b)->0;
                assert(node_grows(g0.nodes[m.at()], g1.nodes[m.at()]));
            },
            Atom::Role(r, u, v) => {
                crate::matching::lemma_var_node_valid(u, x, b, g0.nodes.len() as int);
                let a = var_node(u, x, b)->0;
                let m = var_node(v, x, b)->0;
                assert(node_grows(g0.nodes[a.at()], g1.nodes[a.at()]));
                let (n0, n1) = (g0.nodes[a.at()], g1.nodes[a.at()]);
                if exists|q: Role| #[trigger] n0.edges.contains((q, m)) && role_sat(q, r, h) {
                    let q = choose|q: Role| #[trigger] n0.edges.contains((q, m)) && role_sat(q, r, h);
                    assert(n1.edges.contains((q, m)));
                } else {
                    let q = choose|q: Role| #[trigger]
                        n0.preds.contains((q, m)) && role_sat(q.flipped(), r, h);
                    assert(n1.preds.contains((q, m)));
                }
            },
            _ => {},
        }
    }
}

} // verus!
