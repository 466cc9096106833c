//! Matching clause bodies against the graph.
//!
//! A body is a tree of variables rooted at the central variable `X`: each
//! other variable is the target of one role atom, whose source is bound
//! before it. A match binds every variable to a node so that all atoms hold.

use vstd::prelude::*;
use crate::clause::{
    hierarchy_view, role_matches, role_sat, Atom, HierarchyView, RoleHierarchy, Var, X,
};
use crate::ids::{ClassId, HNode, Role};
use crate::node::{HyperNode, NodeView};
use crate::util::filled;

verus! {

/// The variables other than `X`, each with its node, by increasing variable.
pub type Binding = Vec<(Var, HNode)>;

/// Bodies with more variables than this are not supported.
pub const MAX_BODY_VARS: usize = 8;

/// A role atom of a body.
pub type RoleAtom = (Role, Var, Var);

/// The node that `b` gives to `v`, looking from position `i` on.
pub open spec fn lookup_from(b: Seq<(Var, HNode)>, i: int, v: Var) -> Option<HNode>
    decreases b.len() - i,
{
    if i < 0 || i >= b.len() {
        None
    } else if b[i].0 == v {
        Some(b[i].1)
    } else {
        lookup_from(b, i + 1, v)
    }
}

/// The node of variable `v`: the match root for `X`, else as bound.
pub open spec fn var_node(v: Var, x: HNode, b: Seq<(Var, HNode)>) -> Option<HNode> {
    if v == X {
        Some(x)
    } else {
        lookup_from(b, 0, v)
    }
}

/// No variable is bound twice, and `X` is not bound.
pub open spec fn distinct_vars(b: Seq<(Var, HNode)>) -> bool {
    &&& forall|i: int, j: int| 0 <= i < j < b.len() ==> b[i].0 != b[j].0
    &&& forall|i: int| 0 <= i < b.len() ==> (#[trigger] b[i]).0 != X
}

/// Nodes are well formed and refer to nodes of the table only.
pub open spec fn table_wf(nodes: Seq<NodeView>) -> bool {
    forall|i: int|
        0 <= i < nodes.len() ==> {
            &&& (#[trigger] nodes[i]).wf()
            &&& forall|j: int| 0 <= j < nodes[i].edges.len() ==> (#[trigger] nodes[i].edges[j]).1.at() < nodes.len()
            &&& forall|j: int| 0 <= j < nodes[i].preds.len() ==> (#[trigger] nodes[i].preds[j]).1.at() < nodes.len()
        }
}

/// Scans the body from atom `i` on, after `roles` and `classes`: its role
/// atoms, and its class atoms on variables other than `X`. `None` if it has
/// an atom that bodies do not have.
pub open spec fn scan_from(
    body: Seq<Atom>,
    i: int,
    roles: Seq<RoleAtom>,
    classes: Seq<(ClassId, Var)>,
) -> Option<(Seq<RoleAtom>, Seq<(ClassId, Var)>)>
    decreases body.len() - i,
{
    if i < 0 || i >= body.len() {
        Some((roles, classes))
    } else {
        match body[i] {
            Atom::Class(c, v) => if v == X {
                scan_from(body, i + 1, roles, classes)
            } else {
                scan_from(body, i + 1, roles, classes.push((c, v)))
            },
            Atom::Role(r, u, v) => scan_from(body, i + 1, roles.push((r, u, v)), classes),
            _ => None,
        }
    }
}

/// Progress of ordering the role atoms: the bound variables, the positions
/// in the order they are taken, and which are taken.
#[verifier::ext_equal]
pub struct OrderState {
    pub bound: Seq<Var>,
    pub order: Seq<usize>,
    pub used: Seq<bool>,
}

/// One pass over the atoms from `i` on: takes each whose source is bound.
/// `None` if the target is bound already or there are too many variables.
pub open spec fn order_pass(atoms: Seq<RoleAtom>, i: int, st: OrderState) -> Option<OrderState>
    decreases atoms.len() - i,
{
    if i < 0 || i >= atoms.len() {
        Some(st)
    } else if st.used[i] || !st.bound.contains(atoms[i].1) {
        order_pass(atoms, i + 1, st)
    } else if st.bound.contains(atoms[i].2) {
        None
    } else {
        let st2 = OrderState {
            bound: st.bound.push(atoms[i].2),
            order: st.order.push(i as usize),
            used: st.used.update(i, true),
        };
        if st2.bound.len() > MAX_BODY_VARS {
            None
        } else {
            order_pass(atoms, i + 1, st2)
        }
    }
}

/// How many atoms are not taken yet.
pub open spec fn untaken(atoms: Seq<RoleAtom>, st: OrderState) -> nat {
    if st.order.len() < atoms.len() {
        (atoms.len() - st.order.len()) as nat
    } else {
        0
    }
}

/// Passes over the atoms until all are taken; `None` if one is stuck.
pub open spec fn order_rounds(atoms: Seq<RoleAtom>, st: OrderState) -> Option<Seq<usize>>
    decreases untaken(atoms, st),
{
    if st.order.len() >= atoms.len() {
        Some(st.order)
    } else {
        match order_pass(atoms, 0, st) {
            None => None,
            Some(st2) => if st2.order.len() <= st.order.len() {
                None
            } else {
                order_rounds(atoms, st2)
            },
        }
    }
}

/// Before any atom is taken.
pub open spec fn order_start(n: nat) -> OrderState {
    OrderState { bound: seq![X], order: Seq::empty(), used: Seq::new(n, |i: int| false) }
}

/// An order of the role atoms in which each atom's source is bound before
/// it, or `None` if the variables do not form a supported tree.
pub open spec fn order_of(atoms: Seq<RoleAtom>) -> Option<Seq<usize>> {
    order_rounds(atoms, order_start(atoms.len()))
}

/// The edges that satisfy `role`.
pub open spec fn forward(h: Option<HierarchyView>, role: Role) -> spec_fn((Role, HNode)) -> bool {
    |e: (Role, HNode)| role_sat(e.0, role, h)
}

/// The incoming edges that satisfy `role` when walked backwards.
pub open spec fn backward(h: Option<HierarchyView>, role: Role) -> spec_fn((Role, HNode)) -> bool {
    |e: (Role, HNode)| role_sat(e.0.flipped(), role, h)
}

/// The far ends of edges.
pub open spec fn ends(es: Seq<(Role, HNode)>) -> Seq<HNode> {
    es.map_values(|e: (Role, HNode)| e.1)
}

/// The nodes to which a `role` leads from node `n`.
pub open spec fn targets(n: NodeView, h: Option<HierarchyView>, role: Role) -> Seq<HNode> {
    ends(n.edges.filter(forward(h, role))) + ends(n.preds.filter(backward(h, role)))
}

/// Every class atom holds under the binding.
pub open spec fn classes_hold(
    nodes: Seq<NodeView>,
    classes: Seq<(ClassId, Var)>,
    x: HNode,
    b: Seq<(Var, HNode)>,
) -> bool {
    forall|i: int|
        0 <= i < classes.len() ==> (var_node((#[trigger] classes[i]).1, x, b) matches Some(m)
            && nodes[m.at()].has(classes[i].0))
}

/// `b` with `e` put before the entries of larger variables at its end.
pub open spec fn place(b: Seq<(Var, HNode)>, e: (Var, HNode)) -> Seq<(Var, HNode)>
    decreases b.len(),
{
    if b.len() == 0 || b.last().0 <= e.0 {
        b.push(e)
    } else {
        place(b.drop_last(), e).push(b.last())
    }
}

/// `b` by increasing variable.
pub open spec fn sort_binding(b: Seq<(Var, HNode)>) -> Seq<(Var, HNode)>
    decreases b.len(),
{
    if b.len() == 0 {
        b
    } else {
        place(sort_binding(b.drop_last()), b.last())
    }
}

/// A body prepared for matching.
#[verifier::ext_equal]
pub struct PlanView {
    pub roles: Seq<RoleAtom>,
    pub order: Seq<usize>,
    pub classes: Seq<(ClassId, Var)>,
}

/// The complete bindings that extend `b`, which covers the first `i` role
/// atoms in order.
pub open spec fn matches_from(
    nodes: Seq<NodeView>,
    h: Option<HierarchyView>,
    x: HNode,
    p: PlanView,
    i: int,
    b: Seq<(Var, HNode)>,
) -> Seq<Seq<(Var, HNode)>>
    decreases 2 * (p.order.len() - i) + 1, 0int,
{
    if i < 0 || i >= p.order.len() {
        if classes_hold(nodes, p.classes, x, b) {
            seq![sort_binding(b)]
        } else {
            Seq::empty()
        }
    } else {
        let (role, u, v) = p.roles[p.order[i] as int];
        match var_node(u, x, b) {
            None => Seq::empty(),
            Some(src) => matches_over(
                nodes,
                h,
                x,
                p,
                i,
                b,
                v,
                targets(nodes[src.at()], h, role),
                0,
            ),
        }
    }
}

/// As [`matches_from`], with `v` bound to each of `ts` from `j` on.
pub open spec fn matches_over(
    nodes: Seq<NodeView>,
    h: Option<HierarchyView>,
    x: HNode,
    p: PlanView,
    i: int,
    b: Seq<(Var, HNode)>,
    v: Var,
    ts: Seq<HNode>,
    j: int,
) -> Seq<Seq<(Var, HNode)>>
    decreases 2 * (p.order.len() - i), ts.len() - j,
{
    if j < 0 || j >= ts.len() || i < 0 || i >= p.order.len() {
        Seq::empty()
    } else {
        matches_from(nodes, h, x, p, i + 1, b.push((v, ts[j]))) + matches_over(
            nodes,
            h,
            x,
            p,
            i,
            b,
            v,
            ts,
            j + 1,
        )
    }
}

/// A role atom leads to the variable.
pub open spec fn role_target(roles: Seq<RoleAtom>, v: Var) -> bool {
    exists|j: int| 0 <= j < roles.len() && (#[trigger] roles[j]).2 == v
}

/// Every class atom is on a variable that a role atom leads to.
pub open spec fn classes_reached(roles: Seq<RoleAtom>, classes: Seq<(ClassId, Var)>) -> bool {
    forall|i: int| 0 <= i < classes.len() ==> role_target(roles, (#[trigger] classes[i]).1)
}

/// The body prepared for matching, or `None` if its shape is not supported:
/// it has an atom other than class and role atoms, its role atoms are no
/// tree rooted at `X`, or a class atom is on a variable outside the tree.
pub open spec fn plan_of(body: Seq<Atom>) -> Option<PlanView> {
    match scan_from(body, 0, Seq::empty(), Seq::empty()) {
        None => None,
        Some((roles, classes)) => match order_of(roles) {
            None => None,
            Some(order) => if classes_reached(roles, classes) {
                Some(PlanView { roles, order, classes })
            } else {
                None
            },
        },
    }
}

/// The class atoms on `X` hold at the node.
pub open spec fn center_holds(body: Seq<Atom>, x: NodeView) -> bool {
    forall|q: int|
        0 <= q < body.len() ==> (#[trigger] body[q] matches Atom::Class(c, v) ==> v == X ==> x.has(
            c,
        ))
}

/// The matches of a body at `x`; `None` if its shape is not supported.
pub open spec fn matches_of(
    nodes: Seq<NodeView>,
    h: Option<HierarchyView>,
    body: Seq<Atom>,
    x: HNode,
) -> Option<Seq<Seq<(Var, HNode)>>> {
    match plan_of(body) {
        None => None,
        Some(p) => if center_holds(body, nodes[x.at()]) {
            Some(matches_from(nodes, h, x, p, 0, Seq::empty()))
        } else {
            Some(Seq::empty())
        },
    }
}

/// The bindings in a vector.
pub open spec fn binding_views(v: Seq<Binding>) -> Seq<Seq<(Var, HNode)>> {
    v.map_values(|b: Binding| b@)
}

/// The views of the nodes in a vector.
pub open spec fn node_views(v: Seq<HyperNode>) -> Seq<NodeView> {
    v.map_values(|n: HyperNode| n@)
}

/// See [`var_node`].
pub fn resolve_var(v: Var, xnode: HNode, binding: &Binding) -> (r: Option<HNode>)
    ensures
        r == var_node(v, xnode, binding@),
{
    if v == X {
        return Some(xnode);
    }
    let mut i: usize = 0;
    while i < binding.len()
        invariant
            v != X,
            i <= binding@.len(),
            lookup_from(binding@, 0, v) == lookup_from(binding@, i as int, v),
        decreases binding@.len() - i,
    {
        if binding[i].0 == v {
            return Some(binding[i].1);
        }
        i += 1;
    }
    None
}

fn var_among(bound: &Vec<Var>, v: Var) -> (r: bool)
    ensures
        r == bound@.contains(v),
{
    let mut i: usize = 0;
    while i < bound.len()
        invariant
            i <= bound@.len(),
            forall|j: int| 0 <= j < i ==> bound@[j] != v,
        decreases bound@.len() - i,
    {
        if bound[i] == v {
            return true;
        }
        i += 1;
    }
    false
}

/// See [`order_of`].
pub fn eval_order(role_atoms: &Vec<RoleAtom>) -> (r: Option<Vec<usize>>)
    ensures
        match r {
            Some(o) => order_of(role_atoms@) == Some(o@),
            None => order_of(role_atoms@) is None,
        },
{
    let mut bound: Vec<Var> = Vec::new();
    bound.push(X);
    let mut order: Vec<usize> = Vec::new();
    let mut used: Vec<bool> = filled(false, role_atoms.len());
    let ghost atoms = role_atoms@;
    let ghost mut st = order_start(atoms.len());
    assert(bound@ =~= seq![X]);
    while order.len() < role_atoms.len()
        invariant
            atoms == role_atoms@,
            st == (OrderState { bound: bound@, order: order@, used: used@ }),
            used@.len() == atoms.len(),
            order_of(atoms) == order_rounds(atoms, st),
        decreases untaken(atoms, st),
    {
        let before: usize = order.len();
        let mut i: usize = 0;
        let ghost mut cur = st;
        while i < role_atoms.len()
            invariant
                i <= atoms.len(),
                atoms == role_atoms@,
                used@.len() == atoms.len(),
                cur == (OrderState { bound: bound@, order: order@, used: used@ }),
                order_of(atoms) == order_rounds(atoms, st),
                st.order.len() < atoms.len(),
                order_pass(atoms, 0, st) == order_pass(atoms, i as int, cur),
            decreases atoms.len() - i,
        {
            let (_, u, v) = role_atoms[i];
            if used[i] || !var_among(&bound, u) {
                i += 1;
                continue;
            }
            if var_among(&bound, v) {
                return None;
            }
            used.set(i, true);
            bound.push(v);
            order.push(i);
            proof {
                cur = OrderState { bound: bound@, order: order@, used: used@ };
            }
            if bound.len() > MAX_BODY_VARS {
                return None;
            }
            i += 1;
        }
        if order.len() <= before {
            return None;
        }
        proof {
            st = cur;
        }
    }
    Some(order)
}

/// Keeping one more element of a sequence.
proof fn lemma_filter_step<T>(s: Seq<T>, i: int, p: spec_fn(T) -> bool)
    requires
        0 <= i < s.len(),
    ensures
        s.take(i + 1).filter(p) == if p(s[i]) {
            s.take(i).filter(p).push(s[i])
        } else {
            s.take(i).filter(p)
        },
{
    assert(s.take(i + 1).drop_last() =~= s.take(i));
    assert(s.take(i + 1).last() == s[i]);
    reveal(Seq::filter);
}

/// See [`targets`].
fn role_targets(n: &HyperNode, h: Option<&RoleHierarchy>, role: Role) -> (r: Vec<HNode>)
    ensures
        r@ == targets(n@, hierarchy_view(h), role),
{
    let ghost hv = hierarchy_view(h);
    let ghost es = n.edges@;
    let ghost ps = n.preds@;
    let mut out: Vec<HNode> = Vec::new();
    let mut i: usize = 0;
    proof {
        reveal(Seq::filter);
        assert(es.take(0).filter(forward(hv, role)) =~= Seq::empty());
        assert(ps.take(0).filter(backward(hv, role)) =~= Seq::empty());
    }
    while i < n.edges.len()
        invariant
            i <= es.len(),
            es == n.edges@,
            hv == hierarchy_view(h),
            out@ =~= ends(es.take(i as int).filter(forward(hv, role))),
        decreases es.len() - i,
    {
        proof {
            lemma_filter_step(es, i as int, forward(hv, role));
        }
        if role_matches(n.edges[i].0, role, h) {
            out.push(n.edges[i].1);
        }
        i += 1;
    }
    assert(es.take(es.len() as int) =~= es);
    let ghost first = out@;
    assert(ps.take(0).filter(backward(hv, role)) =~= Seq::empty()) by {
        reveal(Seq::filter);
    }
    assert(out@ =~= first + ends(ps.take(0).filter(backward(hv, role))));
    let mut j: usize = 0;
    while j < n.preds.len()
        invariant
            j <= ps.len(),
            ps == n.preds@,
            hv == hierarchy_view(h),
            out@ =~= first + ends(ps.take(j as int).filter(backward(hv, role))),
        decreases ps.len() - j,
    {
        proof {
            lemma_filter_step(ps, j as int, backward(hv, role));
        }
        if role_matches(n.preds[j].0.flip(), role, h) {
            out.push(n.preds[j].1);
        }
        j += 1;
    }
    assert(ps.take(ps.len() as int) =~= ps);
    out
}

/// `place` inserts where the entries with larger variables begin.
proof fn lemma_place(b: Seq<(Var, HNode)>, e: (Var, HNode), p: int)
    requires
        0 <= p <= b.len(),
        p > 0 ==> b[p - 1].0 <= e.0,
        forall|i: int| p <= i < b.len() ==> b[i].0 > e.0,
    ensures
        place(b, e) == b.insert(p, e),
    decreases b.len(),
{
    if p == b.len() {
        assert(b.insert(p, e) =~= b.push(e));
    } else {
        lemma_place(b.drop_last(), e, p);
        assert(b.drop_last().insert(p, e).push(b.last()) =~= b.insert(p, e));
    }
}

/// See [`sort_binding`].
fn sorted_copy(b: &Binding) -> (r: Binding)
    ensures
        r@ == sort_binding(b@),
{
    let mut r: Binding = Vec::new();
    let mut i: usize = 0;
    while i < b.len()
        invariant
            i <= b@.len(),
            r@ == sort_binding(b@.take(i as int)),
        decreases b@.len() - i,
    {
        let e = b[i];
        let mut p: usize = r.len();
        while p > 0 && r[p - 1].0 > e.0
            invariant
                p <= r@.len(),
                forall|q: int| p <= q < r@.len() ==> (#[trigger] r@[q]).0 > e.0,
            decreases p,
        {
            p -= 1;
        }
        proof {
            lemma_place(r@, e, p as int);
            assert(b@.take(i + 1).drop_last() =~= b@.take(i as int));
        }
        r.insert(p, e);
        i += 1;
    }
    assert(b@.take(b@.len() as int) =~= b@);
    r
}

/// The fixed structure of a body match.
struct MatchPlan {
    role_atoms: Vec<RoleAtom>,
    order: Vec<usize>,
    other_classes: Vec<(ClassId, Var)>,
}

impl View for MatchPlan {
    type V = PlanView;

    closed spec fn view(&self) -> PlanView {
        PlanView { roles: self.role_atoms@, order: self.order@, classes: self.other_classes@ }
    }
}

/// The order lists positions of the role atoms.
pub open spec fn plan_wf(p: PlanView) -> bool {
    forall|i: int| 0 <= i < p.order.len() ==> #[trigger] p.order[i] < p.roles.len()
}

/// All bound nodes are nodes of the table.
pub open spec fn binding_valid(b: Seq<(Var, HNode)>, n: int) -> bool {
    forall|i: int| 0 <= i < b.len() ==> (#[trigger] b[i]).1.at() < n
}

pub proof fn lemma_lookup_valid(b: Seq<(Var, HNode)>, i: int, v: Var, n: int)
    requires
        binding_valid(b, n),
    ensures
        lookup_from(b, i, v) matches Some(m) ==> m.at() < n,
    decreases b.len() - i,
{
    if 0 <= i < b.len() && b[i].0 != v {
        lemma_lookup_valid(b, i + 1, v, n);
    }
}

/// Where a variable leads is a node of the table.
pub proof fn lemma_var_node_valid(v: Var, x: HNode, b: Seq<(Var, HNode)>, n: int)
    requires
        binding_valid(b, n),
        x.at() < n,
    ensures
        var_node(v, x, b) matches Some(m) ==> m.at() < n,
{
    lemma_lookup_valid(b, 0, v, n);
}

/// What a filter keeps is what satisfies it.
proof fn lemma_filter_members<T>(s: Seq<T>, p: spec_fn(T) -> bool, e: T)
    ensures
        s.filter(p).contains(e) <==> s.contains(e) && p(e),
    decreases s.len(),
{
    reveal(Seq::filter);
    if s.len() > 0 {
        let r = s.drop_last();
        lemma_filter_members(r, p, e);
        let f = r.filter(p);
        if s.contains(e) && e != s.last() {
            let k = choose|k: int| 0 <= k < s.len() && s[k] == e;
            assert(r[k] == e);
        }
        if r.contains(e) {
            let k = choose|k: int| 0 <= k < r.len() && r[k] == e;
            assert(s[k] == e);
        }
        assert(s[s.len() - 1] == s.last());
        if p(s.last()) {
            assert(s.filter(p) == f.push(s.last()));
            assert(f.push(s.last())[f.len() as int] == s.last());
            if f.contains(e) {
                let k = choose|k: int| 0 <= k < f.len() && f[k] == e;
                assert(f.push(s.last())[k] == e);
            }
        }
    }
}

/// A `role` leads from node `n` to node `m`: along an edge that satisfies
/// it, or backwards along an incoming one.
pub open spec fn leads(n: NodeView, h: Option<HierarchyView>, role: Role, m: HNode) -> bool {
    ||| exists|r: Role| #[trigger] n.edges.contains((r, m)) && role_sat(r, role, h)
    ||| exists|r: Role| #[trigger] n.preds.contains((r, m)) && role_sat(r.flipped(), role, h)
}

/// The targets of a role are the nodes that it leads to.
pub proof fn lemma_targets(n: NodeView, h: Option<HierarchyView>, role: Role, m: HNode)
    ensures
        targets(n, h, role).contains(m) <==> leads(n, h, role, m),
{
    let f = n.edges.filter(forward(h, role));
    let b = n.preds.filter(backward(h, role));
    let ts = targets(n, h, role);
    if ts.contains(m) {
        let j = choose|j: int| 0 <= j < ts.len() && ts[j] == m;
        if j < f.len() {
            assert(f.contains(f[j]));
            lemma_filter_members(n.edges, forward(h, role), f[j]);
            assert(n.edges.contains((f[j].0, m)));
        } else {
            let e = b[j - f.len()];
            assert(b.contains(e));
            lemma_filter_members(n.preds, backward(h, role), e);
            assert(n.preds.contains((e.0, m)));
        }
    }
    if exists|r: Role| #[trigger] n.edges.contains((r, m)) && role_sat(r, role, h) {
        let r = choose|r: Role| #[trigger] n.edges.contains((r, m)) && role_sat(r, role, h);
        lemma_filter_members(n.edges, forward(h, role), (r, m));
        let k = choose|k: int| 0 <= k < f.len() && f[k] == (r, m);
        assert(ts[k] == m);
    }
    if exists|r: Role| #[trigger] n.preds.contains((r, m)) && role_sat(r.flipped(), role, h) {
        let r = choose|r: Role| #[trigger] n.preds.contains((r, m)) && role_sat(r.flipped(), role, h);
        lemma_filter_members(n.preds, backward(h, role), (r, m));
        let k = choose|k: int| 0 <= k < b.len() && b[k] == (r, m);
        assert(ts[f.len() + k] == m);
    }
}

/// The nodes to which a role leads are nodes of the table.
pub proof fn lemma_targets_valid(nodes: Seq<NodeView>, i: int, h: Option<HierarchyView>, role: Role)
    requires
        table_wf(nodes),
        0 <= i < nodes.len(),
    ensures
        forall|j: int|
            0 <= j < targets(nodes[i], h, role).len() ==> (#[trigger] targets(
                nodes[i],
                h,
                role,
            )[j]).at() < nodes.len(),
{
    let n = nodes[i];
    let ts = targets(n, h, role);
    assert forall|j: int| 0 <= j < ts.len() implies (#[trigger] ts[j]).at() < nodes.len() by {
        let m = ts[j];
        assert(ts.contains(m));
        lemma_targets(n, h, role, m);
        if exists|r: Role| #[trigger] n.edges.contains((r, m)) && role_sat(r, role, h) {
            let r = choose|r: Role| #[trigger] n.edges.contains((r, m)) && role_sat(r, role, h);
            let k = choose|k: int| 0 <= k < n.edges.len() && n.edges[k] == (r, m);
            assert(n.edges[k].1 == m);
        } else {
            let r = choose|r: Role| #[trigger] n.preds.contains((r, m)) && role_sat(r.flipped(), role, h);
            let k = choose|k: int| 0 <= k < n.preds.len() && n.preds[k] == (r, m);
            assert(n.preds[k].1 == m);
        }
    }
}

/// See [`classes_hold`].
fn classes_match(
    nodes: &Vec<HyperNode>,
    classes: &Vec<(ClassId, Var)>,
    x: HNode,
    b: &Binding,
) -> (r: bool)
    requires
        table_wf(node_views(nodes@)),
        x.at() < nodes@.len(),
        binding_valid(b@, nodes@.len() as int),
    ensures
        r == classes_hold(node_views(nodes@), classes@, x, b@),
{
    let ghost nv = node_views(nodes@);
    let mut i: usize = 0;
    while i < classes.len()
        invariant
            i <= classes@.len(),
            nv == node_views(nodes@),
            table_wf(nv),
            x.at() < nodes@.len(),
            binding_valid(b@, nodes@.len() as int),
            forall|j: int|
                0 <= j < i ==> (var_node((#[trigger] classes@[j]).1, x, b@) matches Some(m)
                    && nv[m.at()].has(classes@[j].0)),
        decreases classes@.len() - i,
    {
        let (c, v) = classes[i];
        proof {
            lemma_var_node_valid(v, x, b@, nodes@.len() as int);
        }
        match resolve_var(v, x, b) {
            None => {
                assert(classes@[i as int].1 == v);
                return false;
            },
            Some(m) => {
                assert(nv[m.at()] == nodes@[m.at()]@);
                if !nodes[m.index()].has(c) {
                    assert(classes@[i as int].1 == v);
                    return false;
                }
            },
        }
        i += 1;
    }
    true
}

/// Binds role-atom targets to graph successors in order and collects the
/// complete bindings: see [`matches_from`].
fn enumerate_matches(
    nodes: &Vec<HyperNode>,
    h: Option<&RoleHierarchy>,
    x: HNode,
    plan: &MatchPlan,
    i: usize,
    binding: &mut Binding,
    out: &mut Vec<Binding>,
)
    requires
        table_wf(node_views(nodes@)),
        x.at() < nodes@.len(),
        plan_wf(plan@),
        i <= plan@.order.len(),
        binding_valid(old(binding)@, nodes@.len() as int),
    ensures
        final(binding)@ == old(binding)@,
        binding_views(final(out)@) == binding_views(old(out)@) + matches_from(
            node_views(nodes@),
            hierarchy_view(h),
            x,
            plan@,
            i as int,
            old(binding)@,
        ),
    decreases plan@.order.len() - i,
{
    let ghost nv = node_views(nodes@);
    let ghost hv = hierarchy_view(h);
    let ghost b0 = binding@;
    let ghost out0 = binding_views(out@);
    if i == plan.order.len() {
        if classes_match(nodes, &plan.other_classes, x, binding) {
            let b = sorted_copy(binding);
            out.push(b);
            assert(binding_views(out@) =~= out0 + seq![sort_binding(b0)]);
        } else {
            assert(out0 + Seq::empty() =~= out0);
        }
        return;
    }
    let (role, u, v) = plan.role_atoms[plan.order[i]];
    proof {
        lemma_var_node_valid(u, x, b0, nodes@.len() as int);
    }
    let src = match resolve_var(u, x, binding) {
        None => {
            assert(out0 + Seq::empty() =~= out0);
            return;
        },
        Some(src) => src,
    };
    assert(nv[src.at()] == nodes@[src.at()]@);
    let ts = role_targets(&nodes[src.index()], h, role);
    proof {
        lemma_targets_valid(nv, src.at(), hv, role);
    }
    let ghost all = matches_from(nv, hv, x, plan@, i as int, b0);
    assert(all == matches_over(nv, hv, x, plan@, i as int, b0, v, ts@, 0));
    assert(out0 + all =~= binding_views(out@) + all);
    let mut j: usize = 0;
    while j < ts.len()
        invariant
            j <= ts@.len(),
            i < plan.order.len(),
            i < plan@.order.len(),
            plan_wf(plan@),
            nv == node_views(nodes@),
            hv == hierarchy_view(h),
            table_wf(nv),
            x.at() < nodes@.len(),
            binding@ == b0,
            binding_valid(b0, nodes@.len() as int),
            forall|q: int| 0 <= q < ts@.len() ==> (#[trigger] ts@[q]).at() < nodes@.len(),
            out0 + all == binding_views(out@) + matches_over(
                nv,
                hv,
                x,
                plan@,
                i as int,
                b0,
                v,
                ts@,
                j as int,
            ),
        decreases ts@.len() - j,
    {
        let m = ts[j];
        let ghost here = binding_views(out@);
        binding.push((v, m));
        assert(binding_valid(binding@, nodes@.len() as int));
        enumerate_matches(nodes, h, x, plan, i + 1, binding, out);
        binding.pop();
        assert(binding@ =~= b0);
        proof {
            let rest = matches_over(nv, hv, x, plan@, i as int, b0, v, ts@, j + 1);
            let these = matches_from(nv, hv, x, plan@, i + 1, b0.push((v, m)));
            assert(here + (these + rest) =~= here + these + rest);
        }
        j += 1;
    }
    assert(binding_views(out@) + Seq::empty() =~= binding_views(out@));
}

/// The order that [`order_of`] gives lists positions of the role atoms.
proof fn lemma_order_pass_bounds(atoms: Seq<RoleAtom>, i: int, st: OrderState)
    requires
        0 <= i,
        atoms.len() <= usize::MAX,
        forall|j: int| 0 <= j < st.order.len() ==> #[trigger] st.order[j] < atoms.len(),
    ensures
        order_pass(atoms, i, st) matches Some(st2) ==> forall|j: int|
            0 <= j < st2.order.len() ==> #[trigger] st2.order[j] < atoms.len(),
    decreases atoms.len() - i,
{
    if i < atoms.len() {
        if st.used[i] || !st.bound.contains(atoms[i].1) {
            lemma_order_pass_bounds(atoms, i + 1, st);
        } else if !st.bound.contains(atoms[i].2) {
            let st2 = OrderState {
                bound: st.bound.push(atoms[i].2),
                order: st.order.push(i as usize),
                used: st.used.update(i, true),
            };
            lemma_order_pass_bounds(atoms, i + 1, st2);
        }
    }
}

proof fn lemma_order_bounds(atoms: Seq<RoleAtom>, st: OrderState)
    requires
        atoms.len() <= usize::MAX,
        forall|j: int| 0 <= j < st.order.len() ==> #[trigger] st.order[j] < atoms.len(),
    ensures
        order_rounds(atoms, st) matches Some(o) ==> forall|j: int|
            0 <= j < o.len() ==> #[trigger] o[j] < atoms.len(),
    decreases untaken(atoms, st),
{
    if st.order.len() < atoms.len() {
        lemma_order_pass_bounds(atoms, 0, st);
        if let Some(st2) = order_pass(atoms, 0, st) {
            if st2.order.len() > st.order.len() {
                lemma_order_bounds(atoms, st2);
            }
        }
    }
}

/// See [`classes_reached`].
fn all_reached(roles: &Vec<RoleAtom>, classes: &Vec<(ClassId, Var)>) -> (r: bool)
    ensures
        r == classes_reached(roles@, classes@),
{
    let mut i: usize = 0;
    while i < classes.len()
        invariant
            i <= classes@.len(),
            forall|q: int| 0 <= q < i ==> role_target(roles@, (#[trigger] classes@[q]).1),
        decreases classes@.len() - i,
    {
        let v = classes[i].1;
        let mut found = false;
        let mut j: usize = 0;
        while j < roles.len()
            invariant
                j <= roles@.len(),
                found <==> exists|p: int| 0 <= p < j && (#[trigger] roles@[p]).2 == v,
            decreases roles@.len() - j,
        {
            if roles[j].2 == v {
                assert(roles@[j as int].2 == v);
                found = true;
            }
            j += 1;
        }
        assert(classes@[i as int].1 == v);
        if !found {
            return false;
        }
        i += 1;
    }
    true
}

/// Matches a clause body at `node`: every binding of its variables under
/// which all its atoms hold, or `None` if the shape of the body is not
/// supported.
pub(crate) fn match_atoms(
    nodes: &Vec<HyperNode>,
    h: Option<&RoleHierarchy>,
    body: &Vec<Atom>,
    node: HNode,
) -> (r: Option<Vec<Binding>>)
    requires
        table_wf(node_views(nodes@)),
        node.at() < nodes@.len(),
    ensures
        match r {
            Some(out) => matches_of(node_views(nodes@), hierarchy_view(h), body@, node) == Some(
                binding_views(out@),
            ),
            None => matches_of(node_views(nodes@), hierarchy_view(h), body@, node) is None,
        },
{
    let ghost nv = node_views(nodes@);
    let mut role_atoms: Vec<RoleAtom> = Vec::new();
    let mut other_classes: Vec<(ClassId, Var)> = Vec::new();
    let mut i: usize = 0;
    while i < body.len()
        invariant
            i <= body@.len(),
            scan_from(body@, 0, Seq::empty(), Seq::empty()) == scan_from(
                body@,
                i as int,
                role_atoms@,
                other_classes@,
            ),
        decreases body@.len() - i,
    {
        match body[i] {
            Atom::Class(c, v) => {
                if v != X {
                    other_classes.push((c, v));
                }
            },
            Atom::Role(r, u, v) => {
                role_atoms.push((r, u, v));
            },
            _ => {
                return None;
            },
        }
        i += 1;
    }
    let order = match eval_order(&role_atoms) {
        None => {
            return None;
        },
        Some(o) => o,
    };
    if !all_reached(&role_atoms, &other_classes) {
        return None;
    }
    proof {
        assert(role_atoms.len() <= usize::MAX);
        lemma_order_bounds(role_atoms@, order_start(role_atoms@.len()));
        assert(nv[node.at()] == nodes@[node.at()]@);
    }
    let mut j: usize = 0;
    while j < body.len()
        invariant
            j <= body@.len(),
            node.at() < nodes@.len(),
            nv == node_views(nodes@),
            nv[node.at()] == nodes@[node.at()]@,
            table_wf(nv),
            plan_of(body@) is Some,
            forall|q: int|
                0 <= q < j ==> (#[trigger] body@[q] matches Atom::Class(c, v) ==> v == X
                    ==> nv[node.at()].has(c)),
        decreases body@.len() - j,
    {
        if let Atom::Class(c, v) = body[j] {
            if v == X && !nodes[node.index()].has(c) {
                assert(body@[j as int] == Atom::Class(c, v));
                let none: Vec<Binding> = Vec::new();
                assert(binding_views(none@) =~= Seq::empty());
                return Some(none);
            }
        }
        j += 1;
    }
    let plan = MatchPlan { role_atoms, order, other_classes };
    let mut out: Vec<Binding> = Vec::new();
    let mut binding: Binding = Vec::new();
    enumerate_matches(nodes, h, node, &plan, 0, &mut binding, &mut out);
    proof {
        let none: Seq<Binding> = Seq::empty();
        let ms = matches_from(nv, hierarchy_view(h), node, plan@, 0, Seq::empty());
        assert(binding_views(none) + ms =~= ms);
    }
    Some(out)
}

} // verus!
