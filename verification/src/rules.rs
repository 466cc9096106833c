//! The rules of the calculus, as functions on search states.

use vstd::prelude::*;
use crate::block_index::file_under;
use crate::clause::{Atom, Var};
use crate::dep_set::DepSet;
use crate::graph::{tick, Config, Event, FireOutcome, Graph, SearchStats, State};
use crate::ids::{ClassId, HNode, Role};
use crate::matching::{matches_of, var_node};
use crate::node::{Card, NodeView};
use crate::queries::{apart, body_deps, check_blocked, nominal, successors, witnessed};
use crate::union_find::linked;

verus! {

/// Node `n` with label `c`; a label that is new becomes an event.
pub open spec fn labelled(s: State, n: HNode, c: ClassId, deps: DepSet) -> (State, bool) {
    if s.g.at(n).has(c) {
        (s, false)
    } else {
        (
            State {
                g: s.g.with(n, s.g.at(n).with_label(c, deps)),
                work: s.work.push(Event::Label(n, c)),
                ..s
            },
            true,
        )
    }
}

/// The next node.
pub open spec fn next_node(g: Graph) -> HNode {
    HNode(g.nodes.len() as u32)
}

/// The graph with a node about which nothing is known.
pub open spec fn extended(g: Graph) -> Graph {
    let n = next_node(g);
    Graph {
        nodes: g.nodes.push(NodeView::blank(n.0)),
        root: g.root.push(n),
        origin: g.origin.push(false),
        ..g
    }
}

/// The state with a new node, which is an event if clauses without a body
/// are to fire there.
pub open spec fn grown(k: Config, s: State) -> State {
    State {
        g: extended(s.g),
        work: if k.index.empty.len() > 0 {
            s.work.push(Event::NodeNew(next_node(s.g)))
        } else {
            s.work
        },
        ..s
    }
}

/// A node generated by `x` along `role`.
pub open spec fn generated(v: NodeView, x: HNode, role: Role, deps: DepSet) -> NodeView {
    NodeView { birth_deps: deps, parent: Some(x), parent_role: Some(role), ..v }
}

/// The graph with node `n` filed under `role`, if nodes are filed.
pub open spec fn filed_in(g: Graph, role: Role, n: HNode) -> Graph {
    if g.filing {
        Graph { filed: file_under(g.filed, role, n), ..g }
    } else {
        g
    }
}

/// The graph with an edge, recorded at both ends.
pub open spec fn edge_in(g: Graph, a: HNode, r: Role, b: HNode) -> Graph {
    let g1 = g.with(a, g.at(a).with_edge(r, b));
    g1.with(b, g1.at(b).with_pred(r, a))
}

/// The state with a new successor of `x` along `role`, labelled `qual` if
/// there is one.
pub open spec fn sprouted(
    k: Config,
    s: State,
    x: HNode,
    role: Role,
    qual: Option<ClassId>,
    deps: DepSet,
) -> State {
    let n = next_node(s.g);
    let s1 = grown(k, s);
    let g2 = s1.g.with(n, generated(s1.g.at(n), x, role, deps));
    let s2 = State {
        g: edge_in(filed_in(g2, role, n), x, role, n),
        work: s1.work.push(Event::Edge(x, role, n)),
        ..s1
    };
    match qual {
        Some(q) => labelled(s2, n, q, deps).0,
        None => s2,
    }
}

/// `∃role.cls` at `src`: nothing to do if a successor carries the class or
/// `src` is blocked, else a new successor.
pub open spec fn exists_fired(
    k: Config,
    s: State,
    src: HNode,
    role: Role,
    cls: ClassId,
    deps: DepSet,
) -> (State, FireOutcome) {
    if witnessed(k, s.g, src, role, cls) {
        (s, FireOutcome::NoChange)
    } else {
        let (s1, blocked) = check_blocked(k, s, src);
        if blocked {
            (s1, FireOutcome::NoChange)
        } else if !s1.g.room(1) {
            (s1, FireOutcome::Full)
        } else {
            (sprouted(k, s1, src, role, Some(cls), deps), FireOutcome::Changed)
        }
    }
}

/// `n` new successors.
pub open spec fn sprouts(
    k: Config,
    s: State,
    x: HNode,
    role: Role,
    qual: Option<ClassId>,
    deps: DepSet,
    n: nat,
) -> (State, Seq<HNode>)
    decreases n,
{
    if n == 0 {
        (s, Seq::empty())
    } else {
        let (s1, fresh) = sprouts(k, s, x, role, qual, deps, (n - 1) as nat);
        (sprouted(k, s1, x, role, qual, deps), fresh.push(next_node(s1.g)))
    }
}

/// The pair with the smaller node first.
pub open spec fn ordered(a: HNode, b: HNode) -> (HNode, HNode) {
    if a.0 <= b.0 {
        (a, b)
    } else {
        (b, a)
    }
}

/// The graph with `a ≠ b` recorded, unless the two are the same node or it
/// is recorded already.
pub open spec fn kept_apart(g: Graph, a: HNode, b: HNode) -> Graph {
    let pair = ordered(g.rep(a), g.rep(b));
    if g.rep(a) == g.rep(b) || g.neq.contains(pair) {
        g
    } else {
        Graph { neq: g.neq.push(pair), ..g }
    }
}

/// The graph with all pairs of `fresh`, from the pair at `i` and `j` on,
/// recorded as different.
pub open spec fn all_apart_from(g: Graph, fresh: Seq<HNode>, i: int, j: int) -> Graph
    decreases fresh.len() - i, fresh.len() - j,
{
    if i < 0 || i >= fresh.len() {
        g
    } else if j < 0 || j >= fresh.len() {
        all_apart_from(g, fresh, i + 1, i + 2)
    } else {
        all_apart_from(kept_apart(g, fresh[i], fresh[j]), fresh, i, j + 1)
    }
}

/// `≥n role.qual` at `x0`: `n` new, pairwise different successors of its
/// representative, unless it has as many already, they were generated
/// before, or it is blocked. Inverse roles are left alone.
pub open spec fn at_least_fired(
    k: Config,
    s: State,
    x0: HNode,
    role: Role,
    qual: Option<ClassId>,
    n: u32,
    deps: DepSet,
) -> (State, FireOutcome) {
    let x = s.g.rep(x0);
    if n == 0 || role is Inverse {
        (s, FireOutcome::NoChange)
    } else if successors(k, s.g, x, role, qual).len() >= n || s.g.at(x).at_least_done.contains(
        (role, qual, n),
    ) {
        (s, FireOutcome::NoChange)
    } else {
        let (s1, blocked) = check_blocked(k, s, x);
        if blocked {
            (s1, FireOutcome::NoChange)
        } else if !s1.g.room(n as int) {
            (s1, FireOutcome::Full)
        } else {
            let v = s1.g.at(x);
            let done = NodeView { at_least_done: v.at_least_done.push((role, qual, n)), ..v };
            let (s3, fresh) = sprouts(
                k,
                State { g: s1.g.with(x, done), ..s1 },
                x,
                role,
                qual,
                deps,
                n as nat,
            );
            (State { g: all_apart_from(s3.g, fresh, 0, 1), ..s3 }, FireOutcome::Changed)
        }
    }
}

/// Node `v` with `deps` added to what its existence and edges depend on.
pub open spec fn widened_birth(v: NodeView, deps: DepSet) -> NodeView {
    NodeView { birth_deps: v.birth_deps.joined(deps), ..v }
}

/// How an edge is stored: forward, between representatives.
pub open spec fn stored_edge(g: Graph, role: Role, src: HNode, tgt: HNode) -> (HNode, Role, HNode) {
    if role is Inverse {
        (g.rep(tgt), role.flipped(), g.rep(src))
    } else {
        (g.rep(src), role, g.rep(tgt))
    }
}

/// A derived edge between two nodes, unless it is there already.
pub open spec fn edge_derived(s: State, role: Role, src: HNode, tgt: HNode, deps: DepSet) -> (
    State,
    FireOutcome,
) {
    let (from, r, to) = stored_edge(s.g, role, src, tgt);
    if s.g.at(from).edges.contains((r, to)) {
        (s, FireOutcome::NoChange)
    } else {
        let g1 = edge_in(s.g, from, r, to);
        let g2 = g1.with(from, widened_birth(g1.at(from), deps));
        let g3 = g2.with(to, widened_birth(g2.at(to), deps));
        (
            State { g: g3, work: s.work.push(Event::Edge(from, r, to)), ..s },
            FireOutcome::Changed,
        )
    }
}

/// A `≤n` constraint at node `t`.
pub open spec fn at_most_added(s: State, t: HNode, c: Card, deps: DepSet) -> (State, FireOutcome) {
    let v = s.g.at(t);
    if v.at_most.contains(c) {
        (s, FireOutcome::NoChange)
    } else {
        let v1 = NodeView {
            at_most: v.at_most.push(c),
            at_most_dep: v.at_most_dep.joined(deps),
            ..v
        };
        (State { g: s.g.with(t, v1), ..s }, FireOutcome::Changed)
    }
}

/// Asserts one head atom. An equality is left alone.
pub open spec fn atom_asserted(
    k: Config,
    s: State,
    head: Atom,
    x: HNode,
    b: Seq<(Var, HNode)>,
    deps: DepSet,
) -> (State, FireOutcome) {
    match head {
        Atom::Class(c, v) => match var_node(v, x, b) {
            Some(t) => {
                let (s1, new) = labelled(s, t, c, deps);
                (
                    s1,
                    if new {
                        FireOutcome::Changed
                    } else {
                        FireOutcome::NoChange
                    },
                )
            },
            None => (s, FireOutcome::NoChange),
        },
        Atom::Exists(role, cls, v) => match var_node(v, x, b) {
            Some(src) => exists_fired(k, s, src, role, cls, deps),
            None => (s, FireOutcome::NoChange),
        },
        Atom::AtMost(role, qual, n, v) => match var_node(v, x, b) {
            Some(t) => at_most_added(s, t, (role, qual, n), deps),
            None => (s, FireOutcome::NoChange),
        },
        Atom::AtLeast(role, qual, n, v) => match var_node(v, x, b) {
            Some(t) => at_least_fired(k, s, t, role, qual, n, deps),
            None => (s, FireOutcome::NoChange),
        },
        Atom::Role(role, u, v) => match (var_node(u, x, b), var_node(v, x, b)) {
            (Some(src), Some(tgt)) => edge_derived(s, role, src, tgt, deps),
            _ => (s, FireOutcome::NoChange),
        },
        Atom::Equal(u, v) => (s, FireOutcome::NoChange),
    }
}

/// Asserts the head of a Horn clause whose body matched; an empty head is a
/// clash.
pub open spec fn head_fired(
    k: Config,
    s: State,
    head: Seq<Atom>,
    x: HNode,
    b: Seq<(Var, HNode)>,
    deps: DepSet,
) -> (State, FireOutcome) {
    if head.len() == 0 {
        let clash = if s.g.at(s.g.rep(x)).nn_tainted && !k.nn_taint_disabled {
            DepSet::all()
        } else {
            deps
        };
        (State { clash, ..s }, FireOutcome::Clash)
    } else {
        atom_asserted(k, s, head[0], x, b, deps)
    }
}

/// Fires clause `ci` at `x` for each of the bindings from `i` on.
pub open spec fn bindings_fired(
    k: Config,
    s: State,
    ci: int,
    x: HNode,
    bs: Seq<Seq<(Var, HNode)>>,
    i: int,
    changed: bool,
) -> (State, FireOutcome)
    decreases bs.len() - i,
{
    if i < 0 || i >= bs.len() {
        (
            s,
            if changed {
                FireOutcome::Changed
            } else {
                FireOutcome::NoChange
            },
        )
    } else {
        let cl = k.clauses[ci];
        let (s1, o) = head_fired(k, s, cl.head, x, bs[i], body_deps(s.g, cl.body, x, bs[i]));
        match o {
            FireOutcome::Clash => (s1, o),
            FireOutcome::Full => (s1, o),
            FireOutcome::Changed => bindings_fired(k, s1, ci, x, bs, i + 1, true),
            FireOutcome::NoChange => bindings_fired(k, s1, ci, x, bs, i + 1, changed),
        }
    }
}

/// Fires clause `ci` at `x`, if it is Horn.
pub open spec fn clause_fired(k: Config, s: State, ci: int, x: HNode) -> (State, FireOutcome) {
    if !k.clauses[ci].horn() {
        (s, FireOutcome::NoChange)
    } else {
        let s1 = State {
            stats: SearchStats { match_attempts: tick(s.stats.match_attempts), ..s.stats },
            ..s
        };
        match matches_of(s1.g.nodes, k.roles, k.clauses[ci].body, x) {
            None => (s1, FireOutcome::NoChange),
            Some(bs) => bindings_fired(k, s1, ci, x, bs, 0, false),
        }
    }
}

/// The labels of another node, from `i` on, copied to `n`; what caused the
/// merge is added to what they depend on.
pub open spec fn labels_copied(
    s: State,
    n: HNode,
    labels: Seq<ClassId>,
    deps: Seq<DepSet>,
    cause: DepSet,
    i: int,
) -> State
    decreases labels.len() - i,
{
    if i < 0 || i >= labels.len() {
        s
    } else {
        let (s1, new) = labelled(s, n, labels[i], deps[i].joined(cause));
        let s2 = if !new && cause != DepSet::empty() {
            State { g: s1.g.with(n, s1.g.at(n).widened(labels[i], cause)), ..s1 }
        } else {
            s1
        };
        labels_copied(s2, n, labels, deps, cause, i + 1)
    }
}

/// Edges, from `i` on, copied to `n`.
pub open spec fn edges_copied(s: State, n: HNode, edges: Seq<(Role, HNode)>, i: int) -> State
    decreases edges.len() - i,
{
    if i < 0 || i >= edges.len() {
        s
    } else {
        let (r, t) = edges[i];
        edges_copied(
            State { g: edge_in(s.g, n, r, t), work: s.work.push(Event::Edge(n, r, t)), ..s },
            n,
            edges,
            i + 1,
        )
    }
}

/// The constraints `a`, and those of `b` that are not among them.
pub open spec fn cards_merged(a: Seq<Card>, b: Seq<Card>) -> Seq<Card>
    decreases b.len(),
{
    if b.len() == 0 {
        a
    } else {
        let m = cards_merged(a, b.drop_last());
        if m.contains(b.last()) {
            m
        } else {
            m.push(b.last())
        }
    }
}

/// Node `vi` with the constraints and taints of `vj`. If `vj` was merged with
/// others for a nominal, its edges rest on what those merges did.
pub open spec fn constraints_merged(vi: NodeView, vj: NodeView) -> NodeView {
    NodeView {
        birth_deps: if vj.nn_tainted {
            vi.birth_deps.joined(vj.birth_deps)
        } else {
            vi.birth_deps
        },
        at_most: cards_merged(vi.at_most, vj.at_most),
        at_most_tainted: vi.at_most_tainted || vj.at_most.len() > 0,
        at_most_dep: if vj.at_most.len() > 0 {
            vi.at_most_dep.joined(vj.at_most_dep)
        } else {
            vi.at_most_dep
        },
        nn_tainted: vi.nn_tainted || vj.nn_tainted,
        at_least_done: cards_merged(vi.at_least_done, vj.at_least_done),
        ..vi
    }
}

/// The graph with the class of `j` moved to that of `i`.
pub open spec fn relinked(g: Graph, i: HNode, j: HNode) -> Graph {
    Graph { root: linked(g.root, i, j), ..g }
}

/// The representative `j` merged into the representative `i`.
pub open spec fn joined_nodes(s: State, i: HNode, j: HNode, cause: DepSet) -> State {
    let g0 = relinked(s.g, i, j);
    let g1 = if cause != DepSet::empty() {
        g0.with(i, widened_birth(g0.at(i), cause))
    } else {
        g0
    };
    let vj = g1.at(j);
    let s2 = labels_copied(State { g: g1, ..s }, i, vj.labels, vj.label_deps, cause, 0);
    let s3 = edges_copied(s2, i, vj.edges, 0);
    State { g: s3.g.with(i, constraints_merged(s3.g.at(i), s3.g.at(j))), ..s3 }
}

/// The node of `j0` merged into that of `i0`, because of `cause0`; `true` if
/// the two must not be merged, which is a clash.
pub open spec fn merged(k: Config, s: State, i0: HNode, j0: HNode, cause0: DepSet) -> (State, bool) {
    let cause = if k.nn_taint_disabled {
        DepSet::empty()
    } else {
        cause0
    };
    let i = s.g.rep(i0);
    let j = s.g.rep(j0);
    if i == j {
        (s, false)
    } else if apart(s.g, i, j) {
        (State { clash: DepSet::all(), ..s }, true)
    } else {
        (joined_nodes(s, i, j, cause), false)
    }
}

/// The first canonical node from `i` on, other than `n`, that carries `c`.
pub open spec fn bearer_from(g: Graph, n: HNode, c: ClassId, i: int) -> Option<HNode>
    decreases g.nodes.len() - i,
{
    if i < 0 || i >= g.nodes.len() {
        None
    } else if g.root[i].at() == i && n.at() != i && g.nodes[i].has(c) {
        Some(HNode(i as u32))
    } else {
        bearer_from(g, n, c, i + 1)
    }
}

/// What it rests on that `n`, or the node that `n` was merged into, and `m` are
/// the same individual: that each carries the nominal `c`. Where `n` was merged
/// into another, that one is the individual only by what the merge rests on.
pub open spec fn nominal_cause(g: Graph, n: HNode, m: HNode, c: ClassId) -> DepSet {
    let rn = g.rep(n);
    let both = g.at(rn).deps_of(c).joined(g.at(m).deps_of(c));
    if rn == n {
        both
    } else {
        both.joined(g.at(n).deps_of(c)).joined(g.at(rn).birth_deps)
    }
}

/// Node `v`, marked as merged for a nominal with a node whose existence and
/// edges depend on `birth`: the edges of both are now its own.
pub open spec fn nominal_marked(k: Config, v: NodeView, birth: DepSet) -> NodeView {
    NodeView {
        nn_tainted: true,
        birth_deps: if k.nn_taint_disabled {
            v.birth_deps
        } else {
            v.birth_deps.joined(birth)
        },
        ..v
    }
}

/// Node `n` carries the nominal `c`: another node that does is the same
/// individual and is merged into it.
pub open spec fn nominal_merged(k: Config, s: State, n: HNode, c: ClassId) -> (State, FireOutcome) {
    if !nominal(k, c) {
        (s, FireOutcome::NoChange)
    } else {
        let rn = s.g.rep(n);
        match bearer_from(s.g, rn, c, 0) {
            None => (s, FireOutcome::NoChange),
            Some(m) => {
                let cause = nominal_cause(s.g, n, m, c);
                let (s1, clash) = merged(k, s, rn, m, cause);
                if clash {
                    (s1, FireOutcome::Clash)
                } else {
                    let surv = s1.g.rep(rn);
                    let v = nominal_marked(k, s1.g.at(surv), s.g.at(m).birth_deps);
                    (State { g: s1.g.with(surv, v), ..s1 }, FireOutcome::Changed)
                }
            },
        }
    }
}

} // verus!
