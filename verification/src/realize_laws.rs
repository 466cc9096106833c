//! What the answers about individuals are worth.

use vstd::prelude::*;
use crate::graph::HyperResult;
use crate::ids::{ClassId, IndividualId, Role, RoleId};
use crate::ontology::{
    lemma_position, position, Axiom, ClassHierarchy, InternalOntology, Subsumers, Vocabulary,
};
use crate::realize::{
    asked, asked_from, domains, entry, leaves_of, lemma_asked, lemma_picked, members, most_specific,
    names_of, picked, ranges, realized, realized_told, told, told_below, told_by, told_types,
    told_types_of, types_of, typing, Probe, Typing,
};
use crate::semantics::Interp;

verus! {

/// The axiom is true when individuals stand for elements as `e` says. Of
/// axioms on class expressions that are not named classes nothing is asked.
pub open spec fn holds_in<D>(
    i: Interp<D>,
    e: spec_fn(IndividualId) -> D,
    o: InternalOntology,
    ax: Axiom,
) -> bool {
    match ax {
        Axiom::ClassAssertion { class, individual } => o.named(class) matches Some(c)
            ==> i.in_class(c, e(individual)),
        Axiom::ObjectPropertyAssertion { role, subject, object } => i.role(
            role,
            e(subject),
            e(object),
        ),
        Axiom::ObjectPropertyDomain { role, domain } => o.named(domain) matches Some(c)
            ==> forall|x: D, y: D| #[trigger] i.role(role, x, y) ==> i.in_class(c, x),
        Axiom::ObjectPropertyRange { role, range } => o.named(range) matches Some(c)
            ==> forall|x: D, y: D| #[trigger] i.role(role, x, y) ==> i.in_class(c, y),
        Axiom::Other => true,
    }
}

/// All axioms are true.
pub open spec fn models_told<D>(
    i: Interp<D>,
    e: spec_fn(IndividualId) -> D,
    o: InternalOntology,
) -> bool {
    forall|n: int| 0 <= n < o.axioms@.len() ==> holds_in(i, e, o, #[trigger] o.axioms@[n])
}

/// Asserted edges are stored along named properties, not along inverses.
pub open spec fn edges_forward(o: InternalOntology) -> bool {
    forall|n: int|
        0 <= n < o.axioms@.len() ==> (#[trigger] o.axioms@[n] matches Axiom::ObjectPropertyAssertion {
            role,
            subject,
            object,
        } ==> role is Named)
}

/// What the closure derives is true.
pub open spec fn closure_true<D>(i: Interp<D>, closure: Subsumers) -> bool {
    forall|a: ClassId, b: ClassId, x: D|
        closure.below(a, b) && #[trigger] i.in_class(a, x) ==> #[trigger] i.in_class(b, x)
}

proof fn lemma_domains_true<D>(
    i: Interp<D>,
    e: spec_fn(IndividualId) -> D,
    o: InternalOntology,
    p: RoleId,
    x: D,
    y: D,
    n: int,
)
    requires
        models_told(i, e, o),
        0 <= n <= o.axioms@.len(),
        i.role(Role::Named(p), x, y),
    ensures
        forall|j: int|
            0 <= j < domains(o, p, n).len() ==> i.in_class(#[trigger] domains(o, p, n)[j], x),
        forall|j: int|
            0 <= j < ranges(o, p, n).len() ==> i.in_class(#[trigger] ranges(o, p, n)[j], y),
    decreases n,
{
    if n > 0 {
        lemma_domains_true(i, e, o, p, x, y, n - 1);
        assert(holds_in(i, e, o, o.axioms@[n - 1]));
        let (d0, d1) = (domains(o, p, n - 1), domains(o, p, n));
        assert forall|j: int| 0 <= j < d1.len() implies i.in_class(#[trigger] d1[j], x) by {
            if j < d0.len() {
                assert(d1[j] == d0[j]);
            }
        }
        let (r0, r1) = (ranges(o, p, n - 1), ranges(o, p, n));
        assert forall|j: int| 0 <= j < r1.len() implies i.in_class(#[trigger] r1[j], y) by {
            if j < r0.len() {
                assert(r1[j] == r0[j]);
            }
        }
    }
}

proof fn lemma_told_true<D>(
    i: Interp<D>,
    e: spec_fn(IndividualId) -> D,
    o: InternalOntology,
    a: IndividualId,
    n: int,
)
    requires
        models_told(i, e, o),
        edges_forward(o),
        0 <= n <= o.axioms@.len(),
    ensures
        forall|j: int| 0 <= j < told(o, a, n).len() ==> i.in_class(#[trigger] told(o, a, n)[j], e(a)),
    decreases n,
{
    if n > 0 {
        lemma_told_true(i, e, o, a, n - 1);
        let ax = o.axioms@[n - 1];
        assert(holds_in(i, e, o, ax));
        if let Axiom::ObjectPropertyAssertion { role, subject, object } = ax {
            lemma_domains_true(
                i,
                e,
                o,
                role.id(),
                e(subject),
                e(object),
                o.axioms@.len() as int,
            );
        }
        let last = told_by(o, a, ax);
        assert forall|j: int| 0 <= j < last.len() implies i.in_class(#[trigger] last[j], e(a)) by {}
        let all = told(o, a, n);
        assert forall|j: int| 0 <= j < all.len() implies i.in_class(#[trigger] all[j], e(a)) by {
            let m = told(o, a, n - 1).len();
            if j < m {
                assert(all[j] == told(o, a, n - 1)[j]);
            } else {
                assert(all[j] == last[j - m]);
            }
        }
    }
}

/// What the told types settle is true: in every model of the axioms in which
/// what the closure derives is true, the individual is in the class.
pub proof fn lemma_told_sound<D>(
    i: Interp<D>,
    e: spec_fn(IndividualId) -> D,
    o: InternalOntology,
    closure: Subsumers,
    c: ClassId,
    a: IndividualId,
)
    requires
        models_told(i, e, o),
        edges_forward(o),
        closure_true(i, closure),
        told_below(o, closure, c, a),
    ensures
        i.in_class(c, e(a)),
{
    lemma_told_true(i, e, o, a, o.axioms@.len() as int);
    let j = choose|j: int|
        0 <= j < told_types(o, a).len() && closure.below(#[trigger] told_types(o, a)[j], c);
    assert(i.in_class(told_types(o, a)[j], e(a)));
}

/// A type by told types alone is a type whatever the prover says, if both
/// ask about the same classes.
pub proof fn lemma_told_types_among(
    o: InternalOntology,
    closure: Subsumers,
    classes: Seq<ClassId>,
    a: IndividualId,
    probes: Seq<Probe>,
    c: ClassId,
)
    requires
        told_types_of(o, closure, classes, a).contains(c),
    ensures
        types_of(o, closure, classes, a, probes).contains(c),
{
    let told_only = |j: int, c: ClassId| told_below(o, closure, c, a);
    let either = |j: int, c: ClassId| told_below(o, closure, c, a) || probes[j].refutes();
    let n = classes.len() as int;
    lemma_picked(classes, told_only, n);
    lemma_picked(classes, either, n);
    let j = choose|j: int| 0 <= j < n && #[trigger] classes[j] == c && told_only(j, c);
    assert(classes[j] == c && either(j, c));
}

/// Candidates leave no told type out, if each class above a told type is
/// among them.
pub proof fn lemma_candidates_keep_told(
    o: InternalOntology,
    h: ClassHierarchy,
    closure: Subsumers,
    candidates: Seq<u32>,
    a: IndividualId,
    c: ClassId,
)
    requires
        o.wf(),
        forall|x: ClassId| #[trigger] told_below(o, closure, x, a) ==> candidates.contains(x.0),
        told_types_of(o, closure, asked(o, h, None), a).contains(c),
    ensures
        told_types_of(o, closure, asked(o, h, Some(candidates)), a).contains(c),
{
    let told_only = |j: int, c: ClassId| told_below(o, closure, c, a);
    let all = asked(o, h, None);
    let some = asked(o, h, Some(candidates));
    let n = o.vocabulary.class_names().len() as int;
    lemma_asked(h, None, n);
    lemma_asked(h, Some(candidates), n);
    lemma_picked(all, told_only, all.len() as int);
    lemma_picked(some, told_only, some.len() as int);
    let j = choose|j: int| 0 <= j < all.len() && #[trigger] all[j] == c && told_only(j, c);
    assert(all.contains(all[j]));
    assert(some.contains(c));
    let q = some.index_of(c);
    assert(some[q] == c && told_only(q, c));
}

/// The most specific types are types that no type is strictly below: no other
/// type is below one of them unless it is above it as well.
pub proof fn lemma_leaves(h: ClassHierarchy, types: Seq<ClassId>, c: ClassId)
    ensures
        leaves_of(h, types).contains(c) <==> types.contains(c) && most_specific(h, types, c),
        leaves_of(h, types).contains(c) <==> types.contains(c) && forall|d: ClassId| #[trigger]
            types.contains(d) && h.below(d, c) ==> h.below(c, d),
{
    let lowest = |j: int, c: ClassId| most_specific(h, types, c);
    lemma_picked(types, lowest, types.len() as int);
    if types.contains(c) && most_specific(h, types, c) {
        let j = types.index_of(c);
        assert(types[j] == c && lowest(j, c));
    }
    if most_specific(h, types, c) {
        assert forall|d: ClassId| #[trigger] types.contains(d) && h.below(d, c) implies h.below(
            c,
            d,
        ) by {
            let j = types.index_of(d);
            assert(!h.strictly_below(types[j], c));
        }
    } else {
        let j = choose|j: int| 0 <= j < types.len() && h.strictly_below(#[trigger] types[j], c);
        assert(types.contains(types[j]) && h.below(types[j], c));
    }
}

/// What is picked comes in the order of the classes, each once if each of them
/// comes once.
proof fn lemma_picked_ordered(
    classes: Seq<ClassId>,
    holds: spec_fn(int, ClassId) -> bool,
    n: int,
)
    requires
        n <= classes.len(),
        forall|p: int, q: int| 0 <= p < q < classes.len() ==> (#[trigger] classes[p]).0 < (
        #[trigger] classes[q]).0,
    ensures
        forall|p: int, q: int|
            0 <= p < q < picked(classes, holds, n).len() ==> (#[trigger] picked(classes, holds, n)[p]).0
                < (#[trigger] picked(classes, holds, n)[q]).0,
    decreases n,
{
    if n > 0 {
        lemma_picked_ordered(classes, holds, n - 1);
        lemma_picked(classes, holds, n - 1);
        let rest = picked(classes, holds, n - 1);
        let all = picked(classes, holds, n);
        assert forall|p: int, q: int| 0 <= p < q < all.len() implies (#[trigger] all[p]).0 < (
        #[trigger] all[q]).0 by {
            assert(all[p] == rest[p]);
            assert(rest.contains(rest[p]));
            let j = choose|j: int| 0 <= j < n - 1 && #[trigger] classes[j] == rest[p];
            if q < rest.len() {
                assert(all[q] == rest[q]);
            } else {
                assert(classes[j].0 < classes[n - 1].0);
            }
        }
    }
}

/// What is known of an individual is put down under its name: the names of its
/// types in the order of the ids, each once, and of these those that have no
/// other type below them that is not above them as well.
pub proof fn lemma_typing(o: InternalOntology, h: ClassHierarchy, i: int, types: Seq<ClassId>, c: ClassId)
    requires
        o.wf(),
        c.0 < o.vocabulary.class_names().len(),
        forall|p: int, q: int| 0 <= p < q < types.len() ==> (#[trigger] types[p]).0 < (
        #[trigger] types[q]).0,
        forall|p: int|
            0 <= p < types.len() ==> (#[trigger] types[p]).0 < o.vocabulary.class_names().len(),
    ensures
        ({
            let t = typing(o, h, i, types);
            let names = o.vocabulary.class_names();
            &&& t.individual == o.vocabulary.individual_names()[i]
            &&& t.types.len() == types.len()
            &&& forall|p: int|
                0 <= p < types.len() ==> #[trigger] t.types[p] == names[types[p].0 as int]
            &&& t.types.contains(names[c.0 as int]) <==> types.contains(c)
            &&& t.leaves.contains(names[c.0 as int]) <==> types.contains(c) && forall|d: ClassId|
                #[trigger]
                types.contains(d) && h.below(d, c) ==> h.below(c, d)
            &&& t.leaves.no_duplicates()
            &&& forall|name: Seq<char>| #[trigger]
                t.leaves.contains(name) ==> t.types.contains(name)
            &&& forall|p: int, q: int, x: ClassId, y: ClassId|
                0 <= p < q < t.leaves.len() && x.0 < names.len() && y.0 < names.len()
                    && #[trigger] t.leaves[p] == #[trigger] names[x.0 as int]
                    && #[trigger] t.leaves[q] == #[trigger] names[y.0 as int] ==> x.0 < y.0
        }),
{
    let v = o.vocabulary;
    let names = v.class_names();
    let t = typing(o, h, i, types);
    let lowest = |j: int, c: ClassId| most_specific(h, types, c);
    let ls = leaves_of(h, types);
    lemma_leaves(h, types, c);
    lemma_picked(types, lowest, types.len() as int);
    lemma_picked_ordered(types, lowest, types.len() as int);
    assert forall|p: int| 0 <= p < ls.len() implies (#[trigger] ls[p]).0 < names.len() by {
        assert(ls.contains(ls[p]));
        let j = choose|j: int| 0 <= j < types.len() && #[trigger] types[j] == ls[p];
        assert(types[j].0 < names.len());
    }
    lemma_names_of(v, types, c);
    lemma_names_of(v, ls, c);
    assert forall|name: Seq<char>| #[trigger] t.leaves.contains(name) implies t.types.contains(
        name,
    ) by {
        let p = t.leaves.index_of(name);
        assert(ls.contains(ls[p]));
        let j = choose|j: int| 0 <= j < types.len() && #[trigger] types[j] == ls[p];
        assert(t.types[j] == name);
    }
    assert forall|p: int, q: int, x: ClassId, y: ClassId|
        0 <= p < q < t.leaves.len() && x.0 < names.len() && y.0 < names.len()
            && #[trigger] t.leaves[p] == #[trigger] names[x.0 as int] && #[trigger] t.leaves[q]
            == #[trigger] names[y.0 as int] implies x.0 < y.0 by {
        assert(t.leaves[p] == names[ls[p].0 as int]);
        assert(t.leaves[q] == names[ls[q].0 as int]);
        assert(ls[p].0 < ls[q].0);
    }
    assert forall|p: int, q: int|
        0 <= p < t.leaves.len() && 0 <= q < t.leaves.len() && p != q implies t.leaves[p]
        != t.leaves[q] by {
        assert(t.leaves[p] == names[ls[p].0 as int]);
        assert(t.leaves[q] == names[ls[q].0 as int]);
        if p < q {
            assert(ls[p].0 < ls[q].0);
        } else {
            assert(ls[q].0 < ls[p].0);
        }
    }
}

/// Where subsumption is transitive, every type has a most specific type at or
/// below it.
pub proof fn lemma_leaf_below(h: ClassHierarchy, types: Seq<ClassId>, c: ClassId)
    requires
        forall|x: ClassId, y: ClassId, z: ClassId| #[trigger]
            h.below(x, y) && #[trigger] h.below(y, z) ==> h.below(x, z),
        types.contains(c),
    ensures
        exists|l: ClassId| #[trigger]
            leaves_of(h, types).contains(l) && (l == c || h.strictly_below(l, c)),
    decreases types.to_set().filter(|x: ClassId| h.strictly_below(x, c)).len(),
{
    let under = |x: ClassId| h.strictly_below(x, c);
    let all = types.to_set();
    if most_specific(h, types, c) {
        lemma_leaves(h, types, c);
    } else {
        let j = choose|j: int| 0 <= j < types.len() && h.strictly_below(#[trigger] types[j], c);
        let d = types[j];
        let under_d = |x: ClassId| h.strictly_below(x, d);
        assert(types.contains(d));
        vstd::seq_lib::seq_to_set_is_finite(types);
        let sd = all.filter(under_d);
        let sc = all.filter(under);
        assert(sc.subset_of(all));
        vstd::set_lib::lemma_set_subset_finite(all, sc);
        assert(sd.subset_of(sc.remove(d))) by {
            assert forall|x: ClassId| sd.contains(x) implies sc.remove(d).contains(x) by {
                assert(h.below(x, d) && h.below(d, c));
                assert(h.below(x, c));
                if h.below(c, x) {
                    assert(h.below(c, x) && h.below(x, d));
                    assert(h.below(c, d));
                }
                if x == c {
                    assert(h.below(c, d));
                }
            }
        }
        assert(sc.contains(d));
        vstd::set_lib::lemma_len_subset(sd, sc.remove(d));
        lemma_leaf_below(h, types, d);
        let l = choose|l: ClassId| #[trigger]
            leaves_of(h, types).contains(l) && (l == d || h.strictly_below(l, d));
        if l != d {
            assert(h.below(l, d) && h.below(d, c));
            if h.below(c, l) {
                assert(h.below(c, l) && h.below(l, d));
                assert(h.below(c, d));
            }
            if l == c {
                assert(h.below(c, d));
            }
        }
        assert(l == c || h.strictly_below(l, c));
    }
}

/// The classes asked about come in order, each once.
proof fn lemma_asked_increasing(h: ClassHierarchy, candidates: Option<Seq<u32>>, n: int)
    requires
        n <= u32::MAX + 1,
    ensures
        forall|p: int, q: int|
            0 <= p < q < asked_from(h, candidates, n).len() ==> (#[trigger] asked_from(
                h,
                candidates,
                n,
            )[p]).0 < (#[trigger] asked_from(h, candidates, n)[q]).0,
        forall|p: int|
            0 <= p < asked_from(h, candidates, n).len() ==> (#[trigger] asked_from(
                h,
                candidates,
                n,
            )[p]).0 < n,
    decreases n,
{
    if n > 0 {
        lemma_asked_increasing(h, candidates, n - 1);
        let rest = asked_from(h, candidates, n - 1);
        let all = asked_from(h, candidates, n);
        assert forall|p: int, q: int| 0 <= p < q < all.len() implies (#[trigger] all[p]).0 < (
        #[trigger] all[q]).0 by {
            assert(all[p] == rest[p]);
            if q < rest.len() {
                assert(all[q] == rest[q]);
            }
        }
        assert forall|p: int| 0 <= p < all.len() implies (#[trigger] all[p]).0 < n by {
            if p < rest.len() {
                assert(all[p] == rest[p]);
            }
        }
    }
}

/// A class is among the names of the classes exactly if it is among them.
proof fn lemma_names_of(v: Vocabulary, classes: Seq<ClassId>, c: ClassId)
    requires
        v.wf(),
        c.0 < v.class_names().len(),
        forall|j: int| 0 <= j < classes.len() ==> (#[trigger] classes[j]).0 < v.class_names().len(),
    ensures
        names_of(v, classes).contains(v.class_names()[c.0 as int]) <==> classes.contains(c),
{
    let ns = names_of(v, classes);
    let name = v.class_names()[c.0 as int];
    if classes.contains(c) {
        let j = classes.index_of(c);
        assert(ns[j] == name);
    }
    if ns.contains(name) {
        let j = ns.index_of(name);
        assert(v.class_names()[classes[j].0 as int] == v.class_names()[c.0 as int]);
        assert(classes[j] == c);
    }
}

/// The types of an individual are the classes asked about of which the
/// instance check, given the same answer of the prover, says that it is an
/// instance. An unsatisfiable class is never among them.
pub proof fn lemma_types_are_instances(
    o: InternalOntology,
    h: ClassHierarchy,
    closure: Subsumers,
    candidates: Option<Seq<u32>>,
    probes: Seq<Seq<Probe>>,
    i: int,
    c: ClassId,
)
    requires
        o.wf(),
        0 <= i < o.vocabulary.individual_names().len(),
        c.0 < o.vocabulary.class_names().len(),
    ensures
        ({
            let classes = asked(o, h, candidates);
            let a = IndividualId(i as u32);
            let types = realized(o, h, closure, classes, probes)[i].types;
            let name = o.vocabulary.class_names()[c.0 as int];
            &&& forall|j: int|
                0 <= j < classes.len() && #[trigger] classes[j] == c ==> (types.contains(name)
                    <==> told_below(o, closure, c, a) || probes[i][j].refutes())
            &&& types.contains(name) ==> classes.contains(c) && !h.impossible(c)
        }),
{
    let n = o.vocabulary.class_names().len() as int;
    let classes = asked(o, h, candidates);
    let a = IndividualId(i as u32);
    let holds = |j: int, c: ClassId| told_below(o, closure, c, a) || probes[i][j].refutes();
    let types = types_of(o, closure, classes, a, probes[i]);
    lemma_asked(h, candidates, n);
    lemma_asked_increasing(h, candidates, n);
    lemma_picked(classes, holds, classes.len() as int);
    assert forall|j: int| 0 <= j < types.len() implies (#[trigger] types[j]).0 < n by {
        assert(types.contains(types[j]));
        let q = choose|q: int| 0 <= q < classes.len() && #[trigger] classes[q] == types[j];
        assert(classes[q].0 < n);
    }
    lemma_names_of(o.vocabulary, types, c);
    assert forall|j: int| 0 <= j < classes.len() && #[trigger] classes[j] == c implies (
    types.contains(c) <==> told_below(o, closure, c, a) || probes[i][j].refutes()) by {
        if types.contains(c) {
            let q = choose|q: int|
                0 <= q < classes.len() && #[trigger] classes[q] == c && holds(q, c);
            if q != j {
                assert(classes[q].0 == classes[j].0);
            }
        }
        if told_below(o, closure, c, a) || probes[i][j].refutes() {
            assert(classes[j] == c && holds(j, c));
        }
    }
    if types.contains(c) {
        let q = choose|q: int| 0 <= q < classes.len() && #[trigger] classes[q] == c && holds(q, c);
        assert(classes.contains(c));
    }
}

/// Realization and the instance check say the same: a satisfiable class is
/// among the types of an individual exactly if the check, given the answer
/// that the prover gives for the class, says that it is an instance, and no
/// unsatisfiable class is. Where candidates are given, they leave out no class
/// of which the check says so.
pub proof fn lemma_realize_iff_instance(
    o: InternalOntology,
    h: ClassHierarchy,
    closure: Subsumers,
    candidates: Option<Seq<u32>>,
    probes: Seq<Seq<Probe>>,
    answer: spec_fn(ClassId) -> Probe,
    i: int,
    c: ClassId,
)
    requires
        o.wf(),
        0 <= i < o.vocabulary.individual_names().len(),
        c.0 < o.vocabulary.class_names().len(),
        forall|j: int|
            0 <= j < asked(o, h, candidates).len() ==> probes[i][j] == answer(
                #[trigger] asked(o, h, candidates)[j],
            ),
        candidates matches Some(cs) ==> (told_below(o, closure, c, IndividualId(i as u32)) || answer(
            c,
        ).refutes() ==> cs.contains(c.0)),
    ensures
        realized(o, h, closure, asked(o, h, candidates), probes)[i].types.contains(
            o.vocabulary.class_names()[c.0 as int],
        ) <==> !h.impossible(c) && (told_below(o, closure, c, IndividualId(i as u32)) || answer(
            c,
        ).refutes()),
{
    let classes = asked(o, h, candidates);
    let n = o.vocabulary.class_names().len() as int;
    lemma_types_are_instances(o, h, closure, candidates, probes, i, c);
    lemma_asked(h, candidates, n);
    if classes.contains(c) {
        let j = choose|j: int| 0 <= j < classes.len() && classes[j] == c;
        assert(classes[j] == c);
    }
}

/// The instances that are listed are exactly the individuals of which the
/// check is true, each once, in the order of their ids.
pub proof fn lemma_instances_listed(v: Vocabulary, holds: spec_fn(IndividualId) -> bool, n: int)
    requires
        v.wf(),
        0 <= n <= v.individual_names().len(),
    ensures
        forall|i: int|
            0 <= i < n ==> (members(v, holds, n).contains(#[trigger] v.individual_names()[i])
                <==> holds(IndividualId(i as u32))),
        forall|p: int, q: int|
            0 <= p < q < members(v, holds, n).len() ==> place_of(
                v,
                #[trigger] members(v, holds, n)[p],
            ) < place_of(v, #[trigger] members(v, holds, n)[q]),
        forall|p: int|
            0 <= p < members(v, holds, n).len() ==> {
                &&& 0 <= place_of(v, #[trigger] members(v, holds, n)[p]) < n
                &&& v.individual_names().contains(members(v, holds, n)[p])
            },
        members(v, holds, n).no_duplicates(),
    decreases n,
{
    let names = v.individual_names();
    if n > 0 {
        lemma_instances_listed(v, holds, n - 1);
        let rest = members(v, holds, n - 1);
        let all = members(v, holds, n);
        let last = names[n - 1];
        lemma_position(names, n - 1);
        crate::rules_wf::lemma_push_contains(rest, last);
        if rest.contains(last) {
            let p = rest.index_of(last);
            assert(place_of(v, rest[p]) < n - 1);
        }
        assert forall|i: int| 0 <= i < n implies (all.contains(#[trigger] names[i]) <==> holds(
            IndividualId(i as u32),
        )) by {
            if i < n - 1 {
                assert(names[i] != last);
                assert(rest.contains(names[i]) <==> holds(IndividualId(i as u32)));
            }
        }
        assert forall|p: int, q: int| 0 <= p < q < all.len() implies place_of(v, #[trigger] all[p])
            < place_of(v, #[trigger] all[q]) by {
            assert(all[p] == rest[p]);
            if q < rest.len() {
                assert(all[q] == rest[q]);
            }
        }
        assert forall|p: int| 0 <= p < all.len() implies 0 <= place_of(v, #[trigger] all[p]) < n
            && names.contains(all[p]) by {
            if p < rest.len() {
                assert(all[p] == rest[p]);
            } else {
                assert(names[n - 1] == all[p]);
            }
        }
        assert(all.no_duplicates()) by {
            assert forall|p: int, q: int| 0 <= p < all.len() && 0 <= q < all.len() && p != q implies all[p]
                != all[q] by {
                if p < q {
                    assert(place_of(v, all[p]) < place_of(v, all[q]));
                } else {
                    assert(place_of(v, all[q]) < place_of(v, all[p]));
                }
            }
        }
    }
}

/// The id of an individual by its name.
pub open spec fn place_of(v: Vocabulary, name: Seq<char>) -> int {
    position(v.individual_names(), name)->0
}

/// The answer `p` is the answer `f`, or that of a search that was cut short.
pub open spec fn cut_short(p: Probe, f: Probe) -> bool {
    p == f || p == Probe::Seeded(HyperResult::Stalled) || p == Probe::Tableau(None)
}

/// A limit on the time of each check loses types and adds none: if each
/// answer is the one without the limit or that of a search that was cut
/// short, the types are among those without the limit, and are the same if
/// none was cut short. The individuals are the same.
pub proof fn lemma_timeout_types(
    o: InternalOntology,
    h: ClassHierarchy,
    closure: Subsumers,
    classes: Seq<ClassId>,
    timed: Seq<Seq<Probe>>,
    free: Seq<Seq<Probe>>,
    i: int,
)
    requires
        0 <= i < o.vocabulary.individual_names().len(),
        forall|j: int| 0 <= j < classes.len() ==> cut_short(#[trigger] timed[i][j], free[i][j]),
    ensures
        ({
            let t = realized(o, h, closure, classes, timed);
            let f = realized(o, h, closure, classes, free);
            &&& t.len() == f.len()
            &&& t[i].individual == f[i].individual
            &&& forall|name: Seq<char>| #[trigger]
                t[i].types.contains(name) ==> f[i].types.contains(name)
            &&& timed[i] == free[i] ==> t[i] == f[i]
        }),
{
    let a = IndividualId(i as u32);
    let th = |j: int, c: ClassId| told_below(o, closure, c, a) || timed[i][j].refutes();
    let fh = |j: int, c: ClassId| told_below(o, closure, c, a) || free[i][j].refutes();
    let n = classes.len() as int;
    let tt = types_of(o, closure, classes, a, timed[i]);
    let ft = types_of(o, closure, classes, a, free[i]);
    lemma_picked(classes, th, n);
    lemma_picked(classes, fh, n);
    assert forall|c: ClassId| #[trigger] tt.contains(c) implies ft.contains(c) by {
        let j = choose|j: int| 0 <= j < n && #[trigger] classes[j] == c && th(j, c);
        assert(cut_short(timed[i][j], free[i][j]));
        assert(classes[j] == c && fh(j, c));
    }
    lemma_names_among(o.vocabulary, tt, ft);
}

/// What names more classes has more names.
proof fn lemma_names_among(v: Vocabulary, a: Seq<ClassId>, b: Seq<ClassId>)
    requires
        forall|c: ClassId| #[trigger] a.contains(c) ==> b.contains(c),
    ensures
        forall|name: Seq<char>| #[trigger]
            names_of(v, a).contains(name) ==> names_of(v, b).contains(name),
{
    assert forall|name: Seq<char>| #[trigger] names_of(v, a).contains(name) implies names_of(
        v,
        b,
    ).contains(name) by {
        let j = names_of(v, a).index_of(name);
        assert(a.contains(a[j]));
        let q = b.index_of(a[j]);
        assert(names_of(v, b)[q] == name);
    }
}

/// The types by told types alone are among all types, each over its own
/// classification: if every class above a told type is satisfiable, as it is
/// in a consistent ontology, and is among the candidates of the full
/// realization. The individuals are the same.
pub proof fn lemma_saturation_types(
    o: InternalOntology,
    h: ClassHierarchy,
    candidates: Option<Seq<u32>>,
    probes: Seq<Seq<Probe>>,
    told_h: ClassHierarchy,
    told_candidates: Option<Seq<u32>>,
    closure: Subsumers,
    i: int,
)
    requires
        o.wf(),
        0 <= i < o.vocabulary.individual_names().len(),
        forall|x: ClassId| #[trigger]
            told_below(o, closure, x, IndividualId(i as u32)) ==> !h.impossible(x) && (
            candidates matches Some(cs) ==> cs.contains(x.0)),
    ensures
        ({
            let t = realized_told(o, told_h, closure, asked(o, told_h, told_candidates));
            let f = realized(o, h, closure, asked(o, h, candidates), probes);
            &&& t.len() == f.len()
            &&& t[i].individual == f[i].individual
            &&& forall|name: Seq<char>| #[trigger]
                t[i].types.contains(name) ==> f[i].types.contains(name)
        }),
{
    let a = IndividualId(i as u32);
    let n = o.vocabulary.class_names().len() as int;
    let few = asked(o, told_h, told_candidates);
    let all = asked(o, h, candidates);
    let told_only = |j: int, c: ClassId| told_below(o, closure, c, a);
    let either = |j: int, c: ClassId| told_below(o, closure, c, a) || probes[i][j].refutes();
    let tt = told_types_of(o, closure, few, a);
    let ft = types_of(o, closure, all, a, probes[i]);
    lemma_asked(told_h, told_candidates, n);
    lemma_asked(h, candidates, n);
    lemma_picked(few, told_only, few.len() as int);
    lemma_picked(all, either, all.len() as int);
    assert forall|c: ClassId| #[trigger] tt.contains(c) implies ft.contains(c) by {
        let j = choose|j: int| 0 <= j < few.len() && #[trigger] few[j] == c && told_only(j, c);
        assert(few.contains(c));
        assert(all.contains(c));
        let q = all.index_of(c);
        assert(all[q] == c && either(q, c));
    }
    lemma_names_among(o.vocabulary, tt, ft);
}

/// What is picked from the classes asked about is among the classes, in the
/// order of the ids.
proof fn lemma_picked_asked(
    h: ClassHierarchy,
    candidates: Option<Seq<u32>>,
    n: int,
    holds: spec_fn(int, ClassId) -> bool,
)
    requires
        0 <= n <= u32::MAX + 1,
    ensures
        ({
            let classes = asked_from(h, candidates, n);
            let types = picked(classes, holds, classes.len() as int);
            &&& forall|p: int| 0 <= p < types.len() ==> (#[trigger] types[p]).0 < n
            &&& forall|p: int, q: int| 0 <= p < q < types.len() ==> (#[trigger] types[p]).0 < (
            #[trigger] types[q]).0
        }),
{
    let classes = asked_from(h, candidates, n);
    let types = picked(classes, holds, classes.len() as int);
    lemma_asked_increasing(h, candidates, n);
    lemma_picked(classes, holds, classes.len() as int);
    lemma_picked_ordered(classes, holds, classes.len() as int);
    assert forall|p: int| 0 <= p < types.len() implies (#[trigger] types[p]).0 < n by {
        assert(types.contains(types[p]));
        let j = choose|j: int| 0 <= j < classes.len() && #[trigger] classes[j] == types[p];
        assert(classes[j].0 < n);
    }
}

/// Of a list of types and most specific types: the most specific are those of
/// the types that have no other type below them that is not above them as
/// well.
proof fn lemma_typing_specific(
    o: InternalOntology,
    h: ClassHierarchy,
    i: int,
    types: Seq<ClassId>,
    c: ClassId,
)
    requires
        o.wf(),
        c.0 < o.vocabulary.class_names().len(),
        forall|p: int, q: int| 0 <= p < q < types.len() ==> (#[trigger] types[p]).0 < (
        #[trigger] types[q]).0,
        forall|p: int|
            0 <= p < types.len() ==> (#[trigger] types[p]).0 < o.vocabulary.class_names().len(),
    ensures
        ({
            let t = typing(o, h, i, types);
            let names = o.vocabulary.class_names();
            t.leaves.contains(names[c.0 as int]) <==> t.types.contains(names[c.0 as int])
                && forall|d: ClassId|
                d.0 < names.len() && t.types.contains(#[trigger] names[d.0 as int]) && h.below(d, c)
                    ==> h.below(c, d)
        }),
{
    let t = typing(o, h, i, types);
    let names = o.vocabulary.class_names();
    lemma_typing(o, h, i, types, c);
    assert forall|d: ClassId| d.0 < names.len() implies (t.types.contains(
        #[trigger] names[d.0 as int],
    ) <==> types.contains(d)) by {
        lemma_names_of(o.vocabulary, types, d);
    }
    assert forall|d: ClassId| types.contains(d) implies d.0 < names.len() && t.types.contains(
        #[trigger] names[d.0 as int],
    ) by {
        let j = types.index_of(d);
        assert(types[j].0 < names.len());
    }
    if t.types.contains(names[c.0 as int]) {
        if forall|d: ClassId|
            d.0 < names.len() && t.types.contains(#[trigger] names[d.0 as int]) && h.below(d, c)
                ==> h.below(c, d) {
            assert forall|d: ClassId| #[trigger] types.contains(d) && h.below(d, c) implies h.below(
                c,
                d,
            ) by {
                assert(t.types.contains(names[d.0 as int]));
            }
        }
    }
}

/// Realization puts down every individual in turn. The most specific types of
/// one are its types that have no other type of it below them that is not above
/// them as well, whatever the ids.
pub proof fn lemma_realized_specific(
    o: InternalOntology,
    h: ClassHierarchy,
    closure: Subsumers,
    candidates: Option<Seq<u32>>,
    probes: Seq<Seq<Probe>>,
    i: int,
    c: ClassId,
)
    requires
        o.wf(),
        0 <= i < o.vocabulary.individual_names().len(),
        c.0 < o.vocabulary.class_names().len(),
    ensures
        ({
            let names = o.vocabulary.class_names();
            let r = realized(o, h, closure, asked(o, h, candidates), probes);
            &&& r.len() == o.vocabulary.individual_names().len()
            &&& r[i].individual == o.vocabulary.individual_names()[i]
            &&& r[i].types.no_duplicates()
            &&& r[i].leaves.contains(names[c.0 as int]) <==> r[i].types.contains(names[c.0 as int])
                && forall|d: ClassId|
                d.0 < names.len() && r[i].types.contains(#[trigger] names[d.0 as int]) && h.below(
                    d,
                    c,
                ) ==> h.below(c, d)
        }),
{
    let a = IndividualId(i as u32);
    let n = o.vocabulary.class_names().len() as int;
    let holds = |j: int, c: ClassId| told_below(o, closure, c, a) || probes[i][j].refutes();
    let types = types_of(o, closure, asked(o, h, candidates), a, probes[i]);
    lemma_picked_asked(h, candidates, n, holds);
    lemma_typing_specific(o, h, i, types, c);
    lemma_names_once(o.vocabulary, types);
}

/// As [`lemma_realized_specific`], by told types alone: and a class is a type
/// exactly if it is satisfiable and a told type is derived to be below it.
pub proof fn lemma_told_realized(
    o: InternalOntology,
    h: ClassHierarchy,
    closure: Subsumers,
    i: int,
    c: ClassId,
)
    requires
        o.wf(),
        0 <= i < o.vocabulary.individual_names().len(),
        c.0 < o.vocabulary.class_names().len(),
    ensures
        ({
            let names = o.vocabulary.class_names();
            let r = realized_told(o, h, closure, asked(o, h, None));
            &&& r.len() == o.vocabulary.individual_names().len()
            &&& r[i].individual == o.vocabulary.individual_names()[i]
            &&& r[i].types.no_duplicates()
            &&& r[i].types.contains(names[c.0 as int]) <==> !h.impossible(c) && exists|t: ClassId|
                #[trigger]
                told_types(o, IndividualId(i as u32)).contains(t) && closure.below(t, c)
            &&& r[i].leaves.contains(names[c.0 as int]) <==> r[i].types.contains(names[c.0 as int])
                && forall|d: ClassId|
                d.0 < names.len() && r[i].types.contains(#[trigger] names[d.0 as int]) && h.below(
                    d,
                    c,
                ) ==> h.below(c, d)
        }),
{
    let a = IndividualId(i as u32);
    let n = o.vocabulary.class_names().len() as int;
    let classes = asked(o, h, None);
    let holds = |j: int, c: ClassId| told_below(o, closure, c, a);
    let types = told_types_of(o, closure, classes, a);
    lemma_picked_asked(h, None, n, holds);
    lemma_typing_specific(o, h, i, types, c);
    lemma_names_once(o.vocabulary, types);
    lemma_names_of(o.vocabulary, types, c);
    lemma_asked(h, None, n);
    lemma_picked(classes, holds, classes.len() as int);
    crate::told_laws::lemma_told_settles(o, closure, c, a);
    if !h.impossible(c) && told_below(o, closure, c, a) {
        assert(classes.contains(c));
        let j = classes.index_of(c);
        assert(classes[j] == c && holds(j, c));
    }
    if types.contains(c) {
        let j = choose|j: int| 0 <= j < classes.len() && #[trigger] classes[j] == c && holds(j, c);
        assert(classes.contains(classes[j]));
    }
}

/// Classes that come once have names that come once.
proof fn lemma_names_once(v: Vocabulary, classes: Seq<ClassId>)
    requires
        v.wf(),
        forall|p: int, q: int| 0 <= p < q < classes.len() ==> (#[trigger] classes[p]).0 < (
        #[trigger] classes[q]).0,
        forall|p: int|
            0 <= p < classes.len() ==> (#[trigger] classes[p]).0 < v.class_names().len(),
    ensures
        names_of(v, classes).no_duplicates(),
{
    let ns = names_of(v, classes);
    assert forall|p: int, q: int| 0 <= p < ns.len() && 0 <= q < ns.len() && p != q implies ns[p]
        != ns[q] by {
        assert(classes[p].0 < v.class_names().len() && classes[q].0 < v.class_names().len());
        if p < q {
            assert(classes[p].0 < classes[q].0);
        } else {
            assert(classes[q].0 < classes[p].0);
        }
        assert(v.class_names()[classes[p].0 as int] != v.class_names()[classes[q].0 as int]);
    }
}

/// What was put down under a name is found under it, if no name was put down
/// twice, and nothing is found under a name that was not put down.
pub proof fn lemma_entry_found(ts: Seq<Typing>, individual: Seq<char>)
    requires
        forall|p: int, q: int|
            0 <= p < q < ts.len() ==> (#[trigger] ts[p]).individual != (
            #[trigger] ts[q]).individual,
    ensures
        forall|p: int|
            0 <= p < ts.len() && (#[trigger] ts[p]).individual == individual ==> entry(
                ts,
                individual,
            ) == Some(ts[p]),
        (forall|p: int| 0 <= p < ts.len() ==> (#[trigger] ts[p]).individual != individual) ==> entry(
            ts,
            individual,
        ) is None,
    decreases ts.len(),
{
    if ts.len() > 0 {
        let rest = ts.drop_last();
        assert forall|p: int, q: int| 0 <= p < q < rest.len() implies (
        #[trigger] rest[p]).individual != (#[trigger] rest[q]).individual by {
            assert(ts[p].individual != ts[q].individual);
        }
        lemma_entry_found(rest, individual);
        assert forall|p: int|
            0 <= p < ts.len() && (#[trigger] ts[p]).individual == individual implies entry(
            ts,
            individual,
        ) == Some(ts[p]) by {
            if p < rest.len() {
                assert(rest[p] == ts[p]);
                assert(ts[p].individual != ts[ts.len() - 1].individual);
            }
        }
        if forall|p: int| 0 <= p < ts.len() ==> (#[trigger] ts[p]).individual != individual {
            assert forall|p: int| 0 <= p < rest.len() implies (#[trigger] rest[p]).individual
                != individual by {
                assert(ts[p].individual != individual);
            }
            assert(ts[ts.len() - 1].individual != individual);
        }
    }
}

} // verus!
