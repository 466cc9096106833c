//! What an individual is told to be, read off the axioms.

use vstd::prelude::*;
use crate::ids::{ClassId, IndividualId, Role, RoleId};
use crate::ontology::{
    lemma_position, position, texts, Axiom, ConceptExpr, ConceptId, InternalOntology, Subsumers,
    Vocabulary,
};
use crate::realize::{
    answers_instance, answers_instances, domains, members, ranges, told, told_below, told_by,
    told_types, Probe, ReasonError,
};
use crate::realize_laws::lemma_instances_listed;

verus! {

proof fn lemma_domains_listed(o: InternalOntology, p: RoleId, n: int, c: ClassId)
    requires
        0 <= n <= o.axioms@.len(),
    ensures
        domains(o, p, n).contains(c) <==> exists|m: int|
            0 <= m < n && (#[trigger] o.axioms@[m] matches Axiom::ObjectPropertyDomain { role, domain }
                && role == Role::Named(p) && o.concepts@[domain.0 as int] == ConceptExpr::Atomic(c)),
        ranges(o, p, n).contains(c) <==> exists|m: int|
            0 <= m < n && (#[trigger] o.axioms@[m] matches Axiom::ObjectPropertyRange { role, range }
                && role == Role::Named(p) && o.concepts@[range.0 as int] == ConceptExpr::Atomic(c)),
    decreases n,
{
    if n > 0 {
        lemma_domains_listed(o, p, n - 1, c);
        let (d, r) = (domains(o, p, n - 1), ranges(o, p, n - 1));
        match o.axioms@[n - 1] {
            Axiom::ObjectPropertyDomain { role, domain } => {
                if let Some(x) = o.named(domain) {
                    crate::rules_wf::lemma_push_contains(d, x);
                }
            },
            Axiom::ObjectPropertyRange { role, range } => {
                if let Some(x) = o.named(range) {
                    crate::rules_wf::lemma_push_contains(r, x);
                }
            },
            _ => {},
        }
    }
}

proof fn lemma_joined_contains<T>(a: Seq<T>, b: Seq<T>, x: T)
    ensures
        (a + b).contains(x) <==> a.contains(x) || b.contains(x),
{
    if a.contains(x) {
        let i = a.index_of(x);
        assert((a + b)[i] == x);
    }
    if b.contains(x) {
        let i = b.index_of(x);
        assert((a + b)[a.len() + i] == x);
    }
    if (a + b).contains(x) {
        let i = (a + b).index_of(x);
        if i < a.len() {
            assert(a[i] == x);
        } else {
            assert(b[i - a.len()] == x);
        }
    }
}

proof fn lemma_told_listed(o: InternalOntology, a: IndividualId, n: int, c: ClassId)
    requires
        0 <= n <= o.axioms@.len(),
    ensures
        told(o, a, n).contains(c) <==> exists|m: int|
            0 <= m < n && told_by(o, a, #[trigger] o.axioms@[m]).contains(c),
    decreases n,
{
    if n > 0 {
        lemma_told_listed(o, a, n - 1, c);
        lemma_joined_contains(told(o, a, n - 1), told_by(o, a, o.axioms@[n - 1]), c);
    }
}

/// Every named class that is asserted of an individual is a told type of it.
pub proof fn lemma_asserted_told(
    o: InternalOntology,
    n: int,
    class: ConceptId,
    a: IndividualId,
    c: ClassId,
)
    requires
        0 <= n < o.axioms@.len(),
        o.axioms@[n] == (Axiom::ClassAssertion { class, individual: a }),
        o.concepts@[class.0 as int] == ConceptExpr::Atomic(c),
    ensures
        told_types(o, a).contains(c),
{
    lemma_told_listed(o, a, o.axioms@.len() as int, c);
    assert(told_by(o, a, o.axioms@[n])[0] == c);
}

/// Every named domain of a property that leads from an individual is a told
/// type of it.
pub proof fn lemma_domain_told(
    o: InternalOntology,
    n: int,
    m: int,
    p: RoleId,
    role: Role,
    a: IndividualId,
    b: IndividualId,
    domain: ConceptId,
    c: ClassId,
)
    requires
        0 <= n < o.axioms@.len(),
        0 <= m < o.axioms@.len(),
        role == Role::Named(p) || role == Role::Inverse(p),
        o.axioms@[n] == (Axiom::ObjectPropertyAssertion { role, subject: a, object: b }),
        o.axioms@[m] == (Axiom::ObjectPropertyDomain { role: Role::Named(p), domain }),
        o.concepts@[domain.0 as int] == ConceptExpr::Atomic(c),
    ensures
        told_types(o, a).contains(c),
{
    let len = o.axioms@.len() as int;
    lemma_told_listed(o, a, len, c);
    lemma_domains_listed(o, p, len, c);
    let ds = domains(o, role.id(), len);
    assert(ds.contains(c));
    let rs = if b == a {
        ranges(o, role.id(), len)
    } else {
        Seq::empty()
    };
    lemma_joined_contains(ds, rs, c);
    assert(told_by(o, a, o.axioms@[n]).contains(c));
}

/// Every named range of a property that leads to an individual is a told type
/// of it.
pub proof fn lemma_range_told(
    o: InternalOntology,
    n: int,
    m: int,
    p: RoleId,
    role: Role,
    a: IndividualId,
    b: IndividualId,
    range: ConceptId,
    c: ClassId,
)
    requires
        0 <= n < o.axioms@.len(),
        0 <= m < o.axioms@.len(),
        role == Role::Named(p) || role == Role::Inverse(p),
        o.axioms@[n] == (Axiom::ObjectPropertyAssertion { role, subject: a, object: b }),
        o.axioms@[m] == (Axiom::ObjectPropertyRange { role: Role::Named(p), range }),
        o.concepts@[range.0 as int] == ConceptExpr::Atomic(c),
    ensures
        told_types(o, b).contains(c),
{
    let len = o.axioms@.len() as int;
    lemma_told_listed(o, b, len, c);
    lemma_domains_listed(o, p, len, c);
    let rs = ranges(o, role.id(), len);
    assert(rs.contains(c));
    let ds = if a == b {
        domains(o, role.id(), len)
    } else {
        Seq::empty()
    };
    lemma_joined_contains(ds, rs, c);
    assert(told_by(o, b, o.axioms@[n]).contains(c));
}

/// Nothing else is a told type: it is asserted, or is a named domain of a
/// property that leads from the individual, or a named range of one that leads
/// to it.
pub proof fn lemma_told_only(o: InternalOntology, a: IndividualId, c: ClassId)
    requires
        told_types(o, a).contains(c),
    ensures
        ({
            ||| exists|n: int|
                0 <= n < o.axioms@.len() && (#[trigger] o.axioms@[n] matches Axiom::ClassAssertion {
                    class,
                    individual,
                } && individual == a && o.concepts@[class.0 as int] == ConceptExpr::Atomic(c))
            ||| exists|n: int, m: int|
                #![trigger o.axioms@[n], o.axioms@[m]]
                0 <= n < o.axioms@.len() && 0 <= m < o.axioms@.len() && (
                o.axioms@[n] matches Axiom::ObjectPropertyAssertion { role, subject, object }
                    && subject == a && (o.axioms@[m] matches Axiom::ObjectPropertyDomain {
                    role: r,
                    domain,
                } && r is Named && (role == Role::Named(r->Named_0) || role == Role::Inverse(
                    r->Named_0,
                )) && o.concepts@[domain.0 as int] == ConceptExpr::Atomic(c)))
            ||| exists|n: int, m: int|
                #![trigger o.axioms@[n], o.axioms@[m]]
                0 <= n < o.axioms@.len() && 0 <= m < o.axioms@.len() && (
                o.axioms@[n] matches Axiom::ObjectPropertyAssertion { role, subject, object }
                    && object == a && (o.axioms@[m] matches Axiom::ObjectPropertyRange {
                    role: r,
                    range,
                } && r is Named && (role == Role::Named(r->Named_0) || role == Role::Inverse(
                    r->Named_0,
                )) && o.concepts@[range.0 as int] == ConceptExpr::Atomic(c)))
        }),
{
    let len = o.axioms@.len() as int;
    lemma_told_listed(o, a, len, c);
    let n = choose|n: int| 0 <= n < len && told_by(o, a, #[trigger] o.axioms@[n]).contains(c);
    match o.axioms@[n] {
        Axiom::ClassAssertion { class, individual } => {
            let i = told_by(o, a, o.axioms@[n]).index_of(c);
            assert(told_by(o, a, o.axioms@[n])[i] == c);
        },
        Axiom::ObjectPropertyAssertion { role, subject, object } => {
            let p = role.id();
            let ds = if subject == a {
                domains(o, p, len)
            } else {
                Seq::empty()
            };
            let rs = if object == a {
                ranges(o, p, len)
            } else {
                Seq::empty()
            };
            lemma_joined_contains(ds, rs, c);
            lemma_domains_listed(o, p, len, c);
            if ds.contains(c) {
                let m = choose|m: int|
                    0 <= m < len && (#[trigger] o.axioms@[m] matches Axiom::ObjectPropertyDomain {
                        role: r,
                        domain,
                    } && r == Role::Named(p) && o.concepts@[domain.0 as int]
                        == ConceptExpr::Atomic(c));
                assert(o.axioms@[n] is ObjectPropertyAssertion && o.axioms@[m] is ObjectPropertyDomain);
            } else {
                let m = choose|m: int|
                    0 <= m < len && (#[trigger] o.axioms@[m] matches Axiom::ObjectPropertyRange {
                        role: r,
                        range,
                    } && r == Role::Named(p) && o.concepts@[range.0 as int]
                        == ConceptExpr::Atomic(c));
                assert(o.axioms@[n] is ObjectPropertyAssertion && o.axioms@[m] is ObjectPropertyRange);
            }
        },
        _ => {},
    }
}

/// The told types come in the order of the axioms, as often as they are told:
/// one more assertion adds its class at the end if it is about the individual
/// and about a named class, and nothing else.
pub proof fn lemma_told_one_more(
    o: InternalOntology,
    more: InternalOntology,
    class: ConceptId,
    b: IndividualId,
    a: IndividualId,
)
    requires
        more.concepts@ == o.concepts@,
        more.axioms@ == o.axioms@.push((Axiom::ClassAssertion { class, individual: b })),
    ensures
        told_types(more, a) == if a == b && o.concepts@[class.0 as int] is Atomic {
            told_types(o, a).push(o.concepts@[class.0 as int]->Atomic_0)
        } else {
            told_types(o, a)
        },
{
    let n = o.axioms@.len() as int;
    lemma_told_prefix(o, more, a, n);
    assert(told(more, a, n + 1) == told(more, a, n) + told_by(more, a, more.axioms@[n]));
    assert(told_types(more, a) =~= if a == b && o.concepts@[class.0 as int] is Atomic {
        told_types(o, a).push(o.concepts@[class.0 as int]->Atomic_0)
    } else {
        told_types(o, a)
    });
}

proof fn lemma_domains_prefix(o: InternalOntology, more: InternalOntology, p: RoleId, n: int)
    requires
        more.concepts@ == o.concepts@,
        o.axioms@.len() <= more.axioms@.len(),
        forall|i: int| 0 <= i < o.axioms@.len() ==> #[trigger] more.axioms@[i] == o.axioms@[i],
        n <= o.axioms@.len(),
    ensures
        domains(more, p, n) == domains(o, p, n),
        ranges(more, p, n) == ranges(o, p, n),
    decreases n,
{
    if n > 0 {
        lemma_domains_prefix(o, more, p, n - 1);
        assert(more.axioms@[n - 1] == o.axioms@[n - 1]);
    }
}

/// An axiom at the end that is no domain or range changes nothing of what the
/// others tell.
proof fn lemma_told_prefix(o: InternalOntology, more: InternalOntology, a: IndividualId, n: int)
    requires
        more.concepts@ == o.concepts@,
        more.axioms@.len() == o.axioms@.len() + 1,
        forall|i: int| 0 <= i < o.axioms@.len() ==> #[trigger] more.axioms@[i] == o.axioms@[i],
        !(more.axioms@.last() is ObjectPropertyDomain),
        !(more.axioms@.last() is ObjectPropertyRange),
        n <= o.axioms@.len(),
    ensures
        told(more, a, n) == told(o, a, n),
    decreases n,
{
    if n > 0 {
        lemma_told_prefix(o, more, a, n - 1);
        assert(more.axioms@[n - 1] == o.axioms@[n - 1]);
        if let Axiom::ObjectPropertyAssertion { role, subject, object } = o.axioms@[n - 1] {
            let len = o.axioms@.len() as int;
            lemma_domains_prefix(o, more, role.id(), len);
            assert(more.axioms@[len] == more.axioms@.last());
            assert(domains(more, role.id(), len + 1) == domains(more, role.id(), len));
            assert(ranges(more, role.id(), len + 1) == ranges(more, role.id(), len));
        }
    }
}

/// One more asserted edge adds the named domains of its property if it leads
/// from the individual, and then the named ranges if it leads to it.
pub proof fn lemma_told_one_more_edge(
    o: InternalOntology,
    more: InternalOntology,
    role: Role,
    p: RoleId,
    b: IndividualId,
    d: IndividualId,
    a: IndividualId,
)
    requires
        more.concepts@ == o.concepts@,
        more.axioms@ == o.axioms@.push(
            (Axiom::ObjectPropertyAssertion { role, subject: b, object: d }),
        ),
        role == Role::Named(p) || role == Role::Inverse(p),
    ensures
        a != b && a != d ==> told_types(more, a) == told_types(o, a),
        a == b && a != d ==> told_types(more, a) == told_types(o, a) + domains(
            o,
            p,
            o.axioms@.len() as int,
        ),
        a != b && a == d ==> told_types(more, a) == told_types(o, a) + ranges(
            o,
            p,
            o.axioms@.len() as int,
        ),
        a == b && a == d ==> told_types(more, a) == told_types(o, a) + domains(
            o,
            p,
            o.axioms@.len() as int,
        ) + ranges(o, p, o.axioms@.len() as int),
{
    let n = o.axioms@.len() as int;
    lemma_told_prefix(o, more, a, n);
    lemma_domains_prefix(o, more, p, n);
    assert(domains(more, p, n + 1) == domains(o, p, n));
    assert(ranges(more, p, n + 1) == ranges(o, p, n));
    let t = told_types(more, a);
    assert(t == told(o, a, n) + told_by(more, a, more.axioms@[n]));
    if a == b && a == d {
        assert(t =~= told_types(o, a) + domains(o, p, n) + ranges(o, p, n));
    } else if a == b {
        assert(t =~= told_types(o, a) + domains(o, p, n));
    } else if a == d {
        assert(t =~= told_types(o, a) + ranges(o, p, n));
    } else {
        assert(t =~= told_types(o, a));
    }
}

/// The named domains of a property come in the order of the axioms, and so do
/// its named ranges: one more axiom adds its class at the end, if it is a
/// domain or a range of the property and about a named class.
pub proof fn lemma_domains_one_more(
    o: InternalOntology,
    more: InternalOntology,
    ax: Axiom,
    p: RoleId,
)
    requires
        more.concepts@ == o.concepts@,
        more.axioms@ == o.axioms@.push(ax),
    ensures
        domains(more, p, more.axioms@.len() as int) == match ax {
            Axiom::ObjectPropertyDomain { role, domain } => if role == Role::Named(p)
                && o.concepts@[domain.0 as int] is Atomic {
                domains(o, p, o.axioms@.len() as int).push(o.concepts@[domain.0 as int]->Atomic_0)
            } else {
                domains(o, p, o.axioms@.len() as int)
            },
            _ => domains(o, p, o.axioms@.len() as int),
        },
        ranges(more, p, more.axioms@.len() as int) == match ax {
            Axiom::ObjectPropertyRange { role, range } => if role == Role::Named(p)
                && o.concepts@[range.0 as int] is Atomic {
                ranges(o, p, o.axioms@.len() as int).push(o.concepts@[range.0 as int]->Atomic_0)
            } else {
                ranges(o, p, o.axioms@.len() as int)
            },
            _ => ranges(o, p, o.axioms@.len() as int),
        },
{
    let n = o.axioms@.len() as int;
    lemma_domains_prefix(o, more, p, n);
    assert(more.axioms@[n] == ax);
    assert(more.axioms@.len() == n + 1);
}

/// The told types settle that an individual is in a class exactly if one of
/// them is derived to be below it.
pub proof fn lemma_told_settles(o: InternalOntology, closure: Subsumers, c: ClassId, a: IndividualId)
    ensures
        told_below(o, closure, c, a) <==> exists|t: ClassId| #[trigger]
            told_types(o, a).contains(t) && closure.below(t, c),
{
    let ts = told_types(o, a);
    if told_below(o, closure, c, a) {
        let i = choose|i: int| 0 <= i < ts.len() && closure.below(#[trigger] ts[i], c);
        assert(ts.contains(ts[i]));
    }
    if exists|t: ClassId| #[trigger] ts.contains(t) && closure.below(t, c) {
        let t = choose|t: ClassId| #[trigger] ts.contains(t) && closure.below(t, c);
        let i = ts.index_of(t);
        assert(closure.below(ts[i], c));
    }
}

/// A prover settles that an individual is an instance by a refutation, and by
/// nothing else.
pub proof fn lemma_refutations(p: Probe)
    ensures
        p.refutes() <==> p == Probe::Seeded(crate::graph::HyperResult::Unsat) || p
            == Probe::Tableau(Some(false)),
{
}

/// An instance question about names that are in the vocabulary is answered
/// for what they stand for. One about a class that is not is an error that
/// names the class, and one about an individual that is not, an error that
/// names the individual.
pub proof fn lemma_instance_answered(
    v: Vocabulary,
    class_iri: Seq<char>,
    individual_iri: Seq<char>,
    holds: spec_fn(ClassId, IndividualId) -> bool,
    r: Result<bool, ReasonError>,
)
    requires
        v.wf(),
        answers_instance(v, class_iri, individual_iri, holds, r),
    ensures
        forall|c: ClassId, a: IndividualId|
            #![trigger holds(c, a)]
            c.0 < v.class_names().len() && a.0 < v.individual_names().len()
                && v.class_names()[c.0 as int] == class_iri && v.individual_names()[a.0 as int]
                == individual_iri ==> r == Ok::<bool, ReasonError>(holds(c, a)),
        !v.class_names().contains(class_iri) ==> (r matches Err(ReasonError::UnknownClass(name))
            && name@ == class_iri),
        v.class_names().contains(class_iri) && !v.individual_names().contains(individual_iri) ==> (
        r matches Err(ReasonError::UnknownClass(name)) && name@ == individual_iri),
        v.class_names().contains(class_iri) && v.individual_names().contains(individual_iri)
            ==> r is Ok,
{
    assert forall|c: ClassId, a: IndividualId|
        #![trigger holds(c, a)]
        c.0 < v.class_names().len() && a.0 < v.individual_names().len()
            && v.class_names()[c.0 as int] == class_iri && v.individual_names()[a.0 as int]
            == individual_iri implies r == Ok::<bool, ReasonError>(holds(c, a)) by {
        lemma_position(v.class_names(), c.0 as int);
        lemma_position(v.individual_names(), a.0 as int);
    }
}

/// The instances of a class that is in the vocabulary are the individuals of
/// which the check is true, each once and in the order of their ids.
pub proof fn lemma_instances_answered(
    v: Vocabulary,
    class_iri: Seq<char>,
    holds: spec_fn(ClassId, IndividualId) -> bool,
    r: Result<Vec<String>, ReasonError>,
)
    requires
        v.wf(),
        answers_instances(v, class_iri, holds, r),
    ensures
        !v.class_names().contains(class_iri) ==> (r matches Err(ReasonError::UnknownClass(name))
            && name@ == class_iri),
        v.class_names().contains(class_iri) ==> r is Ok,
        r matches Ok(names) ==> texts(names@).no_duplicates() && forall|c: ClassId, a: IndividualId|
            #![trigger holds(c, a)]
            c.0 < v.class_names().len() && a.0 < v.individual_names().len()
                && v.class_names()[c.0 as int] == class_iri ==> (texts(names@).contains(
                v.individual_names()[a.0 as int],
            ) <==> holds(c, a)),
        r matches Ok(names) ==> forall|p: int|
            0 <= p < names@.len() ==> v.individual_names().contains(#[trigger] names@[p]@),
        r matches Ok(names) ==> forall|p: int, q: int, i: int, j: int|
            #![trigger names@[p], names@[q], v.individual_names()[i], v.individual_names()[j]]
            0 <= p < q < names@.len() && 0 <= i < v.individual_names().len() && 0 <= j
                < v.individual_names().len() && names@[p]@ == v.individual_names()[i]
                && names@[q]@ == v.individual_names()[j] ==> i < j,
{
    if let Ok(names) = r {
        let x = position(v.class_names(), class_iri)->0;
        let n = v.individual_names().len() as int;
        let of_class = |a: IndividualId| holds(ClassId(x as u32), a);
        v.class_names().index_of_first_ensures(class_iri);
        lemma_instances_listed(v, of_class, n);
        let ts = texts(names@);
        assert(ts == members(v, of_class, n));
        assert forall|c: ClassId, a: IndividualId|
            #![trigger holds(c, a)]
            c.0 < v.class_names().len() && a.0 < n && v.class_names()[c.0 as int]
                == class_iri implies (ts.contains(v.individual_names()[a.0 as int]) <==> holds(
            c,
            a,
        )) by {
            lemma_position(v.class_names(), c.0 as int);
            assert(IndividualId(a.0 as int as u32) == a);
            assert(of_class(a) == holds(c, a));
        }
        assert forall|p: int| 0 <= p < names@.len() implies v.individual_names().contains(
            #[trigger] names@[p]@,
        ) by {
            assert(ts[p] == names@[p]@);
        }
        assert forall|p: int, q: int, i: int, j: int|
            #![trigger names@[p], names@[q], v.individual_names()[i], v.individual_names()[j]]
            0 <= p < q < names@.len() && 0 <= i < n && 0 <= j < n && names@[p]@
                == v.individual_names()[i] && names@[q]@ == v.individual_names()[j] implies i < j by {
            assert(ts[p] == names@[p]@ && ts[q] == names@[q]@);
            lemma_position(v.individual_names(), i);
            lemma_position(v.individual_names(), j);
        }
    }
}

} // verus!
