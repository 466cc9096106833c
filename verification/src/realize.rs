//! Individual-level reasoning: instance checks and realization.
//!
//! An instance check looks at the told types of the individual first. What
//! they do not settle is put to a prover: `C(a)` follows exactly if `{a} ⊓ ¬C`
//! is unsatisfiable. The prover is run by the caller; the functions here say
//! what is to be asked, and what the answers come to.
//!
//! Realization finds, for each individual, the named classes it must be in,
//! and the most specific among them.

use vstd::prelude::*;
use crate::graph::HyperResult;
use crate::ids::{ClassId, IndividualId, Role, RoleId};
use crate::ontology::{
    position, texts, Axiom, ClassHierarchy, InternalOntology, Subsumers, Vocabulary,
};

verus! {

/// Why a question could not be answered.
#[derive(Debug, Clone)]
pub enum ReasonError {
    /// The class or individual is not in the vocabulary.
    UnknownClass(String),
}

/// What the prover said of `{a} ⊓ ¬C`.
#[derive(Debug, Clone, Copy, PartialEq, Eq, Structural)]
pub enum Probe {
    /// The verdict of the hypertableau search seeded with the assertions.
    Seeded(HyperResult),
    /// Where that search is not available: whether the tableau found a model,
    /// or nothing if it ran out of time.
    Tableau(Option<bool>),
}

impl Probe {
    /// The answer settles that the individual is an instance: a refutation
    /// does, a model or a search cut short does not.
    pub open spec fn refutes(self) -> bool {
        match self {
            Probe::Seeded(r) => r is Unsat,
            Probe::Tableau(sat) => sat == Some(false),
        }
    }

    /// See [`Probe::refutes`].
    pub fn is_refutation(self) -> (r: bool)
        ensures
            r == self.refutes(),
    {
        match self {
            Probe::Seeded(HyperResult::Unsat) => true,
            Probe::Seeded(_) => false,
            Probe::Tableau(Some(sat)) => !sat,
            Probe::Tableau(None) => false,
        }
    }
}

/// The classes that a domain axiom, among the first `n` axioms, gives for
/// the object property `p`.
pub open spec fn domains(o: InternalOntology, p: RoleId, n: int) -> Seq<ClassId>
    decreases n,
{
    if n <= 0 {
        Seq::empty()
    } else {
        let rest = domains(o, p, n - 1);
        match o.axioms@[n - 1] {
            Axiom::ObjectPropertyDomain { role, domain } => match o.named(domain) {
                Some(c) => if role == Role::Named(p) {
                    rest.push(c)
                } else {
                    rest
                },
                None => rest,
            },
            _ => rest,
        }
    }
}

/// The classes that a range axiom, among the first `n` axioms, gives for the
/// object property `p`.
pub open spec fn ranges(o: InternalOntology, p: RoleId, n: int) -> Seq<ClassId>
    decreases n,
{
    if n <= 0 {
        Seq::empty()
    } else {
        let rest = ranges(o, p, n - 1);
        match o.axioms@[n - 1] {
            Axiom::ObjectPropertyRange { role, range } => match o.named(range) {
                Some(c) => if role == Role::Named(p) {
                    rest.push(c)
                } else {
                    rest
                },
                None => rest,
            },
            _ => rest,
        }
    }
}

/// What one axiom tells of the types of `a`: those it asserts, and those that
/// an asserted edge gives by the domains and ranges of its property.
pub open spec fn told_by(o: InternalOntology, a: IndividualId, ax: Axiom) -> Seq<ClassId> {
    let n = o.axioms@.len() as int;
    match ax {
        Axiom::ClassAssertion { class, individual } => match o.named(class) {
            Some(c) => if individual == a {
                seq![c]
            } else {
                Seq::empty()
            },
            None => Seq::empty(),
        },
        Axiom::ObjectPropertyAssertion { role, subject, object } => (if subject == a {
            domains(o, role.id(), n)
        } else {
            Seq::empty()
        }) + (if object == a {
            ranges(o, role.id(), n)
        } else {
            Seq::empty()
        }),
        _ => Seq::empty(),
    }
}

/// The told types of `a`, by the first `n` axioms.
pub open spec fn told(o: InternalOntology, a: IndividualId, n: int) -> Seq<ClassId>
    decreases n,
{
    if n <= 0 {
        Seq::empty()
    } else {
        told(o, a, n - 1) + told_by(o, a, o.axioms@[n - 1])
    }
}

/// The told types of `a`.
pub open spec fn told_types(o: InternalOntology, a: IndividualId) -> Seq<ClassId> {
    told(o, a, o.axioms@.len() as int)
}

/// A told type of `a` is derived to be below `c`.
pub open spec fn told_below(o: InternalOntology, closure: Subsumers, c: ClassId, a: IndividualId) -> bool {
    exists|i: int|
        0 <= i < told_types(o, a).len() && closure.below(#[trigger] told_types(o, a)[i], c)
}

fn domains_for_role(internal: &InternalOntology, role_id: RoleId) -> (out: Vec<ClassId>)
    requires
        internal.wf(),
    ensures
        out@ == domains(*internal, role_id, internal.axioms@.len() as int),
{
    let mut out: Vec<ClassId> = Vec::new();
    let mut i: usize = 0;
    while i < internal.axioms.len()
        invariant
            internal.wf(),
            i <= internal.axioms@.len(),
            out@ == domains(*internal, role_id, i as int),
        decreases internal.axioms@.len() - i,
    {
        if let Axiom::ObjectPropertyDomain { role, domain } = internal.axioms[i] {
            assert(internal.has_concept(domain));
            if let Some(c) = internal.named_class(domain) {
                if !role.is_inverse() && role.role_id() == role_id {
                    out.push(c);
                }
            }
        }
        i += 1;
    }
    out
}

fn ranges_for_role(internal: &InternalOntology, role_id: RoleId) -> (out: Vec<ClassId>)
    requires
        internal.wf(),
    ensures
        out@ == ranges(*internal, role_id, internal.axioms@.len() as int),
{
    let mut out: Vec<ClassId> = Vec::new();
    let mut i: usize = 0;
    while i < internal.axioms.len()
        invariant
            internal.wf(),
            i <= internal.axioms@.len(),
            out@ == ranges(*internal, role_id, i as int),
        decreases internal.axioms@.len() - i,
    {
        if let Axiom::ObjectPropertyRange { role, range } = internal.axioms[i] {
            assert(internal.has_concept(range));
            if let Some(c) = internal.named_class(range) {
                if !role.is_inverse() && role.role_id() == role_id {
                    out.push(c);
                }
            }
        }
        i += 1;
    }
    out
}

/// Appends `more` to `out`.
fn append_all(out: &mut Vec<ClassId>, more: &Vec<ClassId>)
    ensures
        final(out)@ == old(out)@ + more@,
{
    let mut i: usize = 0;
    while i < more.len()
        invariant
            i <= more@.len(),
            out@ == old(out)@ + more@.take(i as int),
        decreases more@.len() - i,
    {
        out.push(more[i]);
        i += 1;
        assert(out@ =~= old(out)@ + more@.take(i as int));
    }
    assert(more@.take(more@.len() as int) =~= more@);
}

/// Every named class that the individual is told to be in: by a class
/// assertion, by the domain of a property that leads from it, or by the
/// range of one that leads to it.
pub fn told_classes_of(internal: &InternalOntology, individual_id: IndividualId) -> (out: Vec<
    ClassId,
>)
    requires
        internal.wf(),
    ensures
        out@ == told_types(*internal, individual_id),
{
    let mut out: Vec<ClassId> = Vec::new();
    let mut i: usize = 0;
    while i < internal.axioms.len()
        invariant
            internal.wf(),
            i <= internal.axioms@.len(),
            out@ == told(*internal, individual_id, i as int),
        decreases internal.axioms@.len() - i,
    {
        let ghost t0 = out@;
        let ax = internal.axioms[i];
        match ax {
            Axiom::ClassAssertion { class, individual } => {
                if individual == individual_id {
                    assert(internal.has_concept(class));
                    if let Some(c) = internal.named_class(class) {
                        out.push(c);
                    }
                }
            },
            Axiom::ObjectPropertyAssertion { role, subject, object } => {
                let used = role.role_id();
                if subject == individual_id {
                    let ds = domains_for_role(internal, used);
                    append_all(&mut out, &ds);
                }
                if object == individual_id {
                    let rs = ranges_for_role(internal, used);
                    append_all(&mut out, &rs);
                }
            },
            _ => {},
        }
        assert(out@ =~= t0 + told_by(*internal, individual_id, ax));
        i += 1;
    }
    out
}

/// Whether a told type of the individual is derived to be below the class.
/// Sound, but misses what needs the prover.
pub fn instance_check_closure_only(
    internal: &InternalOntology,
    closure: &Subsumers,
    class_id: ClassId,
    individual_id: IndividualId,
) -> (r: bool)
    requires
        internal.wf(),
    ensures
        r == told_below(*internal, *closure, class_id, individual_id),
{
    let types = told_classes_of(internal, individual_id);
    let mut i: usize = 0;
    while i < types.len()
        invariant
            types@ == told_types(*internal, individual_id),
            i <= types@.len(),
            forall|j: int| 0 <= j < i ==> !closure.below(#[trigger] types@[j], class_id),
        decreases types@.len() - i,
    {
        if closure.contains(types[i], class_id) {
            assert(closure.below(told_types(*internal, individual_id)[i as int], class_id));
            return true;
        }
        i += 1;
    }
    false
}

/// The instance check: the told types settle it, or the prover does. The
/// probe is read only where the told types settle nothing.
pub fn instance_check_with_closure(
    internal: &InternalOntology,
    closure: &Subsumers,
    class_id: ClassId,
    individual_id: IndividualId,
    probe: Probe,
) -> (r: bool)
    requires
        internal.wf(),
    ensures
        r == (told_below(*internal, *closure, class_id, individual_id) || probe.refutes()),
{
    instance_check_closure_only(internal, closure, class_id, individual_id) || probe.is_refutation()
}

/// What the provers have said of an instance question so far.
#[derive(Debug, Clone, Copy, PartialEq, Eq, Structural)]
pub enum Asked {
    /// None has been asked.
    Nobody,
    /// The seeded search was asked: its verdict, or nothing where it is not
    /// available.
    Seeded(Option<HyperResult>),
    /// The tableau was asked: whether it found a model, or nothing if it ran
    /// out of time.
    Tableau(Option<bool>),
}

/// What to do next about an instance question.
#[derive(Debug, Clone, Copy, PartialEq, Eq, Structural)]
pub enum Step {
    /// Ask the seeded search.
    AskSeeded,
    /// Ask the tableau, with or without a limit on time.
    AskTableau { limited: bool },
    /// No more is to be asked.
    Done(Probe),
}

/// The order in which an instance check asks: where the told types settle the
/// question nobody is asked; else the seeded search is, and the tableau where
/// that search is not available.
pub fn next_step(told: bool, asked: Asked, limited: bool) -> (r: Step)
    ensures
        told ==> r == Step::Done(Probe::Tableau(None)),
        !told ==> match asked {
            Asked::Nobody => r == Step::AskSeeded,
            Asked::Seeded(None) => r == (Step::AskTableau { limited }),
            Asked::Seeded(Some(v)) => r == Step::Done(Probe::Seeded(v)),
            Asked::Tableau(sat) => r == Step::Done(Probe::Tableau(sat)),
        },
{
    if told {
        return Step::Done(Probe::Tableau(None));
    }
    match asked {
        Asked::Nobody => Step::AskSeeded,
        Asked::Seeded(None) => Step::AskTableau { limited },
        Asked::Seeded(Some(v)) => Step::Done(Probe::Seeded(v)),
        Asked::Tableau(sat) => Step::Done(Probe::Tableau(sat)),
    }
}

/// The class and the individual that a question is about. A class that is
/// not in the vocabulary is reported before an individual that is not.
pub fn instance_question(internal: &InternalOntology, class_iri: &str, individual_iri: &str) -> (r:
    Result<(ClassId, IndividualId), ReasonError>)
    requires
        internal.wf(),
    ensures
        match r {
            Ok((c, a)) => {
                &&& position(internal.vocabulary.class_names(), class_iri@) == Some(c.0 as int)
                &&& position(internal.vocabulary.individual_names(), individual_iri@) == Some(
                    a.0 as int,
                )
            },
            Err(ReasonError::UnknownClass(name)) => if position(
                internal.vocabulary.class_names(),
                class_iri@,
            ) is None {
                name@ == class_iri@
            } else {
                position(internal.vocabulary.individual_names(), individual_iri@) is None && name@
                    == individual_iri@
            },
        },
{
    match internal.vocabulary.class_id(class_iri) {
        None => Err(ReasonError::UnknownClass(class_iri.to_owned())),
        Some(c) => match internal.vocabulary.individual_id(individual_iri) {
            None => Err(ReasonError::UnknownClass(individual_iri.to_owned())),
            Some(a) => Ok((c, a)),
        },
    }
}

/// What an instance check on names comes to: an error for a name that is not
/// in the vocabulary, else whether `holds` is true of the two.
pub open spec fn answers_instance(
    v: Vocabulary,
    class_iri: Seq<char>,
    individual_iri: Seq<char>,
    holds: spec_fn(ClassId, IndividualId) -> bool,
    r: Result<bool, ReasonError>,
) -> bool {
    match (position(v.class_names(), class_iri), position(v.individual_names(), individual_iri)) {
        (None, _) => r matches Err(ReasonError::UnknownClass(name)) && name@ == class_iri,
        (Some(_), None) => r matches Err(ReasonError::UnknownClass(name)) && name@
            == individual_iri,
        (Some(c), Some(a)) => r matches Ok(b) && b == holds(
            ClassId(c as u32),
            IndividualId(a as u32),
        ),
    }
}

/// Whether the individual is an instance of the class in every model, given
/// what the prover says.
pub fn is_instance_of_internal(
    internal: &InternalOntology,
    closure: &Subsumers,
    class_iri: &str,
    individual_iri: &str,
    probe: Probe,
) -> (r: Result<bool, ReasonError>)
    requires
        internal.wf(),
    ensures
        answers_instance(
            internal.vocabulary,
            class_iri@,
            individual_iri@,
            |c: ClassId, a: IndividualId|
                told_below(*internal, *closure, c, a) || probe.refutes(),
            r,
        ),
{
    match instance_question(internal, class_iri, individual_iri) {
        Err(e) => Err(e),
        Ok((c, a)) => Ok(instance_check_with_closure(internal, closure, c, a, probe)),
    }
}

/// Whether the told types settle that the individual is an instance of the
/// class.
pub fn is_instance_of_saturation_only_internal(
    internal: &InternalOntology,
    closure: &Subsumers,
    class_iri: &str,
    individual_iri: &str,
) -> (r: Result<bool, ReasonError>)
    requires
        internal.wf(),
    ensures
        answers_instance(
            internal.vocabulary,
            class_iri@,
            individual_iri@,
            |c: ClassId, a: IndividualId| told_below(*internal, *closure, c, a),
            r,
        ),
{
    match instance_question(internal, class_iri, individual_iri) {
        Err(e) => Err(e),
        Ok((c, a)) => Ok(instance_check_closure_only(internal, closure, c, a)),
    }
}

/// The names of the individuals, among the first `n`, of which `holds` is
/// true.
pub open spec fn members(
    v: Vocabulary,
    holds: spec_fn(IndividualId) -> bool,
    n: int,
) -> Seq<Seq<char>>
    decreases n,
{
    if n <= 0 {
        Seq::empty()
    } else {
        let rest = members(v, holds, n - 1);
        if holds(IndividualId((n - 1) as u32)) {
            rest.push(v.individual_names()[n - 1])
        } else {
            rest
        }
    }
}

/// What a question for the instances of a class comes to.
pub open spec fn answers_instances(
    v: Vocabulary,
    class_iri: Seq<char>,
    holds: spec_fn(ClassId, IndividualId) -> bool,
    r: Result<Vec<String>, ReasonError>,
) -> bool {
    match position(v.class_names(), class_iri) {
        None => r matches Err(ReasonError::UnknownClass(name)) && name@ == class_iri,
        Some(c) => r matches Ok(names) && texts(names@) == members(
            v,
            |a: IndividualId| holds(ClassId(c as u32), a),
            v.individual_names().len() as int,
        ),
    }
}

/// The individuals that are instances of the class in every model, given what
/// the prover says of each.
pub fn instances_of_internal(
    internal: &InternalOntology,
    closure: &Subsumers,
    class_iri: &str,
    probes: &Vec<Probe>,
) -> (r: Result<Vec<String>, ReasonError>)
    requires
        internal.wf(),
        probes@.len() == internal.vocabulary.individual_names().len(),
    ensures
        answers_instances(
            internal.vocabulary,
            class_iri@,
            |c: ClassId, a: IndividualId|
                told_below(*internal, *closure, c, a) || probes@[a.0 as int].refutes(),
            r,
        ),
{
    let ghost v = internal.vocabulary;
    let class_id = match internal.vocabulary.class_id(class_iri) {
        None => {
            return Err(ReasonError::UnknownClass(class_iri.to_owned()));
        },
        Some(c) => c,
    };
    let ghost both = |c: ClassId, a: IndividualId|
        told_below(*internal, *closure, c, a) || probes@[a.0 as int].refutes();
    let ghost holds = |a: IndividualId| both(class_id, a);
    let mut out: Vec<String> = Vec::new();
    let mut i: usize = 0;
    assert(texts(out@) =~= Seq::empty());
    while i < internal.vocabulary.num_individuals()
        invariant
            internal.wf(),
            v == internal.vocabulary,
            probes@.len() == v.individual_names().len(),
            i <= v.individual_names().len(),
            forall|a: IndividualId|
                #![trigger holds(a)]
                holds(a) == (told_below(*internal, *closure, class_id, a)
                    || probes@[a.0 as int].refutes()),
            texts(out@) == members(v, holds, i as int),
        decreases v.individual_names().len() - i,
    {
        let a = IndividualId::new(i as u32);
        if instance_check_with_closure(internal, closure, class_id, a, probes[i]) {
            let ghost t0 = out@;
            out.push(internal.vocabulary.individual_iri(a).clone());
            assert(texts(out@) =~= texts(t0).push(v.individual_names()[i as int]));
        }
        assert(holds(a) == holds(IndividualId(i as u32)));
        i += 1;
    }
    Ok(out)
}

/// The individuals whose told types settle that they are instances of the
/// class.
pub fn instances_of_saturation_only_internal(
    internal: &InternalOntology,
    closure: &Subsumers,
    class_iri: &str,
) -> (r: Result<Vec<String>, ReasonError>)
    requires
        internal.wf(),
    ensures
        answers_instances(
            internal.vocabulary,
            class_iri@,
            |c: ClassId, a: IndividualId| told_below(*internal, *closure, c, a),
            r,
        ),
{
    let ghost v = internal.vocabulary;
    let class_id = match internal.vocabulary.class_id(class_iri) {
        None => {
            return Err(ReasonError::UnknownClass(class_iri.to_owned()));
        },
        Some(c) => c,
    };
    let ghost both = |c: ClassId, a: IndividualId| told_below(*internal, *closure, c, a);
    let ghost holds = |a: IndividualId| both(class_id, a);
    let mut out: Vec<String> = Vec::new();
    let mut i: usize = 0;
    assert(texts(out@) =~= Seq::empty());
    while i < internal.vocabulary.num_individuals()
        invariant
            internal.wf(),
            v == internal.vocabulary,
            i <= v.individual_names().len(),
            forall|a: IndividualId|
                #![trigger holds(a)]
                holds(a) == told_below(*internal, *closure, class_id, a),
            texts(out@) == members(v, holds, i as int),
        decreases v.individual_names().len() - i,
    {
        let a = IndividualId::new(i as u32);
        if instance_check_closure_only(internal, closure, class_id, a) {
            let ghost t0 = out@;
            out.push(internal.vocabulary.individual_iri(a).clone());
            assert(texts(out@) =~= texts(t0).push(v.individual_names()[i as int]));
        }
        assert(holds(a) == holds(IndividualId(i as u32)));
        i += 1;
    }
    Ok(out)
}

/// The classes, among the first `n`, that realization asks about: those that
/// are satisfiable and, if candidates are given, among these.
pub open spec fn asked_from(h: ClassHierarchy, candidates: Option<Seq<u32>>, n: int) -> Seq<ClassId>
    decreases n,
{
    if n <= 0 {
        Seq::empty()
    } else {
        let rest = asked_from(h, candidates, n - 1);
        let c = ClassId((n - 1) as u32);
        if !h.impossible(c) && (candidates matches Some(cs) ==> cs.contains(c.0)) {
            rest.push(c)
        } else {
            rest
        }
    }
}

/// The classes that realization asks about.
pub open spec fn asked(o: InternalOntology, h: ClassHierarchy, candidates: Option<Seq<u32>>) -> Seq<
    ClassId,
> {
    asked_from(h, candidates, o.vocabulary.class_names().len() as int)
}

/// The ids in a vector that may be missing.
pub open spec fn optional_ids(candidates: Option<&Vec<u32>>) -> Option<Seq<u32>> {
    match candidates {
        Some(v) => Some(v@),
        None => None,
    }
}

/// Whether `x` is in the vector.
fn among(v: &Vec<u32>, x: u32) -> (r: bool)
    ensures
        r == v@.contains(x),
{
    let mut i: usize = 0;
    while i < v.len()
        invariant
            i <= v@.len(),
            forall|j: int| 0 <= j < i ==> #[trigger] v@[j] != x,
        decreases v@.len() - i,
    {
        if v[i] == x {
            return true;
        }
        i += 1;
    }
    false
}

/// The classes that realization asks about. Unsatisfiable classes are left
/// out. Where candidates are given, a class that is not among them cannot be
/// newly entailed and is left out too.
pub fn classes_to_check(
    internal: &InternalOntology,
    hierarchy: &ClassHierarchy,
    candidates: Option<&Vec<u32>>,
) -> (out: Vec<ClassId>)
    requires
        internal.wf(),
    ensures
        out@ == asked(*internal, *hierarchy, optional_ids(candidates)),
{
    let ghost cs = optional_ids(candidates);
    let ghost n = internal.vocabulary.class_names().len();
    let mut out: Vec<ClassId> = Vec::new();
    let mut i: usize = 0;
    while i < internal.vocabulary.num_classes()
        invariant
            internal.wf(),
            cs == optional_ids(candidates),
            n == internal.vocabulary.class_names().len(),
            i <= n,
            out@ == asked_from(*hierarchy, cs, i as int),
        decreases n - i,
    {
        let c = ClassId::new(i as u32);
        let listed = match candidates {
            Some(v) => among(v, c.index()),
            None => true,
        };
        if !hierarchy.is_unsatisfiable(c) && listed {
            out.push(c);
        }
        i += 1;
    }
    out
}

/// The classes among the first `n` of `classes` of which `holds` is true, by
/// position and class.
pub open spec fn picked(
    classes: Seq<ClassId>,
    holds: spec_fn(int, ClassId) -> bool,
    n: int,
) -> Seq<ClassId>
    decreases n,
{
    if n <= 0 {
        Seq::empty()
    } else {
        let rest = picked(classes, holds, n - 1);
        if holds(n - 1, classes[n - 1]) {
            rest.push(classes[n - 1])
        } else {
            rest
        }
    }
}

/// The types of `a` among `classes`, given what the prover says of each.
pub open spec fn types_of(
    o: InternalOntology,
    closure: Subsumers,
    classes: Seq<ClassId>,
    a: IndividualId,
    probes: Seq<Probe>,
) -> Seq<ClassId> {
    picked(
        classes,
        |j: int, c: ClassId| told_below(o, closure, c, a) || probes[j].refutes(),
        classes.len() as int,
    )
}

/// The told types of `a` among `classes`, and what is above them.
pub open spec fn told_types_of(
    o: InternalOntology,
    closure: Subsumers,
    classes: Seq<ClassId>,
    a: IndividualId,
) -> Seq<ClassId> {
    picked(classes, |j: int, c: ClassId| told_below(o, closure, c, a), classes.len() as int)
}

/// No class in `types` is strictly below `c`.
pub open spec fn most_specific(h: ClassHierarchy, types: Seq<ClassId>, c: ClassId) -> bool {
    forall|i: int| 0 <= i < types.len() ==> !h.strictly_below(#[trigger] types[i], c)
}

/// The most specific classes of `types`.
pub open spec fn leaves_of(h: ClassHierarchy, types: Seq<ClassId>) -> Seq<ClassId> {
    picked(types, |j: int, c: ClassId| most_specific(h, types, c), types.len() as int)
}

/// The most specific of the classes.
fn leaves(hierarchy: &ClassHierarchy, types: &Vec<ClassId>) -> (out: Vec<ClassId>)
    ensures
        out@ == leaves_of(*hierarchy, types@),
{
    let ghost holds = |j: int, c: ClassId| most_specific(*hierarchy, types@, c);
    let mut out: Vec<ClassId> = Vec::new();
    let mut i: usize = 0;
    while i < types.len()
        invariant
            i <= types@.len(),
            forall|j: int, c: ClassId|
                #![trigger holds(j, c)]
                holds(j, c) == most_specific(*hierarchy, types@, c),
            out@ == picked(types@, holds, i as int),
        decreases types@.len() - i,
    {
        let c = types[i];
        let mut lowest = true;
        let mut q: usize = 0;
        while q < types.len()
            invariant
                q <= types@.len(),
                lowest == forall|p: int|
                    0 <= p < q ==> !hierarchy.strictly_below(#[trigger] types@[p], c),
            decreases types@.len() - q,
        {
            if hierarchy.is_strict_subclass(types[q], c) {
                lowest = false;
            }
            q += 1;
        }
        assert(holds(i as int, c) == lowest);
        if lowest {
            out.push(c);
        }
        i += 1;
    }
    out
}

/// The names of the classes.
pub open spec fn names_of(v: Vocabulary, classes: Seq<ClassId>) -> Seq<Seq<char>> {
    classes.map_values(|c: ClassId| v.class_names()[c.0 as int])
}

/// The names of the classes, as strings.
fn class_texts(vocabulary: &Vocabulary, classes: &Vec<ClassId>) -> (out: Vec<String>)
    requires
        forall|i: int|
            0 <= i < classes@.len() ==> (#[trigger] classes@[i]).0 < vocabulary.class_names().len(),
    ensures
        texts(out@) == names_of(*vocabulary, classes@),
{
    let mut out: Vec<String> = Vec::new();
    let mut i: usize = 0;
    while i < classes.len()
        invariant
            forall|i: int|
                0 <= i < classes@.len() ==> (#[trigger] classes@[i]).0
                    < vocabulary.class_names().len(),
            i <= classes@.len(),
            out@.len() == i,
            forall|j: int|
                0 <= j < i ==> (#[trigger] out@[j])@ == vocabulary.class_names()[classes@[j].0 as int],
        decreases classes@.len() - i,
    {
        out.push(vocabulary.class_iri(classes[i]).clone());
        i += 1;
    }
    assert(texts(out@) =~= names_of(*vocabulary, classes@));
    out
}

/// What is known of one individual.
#[verifier::ext_equal]
pub struct Typing {
    pub individual: Seq<char>,
    pub types: Seq<Seq<char>>,
    pub leaves: Seq<Seq<char>>,
}

/// Per-individual realization: every entailed type, and the most specific
/// among them.
#[derive(Debug, Clone, Default)]
pub struct Realization {
    individuals: Vec<String>,
    entailed: Vec<Vec<String>>,
    specific: Vec<Vec<String>>,
    nothing: Vec<String>,
}

impl View for Realization {
    type V = Seq<Typing>;

    closed spec fn view(&self) -> Seq<Typing> {
        Seq::new(
            self.individuals@.len(),
            |i: int|
                Typing {
                    individual: self.individuals@[i]@,
                    types: texts(self.entailed@[i]@),
                    leaves: texts(self.specific@[i]@),
                },
        )
    }
}

/// The last entry about the individual.
pub open spec fn entry(ts: Seq<Typing>, individual: Seq<char>) -> Option<Typing>
    decreases ts.len(),
{
    if ts.len() == 0 {
        None
    } else if ts.last().individual == individual {
        Some(ts.last())
    } else {
        entry(ts.drop_last(), individual)
    }
}

impl Realization {
    /// There are types and most specific types for each individual.
    pub closed spec fn wf(self) -> bool {
        &&& self.entailed@.len() == self.individuals@.len()
        &&& self.specific@.len() == self.individuals@.len()
        &&& self.nothing@.len() == 0
    }

    fn empty() -> (r: Realization)
        ensures
            r.wf(),
            r@ == Seq::<Typing>::empty(),
    {
        let r = Realization {
            individuals: Vec::new(),
            entailed: Vec::new(),
            specific: Vec::new(),
            nothing: Vec::new(),
        };
        assert(r@ =~= Seq::<Typing>::empty());
        r
    }

    fn add_entry(&mut self, individual: String, types: Vec<String>, leaves: Vec<String>)
        requires
            old(self).wf(),
        ensures
            final(self).wf(),
            final(self)@ == old(self)@.push(
                (Typing {
                    individual: individual@,
                    types: texts(types@),
                    leaves: texts(leaves@),
                }),
            ),
    {
        self.individuals.push(individual);
        self.entailed.push(types);
        self.specific.push(leaves);
        assert(self@ =~= old(self)@.push(
            Typing { individual: individual@, types: texts(types@), leaves: texts(leaves@) },
        ));
    }

    /// All individuals that were examined.
    #[must_use]
    pub fn individuals(&self) -> (r: &[String])
        ensures
            texts(r@) == self@.map_values(|t: Typing| t.individual),
    {
        assert(texts(self.individuals@) =~= self@.map_values(|t: Typing| t.individual));
        self.individuals.as_slice()
    }

    /// The position of the last entry about the individual.
    fn find_entry(&self, individual_iri: &str) -> (r: Option<usize>)
        requires
            self.wf(),
        ensures
            match r {
                Some(i) => i < self@.len() && entry(self@, individual_iri@) == Some(self@[i as int]),
                None => entry(self@, individual_iri@) is None,
            },
    {
        let wanted = individual_iri.to_owned();
        let mut i: usize = self.individuals.len();
        assert(self@.take(self@.len() as int) =~= self@);
        while i > 0
            invariant
                self.wf(),
                wanted@ == individual_iri@,
                i <= self@.len(),
                self@.len() == self.individuals@.len(),
                entry(self@, individual_iri@) == entry(self@.take(i as int), individual_iri@),
            decreases i,
        {
            let ghost part = self@.take(i as int);
            assert(part.last() == self@[i - 1]);
            assert(part.drop_last() =~= self@.take(i - 1));
            i -= 1;
            if self.individuals[i] == wanted {
                return Some(i);
            }
        }
        assert(self@.take(0).len() == 0);
        None
    }

    /// All named classes that the individual is in; none for an individual
    /// that was not examined.
    #[must_use]
    pub fn entailed_types(&self, individual_iri: &str) -> (r: &[String])
        requires
            self.wf(),
        ensures
            texts(r@) == match entry(self@, individual_iri@) {
                Some(t) => t.types,
                None => Seq::empty(),
            },
    {
        match self.find_entry(individual_iri) {
            Some(i) => self.entailed[i].as_slice(),
            None => {
                assert(texts(self.nothing@) =~= Seq::empty());
                self.nothing.as_slice()
            },
        }
    }

    /// The most specific named classes that the individual is in; none for
    /// an individual that was not examined.
    #[must_use]
    pub fn most_specific_types(&self, individual_iri: &str) -> (r: &[String])
        requires
            self.wf(),
        ensures
            texts(r@) == match entry(self@, individual_iri@) {
                Some(t) => t.leaves,
                None => Seq::empty(),
            },
    {
        match self.find_entry(individual_iri) {
            Some(i) => self.specific[i].as_slice(),
            None => {
                assert(texts(self.nothing@) =~= Seq::empty());
                self.nothing.as_slice()
            },
        }
    }
}

/// What is known of individual `i`, of the types `types`.
pub open spec fn typing(o: InternalOntology, h: ClassHierarchy, i: int, types: Seq<ClassId>) -> Typing {
    Typing {
        individual: o.vocabulary.individual_names()[i],
        types: names_of(o.vocabulary, types),
        leaves: names_of(o.vocabulary, leaves_of(h, types)),
    }
}

/// The realization of an ontology, given what the prover says of each
/// individual and each class asked about.
pub open spec fn realized(
    o: InternalOntology,
    h: ClassHierarchy,
    closure: Subsumers,
    classes: Seq<ClassId>,
    probes: Seq<Seq<Probe>>,
) -> Seq<Typing> {
    Seq::new(
        o.vocabulary.individual_names().len(),
        |i: int|
            typing(o, h, i, types_of(o, closure, classes, IndividualId(i as u32), probes[i])),
    )
}

/// The realization of an ontology by told types alone.
pub open spec fn realized_told(
    o: InternalOntology,
    h: ClassHierarchy,
    closure: Subsumers,
    classes: Seq<ClassId>,
) -> Seq<Typing> {
    Seq::new(
        o.vocabulary.individual_names().len(),
        |i: int| typing(o, h, i, told_types_of(o, closure, classes, IndividualId(i as u32))),
    )
}

/// What is picked is among the classes.
pub proof fn lemma_picked(classes: Seq<ClassId>, holds: spec_fn(int, ClassId) -> bool, n: int)
    requires
        n <= classes.len(),
    ensures
        forall|c: ClassId| #[trigger]
            picked(classes, holds, n).contains(c) <==> exists|j: int|
                0 <= j < n && #[trigger] classes[j] == c && holds(j, c),
    decreases n,
{
    if n > 0 {
        lemma_picked(classes, holds, n - 1);
        let rest = picked(classes, holds, n - 1);
        let l = classes[n - 1];
        crate::rules_wf::lemma_push_contains(rest, l);
        assert forall|c: ClassId| #[trigger]
            picked(classes, holds, n).contains(c) <==> exists|j: int|
                0 <= j < n && #[trigger] classes[j] == c && holds(j, c) by {
            if picked(classes, holds, n).contains(c) {
                if rest.contains(c) {
                    let j = choose|j: int|
                        0 <= j < n - 1 && #[trigger] classes[j] == c && holds(j, c);
                    assert(classes[j] == c && holds(j, c));
                } else {
                    assert(classes[n - 1] == c);
                }
            }
            if exists|j: int| 0 <= j < n && #[trigger] classes[j] == c && holds(j, c) {
                let j = choose|j: int| 0 <= j < n && #[trigger] classes[j] == c && holds(j, c);
                if j < n - 1 {
                    assert(rest.contains(c));
                }
            }
        }
    }
}

/// The classes asked about have names.
pub proof fn lemma_asked(h: ClassHierarchy, candidates: Option<Seq<u32>>, n: int)
    requires
        n <= u32::MAX + 1,
    ensures
        forall|c: ClassId| #[trigger]
            asked_from(h, candidates, n).contains(c) <==> c.0 < n && !h.impossible(c) && (
            candidates matches Some(cs) ==> cs.contains(c.0)),
    decreases n,
{
    if n > 0 {
        lemma_asked(h, candidates, n - 1);
        let rest = asked_from(h, candidates, n - 1);
        let l = ClassId((n - 1) as u32);
        crate::rules_wf::lemma_push_contains(rest, l);
        assert forall|c: ClassId| c.0 == n - 1 implies c == l by {}
    }
}

proof fn lemma_picked_named(
    v: Vocabulary,
    classes: Seq<ClassId>,
    holds: spec_fn(int, ClassId) -> bool,
    n: int,
)
    requires
        n <= classes.len(),
        forall|i: int| 0 <= i < classes.len() ==> (#[trigger] classes[i]).0 < v.class_names().len(),
    ensures
        forall|i: int|
            0 <= i < picked(classes, holds, n).len() ==> (#[trigger] picked(classes, holds, n)[i]).0
                < v.class_names().len(),
    decreases n,
{
    if n > 0 {
        lemma_picked_named(v, classes, holds, n - 1);
        let rest = picked(classes, holds, n - 1);
        let all = picked(classes, holds, n);
        assert(classes[n - 1].0 < v.class_names().len());
        assert forall|i: int| 0 <= i < all.len() implies (#[trigger] all[i]).0
            < v.class_names().len() by {
            if i < rest.len() {
                assert(all[i] == rest[i]);
            }
        }
    }
}

/// Adds what is known of one individual.
fn add_typing(
    internal: &InternalOntology,
    hierarchy: &ClassHierarchy,
    out: &mut Realization,
    i: usize,
    types: &Vec<ClassId>,
)
    requires
        internal.wf(),
        old(out).wf(),
        i < internal.vocabulary.individual_names().len(),
        forall|j: int|
            0 <= j < types@.len() ==> (#[trigger] types@[j]).0
                < internal.vocabulary.class_names().len(),
    ensures
        final(out).wf(),
        final(out)@ == old(out)@.push(typing(*internal, *hierarchy, i as int, types@)),
{
    let lowest = leaves(hierarchy, types);
    proof {
        lemma_picked_named(
            internal.vocabulary,
            types@,
            |j: int, c: ClassId| most_specific(*hierarchy, types@, c),
            types@.len() as int,
        );
    }
    let name = internal.vocabulary.individual_iri(IndividualId::new(i as u32)).clone();
    let types_texts = class_texts(&internal.vocabulary, types);
    let leaves_texts = class_texts(&internal.vocabulary, &lowest);
    out.add_entry(name, types_texts, leaves_texts);
}

/// Realizes every individual: its entailed types among the classes asked
/// about, and the most specific of these. The prover's answers are given by
/// individual and by class, in the order of [`classes_to_check`]; they are
/// read only where the told types settle nothing.
pub fn realize_internal(
    internal: &InternalOntology,
    hierarchy: &ClassHierarchy,
    closure: &Subsumers,
    candidates: Option<&Vec<u32>>,
    probes: &Vec<Vec<Probe>>,
) -> (r: Realization)
    requires
        internal.wf(),
        probes@.len() == internal.vocabulary.individual_names().len(),
        forall|i: int|
            0 <= i < probes@.len() ==> (#[trigger] probes@[i])@.len() == asked(
                *internal,
                *hierarchy,
                optional_ids(candidates),
            ).len(),
    ensures
        r.wf(),
        r@ == realized(
            *internal,
            *hierarchy,
            *closure,
            asked(*internal, *hierarchy, optional_ids(candidates)),
            probes@.map_values(|p: Vec<Probe>| p@),
        ),
{
    let classes = classes_to_check(internal, hierarchy, candidates);
    let ghost v = internal.vocabulary;
    let ghost all = realized(
        *internal,
        *hierarchy,
        *closure,
        classes@,
        probes@.map_values(|p: Vec<Probe>| p@),
    );
    proof {
        lemma_asked(*hierarchy, optional_ids(candidates), v.class_names().len() as int);
        assert forall|i: int| 0 <= i < classes@.len() implies (#[trigger] classes@[i]).0
            < v.class_names().len() by {
            assert(classes@.contains(classes@[i]));
        }
    }
    let mut out = Realization::empty();
    let mut i: usize = 0;
    while i < internal.vocabulary.num_individuals()
        invariant
            internal.wf(),
            v == internal.vocabulary,
            classes@ == asked(*internal, *hierarchy, optional_ids(candidates)),
            forall|i: int|
                0 <= i < classes@.len() ==> (#[trigger] classes@[i]).0 < v.class_names().len(),
            probes@.len() == v.individual_names().len(),
            forall|i: int|
                0 <= i < probes@.len() ==> (#[trigger] probes@[i])@.len() == classes@.len(),
            i <= v.individual_names().len(),
            out.wf(),
            all == realized(
                *internal,
                *hierarchy,
                *closure,
                classes@,
                probes@.map_values(|p: Vec<Probe>| p@),
            ),
            out@ == all.take(i as int),
        decreases v.individual_names().len() - i,
    {
        let a = IndividualId::new(i as u32);
        let answers = &probes[i];
        let ghost holds = |j: int, c: ClassId|
            told_below(*internal, *closure, c, a) || answers@[j].refutes();
        let mut types: Vec<ClassId> = Vec::new();
        let mut j: usize = 0;
        while j < classes.len()
            invariant
                internal.wf(),
                j <= classes@.len(),
                answers@.len() == classes@.len(),
                forall|q: int, c: ClassId|
                    #![trigger holds(q, c)]
                    holds(q, c) == (told_below(*internal, *closure, c, a) || answers@[q].refutes()),
                types@ == picked(classes@, holds, j as int),
            decreases classes@.len() - j,
        {
            let c = classes[j];
            let yes = instance_check_with_closure(internal, closure, c, a, answers[j]);
            assert(holds(j as int, c) == yes);
            if yes {
                types.push(c);
            }
            j += 1;
        }
        proof {
            lemma_picked_named(v, classes@, holds, classes@.len() as int);
            assert(types@ == types_of(*internal, *closure, classes@, a, answers@));
        }
        add_typing(internal, hierarchy, &mut out, i, &types);
        assert(out@ =~= all.take(i + 1));
        i += 1;
    }
    assert(all.take(all.len() as int) =~= all);
    out
}

/// Realizes every individual by its told types alone: sound, but misses what
/// needs the prover.
pub fn realize_saturation_only_internal(
    internal: &InternalOntology,
    hierarchy: &ClassHierarchy,
    closure: &Subsumers,
) -> (r: Realization)
    requires
        internal.wf(),
    ensures
        r.wf(),
        r@ == realized_told(*internal, *hierarchy, *closure, asked(*internal, *hierarchy, None)),
{
    let classes = classes_to_check(internal, hierarchy, None);
    let ghost v = internal.vocabulary;
    let ghost all = realized_told(*internal, *hierarchy, *closure, classes@);
    proof {
        lemma_asked(*hierarchy, None, v.class_names().len() as int);
        assert forall|i: int| 0 <= i < classes@.len() implies (#[trigger] classes@[i]).0
            < v.class_names().len() by {
            assert(classes@.contains(classes@[i]));
        }
    }
    let mut out = Realization::empty();
    let mut i: usize = 0;
    while i < internal.vocabulary.num_individuals()
        invariant
            internal.wf(),
            v == internal.vocabulary,
            forall|i: int|
                0 <= i < classes@.len() ==> (#[trigger] classes@[i]).0 < v.class_names().len(),
            i <= v.individual_names().len(),
            out.wf(),
            all == realized_told(*internal, *hierarchy, *closure, classes@),
            out@ == all.take(i as int),
        decreases v.individual_names().len() - i,
    {
        let a = IndividualId::new(i as u32);
        let ghost holds = |j: int, c: ClassId| told_below(*internal, *closure, c, a);
        let mut types: Vec<ClassId> = Vec::new();
        let mut j: usize = 0;
        while j < classes.len()
            invariant
                internal.wf(),
                j <= classes@.len(),
                forall|q: int, c: ClassId|
                    #![trigger holds(q, c)]
                    holds(q, c) == told_below(*internal, *closure, c, a),
                types@ == picked(classes@, holds, j as int),
            decreases classes@.len() - j,
        {
            let c = classes[j];
            let yes = instance_check_closure_only(internal, closure, c, a);
            assert(holds(j as int, c) == yes);
            if yes {
                types.push(c);
            }
            j += 1;
        }
        proof {
            lemma_picked_named(v, classes@, holds, classes@.len() as int);
            assert(types@ == told_types_of(*internal, *closure, classes@, a));
        }
        add_typing(internal, hierarchy, &mut out, i, &types);
        assert(out@ =~= all.take(i + 1));
        i += 1;
    }
    assert(all.take(all.len() as int) =~= all);
    out
}

/// The time that each probe may take, in milliseconds. Zero means the same
/// as no limit.
pub fn probe_budget(per_check_timeout_ms: Option<u64>) -> (r: Option<u64>)
    ensures
        r == if per_check_timeout_ms == Some(0u64) {
            None
        } else {
            per_check_timeout_ms
        },
{
    match per_check_timeout_ms {
        Some(ms) => if ms > 0 {
            Some(ms)
        } else {
            None
        },
        None => None,
    }
}

} // verus!
