//! Instance checks and realization, on ontologies in functional syntax.

use std::collections::{BTreeSet, HashSet};
use std::io::Cursor;

use horned_owl::io::ofn::reader::read;
use horned_owl::io::ParserConfiguration;
use horned_owl::model::{
    ClassExpression, Component, Individual, ObjectPropertyExpression, RcStr,
    SubObjectPropertyExpression,
};
use horned_owl::ontology::set::SetOntology;

use hyperdl::clause::{Atom, DlClause, X};
use hyperdl::engine::HyperEngine;
use hyperdl::ids::{ClassId, IndividualId, Role, RoleId};
use hyperdl::materialize;
use hyperdl::ontology::{
    Axiom, ClassHierarchy, ConceptExpr, ConceptId, InternalOntology, Subsumers, Vocabulary,
};
use hyperdl::realize::{
    classes_to_check, instance_question, instances_of_internal, is_instance_of_internal,
    realize_internal, realize_saturation_only_internal, Probe, ReasonError, Realization,
};
use hyperdl::seed::AboxSeed;

const HEADER: &str = "\
Prefix(:=<http://rustdl.test/>)\n\
Prefix(owl:=<http://www.w3.org/2002/07/owl#>)\n";

fn parse(src: &str) -> SetOntology<RcStr> {
    let mut reader = Cursor::new(src);
    let (ontology, _prefixes) =
        read(&mut reader, ParserConfiguration::default()).expect("fixture parses");
    ontology
}

/// An ontology of named classes and properties, with what the fixtures say
/// beyond the told types of individuals.
struct Kb {
    internal: InternalOntology,
    subclasses: Vec<(ClassId, ClassId)>,
    subroles: Vec<(RoleId, RoleId)>,
    transitive: Vec<RoleId>,
}

fn class_name(ce: &ClassExpression<RcStr>) -> String {
    match ce {
        ClassExpression::Class(c) => c.0.to_string(),
        _ => panic!("named classes only"),
    }
}

fn role_name(ope: &ObjectPropertyExpression<RcStr>) -> String {
    match ope {
        ObjectPropertyExpression::ObjectProperty(p) => p.0.to_string(),
        _ => panic!("named properties only"),
    }
}

fn sub_role_name(s: &SubObjectPropertyExpression<RcStr>) -> String {
    match s {
        SubObjectPropertyExpression::ObjectPropertyExpression(p) => role_name(p),
        _ => panic!("no property chains"),
    }
}

fn individual_name(i: &Individual<RcStr>) -> String {
    match i {
        Individual::Named(n) => n.0.to_string(),
        _ => panic!("named individuals only"),
    }
}

fn at(names: &[String], name: &str) -> u32 {
    names.iter().position(|n| n == name).expect("declared") as u32
}

fn convert(onto: &SetOntology<RcStr>) -> Kb {
    let mut classes: BTreeSet<String> = BTreeSet::new();
    let mut roles: BTreeSet<String> = BTreeSet::new();
    let mut individuals: BTreeSet<String> = BTreeSet::new();
    for ac in onto.iter() {
        match &ac.component {
            Component::DeclareClass(d) => {
                classes.insert(d.0 .0.to_string());
            }
            Component::DeclareObjectProperty(d) => {
                roles.insert(d.0 .0.to_string());
            }
            Component::DeclareNamedIndividual(d) => {
                individuals.insert(d.0 .0.to_string());
            }
            _ => {}
        }
    }
    let classes: Vec<String> = classes.into_iter().collect();
    let roles: Vec<String> = roles.into_iter().collect();
    let individuals: Vec<String> = individuals.into_iter().collect();
    let class = |n: &str| ClassId::new(at(&classes, n));
    let role = |n: &str| RoleId::new(at(&roles, n));
    let individual = |n: &str| IndividualId::new(at(&individuals, n));

    let mut axioms: Vec<Axiom> = Vec::new();
    let mut subclasses: Vec<(ClassId, ClassId)> = Vec::new();
    let mut subroles: Vec<(RoleId, RoleId)> = Vec::new();
    let mut transitive: Vec<RoleId> = Vec::new();
    for ac in onto.iter() {
        match &ac.component {
            Component::SubClassOf(a) => {
                subclasses.push((class(&class_name(&a.sub)), class(&class_name(&a.sup))));
                axioms.push(Axiom::Other);
            }
            Component::ClassAssertion(a) => axioms.push(Axiom::ClassAssertion {
                class: ConceptId(at(&classes, &class_name(&a.ce))),
                individual: individual(&individual_name(&a.i)),
            }),
            Component::ObjectPropertyAssertion(a) => axioms.push(Axiom::ObjectPropertyAssertion {
                role: Role::Named(role(&role_name(&a.ope))),
                subject: individual(&individual_name(&a.from)),
                object: individual(&individual_name(&a.to)),
            }),
            Component::ObjectPropertyDomain(a) => axioms.push(Axiom::ObjectPropertyDomain {
                role: Role::Named(role(&role_name(&a.ope))),
                domain: ConceptId(at(&classes, &class_name(&a.ce))),
            }),
            Component::ObjectPropertyRange(a) => axioms.push(Axiom::ObjectPropertyRange {
                role: Role::Named(role(&role_name(&a.ope))),
                range: ConceptId(at(&classes, &class_name(&a.ce))),
            }),
            Component::SubObjectPropertyOf(a) => {
                subroles.push((role(&sub_role_name(&a.sub)), role(&role_name(&a.sup))));
            }
            Component::TransitiveObjectProperty(a) => transitive.push(role(&role_name(&a.0))),
            _ => {}
        }
    }
    let concepts: Vec<ConceptExpr> = (0..classes.len())
        .map(|i| ConceptExpr::Atomic(ClassId::new(i as u32)))
        .collect();
    let vocabulary = Vocabulary::from_names(classes.clone(), roles.clone(), individuals.clone());
    Kb {
        internal: InternalOntology {
            vocabulary,
            axioms,
            concepts,
        },
        subclasses,
        subroles,
        transitive,
    }
}

impl Kb {
    fn of(src: &str) -> Kb {
        convert(&parse(&format!("{HEADER}{src}")))
    }

    /// The reflexive and transitive closure of the asserted subclass pairs.
    fn pairs(&self) -> Vec<(ClassId, ClassId)> {
        let n = self.internal.vocabulary.num_classes() as u32;
        let mut all: HashSet<(ClassId, ClassId)> =
            (0..n).map(|i| (ClassId::new(i), ClassId::new(i))).collect();
        all.extend(self.subclasses.iter().copied());
        loop {
            let more: Vec<(ClassId, ClassId)> = all
                .iter()
                .flat_map(|&(a, b)| {
                    all.iter()
                        .filter(move |&&(c, _)| c == b)
                        .map(move |&(_, d)| (a, d))
                })
                .filter(|p| !all.contains(p))
                .collect();
            if more.is_empty() {
                return all.into_iter().collect();
            }
            all.extend(more);
        }
    }

    fn closure(&self) -> Subsumers {
        let mut s = Subsumers::new();
        for (a, b) in self.pairs() {
            s.insert(a, b);
        }
        s
    }

    fn hierarchy(&self) -> ClassHierarchy {
        let mut h = ClassHierarchy::new();
        for (a, b) in self.pairs() {
            h.insert(a, b);
        }
        h
    }

    /// The verdict of a seeded search on `{a} ⊓ ¬C`.
    fn probe(&self, c: ClassId, a: IndividualId) -> Probe {
        let v = &self.internal.vocabulary;
        let base = v.num_classes() as u32;
        let n = v.num_individuals() as u32;
        let nominal = |i: IndividualId| ClassId::new(base + i.index());
        let named = |k: ConceptId| match self.internal.concepts[k.0 as usize] {
            ConceptExpr::Atomic(c) => c,
            ConceptExpr::Complex => panic!("named classes only"),
        };
        let mut clauses: Vec<DlClause> = vec![DlClause {
            body: vec![Atom::Class(nominal(a), X), Atom::Class(c, X)],
            head: vec![],
        }];
        for &(sub, sup) in &self.subclasses {
            clauses.push(DlClause {
                body: vec![Atom::Class(sub, X)],
                head: vec![Atom::Class(sup, X)],
            });
        }
        let mut edges: Vec<(u32, Role, u32)> = Vec::new();
        for ax in &self.internal.axioms {
            match *ax {
                Axiom::ClassAssertion { class, individual } => clauses.push(DlClause {
                    body: vec![Atom::Class(nominal(individual), X)],
                    head: vec![Atom::Class(named(class), X)],
                }),
                Axiom::ObjectPropertyAssertion { role, subject, object } => {
                    edges.push((subject.index(), role, object.index()));
                }
                Axiom::ObjectPropertyDomain { role, domain } => clauses.push(DlClause {
                    body: vec![Atom::Role(role, X, 1)],
                    head: vec![Atom::Class(named(domain), X)],
                }),
                Axiom::ObjectPropertyRange { role, range } => clauses.push(DlClause {
                    body: vec![Atom::Role(role, X, 1)],
                    head: vec![Atom::Class(named(range), 1)],
                }),
                Axiom::Other => {}
            }
        }
        let seed = AboxSeed {
            num_individuals: n,
            nominal_base: base,
            property_assertions: edges,
            same_pairs: vec![],
        };
        Probe::Seeded(
            HyperEngine::new_seeded(&clauses, &seed)
                .with_nominals(base, n)
                .decide(64),
        )
    }

    fn is_instance_of(&self, class_iri: &str, individual_iri: &str) -> Result<bool, ReasonError> {
        let (c, a) = instance_question(&self.internal, class_iri, individual_iri)?;
        let probe = self.probe(c, a);
        is_instance_of_internal(&self.internal, &self.closure(), class_iri, individual_iri, probe)
    }

    fn instances_of(&self, class_iri: &str) -> Result<Vec<String>, ReasonError> {
        let v = &self.internal.vocabulary;
        let c = match v.class_id(class_iri) {
            Some(c) => c,
            None => return Err(ReasonError::UnknownClass(class_iri.to_owned())),
        };
        let probes: Vec<Probe> = (0..v.num_individuals())
            .map(|i| self.probe(c, IndividualId::new(i as u32)))
            .collect();
        instances_of_internal(&self.internal, &self.closure(), class_iri, &probes)
    }

    fn realize(&self) -> Realization {
        let hierarchy = self.hierarchy();
        let classes = classes_to_check(&self.internal, &hierarchy, None);
        let probes: Vec<Vec<Probe>> = (0..self.internal.vocabulary.num_individuals())
            .map(|i| {
                classes
                    .iter()
                    .map(|&c| self.probe(c, IndividualId::new(i as u32)))
                    .collect()
            })
            .collect();
        realize_internal(&self.internal, &hierarchy, &self.closure(), None, &probes)
    }

    fn realize_saturation_only(&self) -> Realization {
        realize_saturation_only_internal(&self.internal, &self.hierarchy(), &self.closure())
    }

    /// The asserted edges, closed under sub-properties and transitivity.
    fn materialize(&self) -> Vec<(String, String, String)> {
        let mut edges: HashSet<(RoleId, IndividualId, IndividualId)> = HashSet::new();
        for ax in &self.internal.axioms {
            if let Axiom::ObjectPropertyAssertion { role, subject, object } = *ax {
                edges.insert((role.role_id(), subject, object));
            }
        }
        loop {
            let mut more: Vec<(RoleId, IndividualId, IndividualId)> = Vec::new();
            for &(r, a, b) in &edges {
                for &(sub, sup) in &self.subroles {
                    if sub == r {
                        more.push((sup, a, b));
                    }
                }
                if self.transitive.contains(&r) {
                    for &(r2, b2, c) in &edges {
                        if r2 == r && b2 == b {
                            more.push((r, a, c));
                        }
                    }
                }
            }
            let before = edges.len();
            edges.extend(more);
            if edges.len() == before {
                break;
            }
        }
        let edges: Vec<(RoleId, IndividualId, IndividualId)> = edges.into_iter().collect();
        materialize::materialize_object_property_assertions(&self.internal.vocabulary, &edges)
    }
}

#[test]
fn class_assertion_is_an_entailed_instance() {
    let kb = Kb::of(
        "Ontology(<http://rustdl.test/test>\n\
    Declaration(Class(:A))\n\
    Declaration(NamedIndividual(:alice))\n\
    ClassAssertion(:A :alice)\n\
)\n",
    );
    assert!(kb
        .is_instance_of("http://rustdl.test/A", "http://rustdl.test/alice")
        .expect("verdict"));
}

#[test]
fn materialize_object_property_assertions_subprop_and_transitivity() {
    let kb = Kb::of(
        "Ontology(<http://rustdl.test/test>\n\
    Declaration(ObjectProperty(:hasFather))\n\
    Declaration(ObjectProperty(:hasParent))\n\
    Declaration(ObjectProperty(:hasAncestor))\n\
    Declaration(NamedIndividual(:alice))\n\
    Declaration(NamedIndividual(:bob))\n\
    Declaration(NamedIndividual(:carol))\n\
    SubObjectPropertyOf(:hasFather :hasParent)\n\
    SubObjectPropertyOf(:hasParent :hasAncestor)\n\
    TransitiveObjectProperty(:hasAncestor)\n\
    ObjectPropertyAssertion(:hasFather :alice :bob)\n\
    ObjectPropertyAssertion(:hasParent :bob :carol)\n\
)\n",
    );
    let got: HashSet<(String, String, String)> = kb.materialize().into_iter().collect();
    let t = |s: &str, p: &str, o: &str| {
        (
            format!("http://rustdl.test/{s}"),
            format!("http://rustdl.test/{p}"),
            format!("http://rustdl.test/{o}"),
        )
    };
    // Asserted, sub-property and transitivity-derived edges.
    for triple in [
        t("alice", "hasFather", "bob"),
        t("alice", "hasParent", "bob"),
        t("alice", "hasAncestor", "bob"),
        t("bob", "hasParent", "carol"),
        t("bob", "hasAncestor", "carol"),
        t("alice", "hasAncestor", "carol"),
    ] {
        assert!(got.contains(&triple), "missing entailed edge: {triple:?}");
    }
    // No spurious reverse or cross edges.
    assert!(!got.contains(&t("bob", "hasFather", "alice")));
    assert!(!got.contains(&t("alice", "hasFather", "carol")));
}

#[test]
fn instance_via_subsumption_chain() {
    let kb = Kb::of(
        "Ontology(<http://rustdl.test/test>\n\
    Declaration(Class(:A))\n\
    Declaration(Class(:B))\n\
    Declaration(NamedIndividual(:alice))\n\
    SubClassOf(:A :B)\n\
    ClassAssertion(:A :alice)\n\
)\n",
    );
    assert!(kb
        .is_instance_of("http://rustdl.test/B", "http://rustdl.test/alice")
        .expect("verdict"));
}

#[test]
fn non_instance_is_rejected() {
    let kb = Kb::of(
        "Ontology(<http://rustdl.test/test>\n\
    Declaration(Class(:A))\n\
    Declaration(Class(:B))\n\
    Declaration(NamedIndividual(:alice))\n\
    ClassAssertion(:A :alice)\n\
)\n",
    );
    assert!(!kb
        .is_instance_of("http://rustdl.test/B", "http://rustdl.test/alice")
        .expect("verdict"));
}

#[test]
fn instances_of_returns_all_known_members() {
    let kb = Kb::of(
        "Ontology(<http://rustdl.test/test>\n\
    Declaration(Class(:A))\n\
    Declaration(NamedIndividual(:alice))\n\
    Declaration(NamedIndividual(:bob))\n\
    Declaration(NamedIndividual(:carol))\n\
    ClassAssertion(:A :alice)\n\
    ClassAssertion(:A :bob)\n\
)\n",
    );
    let mut members = kb.instances_of("http://rustdl.test/A").expect("verdict");
    members.sort();
    assert_eq!(
        members,
        vec![
            "http://rustdl.test/alice".to_owned(),
            "http://rustdl.test/bob".to_owned(),
        ]
    );
}

#[test]
fn instance_check_via_property_domain() {
    let kb = Kb::of(
        "Ontology(<http://rustdl.test/test>\n\
    Declaration(Class(:Person))\n\
    Declaration(ObjectProperty(:hasParent))\n\
    Declaration(NamedIndividual(:alice))\n\
    Declaration(NamedIndividual(:bob))\n\
    ObjectPropertyDomain(:hasParent :Person)\n\
    ObjectPropertyAssertion(:hasParent :alice :bob)\n\
)\n",
    );
    assert!(kb
        .is_instance_of("http://rustdl.test/Person", "http://rustdl.test/alice")
        .expect("verdict"));
}

#[test]
fn instance_check_via_property_range() {
    let kb = Kb::of(
        "Ontology(<http://rustdl.test/test>\n\
    Declaration(Class(:Person))\n\
    Declaration(ObjectProperty(:hasParent))\n\
    Declaration(NamedIndividual(:alice))\n\
    Declaration(NamedIndividual(:bob))\n\
    ObjectPropertyRange(:hasParent :Person)\n\
    ObjectPropertyAssertion(:hasParent :alice :bob)\n\
)\n",
    );
    assert!(kb
        .is_instance_of("http://rustdl.test/Person", "http://rustdl.test/bob")
        .expect("verdict"));
}

#[test]
fn realize_filters_to_most_specific() {
    let kb = Kb::of(
        "Ontology(<http://rustdl.test/test>\n\
    Declaration(Class(:A))\n\
    Declaration(Class(:B))\n\
    Declaration(NamedIndividual(:alice))\n\
    SubClassOf(:A :B)\n\
    ClassAssertion(:A :alice)\n\
)\n",
    );
    let r = kb.realize();
    let alice = "http://rustdl.test/alice";
    let entailed = r.entailed_types(alice);
    assert!(entailed.iter().any(|c| c == "http://rustdl.test/A"));
    assert!(entailed.iter().any(|c| c == "http://rustdl.test/B"));
    let leaves = r.most_specific_types(alice);
    assert_eq!(leaves, vec!["http://rustdl.test/A".to_owned()]);
}

#[test]
fn realize_saturation_only_matches_full_on_told_chain() {
    let kb = Kb::of(
        "Ontology(<http://rustdl.test/test>\n\
    Declaration(Class(:A))\n\
    Declaration(Class(:B))\n\
    Declaration(NamedIndividual(:alice))\n\
    SubClassOf(:A :B)\n\
    ClassAssertion(:A :alice)\n\
)\n",
    );
    let full = kb.realize();
    let sat = kb.realize_saturation_only();
    let alice = "http://rustdl.test/alice";
    let full_types: HashSet<&str> = full
        .entailed_types(alice)
        .iter()
        .map(String::as_str)
        .collect();
    let sat_types: HashSet<&str> = sat
        .entailed_types(alice)
        .iter()
        .map(String::as_str)
        .collect();
    for t in &sat_types {
        assert!(
            full_types.contains(t),
            "saturation-only reported {t} but full did not",
        );
    }
    // On a pure told chain both modes agree exactly.
    assert_eq!(full_types, sat_types);
    assert_eq!(
        sat.most_specific_types(alice),
        vec!["http://rustdl.test/A".to_owned()],
    );
}
