//! Told types, probes and what they come to, on hand-made ontologies.

use hyperdl::graph::HyperResult;
use hyperdl::ids::{ClassId, IndividualId, Role, RoleId};
use hyperdl::materialize::{is_builtin_object_property, materialize_object_property_assertions};
use hyperdl::ontology::{
    Axiom, ClassHierarchy, ConceptExpr, ConceptId, InternalOntology, Subsumers, Vocabulary,
};
use hyperdl::realize::{
    classes_to_check, instance_check_closure_only, instance_check_with_closure, instance_question,
    instances_of_internal, instances_of_saturation_only_internal, is_instance_of_internal,
    is_instance_of_saturation_only_internal, next_step, probe_budget, realize_internal,
    realize_saturation_only_internal, told_classes_of, Asked, Probe, ReasonError, Step,
};

fn c(i: u32) -> ClassId {
    ClassId::new(i)
}

fn a(i: u32) -> IndividualId {
    IndividualId::new(i)
}

fn names(prefix: &str, n: usize) -> Vec<String> {
    (0..n).map(|i| format!("{prefix}{i}")).collect()
}

/// Classes `C0..C4`, properties `p0..p1`, individuals `i0..i2`. Expression
/// `k` is class `k`, and expression 4 is complex.
fn ontology(axioms: Vec<Axiom>) -> InternalOntology {
    let mut concepts: Vec<ConceptExpr> = (0..4).map(|i| ConceptExpr::Atomic(c(i))).collect();
    concepts.push(ConceptExpr::Complex);
    InternalOntology {
        vocabulary: Vocabulary::from_names(names("C", 4), names("p", 2), names("i", 3)),
        axioms,
        concepts,
    }
}

fn in_class(class: u32, individual: u32) -> Axiom {
    Axiom::ClassAssertion {
        class: ConceptId(class),
        individual: a(individual),
    }
}

fn edge(p: u32, from: u32, to: u32) -> Axiom {
    Axiom::ObjectPropertyAssertion {
        role: Role::Named(RoleId::new(p)),
        subject: a(from),
        object: a(to),
    }
}

/// Every class is below itself, and the pairs are below one another.
fn closure(pairs: &[(u32, u32)]) -> Subsumers {
    let mut s = Subsumers::new();
    for i in 0..4 {
        s.insert(c(i), c(i));
    }
    for &(x, y) in pairs {
        s.insert(c(x), c(y));
    }
    s
}

fn hierarchy(pairs: &[(u32, u32)]) -> ClassHierarchy {
    let mut h = ClassHierarchy::new();
    for &(x, y) in pairs {
        h.insert(c(x), c(y));
    }
    h
}

const NO: Probe = Probe::Seeded(HyperResult::Sat);
const YES: Probe = Probe::Seeded(HyperResult::Unsat);

#[test]
fn told_types_come_from_assertions_domains_and_ranges() {
    let o = ontology(vec![
        in_class(0, 0),
        in_class(4, 0),
        in_class(1, 1),
        edge(0, 0, 1),
        Axiom::ObjectPropertyDomain {
            role: Role::Named(RoleId::new(0)),
            domain: ConceptId(2),
        },
        Axiom::ObjectPropertyRange {
            role: Role::Named(RoleId::new(0)),
            range: ConceptId(3),
        },
        Axiom::Other,
    ]);
    assert_eq!(told_classes_of(&o, a(0)), vec![c(0), c(2)]);
    assert_eq!(told_classes_of(&o, a(1)), vec![c(1), c(3)]);
    let nothing: Vec<ClassId> = vec![];
    assert_eq!(told_classes_of(&o, a(2)), nothing);
}

#[test]
fn domains_of_inverses_and_other_properties_tell_nothing() {
    let o = ontology(vec![
        edge(0, 0, 0),
        Axiom::ObjectPropertyDomain {
            role: Role::Inverse(RoleId::new(0)),
            domain: ConceptId(1),
        },
        Axiom::ObjectPropertyRange {
            role: Role::Inverse(RoleId::new(0)),
            range: ConceptId(1),
        },
        Axiom::ObjectPropertyDomain {
            role: Role::Named(RoleId::new(1)),
            domain: ConceptId(2),
        },
        Axiom::ObjectPropertyDomain {
            role: Role::Named(RoleId::new(0)),
            domain: ConceptId(4),
        },
        Axiom::ObjectPropertyRange {
            role: Role::Named(RoleId::new(0)),
            range: ConceptId(3),
        },
    ]);
    assert_eq!(told_classes_of(&o, a(0)), vec![c(3)]);
}

#[test]
fn the_told_types_or_the_prover_settle_an_instance_check() {
    let o = ontology(vec![in_class(0, 0)]);
    let s = closure(&[(0, 1)]);
    assert!(instance_check_closure_only(&o, &s, c(1), a(0)));
    assert!(!instance_check_closure_only(&o, &s, c(2), a(0)));
    // Settled by what is told, whatever the prover says.
    assert!(instance_check_with_closure(&o, &s, c(1), a(0), NO));
    // Not settled: each answer in turn.
    let open = |p: Probe| instance_check_with_closure(&o, &s, c(2), a(0), p);
    assert!(open(Probe::Seeded(HyperResult::Unsat)));
    assert!(!open(Probe::Seeded(HyperResult::Sat)));
    assert!(!open(Probe::Seeded(HyperResult::Stalled)));
    assert!(open(Probe::Tableau(Some(false))));
    assert!(!open(Probe::Tableau(Some(true))));
    assert!(!open(Probe::Tableau(None)));
}

#[test]
fn unknown_names_are_reported_class_first() {
    let o = ontology(vec![in_class(0, 0)]);
    let s = closure(&[]);
    match instance_question(&o, "D", "nobody") {
        Err(ReasonError::UnknownClass(name)) => assert_eq!(name, "D"),
        Ok(_) => panic!("the class is not there"),
    }
    match is_instance_of_internal(&o, &s, "C0", "nobody", NO) {
        Err(ReasonError::UnknownClass(name)) => assert_eq!(name, "nobody"),
        Ok(_) => panic!("the individual is not there"),
    }
    match is_instance_of_saturation_only_internal(&o, &s, "D", "i0") {
        Err(ReasonError::UnknownClass(name)) => assert_eq!(name, "D"),
        Ok(_) => panic!("the class is not there"),
    }
    match instances_of_internal(&o, &s, "D", &vec![NO, NO, NO]) {
        Err(ReasonError::UnknownClass(name)) => assert_eq!(name, "D"),
        Ok(_) => panic!("the class is not there"),
    }
    match instances_of_saturation_only_internal(&o, &s, "D") {
        Err(ReasonError::UnknownClass(name)) => assert_eq!(name, "D"),
        Ok(_) => panic!("the class is not there"),
    }
    assert_eq!(instance_question(&o, "C1", "i2").expect("known"), (c(1), a(2)));
}

#[test]
fn instances_by_told_types_are_among_all_instances() {
    let o = ontology(vec![in_class(0, 0), in_class(1, 2)]);
    let s = closure(&[(0, 1)]);
    let told = instances_of_saturation_only_internal(&o, &s, "C1").expect("known");
    assert_eq!(told, vec!["i0".to_owned(), "i2".to_owned()]);
    let all = instances_of_internal(&o, &s, "C1", &vec![NO, YES, NO]).expect("known");
    assert_eq!(all, vec!["i0".to_owned(), "i1".to_owned(), "i2".to_owned()]);
    assert!(is_instance_of_saturation_only_internal(&o, &s, "C1", "i0").expect("known"));
    assert!(!is_instance_of_saturation_only_internal(&o, &s, "C1", "i1").expect("known"));
}

#[test]
fn classes_to_check_are_satisfiable_candidates() {
    let o = ontology(vec![]);
    let mut h = hierarchy(&[]);
    h.insert_unsatisfiable(c(1));
    assert_eq!(classes_to_check(&o, &h, None), vec![c(0), c(2), c(3)]);
    let candidates = vec![3, 1, 0, 9];
    assert_eq!(classes_to_check(&o, &h, Some(&candidates)), vec![c(0), c(3)]);
    assert!(h.is_unsatisfiable(c(1)));
    assert!(!h.is_unsatisfiable(c(0)));
}

#[test]
fn most_specific_types_have_no_strict_subclass_among_the_types() {
    // C0 below C1 below C2; C3 equivalent to C1.
    let h = hierarchy(&[(0, 1), (1, 2), (0, 2), (1, 3), (3, 1), (0, 3), (3, 2)]);
    let o = ontology(vec![in_class(1, 0), in_class(0, 1)]);
    let s = closure(&[(0, 1), (1, 2), (0, 2), (1, 3), (3, 1), (0, 3), (3, 2)]);
    let r = realize_saturation_only_internal(&o, &h, &s);
    assert_eq!(r.individuals(), &["i0".to_owned(), "i1".to_owned(), "i2".to_owned()][..]);
    assert_eq!(
        r.entailed_types("i0"),
        &["C1".to_owned(), "C2".to_owned(), "C3".to_owned()][..]
    );
    // Equivalent classes are both most specific.
    assert_eq!(r.most_specific_types("i0"), &["C1".to_owned(), "C3".to_owned()][..]);
    assert_eq!(r.most_specific_types("i1"), &["C0".to_owned()][..]);
    let nothing: Vec<String> = vec![];
    assert_eq!(r.entailed_types("i2"), &nothing[..]);
    assert_eq!(r.entailed_types("nobody"), &nothing[..]);
    assert_eq!(r.most_specific_types("nobody"), &nothing[..]);
}

#[test]
fn realization_reads_the_prover_where_told_types_settle_nothing() {
    let h = hierarchy(&[(0, 1)]);
    let o = ontology(vec![in_class(0, 0)]);
    let s = closure(&[(0, 1)]);
    let candidates = vec![0, 1, 2];
    // By individual, for classes 0, 1 and 2.
    let probes = vec![
        vec![NO, NO, YES],
        vec![NO, YES, NO],
        vec![Probe::Tableau(None), NO, NO],
    ];
    let r = realize_internal(&o, &h, &s, Some(&candidates), &probes);
    assert_eq!(
        r.entailed_types("i0"),
        &["C0".to_owned(), "C1".to_owned(), "C2".to_owned()][..]
    );
    assert_eq!(r.most_specific_types("i0"), &["C0".to_owned(), "C2".to_owned()][..]);
    assert_eq!(r.entailed_types("i1"), &["C1".to_owned()][..]);
    let nothing: Vec<String> = vec![];
    assert_eq!(r.entailed_types("i2"), &nothing[..]);
    // Types by told types alone are among them.
    let told = realize_saturation_only_internal(&o, &h, &s);
    for t in told.entailed_types("i0") {
        assert!(r.entailed_types("i0").contains(t));
    }
}

#[test]
fn a_budget_of_zero_is_no_budget() {
    assert_eq!(probe_budget(None), None);
    assert_eq!(probe_budget(Some(0)), None);
    assert_eq!(probe_budget(Some(250)), Some(250));
}

#[test]
fn builtin_properties_are_not_materialized() {
    let top = "http://www.w3.org/2002/07/owl#topObjectProperty";
    let bottom = "http://www.w3.org/2002/07/owl#bottomObjectProperty";
    assert!(is_builtin_object_property(top));
    assert!(is_builtin_object_property(bottom));
    assert!(!is_builtin_object_property("http://rustdl.test/hasParent"));
    assert!(!is_builtin_object_property(""));
    let v = Vocabulary::from_names(
        vec![],
        vec![top.to_owned(), "p".to_owned(), bottom.to_owned()],
        names("i", 2),
    );
    let edges = vec![
        (RoleId::new(0), a(0), a(1)),
        (RoleId::new(1), a(1), a(0)),
        (RoleId::new(2), a(1), a(1)),
    ];
    assert_eq!(
        materialize_object_property_assertions(&v, &edges),
        vec![("i1".to_owned(), "p".to_owned(), "i0".to_owned())]
    );
}

#[test]
fn a_name_stands_for_one_thing() {
    let v = Vocabulary::from_names(
        vec!["A".to_owned(), "B".to_owned(), "A".to_owned(), "C".to_owned()],
        vec!["p".to_owned(), "p".to_owned()],
        names("i", 1),
    );
    assert_eq!(v.class_id("A"), Some(c(0)));
    assert_eq!(v.class_id("B"), Some(c(1)));
    assert_eq!(v.class_id("C"), Some(c(2)));
    assert_eq!(v.class_id("i0"), None);
    assert_eq!(v.individual_id("i0"), Some(a(0)));
    assert_eq!(v.class_iri(c(2)), "C");
    assert_eq!((v.num_classes(), v.num_roles(), v.num_individuals()), (3, 1, 1));
}

#[test]
fn types_under_a_time_limit_are_among_those_without() {
    let h = hierarchy(&[(0, 1)]);
    let o = ontology(vec![in_class(0, 0)]);
    let s = closure(&[(0, 1)]);
    let free = vec![vec![NO, NO, YES, NO], vec![YES, NO, NO, YES], vec![NO, NO, NO, NO]];
    let mut timed = free.clone();
    timed[1][0] = Probe::Seeded(HyperResult::Stalled);
    timed[0][2] = Probe::Tableau(None);
    let all = realize_internal(&o, &h, &s, None, &free);
    let few = realize_internal(&o, &h, &s, None, &timed);
    assert_eq!(all.individuals(), few.individuals());
    for i in ["i0", "i1", "i2"] {
        for t in few.entailed_types(i) {
            assert!(all.entailed_types(i).contains(t));
        }
    }
    assert_eq!(few.entailed_types("i1"), &["C3".to_owned()][..]);
    assert_eq!(all.entailed_types("i1"), &["C0".to_owned(), "C3".to_owned()][..]);
}

#[test]
fn types_and_instances_say_the_same() {
    let mut h = hierarchy(&[]);
    h.insert_unsatisfiable(c(3));
    let o = ontology(vec![in_class(0, 0), in_class(3, 1)]);
    let s = closure(&[]);
    // By individual, for classes 0, 1 and 2.
    let probes = vec![vec![NO, YES, NO], vec![YES, NO, NO], vec![NO, NO, YES]];
    let r = realize_internal(&o, &h, &s, None, &probes);
    for class in 0..3 {
        let column: Vec<Probe> = probes.iter().map(|row| row[class]).collect();
        let name = format!("C{class}");
        let listed = instances_of_internal(&o, &s, &name, &column).expect("known");
        for (i, probe) in column.iter().enumerate() {
            let who = format!("i{i}");
            let checked = is_instance_of_internal(&o, &s, &name, &who, *probe).expect("known");
            assert_eq!(checked, listed.contains(&who));
            assert_eq!(checked, r.entailed_types(&who).contains(&name));
        }
    }
    // Class 3 is unsatisfiable, so it is nobody's type.
    assert!(!r.entailed_types("i1").contains(&"C3".to_owned()));
}

#[test]
fn provers_are_asked_in_turn() {
    for limited in [false, true] {
        assert_eq!(next_step(false, Asked::Nobody, limited), Step::AskSeeded);
        assert_eq!(
            next_step(false, Asked::Seeded(None), limited),
            Step::AskTableau { limited }
        );
        for v in [HyperResult::Sat, HyperResult::Unsat, HyperResult::Stalled] {
            assert_eq!(
                next_step(false, Asked::Seeded(Some(v)), limited),
                Step::Done(Probe::Seeded(v))
            );
        }
        for sat in [None, Some(false), Some(true)] {
            assert_eq!(
                next_step(false, Asked::Tableau(sat), limited),
                Step::Done(Probe::Tableau(sat))
            );
        }
        // Told types settle the question: nobody is asked.
        assert_eq!(
            next_step(true, Asked::Nobody, limited),
            Step::Done(Probe::Tableau(None))
        );
    }
}
