//! Horn saturation.

use hyperdl::clause::{Atom, DlClause, X};
use hyperdl::engine::HyperEngine;
use hyperdl::graph::HyperResult;
use hyperdl::ids::{ClassId, Role, RoleId};

fn cls(i: u32) -> ClassId {
    ClassId::new(i)
}

#[test]
fn horn_chain_derives_transitive_subsumers() {
    // A(x)→B(x), B(x)→C(x). Root A ⇒ root labels {A,B,C}, Sat.
    let clauses = vec![
        DlClause {
            body: vec![Atom::Class(cls(0), X)],
            head: vec![Atom::Class(cls(1), X)],
        },
        DlClause {
            body: vec![Atom::Class(cls(1), X)],
            head: vec![Atom::Class(cls(2), X)],
        },
    ];
    let mut e = HyperEngine::new(&clauses, cls(0));
    assert_eq!(e.run(1024), HyperResult::Sat);
    assert_eq!(e.root_labels(), &[cls(0), cls(1), cls(2)]);
}

#[test]
fn disjointness_clause_makes_root_unsat() {
    // A(x)→B(x), A(x)∧B(x)→⊥. Root A ⇒ Unsat.
    let clauses = vec![
        DlClause {
            body: vec![Atom::Class(cls(0), X)],
            head: vec![Atom::Class(cls(1), X)],
        },
        DlClause {
            body: vec![Atom::Class(cls(0), X), Atom::Class(cls(1), X)],
            head: vec![],
        },
    ];
    let mut e = HyperEngine::new(&clauses, cls(0));
    assert_eq!(e.run(1024), HyperResult::Unsat);
}

#[test]
fn cyclic_existential_terminates_via_blocking() {
    // A(x)→∃R.A(x). Naively infinite; anywhere blocking caps it.
    let r = Role::Named(RoleId::new(0));
    let clauses = vec![DlClause {
        body: vec![Atom::Class(cls(0), X)],
        head: vec![Atom::Exists(r, cls(0), X)],
    }];
    let mut e = HyperEngine::new(&clauses, cls(0));
    assert_eq!(e.run(1024), HyperResult::Sat);
    assert!(e.node_count() <= 2);
}

#[test]
fn forall_propagates_into_successor() {
    let r = Role::Named(RoleId::new(0));
    let clauses = vec![
        DlClause {
            body: vec![Atom::Class(cls(0), X)],
            head: vec![Atom::Exists(r, cls(1), X)],
        },
        DlClause {
            body: vec![Atom::Class(cls(0), X), Atom::Role(r, X, 1)],
            head: vec![Atom::Class(cls(2), 1)],
        },
    ];
    let mut e = HyperEngine::new(&clauses, cls(0));
    assert_eq!(e.run(1024), HyperResult::Sat);
    // Two nodes: root {A}, successor {B,C}.
    assert_eq!(e.node_count(), 2);
}

#[test]
fn existential_backprop_derives_subsumer_on_root() {
    let r = Role::Named(RoleId::new(0));
    let c = cls(0);
    let d = cls(1);
    let e_cls = cls(2);
    let f = cls(3);
    let clauses = vec![
        // C(x) → ∃R.D(x)
        DlClause {
            body: vec![Atom::Class(c, X)],
            head: vec![Atom::Exists(r, d, X)],
        },
        // D(x) → E(x)
        DlClause {
            body: vec![Atom::Class(d, X)],
            head: vec![Atom::Class(e_cls, X)],
        },
        // R(x,y) ∧ E(y) → F(x)
        DlClause {
            body: vec![Atom::Role(r, X, 1), Atom::Class(e_cls, 1)],
            head: vec![Atom::Class(f, X)],
        },
    ];
    let mut engine = HyperEngine::new(&clauses, c);
    assert_eq!(engine.run(1024), HyperResult::Sat);
    assert!(engine.root_labels().contains(&f));
}

#[test]
fn universal_body_fires_everywhere() {
    // ⊤(x)→T(x): every node gains T. Root A ⇒ {A,T}.
    let clauses = vec![DlClause {
        body: vec![],
        head: vec![Atom::Class(cls(9), X)],
    }];
    let mut e = HyperEngine::new(&clauses, cls(0));
    assert_eq!(e.run(1024), HyperResult::Sat);
    assert_eq!(e.root_labels(), &[cls(0), cls(9)]);
}

#[test]
fn multi_role_chain_body_fires() {
    let role_r = Role::Named(RoleId::new(0));
    let role_s = Role::Named(RoleId::new(1));
    let (ca, cb, cc, cd) = (cls(0), cls(1), cls(2), cls(3));
    let clauses = vec![
        // A(x) → ∃R.B(x)
        DlClause {
            body: vec![Atom::Class(ca, X)],
            head: vec![Atom::Exists(role_r, cb, X)],
        },
        // B(x) → ∃S.C(x)
        DlClause {
            body: vec![Atom::Class(cb, X)],
            head: vec![Atom::Exists(role_s, cc, X)],
        },
        // A(x) ∧ R(x,y) ∧ B(y) ∧ S(y,z) ∧ C(z) → D(x)
        DlClause {
            body: vec![
                Atom::Class(ca, X),
                Atom::Role(role_r, X, 1),
                Atom::Class(cb, 1),
                Atom::Role(role_s, 1, 2),
                Atom::Class(cc, 2),
            ],
            head: vec![Atom::Class(cd, X)],
        },
    ];
    let mut engine = HyperEngine::new(&clauses, ca);
    assert_eq!(engine.run(1024), HyperResult::Sat);
    assert!(engine.root_labels().contains(&cd));
}

#[test]
fn satisfiability_labels_returns_horn_consequences_at_seed_node() {

    let q = ClassId::new(100);
    let a = ClassId::new(101);
    let b = ClassId::new(102);

    let clauses = vec![
        // q ⊑ a (q's seed label triggers a)
        DlClause {
            body: vec![Atom::Class(q, X)],
            head: vec![Atom::Class(a, X)],
        },
        // a ⊑ b (then b)
        DlClause {
            body: vec![Atom::Class(a, X)],
            head: vec![Atom::Class(b, X)],
        },
    ];
    let mut engine = HyperEngine::new(&clauses, q);
    let result = engine.decide(8);
    assert_eq!(result, HyperResult::Sat);

    let labels = engine
        .satisfiability_labels(q)
        .expect("Sat result must expose seed-node labels");
    assert!(labels.contains(&a));
    assert!(labels.contains(&b));
    assert!(labels.contains(&q));
}

#[test]
fn satisfiability_labels_resolves_through_merge() {

    let q = ClassId::new(200);
    let a = ClassId::new(201);
    let b = ClassId::new(202);

    let clauses = vec![
        // q ⊑ a
        DlClause {
            body: vec![Atom::Class(q, X)],
            head: vec![Atom::Class(a, X)],
        },
        // q ⊑ b
        DlClause {
            body: vec![Atom::Class(q, X)],
            head: vec![Atom::Class(b, X)],
        },
    ];
    let mut engine = HyperEngine::new(&clauses, q);
    let result = engine.decide(8);
    assert_eq!(result, HyperResult::Sat);

    let labels = engine
        .satisfiability_labels(q)
        .expect("Sat result must expose seed-node labels");
    assert!(labels.contains(&a));
    assert!(labels.contains(&b));
    assert!(labels.contains(&q));
}
