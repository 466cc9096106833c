//! Role chains.

use hyperdl::clause::{Atom, DlClause, X};
use hyperdl::engine::HyperEngine;
use hyperdl::graph::HyperResult;
use hyperdl::ids::{ClassId, Role, RoleId, role_id_index};
use hyperdl::index::build_clause_indexes;

fn cls(i: u32) -> ClassId {
    ClassId::new(i)
}

fn nrole(i: u32) -> Role {
    Role::Named(RoleId::new(i))
}

fn chain_scenario(with_chain: bool, chain: DlClause) -> Vec<DlClause> {
    let (a, b, c) = (cls(0), cls(1), cls(2));
    let (r1, r2, r3) = (nrole(10), nrole(11), nrole(12));
    let mut clauses = vec![
        // A(X) → ∃R1.B
        DlClause {
            body: vec![Atom::Class(a, X)],
            head: vec![Atom::Exists(r1, b, X)],
        },
        // B(X) → ∃R2.C
        DlClause {
            body: vec![Atom::Class(b, X)],
            head: vec![Atom::Exists(r2, c, X)],
        },
        // R3(X,z) ∧ C(z) → ⊥
        DlClause {
            body: vec![Atom::Role(r3, X, 1), Atom::Class(c, 1)],
            head: vec![],
        },
    ];
    if with_chain {
        clauses.push(chain);
    }
    clauses
}

#[test]
fn hf3_two_leg_chain_derives_edge_and_clashes() {
    let (r1, r2, r3) = (nrole(10), nrole(11), nrole(12));
    // R1∘R2 ⊑ R3
    let chain = DlClause {
        body: vec![Atom::Role(r1, X, 1), Atom::Role(r2, 1, 2)],
        head: vec![Atom::Role(r3, X, 2)],
    };
    // Without the chain clause: no R3 edge ⇒ no clash ⇒ Sat.
    let no_chain = chain_scenario(false, chain.clone());
    let mut e0 = HyperEngine::new(&no_chain, cls(0));
    assert_eq!(e0.run(4096), HyperResult::Sat);
    // With the chain clause: R3(root,n2) derived ⇒ clash ⇒ Unsat.
    let with_chain = chain_scenario(true, chain);
    let mut e1 = HyperEngine::new(&with_chain, cls(0));
    assert_eq!(e1.run(4096), HyperResult::Unsat);
}

#[test]
fn hf3_transitivity_derives_edge_and_clashes() {
    let (a, b, c) = (cls(0), cls(1), cls(2));
    let r = nrole(10);
    let trans = DlClause {
        body: vec![Atom::Role(r, X, 1), Atom::Role(r, 1, 2)],
        head: vec![Atom::Role(r, X, 2)],
    };
    let base = vec![
        DlClause {
            body: vec![Atom::Class(a, X)],
            head: vec![Atom::Exists(r, b, X)],
        },
        DlClause {
            body: vec![Atom::Class(b, X)],
            head: vec![Atom::Exists(r, c, X)],
        },
        DlClause {
            body: vec![Atom::Class(a, X), Atom::Role(r, X, 1), Atom::Class(c, 1)],
            head: vec![],
        },
    ];
    // Without transitivity: root has only R(root,n1), n1:B (not C) ⇒ Sat.
    let mut e0 = HyperEngine::new(&base, cls(0));
    assert_eq!(e0.run(4096), HyperResult::Sat);
    let mut with = base.clone();
    with.push(trans);
    let mut e1 = HyperEngine::new(&with, cls(0));
    assert_eq!(e1.run(4096), HyperResult::Unsat);
}

#[test]
fn hf3_second_leg_back_trigger_index_populated() {
    let (r1, r2, r3) = (nrole(10), nrole(11), nrole(12));
    let clauses = vec![DlClause {
        body: vec![Atom::Role(r1, X, 1), Atom::Role(r2, 1, 2)],
        head: vec![Atom::Role(r3, X, 2)],
    }];
    let ix = build_clause_indexes(&clauses, None);
    let k1 = role_id_index(r1);
    let k2 = role_id_index(r2);
    assert!(ix.role_back_trigger.get(k2).is_some_and(|v| v.contains(&0)));
    assert!(ix.role_back_trigger.get(k1).is_none_or(|v| !v.contains(&0)));
}

#[test]
fn hf3_second_leg_added_last_still_clashes() {
    let (a, b, c, d) = (cls(0), cls(1), cls(2), cls(3));
    let (r1, r2, r3) = (nrole(10), nrole(11), nrole(12));
    let clauses = vec![
        DlClause {
            body: vec![Atom::Class(a, X)],
            head: vec![Atom::Exists(r1, b, X)],
        },
        // B → D (label chain to delay R2)
        DlClause {
            body: vec![Atom::Class(b, X)],
            head: vec![Atom::Class(d, X)],
        },
        // D → ∃R2.C  (adds the second-leg edge, after B→D)
        DlClause {
            body: vec![Atom::Class(d, X)],
            head: vec![Atom::Exists(r2, c, X)],
        },
        // R1∘R2 ⊑ R3
        DlClause {
            body: vec![Atom::Role(r1, X, 1), Atom::Role(r2, 1, 2)],
            head: vec![Atom::Role(r3, X, 2)],
        },
        // {A(X), R3(X,z), C(z)} → ⊥
        DlClause {
            body: vec![Atom::Class(a, X), Atom::Role(r3, X, 1), Atom::Class(c, 1)],
            head: vec![],
        },
    ];
    let mut e = HyperEngine::new(&clauses, cls(0));
    assert_eq!(e.run(4096), HyperResult::Unsat);
}

#[test]
fn hf3_chain_edge_clash_backjump_preserves_verdict() {
    let (a, b, c, d1, d2) = (cls(0), cls(1), cls(2), cls(3), cls(4));
    let (r1, r2, r3) = (nrole(10), nrole(11), nrole(12));
    let core = vec![
        DlClause {
            body: vec![Atom::Class(a, X)],
            head: vec![Atom::Exists(r1, b, X)],
        },
        DlClause {
            body: vec![Atom::Class(b, X)],
            head: vec![Atom::Exists(r2, c, X)],
        },
        DlClause {
            body: vec![Atom::Role(r1, X, 1), Atom::Role(r2, 1, 2)],
            head: vec![Atom::Role(r3, X, 2)],
        },
        DlClause {
            body: vec![Atom::Class(a, X), Atom::Role(r3, X, 1), Atom::Class(c, 1)],
            head: vec![],
        },
    ];
    // Without the disjunction.
    let mut e_no = HyperEngine::new(&core, a);
    assert_eq!(e_no.decide(64), HyperResult::Unsat);
    // With an irrelevant disjunction decision A → D1 ∨ D2.
    let mut with = core.clone();
    with.push(DlClause {
        body: vec![Atom::Class(a, X)],
        head: vec![Atom::Class(d1, X), Atom::Class(d2, X)],
    });
    let mut e_yes = HyperEngine::new(&with, a);
    assert_eq!(e_yes.decide(64), HyperResult::Unsat);
}

#[test]
fn hf3_chain_edge_under_one_disjunct_stays_sat() {
    let (a, p, q, b, c) = (cls(0), cls(1), cls(2), cls(3), cls(4));
    let (r1, r2, r3) = (nrole(10), nrole(11), nrole(12));
    let clauses = vec![
        // A → P ∨ Q   (the decision)
        DlClause {
            body: vec![Atom::Class(a, X)],
            head: vec![Atom::Class(p, X), Atom::Class(q, X)],
        },
        DlClause {
            body: vec![Atom::Class(p, X)],
            head: vec![Atom::Exists(r1, b, X)],
        },
        DlClause {
            body: vec![Atom::Class(b, X)],
            head: vec![Atom::Exists(r2, c, X)],
        },
        DlClause {
            body: vec![Atom::Role(r1, X, 1), Atom::Role(r2, 1, 2)],
            head: vec![Atom::Role(r3, X, 2)],
        },
        DlClause {
            body: vec![Atom::Class(p, X), Atom::Role(r3, X, 1), Atom::Class(c, 1)],
            head: vec![],
        },
    ];
    let mut e = HyperEngine::new(&clauses, a);
    assert_eq!(e.decide(64), HyperResult::Sat);
}

#[test]
fn hf3_three_leg_via_two_two_leg_clauses() {
    let (a, b, c, d) = (cls(0), cls(1), cls(2), cls(3));
    let (r1, r2, r3, aux, s) = (nrole(10), nrole(11), nrole(12), nrole(13), nrole(14));
    let base = vec![
        DlClause {
            body: vec![Atom::Class(a, X)],
            head: vec![Atom::Exists(r1, b, X)],
        },
        DlClause {
            body: vec![Atom::Class(b, X)],
            head: vec![Atom::Exists(r2, c, X)],
        },
        DlClause {
            body: vec![Atom::Class(c, X)],
            head: vec![Atom::Exists(r3, d, X)],
        },
        DlClause {
            body: vec![Atom::Role(s, X, 1), Atom::Class(d, 1)],
            head: vec![],
        },
    ];
    let two_leg = vec![
        // R1∘R2 ⊑ AUX
        DlClause {
            body: vec![Atom::Role(r1, X, 1), Atom::Role(r2, 1, 2)],
            head: vec![Atom::Role(aux, X, 2)],
        },
        // AUX∘R3 ⊑ S
        DlClause {
            body: vec![Atom::Role(aux, X, 1), Atom::Role(r3, 1, 2)],
            head: vec![Atom::Role(s, X, 2)],
        },
    ];
    let mut e0 = HyperEngine::new(&base, cls(0));
    assert_eq!(e0.run(4096), HyperResult::Sat);
    let mut with = base.clone();
    with.extend(two_leg);
    let mut e1 = HyperEngine::new(&with, cls(0));
    assert_eq!(e1.run(4096), HyperResult::Unsat);
}

#[test]
fn hf3_inverse_leg_chain_derives_edge() {
    let a = cls(0);
    let b = cls(1);
    let (r1, r3) = (nrole(10), nrole(12));
    let r1_inv = Role::Inverse(RoleId::new(10));
    let chain = DlClause {
        // R1(X,y) ∧ R1⁻(y,z) → R3(X,z)   [inverse leg in the body]
        body: vec![Atom::Role(r1, X, 1), Atom::Role(r1_inv, 1, 2)],
        head: vec![Atom::Role(r3, X, 2)],
    };
    let mut clauses = vec![
        // A(X) → ∃R1.B
        DlClause {
            body: vec![Atom::Class(a, X)],
            head: vec![Atom::Exists(r1, b, X)],
        },
        // {A(X), R3(X,z), A(z)} → ⊥  (z must be an A-node reached by R3)
        DlClause {
            body: vec![Atom::Class(a, X), Atom::Role(r3, X, 1), Atom::Class(a, 1)],
            head: vec![],
        },
    ];
    let mut e0 = HyperEngine::new(&clauses, cls(0));
    assert_eq!(e0.run(4096), HyperResult::Sat);
    clauses.push(chain);
    let mut e1 = HyperEngine::new(&clauses, cls(0));
    assert_eq!(e1.run(4096), HyperResult::Unsat);
}

#[test]
fn hf3_chain_edge_dep_fold_isolating_discriminator() {
    let (a, p, q, b) = (cls(0), cls(1), cls(2), cls(3));
    let (r1, r3) = (nrole(10), nrole(12));
    let r1_inv = Role::Inverse(RoleId::new(10));
    let clauses = vec![
        // A → P ∨ Q  (the decision; A is the pre-branch root label).
        DlClause {
            body: vec![Atom::Class(a, X)],
            head: vec![Atom::Class(p, X), Atom::Class(q, X)],
        },
        // Only the P branch builds the R1-successor that feeds the chain.
        DlClause {
            body: vec![Atom::Class(p, X)],
            head: vec![Atom::Exists(r1, b, X)],
        },
        // R1(X,y) ∧ R1⁻(y,z) → R3(X,z): self-loop R3(root,root) under P.
        DlClause {
            body: vec![Atom::Role(r1, X, 1), Atom::Role(r1_inv, 1, 2)],
            head: vec![Atom::Role(r3, X, 2)],
        },
        // {A(X), R3(X,z), A(z)} → ⊥ : binds z=root; deps must carry P.
        DlClause {
            body: vec![Atom::Class(a, X), Atom::Role(r3, X, 1), Atom::Class(a, 1)],
            head: vec![],
        },
    ];
    let mut e = HyperEngine::new(&clauses, a);
    assert_eq!(e.decide(64), HyperResult::Sat);
}
