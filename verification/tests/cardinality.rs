//! Number restrictions.

use hyperdl::clause::{Atom, DlClause, X};
use hyperdl::engine::HyperEngine;
use hyperdl::graph::HyperResult;
use hyperdl::ids::{ClassId, Role, RoleId};

fn cls(i: u32) -> ClassId {
    ClassId::new(i)
}

#[test]
fn precise_card_deps_preserves_unsat_verdict() {
    let role = Role::Named(RoleId::new(0));
    let (a, b, c, d1, d2) = (cls(0), cls(1), cls(2), cls(3), cls(4));
    let clauses = vec![
        DlClause {
            body: vec![Atom::Class(a, X)],
            head: vec![Atom::Exists(role, b, X)],
        },
        DlClause {
            body: vec![Atom::Class(a, X)],
            head: vec![Atom::Exists(role, c, X)],
        },
        DlClause {
            body: vec![Atom::Class(b, X), Atom::Class(c, X)],
            head: vec![],
        },
        DlClause {
            body: vec![Atom::Class(a, X)],
            head: vec![Atom::AtMost(role, None, 1, X)],
        },
        DlClause {
            body: vec![Atom::Class(a, X)],
            head: vec![Atom::Class(d1, X), Atom::Class(d2, X)],
        },
    ];
    let off = HyperEngine::new(&clauses, a).decide(64);
    let on = HyperEngine::new(&clauses, a)
        .with_precise_card_deps()
        .decide(64);
    assert_eq!(off, HyperResult::Unsat);
    assert_eq!(on, off);
}

#[test]
fn precise_card_deps_preserves_sat_verdict() {
    let role = Role::Named(RoleId::new(0));
    let (a, b, c) = (cls(0), cls(1), cls(2));
    let clauses = vec![
        DlClause {
            body: vec![Atom::Class(a, X)],
            head: vec![Atom::Exists(role, b, X)],
        },
        DlClause {
            body: vec![Atom::Class(a, X)],
            head: vec![Atom::Exists(role, c, X)],
        },
        DlClause {
            body: vec![Atom::Class(a, X)],
            head: vec![Atom::AtMost(role, None, 1, X)],
        },
    ];
    let off = HyperEngine::new(&clauses, a).decide(64);
    let on = HyperEngine::new(&clauses, a)
        .with_precise_card_deps()
        .decide(64);
    assert_eq!(off, HyperResult::Sat);
    assert_eq!(on, off);
}

#[test]
fn at_most_one_with_two_disjoint_successors_is_unsat() {
    let role = Role::Named(RoleId::new(0));
    let (root, ca, cb) = (cls(0), cls(1), cls(2));
    let clauses = vec![
        DlClause {
            body: vec![Atom::Class(root, X)],
            head: vec![Atom::Exists(role, ca, X)],
        },
        DlClause {
            body: vec![Atom::Class(root, X)],
            head: vec![Atom::Exists(role, cb, X)],
        },
        DlClause {
            body: vec![Atom::Class(ca, X), Atom::Class(cb, X)],
            head: vec![],
        },
        DlClause {
            body: vec![Atom::Class(root, X)],
            head: vec![Atom::AtMost(role, None, 1, X)],
        },
    ];
    let mut e = HyperEngine::new(&clauses, root);
    assert_eq!(e.decide(64), HyperResult::Unsat);
}

#[test]
fn at_least_two_with_at_most_one_is_unsat() {
    let role = Role::Named(RoleId::new(0));
    let root = cls(0);
    let clauses = vec![
        DlClause {
            body: vec![Atom::Class(root, X)],
            head: vec![Atom::AtLeast(role, None, 2, X)],
        },
        DlClause {
            body: vec![Atom::Class(root, X)],
            head: vec![Atom::AtMost(role, None, 1, X)],
        },
    ];
    let mut e = HyperEngine::new(&clauses, root);
    assert_eq!(e.decide(64), HyperResult::Unsat);
}

#[test]
fn at_least_two_with_at_most_two_is_sat() {
    let role = Role::Named(RoleId::new(0));
    let root = cls(0);
    let clauses = vec![
        DlClause {
            body: vec![Atom::Class(root, X)],
            head: vec![Atom::AtLeast(role, None, 2, X)],
        },
        DlClause {
            body: vec![Atom::Class(root, X)],
            head: vec![Atom::AtMost(role, None, 2, X)],
        },
    ];
    let mut e = HyperEngine::new(&clauses, root);
    assert_eq!(e.decide(64), HyperResult::Sat);
}

#[test]
fn at_least_cyclic_terminates_sat() {
    let role = Role::Named(RoleId::new(0));
    let a = cls(0);
    let clauses = vec![DlClause {
        body: vec![Atom::Class(a, X)],
        head: vec![Atom::AtLeast(role, Some(a), 2, X)],
    }];
    let mut e = HyperEngine::new(&clauses, a);
    assert_eq!(e.decide(64), HyperResult::Sat);
}

#[test]
fn hf3b_probe_existing_succ_plus_geq_leq_is_unsat() {
    let role = Role::Named(RoleId::new(0));
    let (a, c) = (cls(0), cls(1));
    let clauses = vec![
        DlClause {
            body: vec![Atom::Class(a, X)],
            head: vec![Atom::Exists(role, c, X)],
        },
        DlClause {
            body: vec![Atom::Class(a, X)],
            head: vec![Atom::AtLeast(role, Some(c), 2, X)],
        },
        DlClause {
            body: vec![Atom::Class(a, X)],
            head: vec![Atom::AtMost(role, Some(c), 1, X)],
        },
    ];
    let mut e = HyperEngine::new(&clauses, a);
    assert_eq!(e.decide(64), HyperResult::Unsat);
}

#[test]
fn hf3b_probe_nonroot_cardinality_clash_is_unsat() {
    let (role_r, role_s) = (Role::Named(RoleId::new(0)), Role::Named(RoleId::new(1)));
    let (ca, cb, cc) = (cls(0), cls(1), cls(2));
    let clauses = vec![
        DlClause {
            body: vec![Atom::Class(ca, X)],
            head: vec![Atom::Exists(role_r, cb, X)],
        },
        DlClause {
            body: vec![Atom::Class(cb, X)],
            head: vec![Atom::AtLeast(role_s, Some(cc), 2, X)],
        },
        DlClause {
            body: vec![Atom::Class(cb, X)],
            head: vec![Atom::AtMost(role_s, Some(cc), 1, X)],
        },
    ];
    let mut e = HyperEngine::new(&clauses, ca);
    assert_eq!(e.decide(64), HyperResult::Unsat);
}

#[test]
fn hf3b_probe_cyclic_geq_leq_terminates_unsat() {
    let role = Role::Named(RoleId::new(0));
    let a = cls(0);
    let clauses = vec![
        DlClause {
            body: vec![Atom::Class(a, X)],
            head: vec![Atom::AtLeast(role, Some(a), 2, X)],
        },
        DlClause {
            body: vec![Atom::Class(a, X)],
            head: vec![Atom::AtMost(role, Some(a), 1, X)],
        },
    ];
    let mut e = HyperEngine::new(&clauses, a);
    assert_eq!(e.decide(64), HyperResult::Unsat);
}

#[test]
fn hf3b_probe_skip_then_merge_is_unsat() {
    let role = Role::Named(RoleId::new(0));
    let (a, c, c1, c2) = (cls(0), cls(1), cls(2), cls(3));
    let clauses = vec![
        DlClause {
            body: vec![Atom::Class(a, X)],
            head: vec![Atom::Exists(role, c1, X)],
        },
        DlClause {
            body: vec![Atom::Class(a, X)],
            head: vec![Atom::Exists(role, c2, X)],
        },
        DlClause {
            body: vec![Atom::Class(c1, X)],
            head: vec![Atom::Class(c, X)],
        },
        DlClause {
            body: vec![Atom::Class(c2, X)],
            head: vec![Atom::Class(c, X)],
        },
        DlClause {
            body: vec![Atom::Class(a, X)],
            head: vec![Atom::AtLeast(role, Some(c), 2, X)],
        },
        DlClause {
            body: vec![Atom::Class(a, X)],
            head: vec![Atom::AtMost(role, Some(c), 1, X)],
        },
    ];
    let mut e = HyperEngine::new(&clauses, a);
    assert_eq!(e.decide(64), HyperResult::Unsat);
}

#[test]
fn at_most_two_with_two_successors_is_sat() {
    let role = Role::Named(RoleId::new(0));
    let (root, ca, cb) = (cls(0), cls(1), cls(2));
    let clauses = vec![
        DlClause {
            body: vec![Atom::Class(root, X)],
            head: vec![Atom::Exists(role, ca, X)],
        },
        DlClause {
            body: vec![Atom::Class(root, X)],
            head: vec![Atom::Exists(role, cb, X)],
        },
        DlClause {
            body: vec![Atom::Class(ca, X), Atom::Class(cb, X)],
            head: vec![],
        },
        DlClause {
            body: vec![Atom::Class(root, X)],
            head: vec![Atom::AtMost(role, None, 2, X)],
        },
    ];
    let mut e = HyperEngine::new(&clauses, root);
    assert_eq!(e.decide(64), HyperResult::Sat);
}

#[test]
fn at_most_two_with_three_mergeable_successors_is_sat() {
    let role = Role::Named(RoleId::new(0));
    let (root, ca, cb, cd) = (cls(0), cls(1), cls(2), cls(3));
    // No disjointness among ca/cb/cd, so any two can merge.
    let clauses = vec![
        DlClause {
            body: vec![Atom::Class(root, X)],
            head: vec![Atom::Exists(role, ca, X)],
        },
        DlClause {
            body: vec![Atom::Class(root, X)],
            head: vec![Atom::Exists(role, cb, X)],
        },
        DlClause {
            body: vec![Atom::Class(root, X)],
            head: vec![Atom::Exists(role, cd, X)],
        },
        DlClause {
            body: vec![Atom::Class(root, X)],
            head: vec![Atom::AtMost(role, None, 2, X)],
        },
    ];
    let mut e = HyperEngine::new(&clauses, root);
    assert_eq!(e.decide(64), HyperResult::Sat);
    assert!(e.stats().merge_branches <= 4);
}

#[test]
fn at_most_two_with_three_disjoint_successors_is_unsat() {
    let role = Role::Named(RoleId::new(0));
    let (root, ca, cb, cd) = (cls(0), cls(1), cls(2), cls(3));
    let bot2 = |lhs, rhs| DlClause {
        body: vec![Atom::Class(lhs, X), Atom::Class(rhs, X)],
        head: vec![],
    };
    let exists = |inner| DlClause {
        body: vec![Atom::Class(root, X)],
        head: vec![Atom::Exists(role, inner, X)],
    };
    let clauses = vec![
        exists(ca),
        exists(cb),
        exists(cd),
        bot2(ca, cb),
        bot2(ca, cd),
        bot2(cb, cd),
        DlClause {
            body: vec![Atom::Class(root, X)],
            head: vec![Atom::AtMost(role, None, 2, X)],
        },
    ];
    let mut e = HyperEngine::new(&clauses, root);
    assert_eq!(e.decide(64), HyperResult::Unsat);
}

#[test]
fn at_most_clash_precheck_collapses_branching() {
    let role = Role::Named(RoleId::new(0));
    let (root, ca, cb, cd) = (cls(0), cls(1), cls(2), cls(3));
    let bot2 = |lhs, rhs| DlClause {
        body: vec![Atom::Class(lhs, X), Atom::Class(rhs, X)],
        head: vec![],
    };
    let exists = |inner| DlClause {
        body: vec![Atom::Class(root, X)],
        head: vec![Atom::Exists(role, inner, X)],
    };
    let clauses = vec![
        exists(ca),
        exists(cb),
        exists(cd),
        bot2(ca, cb),
        bot2(ca, cd),
        bot2(cb, cd),
        DlClause {
            body: vec![Atom::Class(root, X)],
            head: vec![Atom::AtMost(role, None, 2, X)],
        },
    ];
    let mut e = HyperEngine::new(&clauses, root);
    assert_eq!(e.decide(64), HyperResult::Unsat);
    assert_eq!(e.stats().branches_taken, 0);
}

#[test]
fn at_most_precheck_does_not_overcount_unqualified_successors() {
    let role = Role::Named(RoleId::new(0));
    // root: ∃R.C and ∃R.D ; C ⊓ D ⊑ ⊥ ; ≤1 R.C
    let (root, cc, cd) = (cls(0), cls(1), cls(2));
    let clauses = vec![
        DlClause {
            body: vec![Atom::Class(root, X)],
            head: vec![Atom::Exists(role, cc, X)],
        },
        DlClause {
            body: vec![Atom::Class(root, X)],
            head: vec![Atom::Exists(role, cd, X)],
        },
        // C and D disjoint — but the ≤1 is qualified on C only.
        DlClause {
            body: vec![Atom::Class(cc, X), Atom::Class(cd, X)],
            head: vec![],
        },
        DlClause {
            body: vec![Atom::Class(root, X)],
            head: vec![Atom::AtMost(role, Some(cc), 1, X)],
        },
    ];
    let mut e = HyperEngine::new(&clauses, root);
    assert_eq!(e.decide(64), HyperResult::Sat);
}
