//! Searches seeded with individuals, and nominals.

use hyperdl::clause::{Atom, DlClause, X};
use hyperdl::engine::HyperEngine;
use hyperdl::graph::HyperResult;
use hyperdl::ids::{ClassId, Role, RoleId};
use hyperdl::seed::AboxSeed;

fn cls(i: u32) -> ClassId {
    ClassId::new(i)
}

#[test]
fn new_seeded_different_then_same_is_unsat() {
    let (n0, n1) = (cls(2), cls(3));
    let clauses = vec![DlClause {
        body: vec![Atom::Class(n0, X), Atom::Class(n1, X)],
        head: vec![],
    }];
    let seed = AboxSeed {
        num_individuals: 2,
        nominal_base: 2,
        property_assertions: vec![],
        same_pairs: vec![(0, 1)],
    };
    let r = HyperEngine::new_seeded(&clauses, &seed)
        .with_nominals(2, 2)
        .decide(64);
    assert_eq!(r, HyperResult::Unsat);
}

#[test]
fn new_seeded_distinct_individuals_is_sat() {
    let (n0, n1) = (cls(2), cls(3));
    let clauses = vec![DlClause {
        body: vec![Atom::Class(n0, X), Atom::Class(n1, X)],
        head: vec![],
    }];
    let seed = AboxSeed {
        num_individuals: 2,
        nominal_base: 2,
        property_assertions: vec![],
        same_pairs: vec![],
    };
    let r = HyperEngine::new_seeded(&clauses, &seed)
        .with_nominals(2, 2)
        .decide(64);
    assert_eq!(r, HyperResult::Sat);
}

#[test]
fn nn_merge_backjump_hole_false_unsat_is_fixed() {
    let (k, q, m, p) = (cls(0), cls(1), cls(2), cls(3));
    let (nom0, nom1) = (cls(4), cls(5));
    let clauses = vec![
        DlClause {
            body: vec![Atom::Class(nom0, X)],
            head: vec![Atom::Class(k, X)],
        },
        DlClause {
            body: vec![Atom::Class(q, X)],
            head: vec![Atom::Class(m, X)],
        },
        DlClause {
            body: vec![Atom::Class(q, X)],
            head: vec![Atom::Class(nom0, X), Atom::Class(p, X)],
        },
        DlClause {
            body: vec![Atom::Class(k, X), Atom::Class(m, X)],
            head: vec![],
        },
    ];
    // Seed two individuals so node 0 = {0}, node 1 = {1}.
    let seed = AboxSeed {
        num_individuals: 2,
        nominal_base: 4,
        property_assertions: vec![],
        same_pairs: vec![],
    };
    let mut clauses_with_q = clauses.clone();
    clauses_with_q.push(DlClause {
        body: vec![Atom::Class(nom1, X)],
        head: vec![Atom::Class(q, X)],
    });
    let buggy = HyperEngine::new_seeded(&clauses_with_q, &seed)
        .with_nominals(4, 2)
        .with_nn_taint_disabled()
        .decide(64);
    let fixed = HyperEngine::new_seeded(&clauses_with_q, &seed)
        .with_nominals(4, 2)
        .decide(64);
    assert_eq!(buggy, HyperResult::Unsat);
    assert_eq!(fixed, HyperResult::Sat);
}

#[test]
fn nn_merge_propagate_then_clash_residual_b() {
    let (g_drv, q, mm, ll, p, guard) = (cls(0), cls(1), cls(2), cls(3), cls(4), cls(5));
    let nom0 = cls(6);
    let role = Role::Named(RoleId::new(0));
    let clauses = vec![
        DlClause {
            body: vec![Atom::Class(nom0, X)],
            head: vec![Atom::Class(ll, X)],
        },
        DlClause {
            body: vec![Atom::Class(q, X)],
            head: vec![Atom::Class(guard, X)],
        },
        // H creates an R-successor G seeded with `g_drv`:
        DlClause {
            body: vec![Atom::Class(q, X)],
            head: vec![Atom::Exists(role, g_drv, X)],
        },
        DlClause {
            body: vec![Atom::Class(g_drv, X)],
            head: vec![Atom::Class(nom0, X), Atom::Class(p, X)],
        },
        DlClause {
            body: vec![Atom::Role(role, X, 1), Atom::Class(ll, 1)],
            head: vec![Atom::Class(mm, X)],
        },
        DlClause {
            body: vec![Atom::Class(guard, X), Atom::Class(mm, X)],
            head: vec![],
        },
    ];
    let seed = AboxSeed {
        num_individuals: 2,
        nominal_base: 6,
        property_assertions: vec![],
        same_pairs: vec![],
    };
    let mut cl = clauses.clone();
    cl.push(DlClause {
        body: vec![Atom::Class(cls(7), X)],
        head: vec![Atom::Class(q, X)],
    });
    let buggy = HyperEngine::new_seeded(&cl, &seed)
        .with_nominals(6, 2)
        .with_nn_taint_disabled()
        .decide(64);
    let fixed = HyperEngine::new_seeded(&cl, &seed)
        .with_nominals(6, 2)
        .decide(64);
    assert_eq!(buggy, HyperResult::Unsat);
    assert_eq!(fixed, HyperResult::Sat);
}

#[test]
fn nn_merge_edge_copy_residual_c() {
    let (q, ll, mm, zz, p, g) = (cls(0), cls(1), cls(2), cls(3), cls(4), cls(5));
    let nom0 = cls(6);
    let role = Role::Named(RoleId::new(0));
    let role_s = Role::Named(RoleId::new(1));
    let disjunctive_d = DlClause {
        body: vec![Atom::Class(q, X)],
        head: vec![Atom::Class(nom0, X), Atom::Class(p, X)],
    };
    let nondisj_d = DlClause {
        body: vec![Atom::Class(q, X)],
        head: vec![Atom::Class(p, X)],
    };
    let base = |decision: DlClause| {
        vec![
            DlClause {
                body: vec![Atom::Class(cls(7), X)],
                head: vec![Atom::Class(ll, X)],
            },
            // {2}=node2 carries `q` (the decision driver):
            DlClause {
                body: vec![Atom::Class(cls(8), X)],
                head: vec![Atom::Class(q, X)],
            },
            DlClause {
                body: vec![Atom::Class(q, X)],
                head: vec![Atom::Class(g, X)],
            },
            decision,
            DlClause {
                body: vec![
                    Atom::Role(role, X, 1),
                    Atom::Class(ll, 1),
                    Atom::Class(g, X),
                ],
                head: vec![Atom::Class(mm, X)],
            },
            // mm spawns a fresh untainted ∃-successor that clashes:
            DlClause {
                body: vec![Atom::Class(mm, X)],
                head: vec![Atom::Exists(role_s, zz, X)],
            },
            DlClause {
                body: vec![Atom::Class(zz, X)],
                head: vec![],
            },
        ]
    };
    let seed = AboxSeed {
        num_individuals: 3,
        nominal_base: 6,
        property_assertions: vec![(0, role, 1)],
        same_pairs: vec![],
    };
    let discriminator = HyperEngine::new_seeded(&base(nondisj_d), &seed)
        .with_nominals(6, 3)
        .decide(64);
    let exploit = HyperEngine::new_seeded(&base(disjunctive_d), &seed)
        .with_nominals(6, 3)
        .decide(64);
    assert_eq!(discriminator, HyperResult::Sat);
    assert_eq!(exploit, HyperResult::Sat);
}

#[test]
fn nn_merge_real_clash_stays_unsat() {
    let role = Role::Named(RoleId::new(0));
    let (a, n0, n1) = (cls(0), cls(2), cls(3));
    let clauses = vec![
        DlClause {
            body: vec![Atom::Class(a, X)],
            head: vec![Atom::Exists(role, n0, X)],
        },
        DlClause {
            body: vec![Atom::Class(a, X)],
            head: vec![Atom::Exists(role, n1, X)],
        },
        DlClause {
            body: vec![Atom::Class(a, X)],
            head: vec![Atom::AtMost(role, None, 1, X)],
        },
        DlClause {
            body: vec![Atom::Class(n0, X), Atom::Class(n1, X)],
            head: vec![],
        },
    ];
    let r = HyperEngine::new(&clauses, a).with_nominals(2, 2).decide(64);
    assert_eq!(r, HyperResult::Unsat);
}
