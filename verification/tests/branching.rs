//! Branching search.

use hyperdl::clause::{Atom, DlClause, X};
use hyperdl::engine::HyperEngine;
use hyperdl::graph::HyperResult;
use hyperdl::ids::ClassId;
use hyperdl::search::is_diverging;

fn cls(i: u32) -> ClassId {
    ClassId::new(i)
}

#[test]
fn is_diverging_fires_only_on_no_progress() {
    assert!(is_diverging(5000, 4990, true)); // ~all failing at saturated depth
    assert!(!is_diverging(5000, 1000, true)); // progressing (restores ≪ branches)
    assert!(!is_diverging(5000, 4990, false)); // depth not saturated → not (yet) diverging
    assert!(!is_diverging(0, 0, true)); // empty window
}

#[test]
fn all_horn_detects_disjunctive_clause() {
    let horn = vec![DlClause {
        body: vec![Atom::Class(cls(0), X)],
        head: vec![Atom::Class(cls(1), X)],
    }];
    assert!(HyperEngine::all_horn(&horn));
    let disj = vec![DlClause {
        body: vec![Atom::Class(cls(0), X)],
        head: vec![Atom::Class(cls(1), X), Atom::Class(cls(2), X)],
    }];
    assert!(!HyperEngine::all_horn(&disj));
}

#[test]
fn disjunction_sat_takes_first_branch() {
    let clauses = vec![DlClause {
        body: vec![Atom::Class(cls(0), X)],
        head: vec![Atom::Class(cls(1), X), Atom::Class(cls(2), X)],
    }];
    let mut e = HyperEngine::new(&clauses, cls(0));
    assert_eq!(e.decide(64), HyperResult::Sat);
    assert!(e.root_labels().contains(&cls(1)));
    assert!(!e.root_labels().contains(&cls(2)));
}

#[test]
fn disjunction_backtracks_to_second_branch() {
    let clauses = vec![
        DlClause {
            body: vec![Atom::Class(cls(0), X)],
            head: vec![Atom::Class(cls(1), X), Atom::Class(cls(2), X)],
        },
        // B ⊑ ⊥
        DlClause {
            body: vec![Atom::Class(cls(1), X)],
            head: vec![],
        },
    ];
    let mut e = HyperEngine::new(&clauses, cls(0));
    assert_eq!(e.decide(64), HyperResult::Sat);
    assert!(e.root_labels().contains(&cls(2)));
    assert!(!e.root_labels().contains(&cls(1)));
}

#[test]
fn disjunction_both_branches_clash_is_unsat() {
    let clauses = vec![
        DlClause {
            body: vec![Atom::Class(cls(0), X)],
            head: vec![Atom::Class(cls(1), X), Atom::Class(cls(2), X)],
        },
        DlClause {
            body: vec![Atom::Class(cls(1), X)],
            head: vec![],
        },
        DlClause {
            body: vec![Atom::Class(cls(2), X)],
            head: vec![],
        },
    ];
    let mut e = HyperEngine::new(&clauses, cls(0));
    assert_eq!(e.decide(64), HyperResult::Unsat);
}

#[test]
fn nested_disjunction_exhaustive_failure_is_unsat() {
    let bot = |c: u32| DlClause {
        body: vec![Atom::Class(cls(c), X)],
        head: vec![],
    };
    let clauses = vec![
        DlClause {
            body: vec![Atom::Class(cls(0), X)],
            head: vec![Atom::Class(cls(1), X), Atom::Class(cls(2), X)],
        },
        DlClause {
            body: vec![Atom::Class(cls(1), X)],
            head: vec![Atom::Class(cls(3), X), Atom::Class(cls(4), X)],
        },
        bot(3),
        bot(4),
        bot(2),
    ];
    let mut e = HyperEngine::new(&clauses, cls(0));
    assert_eq!(e.decide(64), HyperResult::Unsat);
}

#[test]
fn nested_disjunction_finds_deep_model() {
    let bot = |c: u32| DlClause {
        body: vec![Atom::Class(cls(c), X)],
        head: vec![],
    };
    let clauses = vec![
        DlClause {
            body: vec![Atom::Class(cls(0), X)],
            head: vec![Atom::Class(cls(1), X), Atom::Class(cls(2), X)],
        },
        DlClause {
            body: vec![Atom::Class(cls(1), X)],
            head: vec![Atom::Class(cls(3), X), Atom::Class(cls(4), X)],
        },
        bot(3), // D ⊑ ⊥ — first nested disjunct fails
        bot(2), // C ⊑ ⊥ — outer second disjunct fails
    ];
    let mut e = HyperEngine::new(&clauses, cls(0));
    assert_eq!(e.decide(64), HyperResult::Sat);
    assert!(e.root_labels().contains(&cls(1)));
    assert!(e.root_labels().contains(&cls(4)));
}

#[test]
fn shallow_depth_bound_yields_stalled_not_unsat() {
    let split = |a: u32, l: u32, r: u32| DlClause {
        body: vec![Atom::Class(cls(a), X)],
        head: vec![Atom::Class(cls(l), X), Atom::Class(cls(r), X)],
    };
    let clauses = vec![split(0, 1, 2), split(1, 3, 4), split(2, 5, 6)];
    let mut e = HyperEngine::new(&clauses, cls(0));
    assert_eq!(e.decide(1), HyperResult::Stalled);
    // With enough depth the same ontology is decisively Sat.
    let mut e2 = HyperEngine::new(&clauses, cls(0));
    assert_eq!(e2.decide(64), HyperResult::Sat);
}

#[test]
fn satisfied_disjunct_is_not_a_branch_point() {
    let clauses = vec![
        DlClause {
            body: vec![Atom::Class(cls(0), X)],
            head: vec![Atom::Class(cls(1), X)],
        },
        DlClause {
            body: vec![Atom::Class(cls(0), X)],
            head: vec![Atom::Class(cls(1), X), Atom::Class(cls(2), X)],
        },
    ];
    let mut e = HyperEngine::new(&clauses, cls(0));
    assert_eq!(e.decide(64), HyperResult::Sat);
    assert!(e.root_labels().contains(&cls(1)));
    assert!(!e.root_labels().contains(&cls(2)));
}

#[test]
fn stats_track_branching_and_are_zero_on_horn() {
    // Horn: no branches.
    let horn = vec![DlClause {
        body: vec![Atom::Class(cls(0), X)],
        head: vec![Atom::Class(cls(1), X)],
    }];
    let mut e = HyperEngine::new(&horn, cls(0));
    assert_eq!(e.decide(64), HyperResult::Sat);
    assert_eq!(e.stats().branches_taken, 0);
    assert_eq!(e.stats().max_branch_depth, 0);

    let disj = vec![
        DlClause {
            body: vec![Atom::Class(cls(0), X)],
            head: vec![Atom::Class(cls(1), X), Atom::Class(cls(2), X)],
        },
        DlClause {
            body: vec![Atom::Class(cls(1), X)],
            head: vec![],
        },
    ];
    let mut e = HyperEngine::new(&disj, cls(0));
    assert_eq!(e.decide(64), HyperResult::Sat);
    assert_eq!(e.stats().branches_taken, 2);
    assert_eq!(e.stats().restores, 1);
    assert_eq!(e.stats().max_branch_depth, 1);
}

#[test]
fn decide_matches_run_on_horn_input() {
    let clauses = vec![
        DlClause {
            body: vec![Atom::Class(cls(0), X)],
            head: vec![Atom::Class(cls(1), X)],
        },
        DlClause {
            body: vec![Atom::Class(cls(1), X)],
            head: vec![Atom::Class(cls(2), X)],
        },
    ];
    let mut e = HyperEngine::new(&clauses, cls(0));
    assert_eq!(e.decide(64), HyperResult::Sat);
    assert_eq!(e.root_labels(), &[cls(0), cls(1), cls(2)]);
}

#[test]
fn backjumping_collapses_irrelevant_middle_decisions() {
    const N: u32 = 8;
    let root = cls(0);
    let a = |i: u32| cls(2 * i - 1); // Aᵢ
    let b = |i: u32| cls(2 * i); // Bᵢ
    let mut clauses = Vec::new();
    for i in 1..=N {
        clauses.push(DlClause {
            body: vec![Atom::Class(root, X)],
            head: vec![Atom::Class(a(i), X), Atom::Class(b(i), X)],
        });
    }
    // First (1) and last (N) pair clash in all four combinations.
    for &first in &[a(1), b(1)] {
        for &last in &[a(N), b(N)] {
            clauses.push(DlClause {
                body: vec![Atom::Class(first, X), Atom::Class(last, X)],
                head: vec![],
            });
        }
    }
    let mut e = HyperEngine::new(&clauses, root);
    assert_eq!(e.decide(256), HyperResult::Unsat);
    let branches = e.stats().branches_taken;
    assert!(branches <= 4 * u64::from(N));
}
