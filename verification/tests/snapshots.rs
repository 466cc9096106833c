//! Snapshots of completions.

use hyperdl::clause::{Atom, DlClause, X};
use hyperdl::dep_set::DepSet;
use hyperdl::engine::HyperEngine;
use hyperdl::graph::HyperResult;
use hyperdl::ids::{ClassId, HNode};

fn cls(i: u32) -> ClassId {
    ClassId::new(i)
}

#[test]
fn sentinel_fires_on_simulated_backprop_into_snapshot_node() {
    // Build a snapshot of a single-class Horn ontology.
    let clauses: Vec<DlClause> = vec![DlClause {
        body: vec![Atom::Class(cls(0), X)],
        head: vec![Atom::Class(cls(1), X)],
    }];
    let mut eng = HyperEngine::new(&clauses, cls(0));
    assert_eq!(eng.decide(64), HyperResult::Sat);
    let snap = eng.satisfiability_snapshot(cls(0)).expect("snapshot built");

    let mut eng2 = HyperEngine::from_snapshot(&clauses, &snap);
    assert!(!eng2.snapshot_backprop_aborted());

    eng2.add_label_via_backprop(HNode(0), cls(2), DepSet::empty());
    assert!(eng2.snapshot_backprop_aborted());
}

#[test]
fn sentinel_does_not_fire_on_non_snapshot_node() {
    // Engine built via `new`, not `from_snapshot` — no snapshot-origin.
    let clauses: Vec<DlClause> = vec![];
    let mut eng = HyperEngine::new(&clauses, cls(0));
    eng.add_label_via_backprop(HNode(0), cls(1), DepSet::empty());
    assert!(!eng.snapshot_backprop_aborted());
}
