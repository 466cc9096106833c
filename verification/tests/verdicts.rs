//! What verdicts, counters and measurements say, on concrete searches.

use std::collections::HashSet;
use std::sync::Arc;
use std::time::{Duration, Instant};

use hyperdl::clause::{Atom, DlClause, RoleHierarchy, X};
use hyperdl::engine::HyperEngine;
use hyperdl::gc::{gc_measure_report, GcWindow};
use hyperdl::graph::{HyperResult, SearchStats};
use hyperdl::ids::{ClassId, HNode, Role, RoleId};
use hyperdl::index::{build_clause_indexes, build_disjoint_pairs};
use hyperdl::search::is_diverging;
use hyperdl::seed::AboxSeed;

fn cls(i: u32) -> ClassId {
    ClassId::new(i)
}

fn role(i: u32) -> Role {
    Role::Named(RoleId::new(i))
}

fn clause(body: Vec<Atom>, head: Vec<Atom>) -> DlClause {
    DlClause { body, head }
}

fn is(c: u32) -> Atom {
    Atom::Class(cls(c), X)
}

/// `0 → 1 ⊔ 2`, and both lead to a clash.
fn two_dead_ends() -> Vec<DlClause> {
    vec![
        clause(vec![is(0)], vec![is(1), is(2)]),
        clause(vec![is(1)], vec![]),
        clause(vec![is(2)], vec![]),
    ]
}

#[test]
fn an_unsatisfiable_class_is_refuted_and_a_satisfiable_one_is_not() {
    let clauses = two_dead_ends();
    assert_eq!(HyperEngine::new(&clauses, cls(0)).decide(8), HyperResult::Unsat);
    // Class 3 says nothing: any model will do.
    assert_eq!(HyperEngine::new(&clauses, cls(3)).decide(8), HyperResult::Sat);
}

#[test]
fn saturation_alone_refutes_what_needs_no_branching() {
    let clauses = vec![
        clause(vec![is(0)], vec![is(1)]),
        clause(vec![is(0), is(1)], vec![]),
    ];
    assert_eq!(HyperEngine::new(&clauses, cls(0)).run(100), HyperResult::Unsat);
    // The disjunction is left out by saturation, and refuted by the search.
    let dead = two_dead_ends();
    assert_eq!(HyperEngine::new(&dead, cls(0)).run(100), HyperResult::Sat);
}

#[test]
fn saturation_stalls_when_its_events_run_out() {
    let clauses = vec![
        clause(vec![is(0)], vec![is(1)]),
        clause(vec![is(1)], vec![is(2)]),
    ];
    assert_eq!(HyperEngine::new(&clauses, cls(0)).run(0), HyperResult::Stalled);
    assert_eq!(HyperEngine::new(&clauses, cls(0)).run(3), HyperResult::Sat);
}

#[test]
fn the_same_search_ends_the_same_way() {
    let clauses = vec![
        clause(vec![is(0)], vec![is(1), is(2)]),
        clause(vec![is(1)], vec![]),
        clause(vec![is(2)], vec![Atom::Exists(role(0), cls(3), X)]),
    ];
    let mut a = HyperEngine::new(&clauses, cls(0));
    let mut b = HyperEngine::new(&clauses, cls(0));
    assert_eq!(a.decide(8), HyperResult::Sat);
    assert_eq!(b.decide(8), HyperResult::Sat);
    assert_eq!(a.stats(), b.stats());
    assert_eq!(a.node_count(), 2);
    assert_eq!(a.node_count(), b.node_count());
    assert_eq!(a.root_labels(), b.root_labels());
    assert_eq!(a.root_labels(), &[cls(0), cls(2)][..]);
}

#[test]
fn counters_fit_together() {
    let clauses = vec![
        clause(vec![is(0)], vec![is(1), is(2)]),
        clause(vec![is(1)], vec![]),
    ];
    let mut e = HyperEngine::new(&clauses, cls(0));
    assert_eq!(e.decide(8), HyperResult::Sat);
    let st = e.stats();
    assert_eq!(st.branches_taken, 2);
    assert_eq!(st.disj_branches, 2);
    assert_eq!(st.merge_branches, 0);
    assert_eq!(st.node_clones, 2);
    assert_eq!(st.restores, 1);
    assert_eq!(st.max_branch_depth, 1);
    assert_eq!(st.branches_taken, st.disj_branches + st.merge_branches);
}

#[test]
fn merging_branches_are_counted_apart() {
    // Two successors of the root, and room for one.
    let clauses = vec![
        clause(vec![is(0)], vec![Atom::Exists(role(0), cls(1), X)]),
        clause(vec![is(0)], vec![Atom::Exists(role(0), cls(2), X)]),
        clause(vec![is(0)], vec![Atom::AtMost(role(0), None, 1, X)]),
    ];
    let mut e = HyperEngine::new(&clauses, cls(0));
    assert_eq!(e.decide(8), HyperResult::Sat);
    let st = e.stats();
    assert_eq!((st.branches_taken, st.disj_branches, st.merge_branches), (1, 0, 1));
}

#[test]
fn measuring_does_not_change_a_search() {
    let clauses = vec![
        clause(vec![is(0)], vec![Atom::Exists(role(0), cls(1), X)]),
        clause(vec![is(1)], vec![is(2)]),
    ];
    let mut plain = HyperEngine::new(&clauses, cls(0));
    let mut measured = HyperEngine::new(&clauses, cls(0)).with_gc_window(Some(GcWindow::new()));
    assert_eq!(plain.decide(8), measured.decide(8));
    assert_eq!(plain.stats(), measured.stats());
    assert_eq!(plain.root_labels(), measured.root_labels());
    let window = measured.take_gc_window();
    assert_eq!(gc_measure_report(&window), Some((2, 2)));
    assert_eq!(gc_measure_report(&measured.take_gc_window()), None);
}

#[test]
fn measurement_counts_label_sets_once() {
    // The root and its successor end with the same labels.
    let clauses = vec![
        clause(vec![is(0)], vec![is(1)]),
        clause(vec![is(1)], vec![is(0)]),
        clause(vec![], vec![Atom::Exists(role(0), cls(1), X)]),
    ];
    let mut e = HyperEngine::new(&clauses, cls(0)).with_gc_window(Some(GcWindow::new()));
    assert_eq!(e.decide(8), HyperResult::Sat);
    let n = e.node_count() as u64;
    let window = e.take_gc_window();
    assert_eq!(gc_measure_report(&window), Some((n, 1)));
    assert_eq!(gc_measure_report(&None), None);
}

#[test]
fn a_clause_fires_whichever_atom_comes_last() {
    // `0(x) ∧ R(x,y) ∧ 2(y) → 3(x)`, with `2(y)` derived last.
    let late_class = vec![
        clause(vec![is(0)], vec![Atom::Exists(role(0), cls(1), X)]),
        clause(vec![is(1)], vec![is(2)]),
        clause(
            vec![is(0), Atom::Role(role(0), X, 1), Atom::Class(cls(2), 1)],
            vec![is(3)],
        ),
    ];
    let mut e = HyperEngine::new(&late_class, cls(0));
    assert_eq!(e.run(100), HyperResult::Sat);
    assert_eq!(e.root_labels(), &[cls(0), cls(3)][..]);
    // The same with the central class derived last.
    let late_center = vec![
        clause(vec![is(4)], vec![Atom::Exists(role(0), cls(2), X)]),
        clause(vec![is(4)], vec![is(5)]),
        clause(vec![is(5)], vec![is(0)]),
        clause(
            vec![is(0), Atom::Role(role(0), X, 1), Atom::Class(cls(2), 1)],
            vec![is(3)],
        ),
    ];
    let mut e = HyperEngine::new(&late_center, cls(4));
    assert_eq!(e.run(100), HyperResult::Sat);
    assert_eq!(e.root_labels(), &[cls(0), cls(3), cls(4), cls(5)][..]);
}

#[test]
fn sat_leaves_no_disjunction_open() {
    let clauses = vec![
        clause(vec![is(0)], vec![is(1), is(2)]),
        clause(vec![is(0)], vec![is(3), is(4)]),
        clause(vec![is(1), is(3)], vec![]),
    ];
    let mut e = HyperEngine::new(&clauses, cls(0));
    assert_eq!(e.decide(8), HyperResult::Sat);
    let labels = e.root_labels();
    assert!(labels.contains(&cls(1)) || labels.contains(&cls(2)));
    assert!(labels.contains(&cls(3)) || labels.contains(&cls(4)));
    assert!(!(labels.contains(&cls(1)) && labels.contains(&cls(3))));
}

#[test]
fn horn_clauses_are_decided_by_saturation() {
    let clauses = vec![
        clause(vec![is(0)], vec![is(1)]),
        clause(vec![is(1)], vec![Atom::Exists(role(0), cls(2), X)]),
    ];
    let mut a = HyperEngine::new(&clauses, cls(0));
    let mut b = HyperEngine::new(&clauses, cls(0));
    assert_eq!(a.run(100_000), b.decide(8));
    assert_eq!(a.root_labels(), b.root_labels());
    assert_eq!(a.node_count(), b.node_count());
    assert_eq!(b.stats().branches_taken, 0);
}

#[test]
fn a_deadline_that_has_passed_stalls_the_search() {
    let clauses = two_dead_ends();
    let mut e = HyperEngine::new(&clauses, cls(0));
    assert_eq!(
        e.decide_with_deadline(8, Some(Instant::now())),
        HyperResult::Stalled
    );
    let mut e = HyperEngine::new(&clauses, cls(0));
    let later = Instant::now() + Duration::from_secs(3600);
    assert_eq!(e.decide_with_deadline(8, Some(later)), HyperResult::Unsat);
    let mut e = HyperEngine::new(&clauses, cls(0));
    assert_eq!(e.decide_with_deadline(8, None), HyperResult::Unsat);
}

#[test]
fn sub_roles_and_symmetric_roles_count_as_the_wanted_role() {
    // `1(x) ∧ R₁(x,y) → 2(x)`, with an `R₀` edge and `R₀ ⊑ R₁`.
    let clauses = vec![
        clause(vec![is(0)], vec![Atom::Exists(role(0), cls(3), X)]),
        clause(vec![is(0)], vec![is(1)]),
        clause(vec![is(1), Atom::Role(role(1), X, 1)], vec![is(2)]),
    ];
    let hierarchy = RoleHierarchy {
        sub_pairs: vec![(RoleId::new(0), RoleId::new(1))],
        symmetric: vec![],
    };
    let mut e = HyperEngine::new(&clauses, cls(0)).with_sub_roles(hierarchy);
    assert_eq!(e.decide(8), HyperResult::Sat);
    assert_eq!(e.root_labels(), &[cls(0), cls(1), cls(2)][..]);
    let mut plain = HyperEngine::new(&clauses, cls(0));
    assert_eq!(plain.decide(8), HyperResult::Sat);
    assert_eq!(plain.root_labels(), &[cls(0), cls(1)][..]);
}

#[test]
fn shared_indexes_give_the_same_search() {
    let clauses = vec![
        clause(vec![is(0)], vec![is(1), is(2)]),
        clause(vec![is(1), is(0)], vec![]),
    ];
    let indexes = Arc::new(build_clause_indexes(&clauses, None));
    let pairs = Arc::new(build_disjoint_pairs(&clauses));
    let mut a = HyperEngine::new(&clauses, cls(0));
    let mut b = HyperEngine::new_with_prebuilt(&clauses, cls(0), indexes, pairs);
    assert_eq!(a.decide(8), b.decide(8));
    assert_eq!(a.stats(), b.stats());
}

#[test]
fn indexes_list_horn_clauses_under_each_body_atom() {
    let clauses = vec![
        clause(
            vec![is(1), Atom::Role(role(2), X, 1), Atom::Class(cls(3), 1)],
            vec![is(0)],
        ),
        clause(vec![is(1)], vec![is(0), is(2)]),
        clause(vec![], vec![is(4)]),
        clause(vec![Atom::Role(Role::Inverse(RoleId::new(0)), X, 1)], vec![is(0)]),
    ];
    let ix = build_clause_indexes(&clauses, None);
    assert_eq!(ix.x_trigger, vec![vec![], vec![0]]);
    assert_eq!(ix.succ_trigger, vec![vec![], vec![], vec![], vec![0]]);
    assert_eq!(ix.role_trigger, vec![vec![3], vec![], vec![0]]);
    let nothing: Vec<Vec<usize>> = vec![];
    assert_eq!(ix.role_back_trigger, nothing);
    assert_eq!(ix.inverse_first_trigger, vec![vec![3]]);
    assert_eq!(ix.empty_body, vec![2]);
}

#[test]
fn disjoint_pairs_come_from_clauses_on_two_classes() {
    let clauses = vec![
        clause(vec![is(5), is(2)], vec![]),
        clause(vec![is(1), is(1)], vec![]),
        clause(vec![is(1), is(3)], vec![is(4)]),
        clause(vec![is(6), Atom::Class(cls(7), 1)], vec![]),
    ];
    let pairs = build_disjoint_pairs(&clauses);
    assert!(pairs.contains(cls(2), cls(5)));
    assert!(pairs.contains(cls(5), cls(2)));
    assert!(!pairs.contains(cls(1), cls(1)));
    assert!(!pairs.contains(cls(1), cls(3)));
    assert!(!pairs.contains(cls(6), cls(7)));
    assert!(!pairs.is_empty());
    assert!(build_disjoint_pairs(&clauses[1..]).is_empty());
}

#[test]
fn assertions_that_contradict_the_clauses_are_refuted() {
    // Nominals 10 and 11; `R(0,1)`; `10 → 0`, `11 → 1`, `0(x) ∧ R(x,y) ∧ 1(y) → ⊥`.
    let clauses = vec![
        clause(vec![is(10)], vec![is(0)]),
        clause(vec![is(11)], vec![is(1)]),
        clause(
            vec![is(0), Atom::Role(role(0), X, 1), Atom::Class(cls(1), 1)],
            vec![],
        ),
    ];
    let seed = |edges: Vec<(u32, Role, u32)>| AboxSeed {
        num_individuals: 2,
        nominal_base: 10,
        property_assertions: edges,
        same_pairs: vec![],
    };
    let bad = seed(vec![(0, role(0), 1)]);
    let good = seed(vec![(1, role(0), 0)]);
    // An edge to an individual that is not there says nothing.
    let unknown = seed(vec![(0, role(0), 7)]);
    let verdict = |s: &AboxSeed| HyperEngine::new_seeded(&clauses, s).with_nominals(10, 2).decide(8);
    assert_eq!(verdict(&bad), HyperResult::Unsat);
    assert_eq!(verdict(&good), HyperResult::Sat);
    assert_eq!(verdict(&unknown), HyperResult::Sat);
}

#[test]
fn disjunctions_on_individuals_are_decided() {
    // `10 → 0 ⊔ 1`, and both clash with what `11`, the same individual, says.
    let clauses = vec![
        clause(vec![is(10)], vec![is(0), is(1)]),
        clause(vec![is(11), is(0)], vec![]),
        clause(vec![is(11), is(1)], vec![]),
    ];
    let seed = |same: Vec<(u32, u32)>| AboxSeed {
        num_individuals: 2,
        nominal_base: 10,
        property_assertions: vec![],
        same_pairs: same,
    };
    let verdict = |s: &AboxSeed| HyperEngine::new_seeded(&clauses, s).with_nominals(10, 2).decide(8);
    assert_eq!(verdict(&seed(vec![(0, 1)])), HyperResult::Unsat);
    assert_eq!(verdict(&seed(vec![])), HyperResult::Sat);
    assert_eq!(verdict(&seed(vec![(0, 9)])), HyperResult::Sat);
}

#[test]
fn labels_of_individuals_are_read_off_their_representative() {
    let clauses = vec![
        clause(vec![is(10)], vec![is(3)]),
        clause(vec![is(11)], vec![is(4)]),
    ];
    let seed = AboxSeed {
        num_individuals: 2,
        nominal_base: 10,
        property_assertions: vec![],
        same_pairs: vec![(0, 1)],
    };
    let mut e = HyperEngine::new_seeded(&clauses, &seed).with_nominals(10, 2);
    assert_eq!(e.decide(8), HyperResult::Sat);
    assert_eq!(e.seeded_individual_labels(0, 10), vec![3, 4]);
    assert_eq!(e.seeded_individual_labels(1, 10), vec![3, 4]);
    assert_eq!(e.seeded_individual_labels(1, 4), vec![3]);
}

#[test]
fn without_individuals_there_is_one_node() {
    let clauses = vec![clause(vec![], vec![is(3)])];
    let mut e = HyperEngine::new_seeded(&clauses, &AboxSeed::default());
    assert_eq!(e.decide(8), HyperResult::Sat);
    assert_eq!(e.node_count(), 1);
    assert_eq!(e.root_labels(), &[cls(0), cls(3)][..]);
}

#[test]
fn a_snapshot_replays_the_graph_it_was_taken_of() {
    let clauses = vec![
        clause(vec![is(0)], vec![Atom::Exists(role(0), cls(1), X)]),
        clause(vec![is(1)], vec![is(2)]),
    ];
    let mut e = HyperEngine::new(&clauses, cls(0));
    assert_eq!(e.decide(8), HyperResult::Sat);
    let snap = e.satisfiability_snapshot(cls(0)).expect("the seed is at the root");
    assert!(e.satisfiability_snapshot(cls(9)).is_none());
    assert_eq!(snap.nodes().len(), 2);
    assert_eq!(snap.nodes()[0].labels, vec![cls(0)]);
    assert!(snap.nodes()[0].is_root);
    assert_eq!(snap.nodes()[1].labels, vec![cls(1), cls(2)]);
    assert!(!snap.nodes()[1].is_root);
    assert_eq!(snap.edges_per_node()[0].len(), 1);
    assert_eq!(snap.edges_per_node()[0][0].role, role(0));
    assert_eq!(snap.edges_per_node()[0][0].target, 1);
    assert_eq!(snap.seed(), cls(0));

    let mut again = HyperEngine::from_snapshot(&clauses, &snap);
    assert_eq!(again.decide(8), HyperResult::Sat);
    assert_eq!(again.node_count(), 2);
    assert_eq!(again.satisfiability_labels(cls(0)), Some(vec![cls(0)]));
    let snap2 = again.satisfiability_snapshot(cls(0)).expect("the seed is at the root");
    assert_eq!(snap2.nodes()[1].labels, snap.nodes()[1].labels);
    assert_eq!(snap2.edges_per_node()[0], snap.edges_per_node()[0]);

    // A clause that the snapshot contradicts is refuted.
    let mut more = clauses;
    more.push(clause(
        vec![is(0), Atom::Role(role(0), X, 1), Atom::Class(cls(2), 1)],
        vec![],
    ));
    assert_eq!(HyperEngine::from_snapshot(&more, &snap).decide(8), HyperResult::Unsat);
    let lazy = HyperEngine::from_snapshot_lazy(&more, &snap, HashSet::from([0, 2])).decide(8);
    assert_eq!(lazy, HyperResult::Unsat);
}

#[test]
fn a_lazy_replay_reaches_what_a_full_one_does() {
    // `0 → 1`, `0 → ∃R.2`; then `1 → 3`, and `2 → ∃R.4`.
    let clauses = vec![
        clause(vec![is(0)], vec![is(1)]),
        clause(vec![is(0)], vec![Atom::Exists(role(0), cls(2), X)]),
    ];
    let mut e = HyperEngine::new(&clauses, cls(0));
    assert_eq!(e.decide(8), HyperResult::Sat);
    let snap = e.satisfiability_snapshot(cls(0)).expect("the seed is at the root");
    let mut more = clauses;
    more.push(clause(vec![is(1)], vec![is(3)]));
    more.push(clause(vec![is(2)], vec![Atom::Exists(role(0), cls(4), X)]));
    let mut full = HyperEngine::from_snapshot(&more, &snap);
    let mut lazy = HyperEngine::from_snapshot_lazy(&more, &snap, HashSet::from([1, 2]));
    assert_eq!(full.decide(8), HyperResult::Sat);
    assert_eq!(lazy.decide(8), HyperResult::Sat);
    assert_eq!(full.node_count(), 3);
    assert_eq!(lazy.node_count(), 3);
    assert_eq!(lazy.satisfiability_labels(cls(0)), Some(vec![cls(0), cls(1), cls(3)]));
    assert_eq!(full.satisfiability_labels(cls(0)), lazy.satisfiability_labels(cls(0)));
    // Without its trigger an added clause is passed over.
    let mut missed = HyperEngine::from_snapshot_lazy(&more, &snap, HashSet::from([2]));
    assert_eq!(missed.decide(8), HyperResult::Sat);
    assert_eq!(missed.satisfiability_labels(cls(0)), Some(vec![cls(0), cls(1)]));
}

#[test]
fn stats_start_at_zero() {
    assert_eq!(SearchStats::default(), SearchStats::zero());
    let clauses: Vec<DlClause> = vec![];
    let e = HyperEngine::new(&clauses, cls(0));
    assert_eq!(e.stats(), SearchStats::zero());
    assert_eq!(HNode(3).index(), 3);
}

#[test]
fn a_completion_without_blocking_or_merging_is_a_model() {
    // `0 → ∃R.1`, `0 → ≥1 S.4`, `0 → ≤1 S`, `1 → 2 ⊔ 3`, `2 → ⊥`.
    let clauses = vec![
        clause(vec![is(0)], vec![Atom::Exists(role(0), cls(1), X)]),
        clause(vec![is(0)], vec![Atom::AtLeast(role(1), Some(cls(4)), 1, X)]),
        clause(vec![is(0)], vec![Atom::AtMost(role(1), None, 1, X)]),
        clause(vec![is(1)], vec![is(2), is(3)]),
        clause(vec![is(2)], vec![]),
    ];
    let mut e = HyperEngine::new(&clauses, cls(0)).with_double_blocking();
    assert_eq!(e.decide(8), HyperResult::Sat);
    assert_eq!((e.stats().blocks_fired, e.stats().merge_branches), (0, 0));
    // Class 0 is satisfiable and below nothing but itself.
    assert_eq!(e.satisfiability_labels(cls(0)), Some(vec![cls(0)]));
    // The root, its `R`-successor and its `S`-successor.
    assert_eq!(e.node_count(), 3);
    let snap = e.satisfiability_snapshot(cls(0)).expect("the seed is at the root");
    assert_eq!(snap.nodes()[1].labels, vec![cls(1), cls(3)]);
    assert_eq!(snap.edges_per_node()[0].len(), 2);
}

#[test]
fn a_budget_leaves_a_search_that_converges_alone() {
    let clauses = two_dead_ends();
    let mut e = HyperEngine::new(&clauses, cls(0)).with_adaptive_budget();
    assert_eq!(e.decide(8), HyperResult::Unsat);
    let mut plain = HyperEngine::new(&clauses, cls(0));
    assert_eq!(plain.decide(8), HyperResult::Unsat);
    assert_eq!(e.stats(), plain.stats());
}

#[test]
fn indexes_built_for_the_hierarchy_can_be_kept() {
    // `0(x) ∧ R₀(x,y) → 2(x)`, with a symmetric `R₀`: the successor sees the
    // root as its own successor.
    let clauses = vec![
        clause(vec![is(0)], vec![Atom::Exists(role(0), cls(1), X)]),
        clause(vec![Atom::Role(role(0), X, 1), is(1)], vec![is(2)]),
    ];
    let hierarchy = RoleHierarchy {
        sub_pairs: vec![],
        symmetric: vec![RoleId::new(0)],
    };
    let mut a = HyperEngine::new(&clauses, cls(0)).with_sub_roles(hierarchy.clone());
    let indexes = Arc::new(build_clause_indexes(&clauses, Some(&hierarchy)));
    let pairs = Arc::new(build_disjoint_pairs(&clauses));
    let mut b = HyperEngine::new_with_prebuilt(&clauses, cls(0), indexes, pairs)
        .with_sub_roles_keep_index(hierarchy);
    assert_eq!(a.decide(8), HyperResult::Sat);
    assert_eq!(b.decide(8), HyperResult::Sat);
    assert_eq!(a.stats(), b.stats());
    let snap = b.satisfiability_snapshot(cls(0)).expect("the seed is at the root");
    assert_eq!(snap.nodes()[1].labels, vec![cls(1), cls(2)]);
}

#[test]
fn seeded_searches_share_indexes_too() {
    let clauses = vec![
        clause(vec![is(10)], vec![is(0), is(1)]),
        clause(vec![is(10), is(0)], vec![]),
    ];
    let seed = AboxSeed {
        num_individuals: 1,
        nominal_base: 10,
        property_assertions: vec![],
        same_pairs: vec![],
    };
    let indexes = Arc::new(build_clause_indexes(&clauses, None));
    let pairs = Arc::new(build_disjoint_pairs(&clauses));
    let mut a = HyperEngine::new_seeded(&clauses, &seed).with_nominals(10, 1);
    let mut b = HyperEngine::new_seeded_with_prebuilt(&clauses, &seed, indexes, pairs)
        .with_nominals(10, 1);
    assert_eq!(a.decide(8), HyperResult::Sat);
    assert_eq!(b.decide(8), HyperResult::Sat);
    assert_eq!(a.stats(), b.stats());
    assert_eq!(b.seeded_individual_labels(0, 10), vec![1]);
}

#[test]
fn consistent_assertions_are_true_in_the_completion() {
    // `10 → 0 ⊔ 1`, `0 → ⊥`, `1(x) ∧ R(x,y) → 2(y)`, and `R(0,1)`.
    let clauses = vec![
        clause(vec![is(10)], vec![is(0), is(1)]),
        clause(vec![is(0)], vec![]),
        clause(vec![is(1), Atom::Role(role(0), X, 1)], vec![Atom::Class(cls(2), 1)]),
    ];
    let seed = AboxSeed {
        num_individuals: 2,
        nominal_base: 10,
        property_assertions: vec![(0, role(0), 1)],
        same_pairs: vec![],
    };
    let mut e = HyperEngine::new_seeded(&clauses, &seed).with_nominals(10, 2);
    assert_eq!(e.decide(8), HyperResult::Sat);
    assert_eq!((e.stats().blocks_fired, e.stats().merge_branches), (0, 0));
    assert_eq!(e.node_count(), 2);
    // In this model individual 0 is no 2, and individual 1 is no 1.
    assert_eq!(e.seeded_individual_labels(0, 10), vec![1]);
    assert_eq!(e.seeded_individual_labels(1, 10), vec![2]);
}

#[test]
fn labels_of_the_seed_are_there_after_sat_only() {
    let none: Vec<DlClause> = vec![];
    assert_eq!(HyperEngine::new(&none, cls(0)).satisfiability_labels(cls(0)), None);
    let clauses = two_dead_ends();
    let mut refuted = HyperEngine::new(&clauses, cls(0));
    assert_eq!(refuted.decide(8), HyperResult::Unsat);
    assert_eq!(refuted.satisfiability_labels(cls(0)), None);
    let mut stalled = HyperEngine::new(&clauses, cls(0));
    assert_eq!(stalled.decide(0), HyperResult::Stalled);
    assert_eq!(stalled.satisfiability_labels(cls(0)), None);
    let mut found = HyperEngine::new(&clauses, cls(3));
    assert_eq!(found.decide(8), HyperResult::Sat);
    assert_eq!(found.satisfiability_labels(cls(3)), Some(vec![cls(3)]));
    assert_eq!(found.satisfiability_labels(cls(0)), None);
    let mut saturated = HyperEngine::new(&clauses, cls(3));
    assert_eq!(saturated.run(100), HyperResult::Sat);
    assert_eq!(saturated.satisfiability_labels(cls(3)), Some(vec![cls(3)]));
}

#[test]
fn a_late_search_stalls_and_changes_nothing() {
    let clauses = two_dead_ends();
    let mut e = HyperEngine::new(&clauses, cls(0));
    assert_eq!(e.decide(8), HyperResult::Unsat);
    let before = (e.stats(), e.node_count());
    assert_eq!(e.solve_unless(8, true), HyperResult::Stalled);
    assert_eq!((e.stats(), e.node_count()), before);
    assert_eq!(e.solve_unless(8, false), HyperResult::Unsat);
}

#[test]
fn divergence_is_measured_exactly() {
    assert!(is_diverging(100, 98, true));
    assert!(!is_diverging(100, 97, true));
    assert!(is_diverging(u64::MAX, u64::MAX, true));
    assert!(!is_diverging(u64::MAX, u64::MAX / 50, true));
}

#[test]
fn pairwise_blocking_asks_for_the_same_labels() {
    // An `R`-chain in which each node carries 1, and all but the first two
    // carry nothing else: the third is blocked by the second, whose parent
    // differs, only once the parents agree too.
    let clauses = vec![
        clause(vec![is(0)], vec![is(1)]),
        clause(vec![is(1)], vec![Atom::Exists(role(0), cls(1), X)]),
    ];
    let mut e = HyperEngine::new(&clauses, cls(0)).with_double_blocking();
    assert_eq!(e.decide(8), HyperResult::Sat);
    // Root {0,1}; then {1} below {0,1}, {1} below {1}, and one more, which
    // is blocked by the one before it.
    assert_eq!(e.node_count(), 4);
    assert!(e.stats().blocks_fired > 0);
}

#[test]
fn a_blocked_node_borrows_the_successors_of_another() {
    // `0 → ∃R.0`: the successor carries the labels of the root, which stands
    // in for it.
    let clauses = vec![clause(vec![is(0)], vec![Atom::Exists(role(0), cls(0), X)])];
    let mut e = HyperEngine::new(&clauses, cls(0));
    assert_eq!(e.decide(8), HyperResult::Sat);
    assert!(e.stats().blocks_fired > 0);
    let snap = e.satisfiability_snapshot(cls(0)).expect("the seed is at the root");
    assert_eq!(snap.nodes()[0].labels, snap.nodes()[1].labels);
    assert_eq!(snap.edges_per_node()[1].len(), 0);
}

#[test]
fn a_check_on_a_node_with_a_parent_is_eligible() {
    // The root is asked about too, but only its successor, which has a
    // parent and is blocked each time, counts.
    let clauses = vec![clause(vec![is(0)], vec![Atom::Exists(role(0), cls(0), X)])];
    let mut e = HyperEngine::new(&clauses, cls(0));
    assert_eq!(e.decide(8), HyperResult::Sat);
    assert!(e.stats().block_eligible > 0);
    assert_eq!(e.stats().block_eligible, e.stats().blocks_fired);
    assert!(e.stats().is_blocked_calls > e.stats().block_eligible);
    let mut e = HyperEngine::new(&clauses, cls(0)).with_double_blocking();
    assert_eq!(e.decide(8), HyperResult::Sat);
    assert!(e.stats().block_eligible > 0);
    assert!(e.stats().is_blocked_calls > e.stats().block_eligible);
}

#[test]
fn successors_merged_for_an_upper_bound_hand_over_their_labels() {
    // Two successors for 1 and 2, of which only one is allowed.
    let clauses = vec![
        clause(vec![is(0)], vec![Atom::Exists(role(0), cls(1), X)]),
        clause(vec![is(0)], vec![Atom::Exists(role(0), cls(2), X)]),
        clause(vec![is(0)], vec![Atom::AtMost(role(0), None, 1, X)]),
    ];
    let mut plain = HyperEngine::new(&clauses, cls(0));
    assert_eq!(plain.decide(8), HyperResult::Sat);
    assert_eq!(plain.stats().merge_branches, 1);
    let mut precise = HyperEngine::new(&clauses, cls(0)).with_precise_card_deps();
    assert_eq!(precise.decide(8), HyperResult::Sat);
    let snap = plain.satisfiability_snapshot(cls(0)).expect("the seed is at the root");
    assert!(snap.nodes().iter().any(|n| n.labels == vec![cls(1), cls(2)]));
}

#[test]
fn a_report_counts_no_more_label_sets_than_nodes() {
    assert_eq!(gc_measure_report(&None), None);
    assert_eq!(gc_measure_report(&Some(GcWindow::new())), Some((0, 0)));
    let clauses = vec![clause(vec![is(0)], vec![Atom::AtLeast(role(0), Some(cls(1)), 3, X)])];
    let mut e = HyperEngine::new(&clauses, cls(0)).with_gc_window(Some(GcWindow::new()));
    assert_eq!(e.decide(8), HyperResult::Sat);
    let window = e.take_gc_window();
    let report = gc_measure_report(&window);
    assert_eq!(report, gc_measure_report(&window));
    let (total, distinct) = report.expect("measured");
    assert!(distinct <= total);
    assert_eq!(distinct, 2);
}

#[test]
fn a_label_fires_clauses_on_super_roles() {
    // `0 → ∃R₁.2` comes after the clause on `R₀ ⊒ R₁` that it enables. The
    // clause is listed under its own role, and hears of the label.
    let clauses = vec![
        clause(vec![is(0), Atom::Role(role(0), X, 1), Atom::Class(cls(2), 1)], vec![is(3)]),
        clause(vec![is(0)], vec![Atom::Exists(role(1), cls(2), X)]),
        clause(vec![is(3)], vec![]),
    ];
    let hierarchy = RoleHierarchy {
        sub_pairs: vec![(RoleId::new(1), RoleId::new(0))],
        symmetric: vec![],
    };
    let ix = build_clause_indexes(&clauses, Some(&hierarchy));
    assert_eq!(ix.role_trigger, vec![vec![0]]);
    let mut e = HyperEngine::new(&clauses, cls(0)).with_sub_roles(hierarchy);
    assert_eq!(e.decide(8), HyperResult::Unsat);
    assert_eq!(HyperEngine::new(&clauses, cls(0)).decide(8), HyperResult::Sat);
}

#[test]
fn only_what_an_event_enables_is_matched() {
    // Nothing is labelled 1, so the clause is not even looked at.
    let clauses = vec![clause(vec![is(1)], vec![is(2)])];
    let mut e = HyperEngine::new(&clauses, cls(0));
    assert_eq!(e.run(10), HyperResult::Sat);
    assert_eq!(e.stats().match_attempts, 0);
    let mut e = HyperEngine::new(&clauses, cls(1));
    assert_eq!(e.run(10), HyperResult::Sat);
    assert_eq!(e.stats().match_attempts, 1);
}

#[test]
fn a_merge_for_a_nominal_is_not_jumped_over() {
    // Individual 1 is 0 or in 1. If it is 0, the edge from 0 to 3 leads to a
    // clash at 3; else it does not.
    let clauses = vec![
        clause(vec![is(101)], vec![is(100), is(1)]),
        clause(vec![is(101)], vec![is(3)]),
        clause(vec![is(3), Atom::Role(role(0), X, 1)], vec![Atom::Class(cls(4), 1)]),
        clause(vec![is(103), is(4)], vec![]),
    ];
    let seed = AboxSeed {
        num_individuals: 4,
        nominal_base: 100,
        property_assertions: vec![(0, role(0), 3)],
        same_pairs: vec![],
    };
    let mut e = HyperEngine::new_seeded(&clauses, &seed).with_nominals(100, 4);
    assert_eq!(e.decide(16), HyperResult::Sat);
    // With nothing but 0 for 1 to be, there is no way out.
    let mut forced = clauses.clone();
    forced.push(clause(vec![is(1)], vec![]));
    let mut e = HyperEngine::new_seeded(&forced, &seed).with_nominals(100, 4);
    assert_eq!(e.decide(16), HyperResult::Unsat);
}

#[test]
fn an_edge_along_a_symmetric_role_leads_both_ways() {
    // `0 → ∃R.1`, and what has an `R`-neighbour is in 2.
    let clauses = vec![
        clause(vec![is(0)], vec![Atom::Exists(role(0), cls(1), X)]),
        clause(vec![Atom::Role(role(0), X, 1)], vec![is(2)]),
    ];
    let hierarchy = RoleHierarchy { sub_pairs: vec![], symmetric: vec![RoleId::new(0)] };
    let mut e = HyperEngine::new(&clauses, cls(0)).with_sub_roles(hierarchy);
    assert_eq!(e.decide(8), HyperResult::Sat);
    let snap = e.satisfiability_snapshot(cls(0)).expect("the seed is at the root");
    assert_eq!(snap.nodes()[0].labels, vec![cls(0), cls(2)]);
    assert_eq!(snap.nodes()[1].labels, vec![cls(1), cls(2)]);
    let mut e = HyperEngine::new(&clauses, cls(0));
    assert_eq!(e.decide(8), HyperResult::Sat);
    let snap = e.satisfiability_snapshot(cls(0)).expect("the seed is at the root");
    assert_eq!(snap.nodes()[1].labels, vec![cls(1)]);
}

#[test]
fn what_is_said_of_either_of_two_names_is_true_of_the_one_individual() {
    // 0 and 1 are the same, and an `R` leads from 1 to 2. What is in 3 passes
    // 4 on to where its `R`s lead.
    let clauses = vec![
        clause(vec![is(10)], vec![is(3)]),
        clause(vec![is(3), Atom::Role(role(0), X, 1)], vec![Atom::Class(cls(4), 1)]),
    ];
    let seed = AboxSeed {
        num_individuals: 3,
        nominal_base: 10,
        property_assertions: vec![(1, role(0), 2)],
        same_pairs: vec![(0, 1)],
    };
    for precise in [false, true] {
        let mut e = HyperEngine::new_seeded(&clauses, &seed).with_nominals(10, 3);
        if precise {
            e = e.with_precise_card_deps();
        }
        assert_eq!(e.decide(8), HyperResult::Sat);
        assert_eq!(e.seeded_individual_labels(0, 20), vec![3, 10, 11]);
        assert_eq!(e.seeded_individual_labels(1, 20), vec![3, 10, 11]);
        assert_eq!(e.seeded_individual_labels(2, 20), vec![4, 12]);
    }
}

#[test]
fn a_nominal_is_borne_by_one_node() {
    // Individual 0 turns out to be individual 1, and clauses on both names
    // fire at the one node.
    let clauses = vec![
        clause(vec![is(10)], vec![is(11)]),
        clause(vec![is(10), is(11)], vec![is(5)]),
        clause(vec![is(5), Atom::Role(role(0), X, 1)], vec![Atom::Class(cls(6), 1)]),
    ];
    let seed = AboxSeed {
        num_individuals: 3,
        nominal_base: 10,
        property_assertions: vec![(1, role(0), 2)],
        same_pairs: vec![],
    };
    let mut e = HyperEngine::new_seeded(&clauses, &seed).with_nominals(10, 3);
    assert_eq!(e.decide(8), HyperResult::Sat);
    assert_eq!(e.seeded_individual_labels(0, 20), vec![5, 10, 11]);
    assert_eq!(e.seeded_individual_labels(1, 20), vec![5, 10, 11]);
    assert_eq!(e.seeded_individual_labels(2, 20), vec![6, 12]);
}

/// Two merges for nominals in turn, of which only the second is forced.
fn two_merges_in_turn() -> Vec<DlClause> {
    vec![
        clause(vec![is(101)], vec![is(1)]),
        clause(vec![is(102)], vec![is(2)]),
        clause(vec![is(102)], vec![is(3)]),
        clause(vec![is(103)], vec![is(4)]),
        clause(vec![is(1)], vec![is(100), is(5)]),
        clause(vec![is(2)], vec![is(101), is(6)]),
        clause(vec![is(6)], vec![]),
        clause(vec![Atom::Role(role(0), X, 1), Atom::Class(cls(4), 1), is(3)], vec![is(7)]),
        clause(vec![is(7)], vec![Atom::Exists(role(1), cls(8), X)]),
        clause(vec![is(8)], vec![]),
    ]
}

#[test]
fn what_the_first_of_two_merges_rests_on_is_not_jumped_over() {
    // Individual 2 has to be 1. That 1 is 0 as well would lead to a clash at
    // a new node, along the edge from 0 to 3; it can be in 5 instead.
    let clauses = two_merges_in_turn();
    let seed = AboxSeed {
        num_individuals: 4,
        nominal_base: 100,
        property_assertions: vec![(0, role(0), 3)],
        same_pairs: vec![],
    };
    let mut e = HyperEngine::new_seeded(&clauses, &seed).with_nominals(100, 4);
    assert_eq!(e.decide(16), HyperResult::Sat);
    assert_eq!(e.seeded_individual_labels(1, 20), vec![1, 2, 3, 5]);
    assert_eq!(e.seeded_individual_labels(0, 20), Vec::<u32>::new());
    // With no other way for 1, there is none at all.
    let mut forced = two_merges_in_turn();
    forced.push(clause(vec![is(5)], vec![]));
    let mut e = HyperEngine::new_seeded(&forced, &seed).with_nominals(100, 4);
    assert_eq!(e.decide(16), HyperResult::Unsat);
}

#[test]
fn a_merged_away_node_is_named_for_what_the_merge_rests_on() {
    // Individuals 0 and 1 are the same, and 1 may be 2, from where an edge
    // leads to a clash at 3.
    let clauses = vec![
        clause(vec![is(101)], vec![is(102), is(1)]),
        clause(vec![is(101)], vec![is(3)]),
        clause(vec![is(3), Atom::Role(role(0), X, 1)], vec![Atom::Class(cls(4), 1)]),
        clause(vec![is(103), is(4)], vec![]),
    ];
    let seed = AboxSeed {
        num_individuals: 4,
        nominal_base: 100,
        property_assertions: vec![(2, role(0), 3)],
        same_pairs: vec![(0, 1)],
    };
    let mut e = HyperEngine::new_seeded(&clauses, &seed).with_nominals(100, 4);
    assert_eq!(e.decide(16), HyperResult::Sat);
    let mut forced = clauses.clone();
    forced.push(clause(vec![is(1)], vec![]));
    let mut e = HyperEngine::new_seeded(&forced, &seed).with_nominals(100, 4);
    assert_eq!(e.decide(16), HyperResult::Unsat);
}

#[test]
fn two_nominals_that_are_both_ruled_out_are_refuted() {
    // `0 → {a} ⊔ {b}`, and neither is possible.
    let mut clauses = vec![
        clause(vec![is(0)], vec![is(100), is(101)]),
        clause(vec![is(100)], vec![]),
        clause(vec![is(101)], vec![]),
    ];
    let verdict = |cs: &Vec<DlClause>| HyperEngine::new(cs, cls(0)).with_nominals(100, 2).decide(8);
    assert_eq!(verdict(&clauses), HyperResult::Unsat);
    clauses.pop();
    assert_eq!(verdict(&clauses), HyperResult::Sat);
}

#[test]
fn pairwise_blocking_is_about_predecessors_too() {
    // What has an `R`-predecessor in 0 is in 1, and what is in 0 has an
    // `R`-successor in 0.
    let back = Atom::Role(Role::Inverse(RoleId::new(0)), X, 1);
    let clauses = vec![
        clause(vec![is(0), back.clone()], vec![is(1)]),
        clause(vec![is(0)], vec![Atom::Exists(role(0), cls(0), X)]),
    ];
    let mut e = HyperEngine::new(&clauses, cls(0)).with_double_blocking();
    assert_eq!(e.decide(8), HyperResult::Sat);
    assert!(e.stats().blocks_fired > 0);
    let snap = e.satisfiability_snapshot(cls(0)).expect("the seed is at the root");
    assert_eq!(snap.nodes()[0].labels, vec![cls(0)]);
    assert_eq!(snap.nodes()[1].labels, vec![cls(0), cls(1)]);
    // Two steps on, 1 is ruled out: what has a predecessor in 1 is refuted.
    let mut refuted = clauses.clone();
    refuted.push(clause(vec![back, Atom::Class(cls(1), 1)], vec![is(2)]));
    refuted.push(clause(vec![is(2)], vec![]));
    let mut e = HyperEngine::new(&refuted, cls(0)).with_double_blocking();
    assert_eq!(e.decide(8), HyperResult::Unsat);
}
