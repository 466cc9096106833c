//! Hypertableau reasoning over description-logic clauses, and the
//! individual-level queries that are answered on top of it.

pub mod apply;
pub mod assurance;
pub mod block_index;
pub mod clause;
pub mod clock;
pub mod completion;
pub mod counting;
pub mod decide;
pub mod dep_set;
pub mod engine;
pub mod fixpoint;
pub mod gc;
pub mod generation;
pub mod graph;
pub mod horn_closure;
pub mod ids;
pub mod index;
pub mod invariants;
pub mod joining;
pub mod listening;
pub mod match_laws;
pub mod matching;
pub mod materialize;
pub mod measuring;
pub mod models;
pub mod node;
pub mod ontology;
pub mod queries;
pub mod readings;
pub mod realize;
pub mod realize_laws;
pub mod refutation;
pub mod replays;
pub mod rules;
pub mod rules_wf;
pub mod search;
pub mod seed;
pub mod semantics;
pub mod setup;
pub mod snapshot;
pub mod stalling;
pub mod standins;
pub mod told_laws;
pub mod truth;
pub mod truth_card;
pub mod truth_horn;
pub mod truth_merge;
pub mod truth_rules;
pub mod unfolding;
pub mod union_find;
pub mod util;
pub mod verdicts;
