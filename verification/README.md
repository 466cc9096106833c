# hyperdl

A hypertableau engine for description-logic clauses, and the questions about
individuals that are answered on top of it, written and verified in Verus.

## Layout

- `src/`, the verified library:
  - what the engine works on: `ids`, `dep_set`, `clause`, `index`, `node`,
    `union_find`, `block_index`, `graph`;
  - the calculus, as functions on search states: `matching`, `queries`,
    `rules`, `fixpoint`, `search`;
  - the engine that carries it out: `engine`, `setup`, `seed`, `snapshot`,
    `apply`, `decide`, `gc`, `clock`;
  - what clauses mean: `semantics`;
  - questions about individuals: `ontology`, `realize`, `materialize`;
  - what is proved of all this, below.
- `tests/`, ordinary tests of the library.
- `app/`, what surrounds it: reading ontologies, running probes side by side,
  and the measurement window that searches share.

## What is proved

Each function of the engine is proved to make exactly the step that the
calculus prescribes. Of the calculus itself:

- `Unsat` is right: no model of the clauses is pictured by the graph that the
  search began with, nor satisfies the seeded assertions (`verdicts`, on top
  of `truth*` and `refutation`). This is for all clauses, with nominals and
  bounds on successors.
- Saturation reaches a fixpoint: a clause fires wherever its body comes to
  hold by facts that it listens to (`horn_closure`, `unfolding`), which is
  wherever its body holds if it is attentive (`listening`). Nodes that bear the
  same nominal are merged, and merging passes labels and edges on (`joining`).
  Every step of it keeps the graph in order (`invariants`).
- `Sat` leaves nothing open (`completion`). A completion in which no node was
  blocked, no clause is left that could fire, and the edges to merged nodes are
  doubled is a model of the clauses, the nominals and the assertions
  (`models`). One in which nodes were blocked is a model too, for clauses about
  a node and its successors, where another node can stand in for each that
  lacks some; with pairwise blocking the clauses may be about its predecessors
  as well (`standins`).
- A snapshot that is replayed lazily ends up closed under the added clauses as
  well, if their body classes are the triggers (`replays`).
- So two searches on the same class or the same assertions do not contradict
  each other, where the one's `Sat` and the other's `Unsat` are of these kinds.
- Without a deadline the outcome of a search is determined (`completion`).
- Matching supports exactly the bodies that are trees, and finds exactly the
  bindings under which they hold (`match_laws`).
- The counters add up (`counting`), and measuring changes nothing
  (`measuring`).
- Told types are entailed and are among the types that realization finds,
  types and instances agree with the instance check, limits on time lose types
  and add none, and most specific types are those with no strictly smaller
  type below them (`realize_laws`).

The only things taken on trust are the two calls to the wall clock in `clock`,
of which nothing is claimed.
