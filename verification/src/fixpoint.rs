//! Horn saturation: events are processed, each firing the clauses that it
//! may enable, until none is left.

use vstd::prelude::*;
use crate::engine::HyperEngine;
use crate::gc::recorded;
use crate::graph::{
    event_valid, tick, work_wf, Config, Event, FireOutcome, Graph, HyperResult, SearchStats, State,
};
use crate::ids::{role_id_index, ClassId, HNode, Role};
use crate::index::{row, rows, rows_below};
use crate::matching::ends;
use crate::node::{find_label, sorted};
use crate::rules::{clause_fired, nominal_merged};
use crate::rules_wf::{
    advances, lemma_advances_trans, lemma_clause_fired, lemma_nominal_merged, lemma_work_push,
};
use crate::util::copy_vec;

verus! {

broadcast use vstd::std_specs::hash::group_hash_axioms;

/// Firing stops here.
pub open spec fn stops(o: FireOutcome) -> bool {
    o is Clash || o is Full
}

/// Fires the clauses `cis`, from `i` on, at node `n`.
pub open spec fn list_fired(k: Config, s: State, cis: Seq<usize>, i: int, n: HNode) -> (
    State,
    FireOutcome,
)
    decreases cis.len() - i,
{
    if i < 0 || i >= cis.len() {
        (s, FireOutcome::NoChange)
    } else {
        let (s1, o) = clause_fired(k, s, cis[i] as int, n);
        if stops(o) {
            (s1, o)
        } else {
            list_fired(k, s1, cis, i + 1, n)
        }
    }
}

/// Fires the clauses `cis` at each of the nodes `ns`, from `j` on.
pub open spec fn list_fired_at(k: Config, s: State, cis: Seq<usize>, ns: Seq<HNode>, j: int) -> (
    State,
    FireOutcome,
)
    decreases ns.len() - j,
{
    if j < 0 || j >= ns.len() {
        (s, FireOutcome::NoChange)
    } else {
        let (s1, o) = list_fired(k, s, cis, 0, ns[j]);
        if stops(o) {
            (s1, o)
        } else {
            list_fired_at(k, s1, cis, ns, j + 1)
        }
    }
}

/// The sources of the edges into `n`.
pub open spec fn sources(g: Graph, n: HNode) -> Seq<HNode> {
    ends(g.at(n).preds)
}

/// Node `n` gained class `c`: clauses with the class on the central variable
/// fire at `n`, those with it elsewhere at the predecessors of `n`.
pub open spec fn label_done(k: Config, s: State, n: HNode, c: ClassId) -> (State, FireOutcome) {
    let (s1, o1) = nominal_merged(k, s, n, c);
    if stops(o1) {
        (s1, o1)
    } else {
        let (s2, o2) = list_fired(k, s1, row(k.index.x, c.0 as int), 0, n);
        if stops(o2) {
            (s2, o2)
        } else {
            list_fired_at(k, s2, row(k.index.succ, c.0 as int), sources(s2.g, n), 0)
        }
    }
}

/// An edge was added: clauses with an atom on its role fire at its source;
/// those that it may be a further leg of, at the predecessors of the source;
/// those that walk it backwards, at its target.
pub open spec fn edge_done(k: Config, s: State, src: HNode, role: Role, tgt: HNode) -> (
    State,
    FireOutcome,
) {
    let key = role.id().0 as int;
    let (s1, o1) = list_fired(k, s, row(k.index.role, key), 0, src);
    if stops(o1) {
        (s1, o1)
    } else {
        let (s2, o2) = list_fired_at(k, s1, row(k.index.back, key), sources(s1.g, src), 0);
        if stops(o2) {
            (s2, o2)
        } else {
            list_fired(k, s2, row(k.index.inverse_first, key), 0, tgt)
        }
    }
}

/// Fires the clauses that an event may enable.
pub open spec fn event_done(k: Config, s: State, ev: Event) -> (State, FireOutcome) {
    match ev {
        Event::Label(n, c) => label_done(k, s, n, c),
        Event::Edge(src, role, tgt) => edge_done(k, s, src, role, tgt),
        Event::NodeNew(n) => list_fired(k, s, k.index.empty, 0, n),
    }
}

/// What label `c` at node `i` leads to is in the graph already: the node had
/// it when the snapshot was captured, and no added clause listens to it.
pub open spec fn replayed(k: Config, i: int, c: ClassId) -> bool {
    k.lazy matches Some(l) && i < l.captured.len() && l.captured[i].contains(c)
        && !l.triggers.contains(c.0)
}

/// The label events of node `i`, from label `j` on.
pub open spec fn label_events(k: Config, g: Graph, i: int, j: int, work: Seq<Event>) -> Seq<Event>
    decreases g.nodes[i].labels.len() - j,
{
    if j < 0 || j >= g.nodes[i].labels.len() {
        work
    } else {
        let c = g.nodes[i].labels[j];
        label_events(
            k,
            g,
            i,
            j + 1,
            if replayed(k, i, c) {
                work
            } else {
                work.push(Event::Label(HNode(i as u32), c))
            },
        )
    }
}

/// The edge events of node `i`, from edge `j` on.
pub open spec fn edge_events(g: Graph, i: int, j: int, work: Seq<Event>) -> Seq<Event>
    decreases g.nodes[i].edges.len() - j,
{
    if j < 0 || j >= g.nodes[i].edges.len() {
        work
    } else {
        let (r, t) = g.nodes[i].edges[j];
        edge_events(g, i, j + 1, work.push(Event::Edge(HNode(i as u32), r, t)))
    }
}

/// The events of the canonical nodes from `i` on: all that the graph holds.
pub open spec fn seeds_from(k: Config, g: Graph, i: int, work: Seq<Event>) -> Seq<Event>
    decreases g.nodes.len() - i,
{
    if i < 0 || i >= g.nodes.len() {
        work
    } else if g.root[i].at() != i {
        seeds_from(k, g, i + 1, work)
    } else {
        let w1 = if k.index.empty.len() > 0 {
            work.push(Event::NodeNew(HNode(i as u32)))
        } else {
            work
        };
        seeds_from(k, g, i + 1, edge_events(g, i, 0, label_events(k, g, i, 0, w1)))
    }
}

/// Processes events, last first, until none is left or `left` are done.
pub open spec fn drained(k: Config, s: State, left: nat) -> (State, HyperResult)
    decreases left,
{
    if s.work.len() == 0 {
        (State { gc: recorded(s.g, s.gc), ..s }, HyperResult::Sat)
    } else {
        let s1 = State { work: s.work.drop_last(), ..s };
        if left == 0 {
            (s1, HyperResult::Stalled)
        } else {
            let (s2, o) = event_done(k, s1, s.work.last());
            match o {
                FireOutcome::Clash => (s2, HyperResult::Unsat),
                FireOutcome::Full => (s2, HyperResult::Stalled),
                _ => drained(k, s2, (left - 1) as nat),
            }
        }
    }
}

/// The worklist made anew from the graph.
pub open spec fn reseeded(k: Config, s: State) -> State {
    State {
        work: seeds_from(k, s.g, 0, Seq::empty()),
        stats: SearchStats { fixpoint_passes: tick(s.stats.fixpoint_passes), ..s.stats },
        ..s
    }
}

/// Saturation under the Horn clauses.
pub open spec fn saturated(k: Config, s: State, max_iters: nat) -> (State, HyperResult) {
    drained(k, reseeded(k, s), max_iters)
}

/// All clauses listed are clauses.
pub open spec fn listed_below(cis: Seq<usize>, n: int) -> bool {
    forall|i: int| 0 <= i < cis.len() ==> #[trigger] cis[i] < n
}

pub proof fn lemma_row_below(table: Seq<Seq<usize>>, key: int, n: int)
    requires
        rows_below(table, n),
    ensures
        listed_below(row(table, key), n),
{
    assert forall|i: int| 0 <= i < row(table, key).len() implies #[trigger] row(table, key)[i] < n by {
        assert(table[key][i] < n);
    }
}

pub proof fn lemma_list_fired(k: Config, s: State, cis: Seq<usize>, i: int, n: HNode)
    requires
        s.wf(),
        s.g.valid(n),
        0 <= i,
    ensures
        advances(s, list_fired(k, s, cis, i, n).0),
    decreases cis.len() - i,
{
    if i < cis.len() {
        lemma_clause_fired(k, s, cis[i] as int, n);
        let s1 = clause_fired(k, s, cis[i] as int, n).0;
        lemma_list_fired(k, s1, cis, i + 1, n);
        lemma_advances_trans(s, s1, list_fired(k, s1, cis, i + 1, n).0);
    }
}

/// All of `ns` are nodes of the graph.
pub open spec fn nodes_valid(g: Graph, ns: Seq<HNode>) -> bool {
    forall|i: int| 0 <= i < ns.len() ==> g.valid(#[trigger] ns[i])
}

pub proof fn lemma_list_fired_at(k: Config, s: State, cis: Seq<usize>, ns: Seq<HNode>, j: int)
    requires
        s.wf(),
        nodes_valid(s.g, ns),
        0 <= j,
    ensures
        advances(s, list_fired_at(k, s, cis, ns, j).0),
    decreases ns.len() - j,
{
    if j < ns.len() {
        lemma_list_fired(k, s, cis, 0, ns[j]);
        let s1 = list_fired(k, s, cis, 0, ns[j]).0;
        assert forall|i: int| 0 <= i < ns.len() implies s1.g.valid(#[trigger] ns[i]) by {
            assert(s.g.valid(ns[i]));
        }
        lemma_list_fired_at(k, s1, cis, ns, j + 1);
        lemma_advances_trans(s, s1, list_fired_at(k, s1, cis, ns, j + 1).0);
    }
}

pub proof fn lemma_sources_valid(g: Graph, n: HNode)
    requires
        g.wf(),
        g.valid(n),
    ensures
        nodes_valid(g, sources(g, n)),
{
    assert(g.node_wf(g.nodes[n.at()], n.at()));
    let ns = sources(g, n);
    assert forall|i: int| 0 <= i < ns.len() implies g.valid(#[trigger] ns[i]) by {
        assert(g.valid(g.at(n).preds[i].1));
    }
}

pub proof fn lemma_label_done(k: Config, s: State, n: HNode, c: ClassId)
    requires
        s.wf(),
        s.g.valid(n),
    ensures
        advances(s, label_done(k, s, n, c).0),
{
    lemma_nominal_merged(k, s, n, c);
    let s1 = nominal_merged(k, s, n, c).0;
    let xs = row(k.index.x, c.0 as int);
    lemma_list_fired(k, s1, xs, 0, n);
    let s2 = list_fired(k, s1, xs, 0, n).0;
    let ss = row(k.index.succ, c.0 as int);
    lemma_sources_valid(s2.g, n);
    lemma_list_fired_at(k, s2, ss, sources(s2.g, n), 0);
    lemma_advances_trans(s, s1, s2);
    lemma_advances_trans(s, s2, list_fired_at(k, s2, ss, sources(s2.g, n), 0).0);
}

pub proof fn lemma_edge_done(k: Config, s: State, src: HNode, role: Role, tgt: HNode)
    requires
        s.wf(),
        s.g.valid(src),
        s.g.valid(tgt),
    ensures
        advances(s, edge_done(k, s, src, role, tgt).0),
{
    let key = role.id().0 as int;
    let rs = row(k.index.role, key);
    let bs = row(k.index.back, key);
    let is = row(k.index.inverse_first, key);
    lemma_list_fired(k, s, rs, 0, src);
    let s1 = list_fired(k, s, rs, 0, src).0;
    lemma_sources_valid(s1.g, src);
    lemma_list_fired_at(k, s1, bs, sources(s1.g, src), 0);
    let s2 = list_fired_at(k, s1, bs, sources(s1.g, src), 0).0;
    lemma_advances_trans(s, s1, s2);
    lemma_list_fired(k, s2, is, 0, tgt);
    lemma_advances_trans(s, s2, list_fired(k, s2, is, 0, tgt).0);
}

pub proof fn lemma_event_done(k: Config, s: State, ev: Event)
    requires
        s.wf(),
        event_valid(s.g, ev),
    ensures
        advances(s, event_done(k, s, ev).0),
{
    match ev {
        Event::Label(n, c) => lemma_label_done(k, s, n, c),
        Event::Edge(src, role, tgt) => lemma_edge_done(k, s, src, role, tgt),
        Event::NodeNew(n) => lemma_list_fired(k, s, k.index.empty, 0, n),
    }
}

pub proof fn lemma_drained(k: Config, s: State, left: nat)
    requires
        s.wf(),
    ensures
        advances(s, drained(k, s, left).0),
    decreases left,
{
    if s.work.len() > 0 && left > 0 {
        let s1 = State { work: s.work.drop_last(), ..s };
        assert(event_valid(s.g, s.work[s.work.len() - 1]));
        lemma_event_done(k, s1, s.work.last());
        let (s2, o) = event_done(k, s1, s.work.last());
        if !stops(o) {
            lemma_drained(k, s2, (left - 1) as nat);
            lemma_advances_trans(s, s2, drained(k, s2, (left - 1) as nat).0);
        }
    }
}

proof fn lemma_label_events(k: Config, g: Graph, i: int, j: int, work: Seq<Event>)
    requires
        g.wf(),
        0 <= i < g.nodes.len(),
        0 <= j,
        work_wf(g, work),
    ensures
        work_wf(g, label_events(k, g, i, j, work)),
    decreases g.nodes[i].labels.len() - j,
{
    if j < g.nodes[i].labels.len() {
        let c = g.nodes[i].labels[j];
        let e = Event::Label(HNode(i as u32), c);
        lemma_work_push(g, work, e);
        lemma_label_events(
            k,
            g,
            i,
            j + 1,
            if replayed(k, i, c) {
                work
            } else {
                work.push(e)
            },
        );
    }
}

proof fn lemma_edge_events(g: Graph, i: int, j: int, work: Seq<Event>)
    requires
        g.wf(),
        0 <= i < g.nodes.len(),
        0 <= j,
        work_wf(g, work),
    ensures
        work_wf(g, edge_events(g, i, j, work)),
    decreases g.nodes[i].edges.len() - j,
{
    if j < g.nodes[i].edges.len() {
        let (r, t) = g.nodes[i].edges[j];
        assert(g.node_wf(g.nodes[i], i));
        assert(g.valid(g.nodes[i].edges[j].1));
        let e = Event::Edge(HNode(i as u32), r, t);
        lemma_work_push(g, work, e);
        lemma_edge_events(g, i, j + 1, work.push(e));
    }
}

pub proof fn lemma_seeds(k: Config, g: Graph, i: int, work: Seq<Event>)
    requires
        g.wf(),
        0 <= i,
        work_wf(g, work),
    ensures
        work_wf(g, seeds_from(k, g, i, work)),
    decreases g.nodes.len() - i,
{
    if i < g.nodes.len() {
        if g.root[i].at() != i {
            lemma_seeds(k, g, i + 1, work);
        } else {
            let e = Event::NodeNew(HNode(i as u32));
            lemma_work_push(g, work, e);
            let w1 = if k.index.empty.len() > 0 {
                work.push(e)
            } else {
                work
            };
            lemma_label_events(k, g, i, 0, w1);
            lemma_edge_events(g, i, 0, label_events(k, g, i, 0, w1));
            lemma_seeds(k, g, i + 1, edge_events(g, i, 0, label_events(k, g, i, 0, w1)));
        }
    }
}

pub proof fn lemma_saturated(k: Config, s: State, max_iters: nat)
    requires
        s.wf(),
    ensures
        advances(s, saturated(k, s, max_iters).0),
{
    lemma_seeds(k, s.g, 0, Seq::empty());
    lemma_drained(k, reseeded(k, s), max_iters);
}

/// Which table of the indexes is meant.
#[derive(Clone, Copy)]
enum Table {
    X,
    Succ,
    AnyRole,
    Back,
    InverseFirst,
}

impl Table {
    spec fn of(self, k: Config) -> Seq<Seq<usize>> {
        match self {
            Table::X => k.index.x,
            Table::Succ => k.index.succ,
            Table::AnyRole => k.index.role,
            Table::Back => k.index.back,
            Table::InverseFirst => k.index.inverse_first,
        }
    }
}

/// The row under `key`, as far as the table goes.
fn row_copy(table: &Vec<Vec<usize>>, key: usize) -> (r: Vec<usize>)
    ensures
        r@ == row(rows(table@), key as int),
{
    if key < table.len() {
        assert(rows(table@)[key as int] == table@[key as int]@);
        copy_vec(&table[key])
    } else {
        Vec::new()
    }
}

impl<'c> HyperEngine<'c> {
    /// The clauses listed under `key` in a table.
    fn listed_clauses(&self, t: Table, key: usize) -> (r: Vec<usize>)
        requires
            self.wf(),
        ensures
            r@ == row(t.of(self.config()), key as int),
            forall|i: int| 0 <= i < r@.len() ==> #[trigger] r@[i] < self.config().clauses.len(),
    {
        let r = match t {
            Table::X => row_copy(&self.indexes.x_trigger, key),
            Table::Succ => row_copy(&self.indexes.succ_trigger, key),
            Table::AnyRole => row_copy(&self.indexes.role_trigger, key),
            Table::Back => row_copy(&self.indexes.role_back_trigger, key),
            Table::InverseFirst => row_copy(&self.indexes.inverse_first_trigger, key),
        };
        proof {
            let table = t.of(self.config());
            let n = self.config().clauses.len() as int;
            assert(rows_below(table, n));
            assert forall|i: int| 0 <= i < r@.len() implies #[trigger] r@[i] < n by {
                assert(table[key as int][i] < n);
            }
        }
        r
    }

    /// Fires the clauses `cis` at `n`, one after the other.
    fn fire_list(&mut self, cis: &Vec<usize>, n: HNode) -> (r: FireOutcome)
        requires
            old(self).wf(),
            old(self).graph().valid(n),
            forall|i: int|
                0 <= i < cis@.len() ==> #[trigger] cis@[i] < old(self).config().clauses.len(),
        ensures
            final(self).wf(),
            final(self).config() == old(self).config(),
            (final(self).state(), r) == list_fired(
                old(self).config(),
                old(self).state(),
                cis@,
                0,
                n,
            ),
            final(self).graph().nodes.len() >= old(self).graph().nodes.len(),
    {
        let ghost k = self.config();
        let ghost s0 = self.state();
        let ghost result = list_fired(k, s0, cis@, 0, n);
        proof {
            lemma_list_fired(k, s0, cis@, 0, n);
        }
        let mut i: usize = 0;
        while i < cis.len()
            invariant
                self.wf(),
                self.config() == k,
                k == old(self).config(),
                s0 == old(self).state(),
                result == list_fired(k, s0, cis@, 0, n),
                advances(s0, result.0),
                self.graph().valid(n),
                forall|i: int| 0 <= i < cis@.len() ==> #[trigger] cis@[i] < k.clauses.len(),
                i <= cis@.len(),
                result == list_fired(k, self.state(), cis@, i as int, n),
            decreases cis@.len() - i,
        {
            let ghost s = self.state();
            proof {
                lemma_clause_fired(k, s, cis@[i as int] as int, n);
            }
            match self.fire_clause(cis[i], n) {
                FireOutcome::Clash => {
                    return FireOutcome::Clash;
                },
                FireOutcome::Full => {
                    return FireOutcome::Full;
                },
                _ => {},
            }
            i += 1;
        }
        FireOutcome::NoChange
    }

    /// Fires the clauses `cis` at the predecessors of `n`.
    fn fire_list_at_sources(&mut self, cis: &Vec<usize>, n: HNode) -> (r: FireOutcome)
        requires
            old(self).wf(),
            old(self).graph().valid(n),
            forall|i: int|
                0 <= i < cis@.len() ==> #[trigger] cis@[i] < old(self).config().clauses.len(),
        ensures
            final(self).wf(),
            final(self).config() == old(self).config(),
            (final(self).state(), r) == list_fired_at(
                old(self).config(),
                old(self).state(),
                cis@,
                sources(old(self).graph(), n),
                0,
            ),
            final(self).graph().nodes.len() >= old(self).graph().nodes.len(),
    {
        let ghost k = self.config();
        let ghost s0 = self.state();
        let ghost ns = sources(s0.g, n);
        let ghost result = list_fired_at(k, s0, cis@, ns, 0);
        proof {
            lemma_sources_valid(s0.g, n);
            lemma_list_fired_at(k, s0, cis@, ns, 0);
            assert(s0.g.at(n) == self.nodes@[n.at()]@);
        }
        let preds = copy_vec(&self.nodes[n.index()].preds);
        assert(ends(preds@) == ns);
        let mut j: usize = 0;
        while j < preds.len()
            invariant
                self.wf(),
                self.config() == k,
                k == old(self).config(),
                s0 == old(self).state(),
                ns == sources(s0.g, n),
                ns == ends(preds@),
                result == list_fired_at(k, s0, cis@, ns, 0),
                advances(s0, result.0),
                nodes_valid(self.graph(), ns),
                forall|i: int| 0 <= i < cis@.len() ==> #[trigger] cis@[i] < k.clauses.len(),
                j <= preds@.len(),
                result == list_fired_at(k, self.state(), cis@, ns, j as int),
            decreases preds@.len() - j,
        {
            let ghost s = self.state();
            let p = preds[j].1;
            assert(ns[j as int] == p);
            let o = self.fire_list(cis, p);
            proof {
                assert forall|i: int| 0 <= i < ns.len() implies self.graph().valid(
                    #[trigger] ns[i],
                ) by {
                    assert(s.g.valid(ns[i]));
                }
            }
            match o {
                FireOutcome::Clash => {
                    return FireOutcome::Clash;
                },
                FireOutcome::Full => {
                    return FireOutcome::Full;
                },
                _ => {},
            }
            j += 1;
        }
        FireOutcome::NoChange
    }

    /// Fires the clauses that an event may enable. Each verifies its whole
    /// body, so firing one that is not enabled does nothing.
    fn process_event(&mut self, ev: Event) -> (r: FireOutcome)
        requires
            old(self).wf(),
            event_valid(old(self).graph(), ev),
        ensures
            final(self).wf(),
            final(self).config() == old(self).config(),
            (final(self).state(), r) == event_done(old(self).config(), old(self).state(), ev),
    {
        let ghost k = self.config();
        match ev {
            Event::Label(n, c) => {
                proof {
                    lemma_nominal_merged(k, self.state(), n, c);
                }
                let o = self.apply_nn_rule(n, c);
                if matches!(o, FireOutcome::Clash | FireOutcome::Full) {
                    return o;
                }
                let key = c.index() as usize;
                let xs = self.listed_clauses(Table::X, key);
                let o = self.fire_list(&xs, n);
                if matches!(o, FireOutcome::Clash | FireOutcome::Full) {
                    return o;
                }
                let ss = self.listed_clauses(Table::Succ, key);
                self.fire_list_at_sources(&ss, n)
            },
            Event::Edge(src, role, tgt) => {
                let key = role_id_index(role);
                let rs = self.listed_clauses(Table::AnyRole, key);
                let o = self.fire_list(&rs, src);
                if matches!(o, FireOutcome::Clash | FireOutcome::Full) {
                    return o;
                }
                let bs = self.listed_clauses(Table::Back, key);
                let o = self.fire_list_at_sources(&bs, src);
                if matches!(o, FireOutcome::Clash | FireOutcome::Full) {
                    return o;
                }
                let is = self.listed_clauses(Table::InverseFirst, key);
                self.fire_list(&is, tgt)
            },
            Event::NodeNew(n) => {
                let cis = copy_vec(&self.indexes.empty_body);
                assert forall|i: int| 0 <= i < cis@.len() implies #[trigger] cis@[i]
                    < k.clauses.len() by {
                    assert(k.index.empty[i] < k.clauses.len());
                }
                self.fire_list(&cis, n)
            },
        }
    }

    /// Whether the consequences of label `c` at node `idx` are known to be
    /// in the graph: see [`replayed`].
    fn is_replayed(&self, idx: usize, c: ClassId) -> (r: bool)
        requires
            self.wf(),
        ensures
            r == replayed(self.config(), idx as int, c),
    {
        match &self.lazy_replay_state {
            None => false,
            Some(lazy) => {
                if idx < lazy.pre_capture_labels.len() {
                    let ghost l = lazy@;
                    assert(l.captured[idx as int] == lazy.pre_capture_labels@[idx as int]@);
                    assert(l.captured.len() == lazy.pre_capture_labels@.len());
                    let ghost k = self.config();
                    assert(k.wf());
                    assert(k.lazy == Some(l));
                    assert(l.wf());
                    assert(sorted(l.captured[idx as int]));
                    let known = find_label(&lazy.pre_capture_labels[idx], c).0;
                    known && !lazy.new_trigger_atoms.contains(&c.index())
                } else {
                    false
                }
            },
        }
    }

    /// Makes the worklist anew from the graph.
    fn reseed(&mut self)
        requires
            old(self).wf(),
        ensures
            final(self).wf(),
            final(self).config() == old(self).config(),
            final(self).state() == (State {
                work: seeds_from(old(self).config(), old(self).graph(), 0, Seq::empty()),
                ..old(self).state()
            }),
    {
        let ghost k = self.config();
        let ghost g = self.graph();
        let ghost s0 = self.state();
        proof {
            lemma_seeds(k, g, 0, Seq::empty());
        }
        let mut work: Vec<Event> = Vec::new();
        let mut idx: usize = 0;
        while idx < self.nodes.len()
            invariant
                self.wf(),
                self.config() == k,
                self.graph() == g,
                idx <= self.nodes@.len(),
                seeds_from(k, g, 0, Seq::empty()) == seeds_from(k, g, idx as int, work@),
            decreases self.nodes@.len() - idx,
        {
            let n = HNode(idx as u32);
            assert(n.at() == idx);
            if self.resolve(n) == n {
                if self.indexes.empty_body.len() > 0 {
                    work.push(Event::NodeNew(n));
                }
                let labels = &self.nodes[idx].labels;
                assert(g.nodes[idx as int] == self.nodes@[idx as int]@);
                let ghost w1 = work@;
                let mut j: usize = 0;
                while j < labels.len()
                    invariant
                        self.wf(),
                        self.config() == k,
                        self.graph() == g,
                        n == HNode(idx as u32),
                        labels@ == g.nodes[idx as int].labels,
                        j <= labels@.len(),
                        label_events(k, g, idx as int, 0, w1) == label_events(
                            k,
                            g,
                            idx as int,
                            j as int,
                            work@,
                        ),
                    decreases labels@.len() - j,
                {
                    let c = labels[j];
                    if !self.is_replayed(idx, c) {
                        work.push(Event::Label(n, c));
                    }
                    j += 1;
                }
                let edges = &self.nodes[idx].edges;
                let ghost w2 = work@;
                let mut m: usize = 0;
                while m < edges.len()
                    invariant
                        n == HNode(idx as u32),
                        edges@ == g.nodes[idx as int].edges,
                        m <= edges@.len(),
                        edge_events(g, idx as int, 0, w2) == edge_events(
                            g,
                            idx as int,
                            m as int,
                            work@,
                        ),
                    decreases edges@.len() - m,
                {
                    let (r, t) = edges[m];
                    work.push(Event::Edge(n, r, t));
                    m += 1;
                }
            }
            idx += 1;
        }
        self.worklist = work;
    }

    /// Saturates under the Horn clauses: makes the worklist anew and then
    /// processes events, at most `max_iters` of them.
    pub(crate) fn horn_fixpoint(&mut self, max_iters: usize) -> (r: HyperResult)
        requires
            old(self).wf(),
        ensures
            final(self).wf(),
            final(self).config() == old(self).config(),
            (final(self).state(), r) == saturated(
                old(self).config(),
                old(self).state(),
                max_iters as nat,
            ),
    {
        let ghost k = self.config();
        self.stats.fixpoint_passes = tick(self.stats.fixpoint_passes);
        self.reseed();
        let ghost result = drained(k, self.state(), max_iters as nat);
        assert(result == saturated(k, old(self).state(), max_iters as nat));
        let mut left: usize = max_iters;
        loop
            invariant
                self.wf(),
                self.config() == k,
                k == old(self).config(),
                result == saturated(k, old(self).state(), max_iters as nat),
                result == drained(k, self.state(), left as nat),
            decreases left,
        {
            let ghost s = self.state();
            match self.worklist.pop() {
                None => {
                    self.gc_measure_record();
                    return HyperResult::Sat;
                },
                Some(ev) => {
                    assert(self.worklist@ == s.work.drop_last());
                    assert(event_valid(s.g, s.work[s.work.len() - 1]));
                    if left == 0 {
                        return HyperResult::Stalled;
                    }
                    match self.process_event(ev) {
                        FireOutcome::Clash => {
                            return HyperResult::Unsat;
                        },
                        FireOutcome::Full => {
                            return HyperResult::Stalled;
                        },
                        _ => {},
                    }
                },
            }
            left -= 1;
        }
    }

    /// Records this completion in the measurement window, if there is one.
    fn gc_measure_record(&mut self)
        requires
            old(self).wf(),
        ensures
            final(self).wf(),
            final(self).config() == old(self).config(),
            final(self).state() == (State {
                gc: recorded(old(self).graph(), old(self).state().gc),
                ..old(self).state()
            }),
    {
        let ghost g = self.graph();
        if let Some(w) = &mut self.gc {
            w.record(&self.nodes, &self.representative, Ghost(g));
        }
    }

    /// Runs Horn hyperresolution to its fixpoint, processing at most
    /// `max_iters` events. Clauses with several head atoms are left out;
    /// see [`Self::decide`].
    #[must_use]
    pub fn run(&mut self, max_iters: usize) -> (r: HyperResult)
        requires
            old(self).wf(),
        ensures
            final(self).wf(),
            final(self).config() == old(self).config(),
            ({
                let (s, v) = saturated(old(self).config(), old(self).state(), max_iters as nat);
                r == v && final(self).state() == (State { verdict: Some(v), ..s })
            }),
    {
        let r = self.horn_fixpoint(max_iters);
        self.verdict = Some(r);
        r
    }
}

} // verus!
