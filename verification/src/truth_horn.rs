//! Saturation keeps a true graph true, and clashes only where something that
//! the clash rests on is not.

use vstd::prelude::*;
use crate::clause::Var;
use crate::fixpoint::{
    drained, event_done, lemma_event_done, lemma_list_fired, lemma_list_fired_at, lemma_row_below,
    lemma_seeds, lemma_sources_valid, list_fired, list_fired_at, listed_below, nodes_valid,
    reseeded, saturated, sources, stops,
};
use crate::graph::{event_valid, tick, Config, Event, HyperResult, SearchStats, State};
use crate::ids::HNode;
use crate::index::row;
use crate::match_laws::{body_holds, lemma_body_holds_grows, lemma_matches_sound};
use crate::matching::{binding_valid, matches_of};
use crate::queries::body_deps;
use crate::rules::{bindings_fired, clause_fired, head_fired, nominal_merged};
use crate::rules_wf::{
    all_valid, lemma_all_valid_grows, lemma_clause_fired, lemma_head_fired, lemma_matches_valid,
    lemma_nominal_merged,
};
use crate::truth::{true_in, World};
use crate::truth_merge::lemma_true_nominal;
use crate::truth_rules::{consistent, lemma_true_head, refuted, stays_true};

verus! {

/// Merges for nominals tell what they rest on, or there are none that rest on
/// a false decision: there are no nominals, or no false decisions.
pub open spec fn calm<D>(w: World<D>, k: Config) -> bool {
    &&& w.buried is None
    &&& k.nominals is None || !k.nn_taint_disabled || w.full()
}

proof fn lemma_true_bindings<D>(
    w: World<D>,
    k: Config,
    s: State,
    ci: int,
    x: HNode,
    bs: Seq<Seq<(Var, HNode)>>,
    i: int,
    changed: bool,
)
    requires
        s.wf(),
        s.g.valid(x),
        0 <= i,
        all_valid(bs, s.g.nodes.len() as int),
        0 <= ci < k.clauses.len(),
        k.clauses[ci].horn(),
        forall|j: int|
            0 <= j < bs.len() ==> body_holds(
                s.g.nodes,
                k.roles,
                k.clauses[ci].body,
                x,
                #[trigger] bs[j],
            ),
        consistent(w, s.g),
        w.buried is None,
        w.i.models(k),
    ensures
        stays_true(w, bindings_fired(k, s, ci, x, bs, i, changed)),
    decreases bs.len() - i,
{
    if i < bs.len() {
        let h = choose|h: Seq<D>| true_in(w, s.g, h);
        let cl = k.clauses[ci];
        assert(binding_valid(bs[i], s.g.nodes.len() as int));
        lemma_true_head(w, k, s, h, ci, x, bs[i]);
        let d = body_deps(s.g, cl.body, x, bs[i]);
        lemma_head_fired(k, s, cl.head, x, bs[i], d);
        let (s1, o) = head_fired(k, s, cl.head, x, bs[i], d);
        lemma_all_valid_grows(bs, s.g.nodes.len() as int, s1.g.nodes.len() as int);
        assert forall|j: int| 0 <= j < bs.len() implies body_holds(
            s1.g.nodes,
            k.roles,
            cl.body,
            x,
            #[trigger] bs[j],
        ) by {
            assert(binding_valid(bs[j], s.g.nodes.len() as int));
            lemma_body_holds_grows(s.g, s1.g, k.roles, cl.body, x, bs[j]);
        }
        if o is Changed {
            lemma_true_bindings(w, k, s1, ci, x, bs, i + 1, true);
        } else if o is NoChange {
            lemma_true_bindings(w, k, s1, ci, x, bs, i + 1, changed);
        }
    }
}

pub proof fn lemma_true_clause<D>(w: World<D>, k: Config, s: State, ci: int, x: HNode)
    requires
        k.wf(),
        s.wf(),
        s.g.valid(x),
        0 <= ci < k.clauses.len(),
        consistent(w, s.g),
        w.buried is None,
        w.i.models(k),
    ensures
        stays_true(w, clause_fired(k, s, ci, x)),
{
    if k.clauses[ci].horn() {
        let s1 = State {
            stats: SearchStats { match_attempts: tick(s.stats.match_attempts), ..s.stats },
            ..s
        };
        let body = k.clauses[ci].body;
        lemma_matches_valid(s1.g, k.roles, body, x);
        if let Some(bs) = matches_of(s1.g.nodes, k.roles, body, x) {
            assert forall|j: int| 0 <= j < bs.len() implies body_holds(
                s1.g.nodes,
                k.roles,
                body,
                x,
                #[trigger] bs[j],
            ) by {
                assert(bs.contains(bs[j]));
                lemma_matches_sound(s1.g.nodes, k.roles, body, x, bs[j]);
            }
            lemma_true_bindings(w, k, s1, ci, x, bs, 0, false);
        }
    }
}

pub proof fn lemma_true_list<D>(w: World<D>, k: Config, s: State, cis: Seq<usize>, i: int, n: HNode)
    requires
        k.wf(),
        s.wf(),
        s.g.valid(n),
        0 <= i,
        listed_below(cis, k.clauses.len() as int),
        consistent(w, s.g),
        w.buried is None,
        w.i.models(k),
    ensures
        stays_true(w, list_fired(k, s, cis, i, n)),
    decreases cis.len() - i,
{
    if i < cis.len() {
        lemma_true_clause(w, k, s, cis[i] as int, n);
        lemma_clause_fired(k, s, cis[i] as int, n);
        let (s1, o) = clause_fired(k, s, cis[i] as int, n);
        if !stops(o) {
            lemma_true_list(w, k, s1, cis, i + 1, n);
        }
    }
}

pub proof fn lemma_true_list_at<D>(
    w: World<D>,
    k: Config,
    s: State,
    cis: Seq<usize>,
    ns: Seq<HNode>,
    j: int,
)
    requires
        k.wf(),
        s.wf(),
        nodes_valid(s.g, ns),
        0 <= j,
        listed_below(cis, k.clauses.len() as int),
        consistent(w, s.g),
        w.buried is None,
        w.i.models(k),
    ensures
        stays_true(w, list_fired_at(k, s, cis, ns, j)),
    decreases ns.len() - j,
{
    if j < ns.len() {
        lemma_true_list(w, k, s, cis, 0, ns[j]);
        lemma_list_fired(k, s, cis, 0, ns[j]);
        let (s1, o) = list_fired(k, s, cis, 0, ns[j]);
        if !stops(o) {
            assert forall|i: int| 0 <= i < ns.len() implies s1.g.valid(#[trigger] ns[i]) by {
                assert(s.g.valid(ns[i]));
            }
            lemma_true_list_at(w, k, s1, cis, ns, j + 1);
        }
    }
}

pub proof fn lemma_true_event<D>(w: World<D>, k: Config, s: State, ev: Event)
    requires
        calm(w, k),
        k.wf(),
        s.wf(),
        event_valid(s.g, ev),
        consistent(w, s.g),
        w.i.models(k),
    ensures
        stays_true(w, event_done(k, s, ev)),
{
    let n0 = k.clauses.len() as int;
    match ev {
        Event::Label(n, c) => {
            let key = c.0 as int;
            lemma_row_below(k.index.x, key, n0);
            lemma_row_below(k.index.succ, key, n0);
            let h = choose|h: Seq<D>| true_in(w, s.g, h);
            lemma_true_nominal(w, k, s, h, n, c);
            lemma_nominal_merged(k, s, n, c);
            let (s1, o1) = nominal_merged(k, s, n, c);
            assert(true_in(w, s1.g, h));
            assert(consistent(w, s1.g));
            if !stops(o1) {
                let xs = row(k.index.x, key);
                lemma_true_list(w, k, s1, xs, 0, n);
                lemma_list_fired(k, s1, xs, 0, n);
                let (s2, o2) = list_fired(k, s1, xs, 0, n);
                if !stops(o2) {
                    lemma_sources_valid(s2.g, n);
                    lemma_true_list_at(w, k, s2, row(k.index.succ, key), sources(s2.g, n), 0);
                }
            }
        },
        Event::Edge(src, role, tgt) => {
            let key = role.id().0 as int;
            lemma_row_below(k.index.role, key, n0);
            lemma_row_below(k.index.back, key, n0);
            lemma_row_below(k.index.inverse_first, key, n0);
            let rs = row(k.index.role, key);
            lemma_true_list(w, k, s, rs, 0, src);
            lemma_list_fired(k, s, rs, 0, src);
            let (s1, o1) = list_fired(k, s, rs, 0, src);
            if !stops(o1) {
                let bs = row(k.index.back, key);
                lemma_sources_valid(s1.g, src);
                lemma_true_list_at(w, k, s1, bs, sources(s1.g, src), 0);
                lemma_list_fired_at(k, s1, bs, sources(s1.g, src), 0);
                let (s2, o2) = list_fired_at(k, s1, bs, sources(s1.g, src), 0);
                if !stops(o2) {
                    lemma_true_list(w, k, s2, row(k.index.inverse_first, key), 0, tgt);
                }
            }
        },
        Event::NodeNew(n) => {
            assert forall|i: int| 0 <= i < k.index.empty.len() implies #[trigger] k.index.empty[i]
                < n0 by {}
            lemma_true_list(w, k, s, k.index.empty, 0, n);
        },
    }
}

/// What came of saturation: the graph is still true, unless it clashed, and
/// a clash is refuted.
pub open spec fn saturation_true<D>(w: World<D>, out: (State, HyperResult)) -> bool {
    &&& consistent(w, out.0.g)
    &&& out.1 is Unsat ==> refuted(w, out.0.clash)
}

pub proof fn lemma_true_drained<D>(w: World<D>, k: Config, s: State, left: nat)
    requires
        calm(w, k),
        k.wf(),
        s.wf(),
        consistent(w, s.g),
        w.i.models(k),
    ensures
        saturation_true(w, drained(k, s, left)),
    decreases left,
{
    if s.work.len() > 0 && left > 0 {
        let s1 = State { work: s.work.drop_last(), ..s };
        let ev = s.work.last();
        assert(event_valid(s.g, s.work[s.work.len() - 1]));
        lemma_true_event(w, k, s1, ev);
        lemma_event_done(k, s1, ev);
        let (s2, o) = event_done(k, s1, ev);
        if !stops(o) {
            lemma_true_drained(w, k, s2, (left - 1) as nat);
        }
    }
}

pub proof fn lemma_true_saturated<D>(w: World<D>, k: Config, s: State, max_iters: nat)
    requires
        calm(w, k),
        k.wf(),
        s.wf(),
        consistent(w, s.g),
        w.i.models(k),
    ensures
        saturation_true(w, saturated(k, s, max_iters)),
{
    lemma_seeds(k, s.g, 0, Seq::empty());
    lemma_true_drained(w, k, reseeded(k, s), max_iters);
}

} // verus!
