//! What is read off a clause set once, before the search: the trigger
//! indexes and the pairs of disjoint classes.

use std::collections::HashSet;
use vstd::prelude::*;
use crate::clause::{
    clause_views, hierarchy_view, Atom, ClauseView, DlClause, HierarchyView, RoleHierarchy, X,
};
use crate::ids::{role_id_index, ClassId};

verus! {

broadcast use vstd::std_specs::hash::group_hash_axioms;

/// Which derivation a table of [`ClauseIndexes`] listens to.
pub enum Trigger {
    /// A class gained at the clause's own node.
    XClass,
    /// A class gained at a successor.
    SuccClass,
    /// An edge gained.
    AnyRole,
    /// An edge gained that is not the first leg of the body.
    BackRole,
    /// An edge gained whose target may be the clause's own node.
    InverseFirst,
}

/// Whether body atom `atom` makes its clause listen under `key`.
pub open spec fn listens(t: Trigger, atom: Atom, key: int, sym: Option<HierarchyView>) -> bool {
    match t {
        Trigger::XClass => atom matches Atom::Class(c, v) && v == X && c.0 == key,
        Trigger::SuccClass => atom matches Atom::Class(c, v) && v != X && c.0 == key,
        Trigger::AnyRole => atom matches Atom::Role(r, u, v) && r.id().0 == key,
        Trigger::BackRole => atom matches Atom::Role(r, u, v) && u != X && r.id().0 == key,
        Trigger::InverseFirst => {
            &&& atom matches Atom::Role(r, u, v)
            &&& u == X && r.id().0 == key
            &&& r is Inverse || (sym matches Some(h) && h.sym(r.id()))
        },
    }
}

/// Whether one of the first `n` body atoms makes the Horn clause `cl` listen
/// under `key`.
pub open spec fn clause_listens(
    t: Trigger,
    cl: ClauseView,
    n: int,
    key: int,
    sym: Option<HierarchyView>,
) -> bool {
    cl.horn() && exists|i: int| 0 <= i < n && #[trigger] listens(t, cl.body[i], key, sym)
}

/// The clauses listed under `key`.
pub open spec fn row(table: Seq<Seq<usize>>, key: int) -> Seq<usize> {
    if 0 <= key < table.len() {
        table[key]
    } else {
        Seq::empty()
    }
}

pub open spec fn increasing(s: Seq<usize>) -> bool {
    forall|i: int, j: int| 0 <= i < j < s.len() ==> s[i] < s[j]
}

/// The table after the first `ci` clauses and `ai` atoms of the next one:
/// each row lists, in increasing order, exactly the clauses that listen
/// there, and the table is as short as its contents allow.
pub open spec fn table_after(
    table: Seq<Seq<usize>>,
    clauses: Seq<ClauseView>,
    t: Trigger,
    sym: Option<HierarchyView>,
    ci: int,
    ai: int,
) -> bool {
    &&& table.len() > 0 ==> table.last().len() > 0
    &&& forall|key: int| increasing(#[trigger] row(table, key))
    &&& forall|key: int, c: usize| #[trigger]
        row(table, key).contains(c) <==> {
            ||| c < ci && clause_listens(t, clauses[c as int], clauses[c as int].body.len() as int, key, sym)
            ||| c == ci && ai > 0 && clause_listens(t, clauses[c as int], ai, key, sym)
        }
}

/// The table of the whole clause set.
pub open spec fn table_of(
    table: Seq<Seq<usize>>,
    clauses: Seq<ClauseView>,
    t: Trigger,
    sym: Option<HierarchyView>,
) -> bool {
    table_after(table, clauses, t, sym, clauses.len() as int, 0)
}

/// The list of the Horn clauses without a body, among the first `ci`.
pub open spec fn empty_after(list: Seq<usize>, clauses: Seq<ClauseView>, ci: int) -> bool {
    &&& increasing(list)
    &&& forall|c: usize| #[trigger]
        list.contains(c) <==> c < ci && clauses[c as int].horn() && clauses[c as int].body.len() == 0
}

/// Which clauses a derivation may newly enable. Each Horn clause is listed
/// under every atom of its body.
#[derive(Debug)]
pub struct ClauseIndexes {
    /// By class: clauses with that class on the central variable.
    pub x_trigger: Vec<Vec<usize>>,
    /// By class: clauses with that class on another variable.
    pub succ_trigger: Vec<Vec<usize>>,
    /// By role: clauses with a role atom on it.
    pub role_trigger: Vec<Vec<usize>>,
    /// By role: clauses with a role atom on it that leaves another variable
    /// than the central one.
    pub role_back_trigger: Vec<Vec<usize>>,
    /// By role: clauses with a role atom on it that leaves the central
    /// variable and that an incoming edge can satisfy.
    pub inverse_first_trigger: Vec<Vec<usize>>,
    /// Clauses without a body.
    pub empty_body: Vec<usize>,
}

/// What the indexes hold.
#[verifier::ext_equal]
pub struct IndexesView {
    pub x: Seq<Seq<usize>>,
    pub succ: Seq<Seq<usize>>,
    pub role: Seq<Seq<usize>>,
    pub back: Seq<Seq<usize>>,
    pub inverse_first: Seq<Seq<usize>>,
    pub empty: Seq<usize>,
}

/// The rows of a table.
pub open spec fn rows(table: Seq<Vec<usize>>) -> Seq<Seq<usize>> {
    table.map_values(|r: Vec<usize>| r@)
}

pub open spec fn rows_below(table: Seq<Seq<usize>>, n: int) -> bool {
    forall|key: int, i: int|
        0 <= key < table.len() && 0 <= i < table[key].len() ==> #[trigger] table[key][i] < n
}

impl IndexesView {
    /// Only the first `n` clauses are listed.
    pub open spec fn below(self, n: int) -> bool {
        &&& rows_below(self.x, n)
        &&& rows_below(self.succ, n)
        &&& rows_below(self.role, n)
        &&& rows_below(self.back, n)
        &&& rows_below(self.inverse_first, n)
        &&& forall|i: int| 0 <= i < self.empty.len() ==> #[trigger] self.empty[i] < n
    }

    /// The indexes of `clauses`.
    pub open spec fn of(self, clauses: Seq<ClauseView>, sym: Option<HierarchyView>) -> bool {
        &&& table_of(self.x, clauses, Trigger::XClass, sym)
        &&& table_of(self.succ, clauses, Trigger::SuccClass, sym)
        &&& table_of(self.role, clauses, Trigger::AnyRole, sym)
        &&& table_of(self.back, clauses, Trigger::BackRole, sym)
        &&& table_of(self.inverse_first, clauses, Trigger::InverseFirst, sym)
        &&& empty_after(self.empty, clauses, clauses.len() as int)
    }
}

impl View for ClauseIndexes {
    type V = IndexesView;

    open(crate) spec fn view(&self) -> IndexesView {
        IndexesView {
            x: rows(self.x_trigger@),
            succ: rows(self.succ_trigger@),
            role: rows(self.role_trigger@),
            back: rows(self.role_back_trigger@),
            inverse_first: rows(self.inverse_first_trigger@),
            empty: self.empty_body@,
        }
    }
}

/// The indexes of a clause set list clauses of the set.
pub proof fn lemma_indexes_below(ix: IndexesView, clauses: Seq<ClauseView>, sym: Option<HierarchyView>)
    requires
        ix.of(clauses, sym),
        clauses.len() <= usize::MAX,
    ensures
        ix.below(clauses.len() as int),
{
    let n = clauses.len() as int;
    lemma_rows_below(ix.x, clauses, Trigger::XClass, sym);
    lemma_rows_below(ix.succ, clauses, Trigger::SuccClass, sym);
    lemma_rows_below(ix.role, clauses, Trigger::AnyRole, sym);
    lemma_rows_below(ix.back, clauses, Trigger::BackRole, sym);
    lemma_rows_below(ix.inverse_first, clauses, Trigger::InverseFirst, sym);
    assert forall|i: int| 0 <= i < ix.empty.len() implies #[trigger] ix.empty[i] < n by {
        assert(ix.empty.contains(ix.empty[i]));
    }
}

proof fn lemma_rows_below(
    table: Seq<Seq<usize>>,
    clauses: Seq<ClauseView>,
    t: Trigger,
    sym: Option<HierarchyView>,
)
    requires
        table_of(table, clauses, t, sym),
    ensures
        rows_below(table, clauses.len() as int),
{
    let n = clauses.len() as int;
    assert forall|key: int, i: int|
        0 <= key < table.len() && 0 <= i < table[key].len() implies #[trigger] table[key][i] < n by {
        assert(row(table, key).contains(table[key][i]));
    }
}

/// A row with `ci` listed once more, unless it is the last one already.
pub open spec fn listed(r: Seq<usize>, ci: usize) -> Seq<usize> {
    if r.len() > 0 && r.last() == ci {
        r
    } else {
        r.push(ci)
    }
}

fn push_trigger(v: &mut Vec<Vec<usize>>, key: usize, ci: usize)
    requires
        rows(old(v)@).len() > 0 ==> rows(old(v)@).last().len() > 0,
    ensures
        rows(final(v)@).len() > 0 ==> rows(final(v)@).last().len() > 0,
        forall|k: int| #[trigger]
            row(rows(final(v)@), k) == if k == key {
                listed(row(rows(old(v)@), k), ci)
            } else {
                row(rows(old(v)@), k)
            },
{
    let ghost before = rows(v@);
    while v.len() <= key
        invariant
            before == rows(old(v)@),
            before.len() <= v@.len(),
            v@.len() <= before.len() || v@.len() <= key + 1,
            forall|k: int| #[trigger] row(rows(v@), k) == row(before, k),
        decreases key + 1 - v@.len(),
    {
        let ghost mid = rows(v@);
        let e: Vec<usize> = Vec::new();
        v.push(e);
        assert forall|k: int| #[trigger] row(rows(v@), k) == row(before, k) by {
            assert(row(mid, k) == row(before, k));
            if k == mid.len() {
                assert(rows(v@)[k] =~= Seq::<usize>::empty());
            }
        }
    }
    let ghost mid = rows(v@);
    let n = v[key].len();
    if n == 0 || v[key][n - 1] != ci {
        v[key].push(ci);
    }
    assert(rows(v@) =~= mid.update(key as int, listed(mid[key as int], ci)));
    assert forall|k: int| #[trigger]
        row(rows(v@), k) == if k == key {
            listed(row(before, k), ci)
        } else {
            row(before, k)
        } by {
        assert(row(mid, k) == row(before, k));
    }
    assert(rows(v@).last() == row(rows(v@), v@.len() - 1));
    assert(before.len() > 0 ==> before.last() == row(before, before.len() - 1));
}

/// Processing an atom that makes its clause listen under `key0`.
proof fn lemma_atom_listens(
    t0: Seq<Seq<usize>>,
    t1: Seq<Seq<usize>>,
    clauses: Seq<ClauseView>,
    t: Trigger,
    sym: Option<HierarchyView>,
    ci: usize,
    ai: int,
    key0: int,
)
    requires
        ci < clauses.len(),
        clauses[ci as int].horn(),
        0 <= ai < clauses[ci as int].body.len(),
        table_after(t0, clauses, t, sym, ci as int, ai),
        t1.len() > 0 ==> t1.last().len() > 0,
        listens(t, clauses[ci as int].body[ai], key0, sym),
        forall|k: int| listens(t, clauses[ci as int].body[ai], k, sym) ==> k == key0,
        forall|k: int| #[trigger]
            row(t1, k) == if k == key0 {
                listed(row(t0, k), ci)
            } else {
                row(t0, k)
            },
    ensures
        table_after(t1, clauses, t, sym, ci as int, ai + 1),
{
    let cl = clauses[ci as int];
    assert forall|key: int| increasing(#[trigger] row(t1, key)) by {
        let r0 = row(t0, key);
        assert(increasing(r0));
        if key == key0 && row(t1, key) != r0 {
            assert forall|i: int| 0 <= i < r0.len() implies r0[i] < ci by {
                assert(r0.contains(r0[i]));
                if r0[i] == ci && i < r0.len() - 1 {
                    assert(r0[i] < r0[r0.len() - 1]);
                    assert(r0.contains(r0[r0.len() - 1]));
                }
            }
        }
    }
    assert forall|key: int, c: usize| #[trigger]
        row(t1, key).contains(c) <==> {
            ||| c < ci && clause_listens(t, clauses[c as int], clauses[c as int].body.len() as int, key, sym)
            ||| c == ci && ai + 1 > 0 && clause_listens(t, clauses[c as int], ai + 1, key, sym)
        } by {
        let r0 = row(t0, key);
        let r1 = row(t1, key);
        assert(r0.contains(c) <==> {
            ||| c < ci && clause_listens(t, clauses[c as int], clauses[c as int].body.len() as int, key, sym)
            ||| c == ci && ai > 0 && clause_listens(t, clauses[c as int], ai, key, sym)
        });
        if key == key0 {
            if r1 != r0 {
                assert(r1 == r0.push(ci));
                if r0.contains(c) {
                    let k = choose|k: int| 0 <= k < r0.len() && r0[k] == c;
                    assert(r1[k] == c);
                }
                assert(r1[r0.len() as int] == ci);
            } else {
                assert(r0[r0.len() - 1] == ci);
            }
            if c == ci {
                assert(listens(t, cl.body[ai], key, sym));
            }
        } else if c == ci {
            if clause_listens(t, cl, ai + 1, key, sym) {
                let i = choose|i: int| 0 <= i < ai + 1 && #[trigger] listens(t, cl.body[i], key, sym);
                assert(i != ai);
            }
        }
    }
}

/// Processing an atom that makes its clause listen nowhere.
proof fn lemma_atom_silent(
    t0: Seq<Seq<usize>>,
    clauses: Seq<ClauseView>,
    t: Trigger,
    sym: Option<HierarchyView>,
    ci: usize,
    ai: int,
)
    requires
        ci < clauses.len(),
        0 <= ai < clauses[ci as int].body.len(),
        table_after(t0, clauses, t, sym, ci as int, ai),
        forall|k: int| !listens(t, clauses[ci as int].body[ai], k, sym),
    ensures
        table_after(t0, clauses, t, sym, ci as int, ai + 1),
{
    let cl = clauses[ci as int];
    assert forall|key: int, c: usize| #[trigger]
        row(t0, key).contains(c) <==> {
            ||| c < ci && clause_listens(t, clauses[c as int], clauses[c as int].body.len() as int, key, sym)
            ||| c == ci && ai + 1 > 0 && clause_listens(t, clauses[c as int], ai + 1, key, sym)
        } by {
        if c == ci && clause_listens(t, cl, ai + 1, key, sym) {
            let i = choose|i: int| 0 <= i < ai + 1 && #[trigger] listens(t, cl.body[i], key, sym);
            assert(i != ai);
        }
    }
}

/// Moving on to the next clause.
proof fn lemma_next_clause(
    t0: Seq<Seq<usize>>,
    clauses: Seq<ClauseView>,
    t: Trigger,
    sym: Option<HierarchyView>,
    ci: usize,
    ai: int,
)
    requires
        ci < clauses.len(),
        table_after(t0, clauses, t, sym, ci as int, ai),
        ai == clauses[ci as int].body.len() || (ai == 0 && !clauses[ci as int].horn()),
    ensures
        table_after(t0, clauses, t, sym, ci + 1, 0),
{
}

/// Builds the indexes of the Horn clauses; the others are branch points and
/// are not listed. With a role hierarchy, first legs on symmetric roles are
/// also listed for the edge's target.
pub fn build_clause_indexes(clauses: &[DlClause], sym: Option<&RoleHierarchy>) -> (ix: ClauseIndexes)
    ensures
        ix@.of(clause_views(clauses@), hierarchy_view(sym)),
        ix@.below(clauses@.len() as int),
{
    let ghost cv = clause_views(clauses@);
    let ghost hv = hierarchy_view(sym);
    let mut x: Vec<Vec<usize>> = Vec::new();
    let mut succ: Vec<Vec<usize>> = Vec::new();
    let mut role: Vec<Vec<usize>> = Vec::new();
    let mut back: Vec<Vec<usize>> = Vec::new();
    let mut inv: Vec<Vec<usize>> = Vec::new();
    let mut empty: Vec<usize> = Vec::new();
    let mut ci: usize = 0;
    while ci < clauses.len()
        invariant
            ci <= clauses@.len(),
            cv == clause_views(clauses@),
            hv == hierarchy_view(sym),
            table_after(rows(x@), cv, Trigger::XClass, hv, ci as int, 0),
            table_after(rows(succ@), cv, Trigger::SuccClass, hv, ci as int, 0),
            table_after(rows(role@), cv, Trigger::AnyRole, hv, ci as int, 0),
            table_after(rows(back@), cv, Trigger::BackRole, hv, ci as int, 0),
            table_after(rows(inv@), cv, Trigger::InverseFirst, hv, ci as int, 0),
            empty_after(empty@, cv, ci as int),
        decreases clauses@.len() - ci,
    {
        let cl = &clauses[ci];
        assert(cv[ci as int] == cl@);
        let ghost old_empty = empty@;
        if cl.is_horn() && cl.body.len() == 0 {
            empty.push(ci);
            assert(empty@[old_empty.len() as int] == ci);
            assert forall|i: int| 0 <= i < old_empty.len() implies old_empty[i] < ci by {
                assert(old_empty.contains(old_empty[i]));
            }
            assert forall|c: usize| #[trigger]
                empty@.contains(c) <==> c < ci + 1 && cv[c as int].horn() && cv[c as int].body.len()
                    == 0 by {
                assert(old_empty.contains(c) <==> c < ci && cv[c as int].horn()
                    && cv[c as int].body.len() == 0);
                if old_empty.contains(c) {
                    let k = choose|k: int| 0 <= k < old_empty.len() && old_empty[k] == c;
                    assert(empty@[k] == c);
                }
            }
        }
        let ghost mut done: int = 0;
        if cl.is_horn() {
            let mut ai: usize = 0;
            while ai < cl.body.len()
                invariant
                    ci < clauses@.len(),
                    cv == clause_views(clauses@),
                    hv == hierarchy_view(sym),
                    cv[ci as int] == cl@,
                    cl@.horn(),
                    ai <= cl.body@.len(),
                    done == ai,
                    table_after(rows(x@), cv, Trigger::XClass, hv, ci as int, ai as int),
                    table_after(rows(succ@), cv, Trigger::SuccClass, hv, ci as int, ai as int),
                    table_after(rows(role@), cv, Trigger::AnyRole, hv, ci as int, ai as int),
                    table_after(rows(back@), cv, Trigger::BackRole, hv, ci as int, ai as int),
                    table_after(rows(inv@), cv, Trigger::InverseFirst, hv, ci as int, ai as int),
                decreases cl.body@.len() - ai,
            {
                let ghost (x0, succ0, role0, back0, inv0) = (
                    rows(x@),
                    rows(succ@),
                    rows(role@),
                    rows(back@),
                    rows(inv@),
                );
                let ghost mut hit = (false, false, false, false, false);
                let ghost mut key: int = 0;
                let atom = cl.body[ai];
                match atom {
                    Atom::Class(c, v) => {
                        let k = c.index() as usize;
                        proof {
                            key = k as int;
                        }
                        if v == X {
                            push_trigger(&mut x, k, ci);
                            proof {
                                hit.0 = true;
                            }
                        } else {
                            push_trigger(&mut succ, k, ci);
                            proof {
                                hit.1 = true;
                            }
                        }
                    },
                    Atom::Role(r, u, _) => {
                        let k = role_id_index(r);
                        proof {
                            key = k as int;
                            hit.2 = true;
                        }
                        push_trigger(&mut role, k, ci);
                        if u != X {
                            push_trigger(&mut back, k, ci);
                            proof {
                                hit.3 = true;
                            }
                        }
                        let is_symmetric = match sym {
                            Some(h) => h.is_symmetric(r.role_id()),
                            None => false,
                        };
                        if u == X && (r.is_inverse() || is_symmetric) {
                            push_trigger(&mut inv, k, ci);
                            proof {
                                hit.4 = true;
                            }
                        }
                    },
                    Atom::Exists(..) | Atom::AtMost(..) | Atom::AtLeast(..) | Atom::Equal(..) => {},
                }
                proof {
                    let a = ai as int;
                    if hit.0 {
                        lemma_atom_listens(x0, rows(x@), cv, Trigger::XClass, hv, ci, a, key);
                    } else {
                        lemma_atom_silent(x0, cv, Trigger::XClass, hv, ci, a);
                    }
                    if hit.1 {
                        lemma_atom_listens(succ0, rows(succ@), cv, Trigger::SuccClass, hv, ci, a, key);
                    } else {
                        lemma_atom_silent(succ0, cv, Trigger::SuccClass, hv, ci, a);
                    }
                    if hit.2 {
                        lemma_atom_listens(role0, rows(role@), cv, Trigger::AnyRole, hv, ci, a, key);
                    } else {
                        lemma_atom_silent(role0, cv, Trigger::AnyRole, hv, ci, a);
                    }
                    if hit.3 {
                        lemma_atom_listens(back0, rows(back@), cv, Trigger::BackRole, hv, ci, a, key);
                    } else {
                        lemma_atom_silent(back0, cv, Trigger::BackRole, hv, ci, a);
                    }
                    if hit.4 {
                        lemma_atom_listens(inv0, rows(inv@), cv, Trigger::InverseFirst, hv, ci, a, key);
                    } else {
                        lemma_atom_silent(inv0, cv, Trigger::InverseFirst, hv, ci, a);
                    }
                    done = ai + 1;
                }
                ai += 1;
            }
        }
        proof {
            lemma_next_clause(rows(x@), cv, Trigger::XClass, hv, ci, done);
            lemma_next_clause(rows(succ@), cv, Trigger::SuccClass, hv, ci, done);
            lemma_next_clause(rows(role@), cv, Trigger::AnyRole, hv, ci, done);
            lemma_next_clause(rows(back@), cv, Trigger::BackRole, hv, ci, done);
            lemma_next_clause(rows(inv@), cv, Trigger::InverseFirst, hv, ci, done);
        }
        ci += 1;
    }
    let ix = ClauseIndexes {
        x_trigger: x,
        succ_trigger: succ,
        role_trigger: role,
        role_back_trigger: back,
        inverse_first_trigger: inv,
        empty_body: empty,
    };
    proof {
        lemma_indexes_below(ix@, cv, hv);
    }
    ix
}

/// A set of unordered pairs of classes.
#[derive(Debug)]
pub struct DisjointPairs {
    pub(crate) keys: HashSet<u64>,
}

/// The key under which the pair of the class ids `lo` and `hi` is kept.
pub open spec fn pair_key(lo: u32, hi: u32) -> u64 {
    (lo * 0x1_0000_0000 + hi) as u64
}

/// The key of an unordered pair of classes.
pub open spec fn class_pair_key(a: ClassId, b: ClassId) -> u64 {
    if a.0 <= b.0 {
        pair_key(a.0, b.0)
    } else {
        pair_key(b.0, a.0)
    }
}

/// Different pairs have different keys.
pub proof fn lemma_pair_key(lo: u32, hi: u32, lo2: u32, hi2: u32)
    ensures
        pair_key(lo, hi) == pair_key(lo2, hi2) <==> lo == lo2 && hi == hi2,
        pair_key(lo, hi) == lo * 0x1_0000_0000 + hi,
{
}

impl View for DisjointPairs {
    type V = Set<u64>;

    open(crate) spec fn view(&self) -> Set<u64> {
        self.keys@
    }
}

fn make_pair_key(a: ClassId, b: ClassId) -> (k: u64)
    ensures
        k == class_pair_key(a, b),
{
    let (lo, hi) = if a.index() <= b.index() {
        (a.index(), b.index())
    } else {
        (b.index(), a.index())
    };
    (lo as u64) * 0x1_0000_0000 + (hi as u64)
}

/// Whether the pairs `keys` hold the pair of `a` and `b`.
pub open spec fn disjoint_in(keys: Set<u64>, a: ClassId, b: ClassId) -> bool {
    keys.contains(class_pair_key(a, b))
}

impl DisjointPairs {
    pub fn is_empty(&self) -> (r: bool)
        ensures
            r == self@.is_empty(),
    {
        self.keys.is_empty()
    }

    /// Whether the pair of `a` and `b`, in either order, is in the set.
    pub fn contains(&self, a: ClassId, b: ClassId) -> (r: bool)
        ensures
            r == disjoint_in(self@, a, b),
    {
        let k = make_pair_key(a, b);
        self.keys.contains(&k)
    }
}

/// Whether `cl` says that `a` and `b` are disjoint: `⊥` in the head, and in
/// the body exactly two atoms, of different classes on one variable.
pub open spec fn says_disjoint(cl: ClauseView, a: ClassId, b: ClassId) -> bool {
    &&& cl.head.len() == 0
    &&& cl.body.len() == 2
    &&& cl.body[0] matches Atom::Class(c0, v0)
    &&& cl.body[1] matches Atom::Class(c1, v1)
    &&& v0 == v1
    &&& c0 != c1
    &&& (c0 == a && c1 == b) || (c0 == b && c1 == a)
}

/// The set of the pairs that one of the first `n` clauses says are disjoint.
pub open spec fn pairs_of(keys: Set<u64>, clauses: Seq<ClauseView>, n: int) -> bool {
    forall|k: u64| #[trigger]
        keys.contains(k) <==> exists|i: int, a: ClassId, b: ClassId|
            0 <= i < n && k == class_pair_key(a, b) && #[trigger] says_disjoint(clauses[i], a, b)
}

/// A pair is in the set exactly if some clause says that it is disjoint.
pub proof fn lemma_pairs_of(keys: Set<u64>, clauses: Seq<ClauseView>, a: ClassId, b: ClassId)
    requires
        pairs_of(keys, clauses, clauses.len() as int),
    ensures
        disjoint_in(keys, a, b) <==> exists|i: int|
            0 <= i < clauses.len() && #[trigger] says_disjoint(clauses[i], a, b),
{
    let k = class_pair_key(a, b);
    if disjoint_in(keys, a, b) {
        let (i, a2, b2) = choose|i: int, a2: ClassId, b2: ClassId|
            0 <= i < clauses.len() && k == class_pair_key(a2, b2) && #[trigger] says_disjoint(
                clauses[i],
                a2,
                b2,
            );
        let (l1, h1) = if a.0 <= b.0 {
            (a.0, b.0)
        } else {
            (b.0, a.0)
        };
        let (l2, h2) = if a2.0 <= b2.0 {
            (a2.0, b2.0)
        } else {
            (b2.0, a2.0)
        };
        lemma_pair_key(l1, h1, l2, h2);
        assert((a2 == a && b2 == b) || (a2 == b && b2 == a));
        assert(says_disjoint(clauses[i], a, b));
    }
}

/// Extracts the pairs of classes that the clause set says are disjoint.
pub fn build_disjoint_pairs(clauses: &[DlClause]) -> (r: DisjointPairs)
    ensures
        pairs_of(r@, clause_views(clauses@), clauses@.len() as int),
{
    let ghost cv = clause_views(clauses@);
    let mut keys: HashSet<u64> = HashSet::new();
    let mut ci: usize = 0;
    while ci < clauses.len()
        invariant
            ci <= clauses@.len(),
            cv == clause_views(clauses@),
            pairs_of(keys@, cv, ci as int),
        decreases clauses@.len() - ci,
    {
        let cl = &clauses[ci];
        assert(cv[ci as int] == cl@);
        let ghost before = keys@;
        let ghost mut fresh: Option<u64> = None;
        if cl.head.len() == 0 && cl.body.len() == 2 {
            if let (Atom::Class(a, va), Atom::Class(b, vb)) = (cl.body[0], cl.body[1]) {
                if va == vb && a != b {
                    let k = make_pair_key(a, b);
                    keys.insert(k);
                    assert(says_disjoint(cv[ci as int], a, b));
                    proof {
                        fresh = Some(k);
                    }
                }
            }
        }
        assert forall|k: u64| #[trigger]
            keys@.contains(k) <==> exists|i: int, a: ClassId, b: ClassId|
                0 <= i < ci + 1 && k == class_pair_key(a, b) && #[trigger] says_disjoint(cv[i], a, b) by {
            assert(before.contains(k) <==> exists|i: int, a: ClassId, b: ClassId|
                0 <= i < ci && k == class_pair_key(a, b) && #[trigger] says_disjoint(cv[i], a, b));
            if exists|i: int, a: ClassId, b: ClassId|
                0 <= i < ci + 1 && k == class_pair_key(a, b) && #[trigger] says_disjoint(cv[i], a, b) {
                let (i, a, b) = choose|i: int, a: ClassId, b: ClassId|
                    0 <= i < ci + 1 && k == class_pair_key(a, b) && #[trigger] says_disjoint(
                        cv[i],
                        a,
                        b,
                    );
                if i == ci {
                    assert(fresh == Some(k));
                }
            }
        }
        ci += 1;
    }
    DisjointPairs { keys }
}

} // verus!
