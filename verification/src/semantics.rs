//! What clauses mean: interpretations and truth in them.

use vstd::prelude::*;
use crate::clause::{role_sat, Atom, ClauseView, HierarchyView, Var};
use crate::graph::Config;
use crate::ids::{ClassId, Role, RoleId};
use crate::queries::nominal;

verus! {

/// An interpretation: its domain, which elements are in which classes, and
/// which pairs are in which roles.
#[verifier::reject_recursive_types(D)]
pub struct Interp<D> {
    pub domain: spec_fn(D) -> bool,
    pub class: spec_fn(ClassId, D) -> bool,
    pub pairs: spec_fn(RoleId, D, D) -> bool,
}

impl<D> Interp<D> {
    /// `a` is an element of the domain.
    pub open spec fn within(self, a: D) -> bool {
        (self.domain)(a)
    }

    /// Variables stand for elements of the domain.
    pub open spec fn valuation(self, v: spec_fn(Var) -> D) -> bool {
        forall|x: Var| self.within(#[trigger] v(x))
    }

    /// Element `a` is in class `c`.
    pub open spec fn in_class(self, c: ClassId, a: D) -> bool {
        (self.class)(c, a)
    }

    /// `r` leads from `a` to `b`.
    pub open spec fn role(self, r: Role, a: D, b: D) -> bool {
        match r {
            Role::Named(x) => (self.pairs)(x, a, b),
            Role::Inverse(x) => (self.pairs)(x, b, a),
        }
    }

    /// `b` counts for a number restriction on `role` and `qual` at `a`.
    pub open spec fn counts(self, role: Role, qual: Option<ClassId>, a: D, b: D) -> bool {
        self.within(b) && self.role(role, a, b) && (qual matches Some(q) ==> self.in_class(q, b))
    }

    /// Different elements that all count at `a`.
    pub open spec fn counted(self, role: Role, qual: Option<ClassId>, a: D, s: Seq<D>) -> bool {
        s.no_duplicates() && forall|i: int|
            0 <= i < s.len() ==> self.counts(role, qual, a, #[trigger] s[i])
    }

    /// At most `n` elements count at `a`.
    pub open spec fn at_most(self, role: Role, qual: Option<ClassId>, n: u32, a: D) -> bool {
        forall|s: Seq<D>| #[trigger] self.counted(role, qual, a, s) ==> s.len() <= n
    }

    /// At least `n` elements count at `a`.
    pub open spec fn at_least(self, role: Role, qual: Option<ClassId>, n: u32, a: D) -> bool {
        exists|s: Seq<D>| #[trigger] self.counted(role, qual, a, s) && s.len() == n
    }

    /// Some element in class `c` is reached from `a` by `role`.
    pub open spec fn some(self, role: Role, c: ClassId, a: D) -> bool {
        exists|b: D| self.within(b) && #[trigger] self.role(role, a, b) && self.in_class(c, b)
    }

    /// The atom is true when the variables stand for elements as `v` says.
    pub open spec fn atom(self, at: Atom, v: spec_fn(Var) -> D) -> bool {
        match at {
            Atom::Class(c, x) => self.in_class(c, v(x)),
            Atom::Role(r, x, y) => self.role(r, v(x), v(y)),
            Atom::Exists(r, c, x) => self.some(r, c, v(x)),
            Atom::AtMost(r, q, n, x) => self.at_most(r, q, n, v(x)),
            Atom::AtLeast(r, q, n, x) => self.at_least(r, q, n, v(x)),
            Atom::Equal(x, y) => v(x) == v(y),
        }
    }

    /// All of the atoms are true.
    pub open spec fn all(self, atoms: Seq<Atom>, v: spec_fn(Var) -> D) -> bool {
        forall|i: int| 0 <= i < atoms.len() ==> self.atom(#[trigger] atoms[i], v)
    }

    /// One of the atoms is true.
    pub open spec fn any(self, atoms: Seq<Atom>, v: spec_fn(Var) -> D) -> bool {
        exists|i: int| 0 <= i < atoms.len() && self.atom(#[trigger] atoms[i], v)
    }

    /// The clause is true: whenever its body is, so is its head.
    pub open spec fn clause(self, c: ClauseView) -> bool {
        forall|v: spec_fn(Var) -> D|
            self.valuation(v) && #[trigger] self.all(c.body, v) ==> self.any(c.head, v)
    }

    /// Every clause is true.
    pub open spec fn satisfies(self, clauses: Seq<ClauseView>) -> bool {
        forall|i: int| 0 <= i < clauses.len() ==> self.clause(#[trigger] clauses[i])
    }

    /// The roles are related as the hierarchy says.
    pub open spec fn respects(self, h: Option<HierarchyView>) -> bool {
        h matches Some(h) ==> {
            &&& forall|r: RoleId, s: RoleId, a: D, b: D|
                self.within(a) && self.within(b) && h.sub(r, s) && #[trigger] (self.pairs)(r, a, b)
                    ==> #[trigger] (self.pairs)(s, a, b)
            &&& forall|r: RoleId, a: D, b: D|
                self.within(a) && self.within(b) && h.sym(r) && #[trigger] (self.pairs)(r, a, b)
                    ==> (self.pairs)(r, b, a)
        }
    }

    /// Each nominal names a single element.
    pub open spec fn names(self, k: Config) -> bool {
        forall|c: ClassId, a: D, b: D|
            self.within(a) && self.within(b) && nominal(k, c) && #[trigger] self.in_class(c, a)
                && #[trigger] self.in_class(c, b) ==> a == b
    }

    /// A model of the clauses, the role hierarchy and the nominals.
    pub open spec fn models(self, k: Config) -> bool {
        self.satisfies(k.clauses) && self.respects(k.roles) && self.names(k)
    }
}

/// A role that an edge satisfies leads where the edge leads.
pub proof fn lemma_role_sat<D>(i: Interp<D>, h: Option<HierarchyView>, edge: Role, wanted: Role, a: D, b: D)
    requires
        i.respects(h),
        i.within(a),
        i.within(b),
        role_sat(edge, wanted, h),
        i.role(edge, a, b),
    ensures
        i.role(wanted, a, b),
{
    if let Some(hv) = h {
        let (r, s) = (edge.id(), wanted.id());
        if hv.sub(r, s) {
            assert((i.pairs)(r, a, b) ==> (i.pairs)(s, a, b));
            assert((i.pairs)(r, b, a) ==> (i.pairs)(s, b, a));
        }
        if hv.sym(s) {
            assert((i.pairs)(s, a, b) ==> (i.pairs)(s, b, a));
            assert((i.pairs)(s, b, a) ==> (i.pairs)(s, a, b));
        }
    }
}

/// An edge walked backwards is the inverse role.
pub proof fn lemma_role_flipped<D>(i: Interp<D>, r: Role, a: D, b: D)
    ensures
        i.role(r.flipped(), a, b) == i.role(r, b, a),
        i.role(r.flipped(), b, a) == i.role(r, a, b),
{
}

} // verus!
