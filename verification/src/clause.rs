//! DL-clauses and the role hierarchy.

use vstd::prelude::*;
use crate::ids::{ClassId, Role, RoleId};

verus! {

/// A clause variable.
pub type Var = u32;

/// The central variable, at which a clause is matched.
pub const X: Var = 0;

/// An atom of a clause.
#[derive(Debug, Clone, Copy, PartialEq, Eq, Structural)]
pub enum Atom {
    /// `C(v)`.
    Class(ClassId, Var),
    /// `R(u, v)`.
    Role(Role, Var, Var),
    /// `(∃R.C)(v)`; heads only.
    Exists(Role, ClassId, Var),
    /// `(≤n R.C)(v)`, unqualified when there is no class; heads only.
    AtMost(Role, Option<ClassId>, u32, Var),
    /// `(≥n R.C)(v)`, unqualified when there is no class; heads only.
    AtLeast(Role, Option<ClassId>, u32, Var),
    /// `u ≈ v`; heads only.
    Equal(Var, Var),
}

/// A clause `U1 ∧ … ∧ Um → V1 ∨ … ∨ Vn`; an empty head is `⊥`.
#[derive(Debug, Clone)]
pub struct DlClause {
    pub body: Vec<Atom>,
    pub head: Vec<Atom>,
}

/// What a clause says.
#[verifier::ext_equal]
pub struct ClauseView {
    pub body: Seq<Atom>,
    pub head: Seq<Atom>,
}

impl ClauseView {
    /// At most one head atom.
    pub open spec fn horn(self) -> bool {
        self.head.len() <= 1
    }
}

/// No clause has more than one head atom.
pub open spec fn horn_only(clauses: Seq<ClauseView>) -> bool {
    forall|i: int| 0 <= i < clauses.len() ==> (#[trigger] clauses[i]).horn()
}

impl View for DlClause {
    type V = ClauseView;

    open spec fn view(&self) -> ClauseView {
        ClauseView { body: self.body@, head: self.head@ }
    }
}

impl DlClause {
    pub fn is_horn(&self) -> (r: bool)
        ensures
            r == self@.horn(),
            r == (self.head@.len() <= 1),
    {
        self.head.len() <= 1
    }
}

/// A clause set, as the sequence of what its clauses say.
pub open spec fn clause_views(clauses: Seq<DlClause>) -> Seq<ClauseView> {
    clauses.map_values(|c: DlClause| c@)
}

/// The role hierarchy: the pairs `(R, S)` with `R ⊑* S`, closed by whoever
/// supplies them, and the symmetric object properties.
#[derive(Debug, Clone, Default)]
pub struct RoleHierarchy {
    pub sub_pairs: Vec<(RoleId, RoleId)>,
    pub symmetric: Vec<RoleId>,
}

/// What a role hierarchy says.
#[verifier::ext_equal]
pub struct HierarchyView {
    pub sub_pairs: Seq<(RoleId, RoleId)>,
    pub symmetric: Seq<RoleId>,
}

impl HierarchyView {
    pub open spec fn sub(self, r: RoleId, s: RoleId) -> bool {
        r == s || self.sub_pairs.contains((r, s))
    }

    pub open spec fn sym(self, r: RoleId) -> bool {
        self.symmetric.contains(r)
    }
}

impl View for RoleHierarchy {
    type V = HierarchyView;

    open spec fn view(&self) -> HierarchyView {
        HierarchyView { sub_pairs: self.sub_pairs@, symmetric: self.symmetric@ }
    }
}

impl RoleHierarchy {
    /// Whether `r ⊑* s`; every role is a sub-role of itself.
    pub fn is_sub_role(&self, r: RoleId, s: RoleId) -> (b: bool)
        ensures
            b == self@.sub(r, s),
            b == (r == s || self.sub_pairs@.contains((r, s))),
    {
        if r == s {
            return true;
        }
        let mut i: usize = 0;
        while i < self.sub_pairs.len()
            invariant
                i <= self.sub_pairs.len(),
                forall|j: int| 0 <= j < i ==> self.sub_pairs@[j] != (r, s),
            decreases self.sub_pairs.len() - i,
        {
            if self.sub_pairs[i].0 == r && self.sub_pairs[i].1 == s {
                assert(self.sub_pairs@[i as int] == (r, s));
                return true;
            }
            i += 1;
        }
        false
    }

    pub fn is_symmetric(&self, r: RoleId) -> (b: bool)
        ensures
            b == self@.sym(r),
            b == self.symmetric@.contains(r),
    {
        let mut i: usize = 0;
        while i < self.symmetric.len()
            invariant
                i <= self.symmetric.len(),
                forall|j: int| 0 <= j < i ==> self.symmetric@[j] != r,
            decreases self.symmetric.len() - i,
        {
            if self.symmetric[i] == r {
                return true;
            }
            i += 1;
        }
        false
    }
}

/// What an optional role hierarchy says.
pub open spec fn hierarchy_view(h: Option<&RoleHierarchy>) -> Option<HierarchyView> {
    match h {
        Some(h) => Some(h@),
        None => None,
    }
}

/// An `edge` satisfies a `wanted` role atom: the polarities agree and the
/// edge's role is a sub-role of the wanted one, or the two are the same
/// symmetric role. Without a hierarchy only equal roles match.
pub open spec fn role_sat(edge: Role, wanted: Role, h: Option<HierarchyView>) -> bool {
    match h {
        Some(h) => {
            ||| edge.id() == wanted.id() && h.sym(wanted.id())
            ||| (edge is Inverse <==> wanted is Inverse) && h.sub(edge.id(), wanted.id())
        },
        None => edge == wanted,
    }
}

/// See [`role_sat`].
pub fn role_matches(edge: Role, wanted: Role, sub_roles: Option<&RoleHierarchy>) -> (r: bool)
    ensures
        r == role_sat(edge, wanted, hierarchy_view(sub_roles)),
        sub_roles is None ==> r == (edge == wanted),
        sub_roles matches Some(h) ==> r == match (edge, wanted) {
            (Role::Named(p), Role::Named(q)) => p == q || h.sub_pairs@.contains((p, q)),
            (Role::Inverse(p), Role::Inverse(q)) => p == q || h.sub_pairs@.contains((p, q)),
            (Role::Named(p), Role::Inverse(q)) => p == q && h.symmetric@.contains(q),
            (Role::Inverse(p), Role::Named(q)) => p == q && h.symmetric@.contains(q),
        },
{
    if let Some(h) = sub_roles {
        if edge.role_id() == wanted.role_id() && h.is_symmetric(wanted.role_id()) {
            return true;
        }
    }
    if edge.is_inverse() != wanted.is_inverse() {
        return false;
    }
    match sub_roles {
        Some(h) => h.is_sub_role(edge.role_id(), wanted.role_id()),
        None => edge.role_id() == wanted.role_id(),
    }
}

} // verus!
