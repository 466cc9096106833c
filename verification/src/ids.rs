//! Identifiers: classes, roles, individuals and completion-graph nodes.

use vstd::prelude::*;

verus! {

/// A named (or auxiliary, or nominal) class.
#[derive(Debug, Clone, Copy, PartialEq, Eq, Structural, PartialOrd, Ord, Hash, Default)]
pub struct ClassId(pub u32);

impl ClassId {
    pub fn new(index: u32) -> (r: ClassId)
        ensures
            r == ClassId(index),
    {
        ClassId(index)
    }

    pub fn index(self) -> (r: u32)
        ensures
            r == self.0,
    {
        self.0
    }
}

/// An object property, without polarity.
#[derive(Debug, Clone, Copy, PartialEq, Eq, Structural, PartialOrd, Ord, Hash, Default)]
pub struct RoleId(pub u32);

impl RoleId {
    pub fn new(index: u32) -> (r: RoleId)
        ensures
            r == RoleId(index),
    {
        RoleId(index)
    }

    pub fn index(self) -> (r: u32)
        ensures
            r == self.0,
    {
        self.0
    }
}

/// A named individual.
#[derive(Debug, Clone, Copy, PartialEq, Eq, Structural, PartialOrd, Ord, Hash, Default)]
pub struct IndividualId(pub u32);

impl IndividualId {
    pub fn new(index: u32) -> (r: IndividualId)
        ensures
            r == IndividualId(index),
    {
        IndividualId(index)
    }

    pub fn index(self) -> (r: u32)
        ensures
            r == self.0,
    {
        self.0
    }
}

/// A role expression: an object property or its inverse.
#[derive(Debug, Clone, Copy, PartialEq, Eq, Structural, PartialOrd, Ord, Hash)]
pub enum Role {
    Named(RoleId),
    Inverse(RoleId),
}

impl Role {
    /// The underlying object property.
    pub open spec fn id(self) -> RoleId {
        match self {
            Role::Named(x) => x,
            Role::Inverse(x) => x,
        }
    }

    /// The same object property with the other polarity.
    pub open spec fn flipped(self) -> Role {
        match self {
            Role::Named(x) => Role::Inverse(x),
            Role::Inverse(x) => Role::Named(x),
        }
    }

    pub fn role_id(self) -> (r: RoleId)
        ensures
            r == self.id(),
    {
        match self {
            Role::Named(x) => x,
            Role::Inverse(x) => x,
        }
    }

    pub fn is_inverse(self) -> (r: bool)
        ensures
            r == (self is Inverse),
    {
        match self {
            Role::Named(_) => false,
            Role::Inverse(_) => true,
        }
    }

    pub fn flip(self) -> (r: Role)
        ensures
            r == self.flipped(),
    {
        match self {
            Role::Named(x) => Role::Inverse(x),
            Role::Inverse(x) => Role::Named(x),
        }
    }
}

/// Position of a role in the tables that are indexed by object property.
pub fn role_id_index(r: Role) -> (i: usize)
    ensures
        i == r.id().0,
{
    r.role_id().index() as usize
}

/// A node of the completion graph.
#[derive(Debug, Clone, Copy, PartialEq, Eq, Structural, PartialOrd, Ord, Hash)]
pub struct HNode(pub u32);

impl HNode {
    /// The node's position in the node table.
    pub open spec fn at(self) -> int {
        self.0 as int
    }

    pub fn index(self) -> (i: usize)
        ensures
            i == self.at(),
    {
        self.0 as usize
    }
}

} // verus!
