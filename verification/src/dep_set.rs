//! Dependency sets for backjumping.

use vstd::prelude::*;

verus! {

/// A set of branch *decision levels* that a derivation depends on. Levels
/// `0..128` are kept as a bit set. Past that the set degrades to "depends
/// on everything" (`overflow`), which only ever makes the search more
/// cautious.
#[derive(Debug, Clone, Copy, PartialEq, Eq, Structural)]
pub struct DepSet {
    pub bits: u128,
    pub overflow: bool,
}

/// Bit `level` of `bits`.
pub open spec fn bit(bits: u128, level: u32) -> bool {
    level < 128 && bits & (1u128 << level) != 0
}

impl Default for DepSet {
    fn default() -> (r: DepSet)
        ensures
            r == DepSet::empty(),
    {
        DepSet::empty()
    }
}

impl DepSet {
    /// Depends on no decision.
    pub open spec fn spec_empty() -> DepSet {
        DepSet { bits: 0, overflow: false }
    }

    /// Depends on everything.
    pub open spec fn spec_all() -> DepSet {
        DepSet { bits: 0, overflow: true }
    }

    /// Depends on no decision.
    #[verifier::when_used_as_spec(spec_empty)]
    pub fn empty() -> (r: DepSet)
        ensures
            r == DepSet::spec_empty(),
    {
        DepSet { bits: 0, overflow: false }
    }

    /// Depends on everything: the cautious dependency set of a clash whose
    /// provenance is not tracked.
    #[verifier::when_used_as_spec(spec_all)]
    pub fn all() -> (r: DepSet)
        ensures
            r == DepSet::spec_all(),
    {
        DepSet { bits: 0, overflow: true }
    }

    /// Whether `level` counts as a member; everything does on overflow.
    pub open spec fn has(self, level: u32) -> bool {
        self.overflow || bit(self.bits, level)
    }

    /// The set of `level` alone.
    pub open spec fn only(level: u32) -> DepSet {
        if level < 128 {
            DepSet { bits: 1u128 << level, overflow: false }
        } else {
            DepSet::all()
        }
    }

    /// Set union.
    pub open spec fn joined(self, other: DepSet) -> DepSet {
        DepSet { bits: self.bits | other.bits, overflow: self.overflow || other.overflow }
    }

    /// The set with `level` added.
    pub open spec fn plus(self, level: u32) -> DepSet {
        self.joined(DepSet::only(level))
    }

    /// The set with `level` taken out; inert on overflow.
    pub open spec fn minus(self, level: u32) -> DepSet {
        if self.overflow || level >= 128 {
            self
        } else {
            DepSet { bits: self.bits & !(1u128 << level), overflow: false }
        }
    }

    pub fn singleton(level: u32) -> (r: DepSet)
        ensures
            r == DepSet::only(level),
    {
        if level < 128 {
            DepSet { bits: 1u128 << level, overflow: false }
        } else {
            DepSet { bits: 0, overflow: true }
        }
    }

    /// `true` if `level` is in the set, and in any case on overflow, so that
    /// the search does not jump past it.
    pub fn contains(self, level: u32) -> (r: bool)
        ensures
            r == self.has(level),
    {
        self.overflow || (level < 128 && (self.bits & (1u128 << level)) != 0)
    }

    pub fn union(self, other: DepSet) -> (r: DepSet)
        ensures
            r == self.joined(other),
    {
        DepSet { bits: self.bits | other.bits, overflow: self.overflow || other.overflow }
    }

    pub fn insert(self, level: u32) -> (r: DepSet)
        ensures
            r == self.plus(level),
    {
        self.union(DepSet::singleton(level))
    }

    /// Drops `level` from the set, once the decision of that level is
    /// exhausted. A no-op on overflow.
    pub fn remove(self, level: u32) -> (r: DepSet)
        ensures
            r == self.minus(level),
    {
        if self.overflow || level >= 128 {
            self
        } else {
            DepSet { bits: self.bits & !(1u128 << level), overflow: false }
        }
    }
}

/// The empty set has no member, and `ALL` has every level.
pub proof fn lemma_empty_and_all(level: u32)
    ensures
        !DepSet::empty().has(level),
        DepSet::all().has(level),
{
    assert(level < 128 ==> 0u128 & (1u128 << level) == 0) by (bit_vector);
}

/// A singleton has exactly its level; from level 128 on it has every level.
pub proof fn lemma_only_has(level: u32, l: u32)
    ensures
        DepSet::only(level).has(l) <==> (level >= 128 || l == level),
        level < 128 ==> (bit(DepSet::only(level).bits, l) <==> l == level),
{
    if level < 128 && l < 128 {
        assert((1u128 << level) & (1u128 << l) != 0 <==> l == level) by (bit_vector)
            requires
                level < 128,
                l < 128,
        ;
    }
}

/// Membership in a union is membership in either set.
pub proof fn lemma_joined_has(a: DepSet, b: DepSet, l: u32)
    ensures
        a.joined(b).has(l) <==> a.has(l) || b.has(l),
        bit(a.joined(b).bits, l) <==> bit(a.bits, l) || bit(b.bits, l),
{
    let x = a.bits;
    let y = b.bits;
    if l < 128 {
        assert((x | y) & (1u128 << l) != 0 <==> x & (1u128 << l) != 0 || y & (1u128 << l) != 0)
            by (bit_vector)
            requires
                l < 128,
        ;
    }
}

/// Adding a level adds exactly that level, below the overflow mark.
pub proof fn lemma_plus_has(a: DepSet, level: u32, l: u32)
    ensures
        a.plus(level).has(l) <==> a.has(l) || level >= 128 || l == level,
{
    lemma_joined_has(a, DepSet::only(level), l);
    lemma_only_has(level, l);
}

/// Removal takes out exactly one level of a set that has not overflowed, and
/// changes nothing of one that has.
pub proof fn lemma_minus_has(a: DepSet, level: u32, l: u32)
    ensures
        a.overflow ==> a.minus(level) == a,
        !a.overflow ==> (a.minus(level).has(l) <==> a.has(l) && l != level),
        !a.overflow ==> !a.minus(level).overflow,
{
    let x = a.bits;
    if l < 128 && level < 128 {
        assert((x & !(1u128 << level)) & (1u128 << l) != 0 <==> x & (1u128 << l) != 0 && l
            != level) by (bit_vector)
            requires
                l < 128,
                level < 128,
        ;
    }
}

/// Union is commutative, associative and idempotent, with `EMPTY` neutral.
pub proof fn lemma_joined_algebra(a: DepSet, b: DepSet, c: DepSet)
    ensures
        a.joined(b) == b.joined(a),
        a.joined(b).joined(c) == a.joined(b.joined(c)),
        a.joined(a) == a,
        a.joined(DepSet::empty()) == a,
{
    let (x, y, z) = (a.bits, b.bits, c.bits);
    assert(x | y == y | x) by (bit_vector);
    assert((x | y) | z == x | (y | z)) by (bit_vector);
    assert(x | x == x) by (bit_vector);
    assert(x | 0 == x) by (bit_vector);
}

} // verus!
