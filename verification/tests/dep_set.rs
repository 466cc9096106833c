//! Dependency sets.

use hyperdl::dep_set::DepSet;

#[test]
fn depset_operations() {
    assert!(!DepSet::empty().contains(0));
    // singleton / contains / insert
    let s = DepSet::singleton(3);
    assert!(s.contains(3) && !s.contains(2) && !s.contains(4));
    assert_ne!(s, DepSet::empty());
    let s = s.insert(0).insert(5);
    assert!(s.contains(0) && s.contains(3) && s.contains(5) && !s.contains(1));
    // union
    let u = DepSet::singleton(1).union(DepSet::singleton(8));
    assert!(u.contains(1) && u.contains(8) && !u.contains(2));
    // remove clears exactly one level (the exhausted-decision rule)
    let r = u.remove(8);
    assert!(r.contains(1) && !r.contains(8));
    assert_eq!(DepSet::singleton(1).remove(1), DepSet::empty());
    // remove of an absent level is a no-op
    assert!(DepSet::singleton(1).remove(2).contains(1));
    // overflow is conservative: contains everything, remove is inert
    assert!(DepSet::all().contains(0) && DepSet::all().contains(127) && DepSet::all().contains(200));
    assert!(DepSet::all().remove(5).contains(5));
    assert_ne!(DepSet::all(), DepSet::empty());
    // level >= 128 degrades to overflow (conservative)
    assert!(DepSet::singleton(200).contains(0)); // overflow ⇒ contains all
}
