//! Ontologies, as far as questions about individuals read them.

use std::collections::HashSet;
use vstd::prelude::*;
use crate::ids::{ClassId, IndividualId, Role, RoleId};

verus! {

broadcast use vstd::std_specs::hash::group_hash_axioms;

/// The strings in a vector.
pub open spec fn texts(v: Seq<String>) -> Seq<Seq<char>> {
    v.map_values(|s: String| s@)
}

/// The position of the first string equal to `name`.
pub open spec fn position(names: Seq<Seq<char>>, name: Seq<char>) -> Option<int> {
    if names.contains(name) {
        Some(names.index_of_first(name)->0)
    } else {
        None
    }
}

/// The names of classes, object properties and individuals. Each has its
/// position in its table as its id.
#[derive(Debug, Clone, Default)]
pub struct Vocabulary {
    classes: Vec<String>,
    roles: Vec<String>,
    individuals: Vec<String>,
}

/// The position of the first string in `names` that is `name`.
fn find_name(names: &Vec<String>, name: &str) -> (r: Option<usize>)
    ensures
        match r {
            Some(i) => position(texts(names@), name@) == Some(i as int) && i < names@.len(),
            None => position(texts(names@), name@) is None,
        },
{
    let wanted = name.to_owned();
    let ghost ns = texts(names@);
    let mut i: usize = 0;
    while i < names.len()
        invariant
            ns == texts(names@),
            wanted@ == name@,
            i <= names@.len(),
            forall|j: int| 0 <= j < i ==> #[trigger] ns[j] != name@,
        decreases names@.len() - i,
    {
        assert(ns[i as int] == names@[i as int]@);
        if names[i] == wanted {
            proof {
                assert(ns.contains(name@));
                ns.index_of_first_ensures(name@);
            }
            return Some(i);
        }
        i += 1;
    }
    None
}

/// The names in order, each where it comes first.
pub open spec fn interned(names: Seq<Seq<char>>) -> Seq<Seq<char>>
    decreases names.len(),
{
    if names.len() == 0 {
        names
    } else {
        let before = interned(names.drop_last());
        if before.contains(names.last()) {
            before
        } else {
            before.push(names.last())
        }
    }
}

/// Interning keeps every name once, and changes nothing where no name comes
/// twice.
pub proof fn lemma_interned(names: Seq<Seq<char>>)
    ensures
        interned(names).no_duplicates(),
        interned(names).len() <= names.len(),
        forall|n: Seq<char>| #[trigger] interned(names).contains(n) <==> names.contains(n),
        names.no_duplicates() ==> interned(names) == names,
    decreases names.len(),
{
    if names.len() > 0 {
        let rest = names.drop_last();
        let before = interned(rest);
        lemma_interned(rest);
        assert(names =~= rest.push(names.last()));
        assert forall|n: Seq<char>| #[trigger] interned(names).contains(n) <==> names.contains(n) by {
            assert(before.contains(n) <==> rest.contains(n));
            crate::rules_wf::lemma_push_contains(before, names.last());
            crate::rules_wf::lemma_push_contains(rest, names.last());
        }
        if names.no_duplicates() {
            assert(rest.no_duplicates());
            if before.contains(names.last()) {
                let i = choose|i: int| 0 <= i < rest.len() && rest[i] == names.last();
                assert(names[i] == names[names.len() - 1]);
            }
        }
    }
}

/// Names are numbered in the order in which they first come: one more name
/// changes no number, and gets the next one if it is new.
pub proof fn lemma_interned_in_order(names: Seq<Seq<char>>, name: Seq<char>)
    ensures
        interned(names.push(name)) == if names.contains(name) {
            interned(names)
        } else {
            interned(names).push(name)
        },
        interned(Seq::empty()) == Seq::<Seq<char>>::empty(),
{
    assert(names.push(name).drop_last() =~= names);
    lemma_interned(names);
    assert(interned(names).contains(name) <==> names.contains(name));
    assert(interned(Seq::empty()) =~= Seq::<Seq<char>>::empty());
}

/// A name and its id go back and forth.
pub proof fn lemma_position(names: Seq<Seq<char>>, i: int)
    requires
        names.no_duplicates(),
        0 <= i < names.len(),
    ensures
        position(names, names[i]) == Some(i),
{
    names.index_of_first_ensures(names[i]);
}

/// See [`interned`].
fn intern(names: &Vec<String>) -> (r: Vec<String>)
    ensures
        texts(r@) == interned(texts(names@)),
{
    let ghost ns = texts(names@);
    let mut r: Vec<String> = Vec::new();
    let mut i: usize = 0;
    assert(texts(r@) =~= interned(ns.take(0)));
    while i < names.len()
        invariant
            ns == texts(names@),
            i <= names@.len(),
            texts(r@) == interned(ns.take(i as int)),
        decreases names@.len() - i,
    {
        let name = names[i].clone();
        assert(ns[i as int] == name@);
        assert(ns.take(i + 1).drop_last() =~= ns.take(i as int));
        assert(ns.take(i + 1).last() == name@);
        let ghost before = texts(r@);
        if find_name(&r, name.as_str()).is_none() {
            r.push(name);
            assert(texts(r@) =~= before.push(name@));
        }
        i += 1;
    }
    assert(ns.take(i as int) =~= ns);
    r
}

impl Vocabulary {
    /// The names of the classes.
    pub closed spec fn class_names(self) -> Seq<Seq<char>> {
        texts(self.classes@)
    }

    /// The names of the object properties.
    pub closed spec fn role_names(self) -> Seq<Seq<char>> {
        texts(self.roles@)
    }

    /// The names of the individuals.
    pub closed spec fn individual_names(self) -> Seq<Seq<char>> {
        texts(self.individuals@)
    }

    /// No name stands for two classes, two object properties or two
    /// individuals, and every class and individual has an id.
    pub open spec fn wf(self) -> bool {
        &&& self.class_names().no_duplicates()
        &&& self.role_names().no_duplicates()
        &&& self.individual_names().no_duplicates()
        &&& self.class_names().len() <= u32::MAX + 1
        &&& self.individual_names().len() <= u32::MAX + 1
    }

    /// The vocabulary of these names. A name that is listed again stands for
    /// what it stood for before.
    pub fn from_names(classes: Vec<String>, roles: Vec<String>, individuals: Vec<String>) -> (r:
        Vocabulary)
        ensures
            r.class_names() == interned(texts(classes@)),
            r.role_names() == interned(texts(roles@)),
            r.individual_names() == interned(texts(individuals@)),
            r.class_names().no_duplicates(),
            r.role_names().no_duplicates(),
            r.individual_names().no_duplicates(),
            classes@.len() <= u32::MAX + 1 && individuals@.len() <= u32::MAX + 1 ==> r.wf(),
    {
        proof {
            lemma_interned(texts(classes@));
            lemma_interned(texts(roles@));
            lemma_interned(texts(individuals@));
        }
        Vocabulary {
            classes: intern(&classes),
            roles: intern(&roles),
            individuals: intern(&individuals),
        }
    }

    pub fn num_classes(&self) -> (r: usize)
        ensures
            r == self.class_names().len(),
    {
        self.classes.len()
    }

    pub fn num_roles(&self) -> (r: usize)
        ensures
            r == self.role_names().len(),
    {
        self.roles.len()
    }

    pub fn num_individuals(&self) -> (r: usize)
        ensures
            r == self.individual_names().len(),
    {
        self.individuals.len()
    }

    /// The class with this name.
    pub fn class_id(&self, iri: &str) -> (r: Option<ClassId>)
        requires
            self.wf(),
        ensures
            match r {
                Some(c) => position(self.class_names(), iri@) == Some(c.0 as int),
                None => position(self.class_names(), iri@) is None,
            },
    {
        match find_name(&self.classes, iri) {
            Some(i) => Some(ClassId::new(i as u32)),
            None => None,
        }
    }

    /// The individual with this name.
    pub fn individual_id(&self, iri: &str) -> (r: Option<IndividualId>)
        requires
            self.wf(),
        ensures
            match r {
                Some(a) => position(self.individual_names(), iri@) == Some(a.0 as int),
                None => position(self.individual_names(), iri@) is None,
            },
    {
        match find_name(&self.individuals, iri) {
            Some(i) => Some(IndividualId::new(i as u32)),
            None => None,
        }
    }

    pub fn class_iri(&self, c: ClassId) -> (r: &String)
        requires
            c.0 < self.class_names().len(),
        ensures
            r@ == self.class_names()[c.0 as int],
    {
        &self.classes[c.index() as usize]
    }

    pub fn role_iri(&self, p: RoleId) -> (r: &String)
        requires
            p.0 < self.role_names().len(),
        ensures
            r@ == self.role_names()[p.0 as int],
    {
        &self.roles[p.index() as usize]
    }

    pub fn individual_iri(&self, a: IndividualId) -> (r: &String)
        requires
            a.0 < self.individual_names().len(),
        ensures
            r@ == self.individual_names()[a.0 as int],
    {
        &self.individuals[a.index() as usize]
    }
}

/// A class expression in an ontology's table of them.
#[derive(Debug, Clone, Copy, PartialEq, Eq, Structural)]
pub struct ConceptId(pub u32);

/// A class expression. Only named classes are told apart.
#[derive(Debug, Clone, Copy, PartialEq, Eq, Structural)]
pub enum ConceptExpr {
    Atomic(ClassId),
    Complex,
}

/// An axiom. Those that say nothing of the told types of an individual are
/// not told apart.
#[derive(Debug, Clone, Copy, PartialEq, Eq, Structural)]
pub enum Axiom {
    /// The individual is in the class.
    ClassAssertion { class: ConceptId, individual: IndividualId },
    /// The role leads from the subject to the object.
    ObjectPropertyAssertion { role: Role, subject: IndividualId, object: IndividualId },
    /// What the role leads from is in the class.
    ObjectPropertyDomain { role: Role, domain: ConceptId },
    /// What the role leads to is in the class.
    ObjectPropertyRange { role: Role, range: ConceptId },
    Other,
}

/// An ontology.
#[derive(Debug, Clone, Default)]
pub struct InternalOntology {
    pub vocabulary: Vocabulary,
    pub axioms: Vec<Axiom>,
    pub concepts: Vec<ConceptExpr>,
}

impl InternalOntology {
    /// The class expression is in the table.
    pub open spec fn has_concept(self, c: ConceptId) -> bool {
        c.0 < self.concepts@.len()
    }

    /// The named class that the expression is, if it is one.
    pub open spec fn named(self, c: ConceptId) -> Option<ClassId> {
        match self.concepts@[c.0 as int] {
            ConceptExpr::Atomic(id) => Some(id),
            ConceptExpr::Complex => None,
        }
    }

    /// Axioms refer to class expressions of the table, and every class and
    /// individual has an id.
    pub open spec fn wf(self) -> bool {
        &&& self.vocabulary.wf()
        &&& forall|i: int|
            0 <= i < self.axioms@.len() ==> match #[trigger] self.axioms@[i] {
                Axiom::ClassAssertion { class, individual } => self.has_concept(class),
                Axiom::ObjectPropertyDomain { role, domain } => self.has_concept(domain),
                Axiom::ObjectPropertyRange { role, range } => self.has_concept(range),
                _ => true,
            }
    }

    /// The named class that the expression is, if it is one.
    pub fn named_class(&self, c: ConceptId) -> (r: Option<ClassId>)
        requires
            self.has_concept(c),
        ensures
            r == self.named(c),
    {
        match self.concepts[c.0 as usize] {
            ConceptExpr::Atomic(id) => Some(id),
            ConceptExpr::Complex => None,
        }
    }
}

/// Ordered pairs of classes.
#[derive(Debug)]
struct ClassPairs {
    keys: HashSet<u64>,
}

/// The number under which the pair `(a, b)` is kept.
spec fn pair_number(a: ClassId, b: ClassId) -> u64 {
    (a.0 * 0x1_0000_0000 + b.0) as u64
}

impl ClassPairs {
    spec fn has(self, a: ClassId, b: ClassId) -> bool {
        self.keys@.contains(pair_number(a, b))
    }

    fn empty() -> (r: ClassPairs)
        ensures
            forall|a: ClassId, b: ClassId| !r.has(a, b),
    {
        ClassPairs { keys: HashSet::new() }
    }

    fn add_pair(&mut self, a: ClassId, b: ClassId)
        ensures
            forall|x: ClassId, y: ClassId| #[trigger]
                final(self).has(x, y) <==> old(self).has(x, y) || (x == a && y == b),
    {
        let key: u64 = (a.index() as u64) * 0x1_0000_0000 + (b.index() as u64);
        self.keys.insert(key);
    }

    fn contains(&self, a: ClassId, b: ClassId) -> (r: bool)
        ensures
            r == self.has(a, b),
    {
        let key: u64 = (a.index() as u64) * 0x1_0000_0000 + (b.index() as u64);
        self.keys.contains(&key)
    }
}

/// A saturated closure: which named class is derived to be below which.
#[derive(Debug)]
pub struct Subsumers {
    pairs: ClassPairs,
}

impl Subsumers {
    /// `sub` is derived to be below `sup`.
    pub closed spec fn below(self, sub: ClassId, sup: ClassId) -> bool {
        self.pairs.has(sub, sup)
    }

    /// The closure in which nothing is derived.
    pub fn new() -> (r: Subsumers)
        ensures
            forall|a: ClassId, b: ClassId| !r.below(a, b),
    {
        Subsumers { pairs: ClassPairs::empty() }
    }

    /// Adds that `sub` is below `sup`.
    pub fn insert(&mut self, sub: ClassId, sup: ClassId)
        ensures
            forall|x: ClassId, y: ClassId| #[trigger]
                final(self).below(x, y) <==> old(self).below(x, y) || (x == sub && y == sup),
    {
        self.pairs.add_pair(sub, sup);
        assert forall|x: ClassId, y: ClassId| #[trigger]
            self.below(x, y) <==> old(self).below(x, y) || (x == sub && y == sup) by {
            assert(self.pairs.has(x, y) <==> old(self).pairs.has(x, y) || (x == sub && y == sup));
        }
    }

    /// Whether `sub` is derived to be below `sup`.
    pub fn contains(&self, sub: ClassId, sup: ClassId) -> (r: bool)
        ensures
            r == self.below(sub, sup),
    {
        self.pairs.contains(sub, sup)
    }
}

/// A classification: which named classes are unsatisfiable, and which is
/// found to be below which.
#[derive(Debug)]
pub struct ClassHierarchy {
    pairs: ClassPairs,
    unsatisfiable: HashSet<u64>,
}

impl ClassHierarchy {
    /// `sub` is found to be below `sup`.
    pub closed spec fn below(self, sub: ClassId, sup: ClassId) -> bool {
        self.pairs.has(sub, sup)
    }

    /// The class is found to be unsatisfiable.
    pub closed spec fn impossible(self, c: ClassId) -> bool {
        self.unsatisfiable@.contains(c.0 as u64)
    }

    /// `sub` is below `sup`, and not the other way round.
    pub open spec fn strictly_below(self, sub: ClassId, sup: ClassId) -> bool {
        sub != sup && self.below(sub, sup) && !self.below(sup, sub)
    }

    /// The classification in which nothing is found.
    pub fn new() -> (r: ClassHierarchy)
        ensures
            forall|a: ClassId, b: ClassId| !r.below(a, b),
            forall|c: ClassId| !r.impossible(c),
    {
        ClassHierarchy { pairs: ClassPairs::empty(), unsatisfiable: HashSet::new() }
    }

    /// Adds that `sub` is below `sup`.
    pub fn insert(&mut self, sub: ClassId, sup: ClassId)
        ensures
            forall|x: ClassId, y: ClassId| #[trigger]
                final(self).below(x, y) <==> old(self).below(x, y) || (x == sub && y == sup),
            forall|c: ClassId| final(self).impossible(c) == old(self).impossible(c),
    {
        self.pairs.add_pair(sub, sup);
        assert forall|x: ClassId, y: ClassId| #[trigger]
            self.below(x, y) <==> old(self).below(x, y) || (x == sub && y == sup) by {
            assert(self.pairs.has(x, y) <==> old(self).pairs.has(x, y) || (x == sub && y == sup));
        }
    }

    /// Adds that `c` is unsatisfiable.
    pub fn insert_unsatisfiable(&mut self, c: ClassId)
        ensures
            forall|x: ClassId| #[trigger]
                final(self).impossible(x) <==> old(self).impossible(x) || x == c,
            forall|a: ClassId, b: ClassId| final(self).below(a, b) == old(self).below(a, b),
    {
        self.unsatisfiable.insert(c.index() as u64);
    }

    /// Whether `sub` is found to be below `sup`.
    pub fn is_subclass(&self, sub: ClassId, sup: ClassId) -> (r: bool)
        ensures
            r == self.below(sub, sup),
    {
        self.pairs.contains(sub, sup)
    }

    /// Whether `c` is found to be unsatisfiable.
    pub fn is_unsatisfiable(&self, c: ClassId) -> (r: bool)
        ensures
            r == self.impossible(c),
    {
        self.unsatisfiable.contains(&(c.index() as u64))
    }

    /// Whether `sub` is below `sup`, and not the other way round.
    pub fn is_strict_subclass(&self, sub: ClassId, sup: ClassId) -> (r: bool)
        ensures
            r == self.strictly_below(sub, sup),
            r == (self.below(sub, sup) && !self.below(sup, sub)),
    {
        sub != sup && self.is_subclass(sub, sup) && !self.is_subclass(sup, sub)
    }
}

} // verus!
