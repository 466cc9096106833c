//! Entailed object-property assertions between individuals, by name.

use vstd::prelude::*;
use crate::ids::{IndividualId, RoleId};
use crate::ontology::Vocabulary;

verus! {

/// The names of the built-in object properties, which hold between all
/// individuals or none.
pub open spec fn builtin(name: Seq<char>) -> bool {
    ||| name == "http://www.w3.org/2002/07/owl#topObjectProperty"@
    ||| name == "http://www.w3.org/2002/07/owl#bottomObjectProperty"@
}

/// Whether the name is that of a built-in object property.
pub fn is_builtin_object_property(iri: &str) -> (r: bool)
    ensures
        r == builtin(iri@),
        r == (iri@ == "http://www.w3.org/2002/07/owl#topObjectProperty"@ || iri@
            == "http://www.w3.org/2002/07/owl#bottomObjectProperty"@),
{
    let name = iri.to_owned();
    name == "http://www.w3.org/2002/07/owl#topObjectProperty".to_owned() || name
        == "http://www.w3.org/2002/07/owl#bottomObjectProperty".to_owned()
}

/// An assertion, by name: source, property, target.
pub open spec fn named_edge(v: Vocabulary, e: (RoleId, IndividualId, IndividualId)) -> (
    Seq<char>,
    Seq<char>,
    Seq<char>,
) {
    (
        v.individual_names()[e.1.0 as int],
        v.role_names()[e.0.0 as int],
        v.individual_names()[e.2.0 as int],
    )
}

/// The assertions among the first `n` edges, by name; built-in properties
/// are left out.
pub open spec fn materialized(
    v: Vocabulary,
    edges: Seq<(RoleId, IndividualId, IndividualId)>,
    n: int,
) -> Seq<(Seq<char>, Seq<char>, Seq<char>)>
    decreases n,
{
    if n <= 0 {
        Seq::empty()
    } else {
        let rest = materialized(v, edges, n - 1);
        if builtin(v.role_names()[edges[n - 1].0.0 as int]) {
            rest
        } else {
            rest.push(named_edge(v, edges[n - 1]))
        }
    }
}

/// The texts of the triples in a vector.
pub open spec fn triple_texts(v: Seq<(String, String, String)>) -> Seq<
    (Seq<char>, Seq<char>, Seq<char>),
> {
    v.map_values(|t: (String, String, String)| (t.0@, t.1@, t.2@))
}

/// The edge is between individuals of the vocabulary, along a property of it.
pub open spec fn edge_known(v: Vocabulary, e: (RoleId, IndividualId, IndividualId)) -> bool {
    &&& e.0.0 < v.role_names().len()
    &&& e.1.0 < v.individual_names().len()
    &&& e.2.0 < v.individual_names().len()
}

/// The saturated edges between individuals as assertions: source, property
/// and target, by name. Asserted edges are among them. Built-in properties
/// are left out.
pub fn materialize_object_property_assertions(
    vocabulary: &Vocabulary,
    edges: &Vec<(RoleId, IndividualId, IndividualId)>,
) -> (out: Vec<(String, String, String)>)
    requires
        forall|i: int| 0 <= i < edges@.len() ==> edge_known(*vocabulary, #[trigger] edges@[i]),
    ensures
        triple_texts(out@) == materialized(*vocabulary, edges@, edges@.len() as int),
{
    let mut out: Vec<(String, String, String)> = Vec::new();
    let mut i: usize = 0;
    assert(triple_texts(out@) =~= Seq::empty());
    while i < edges.len()
        invariant
            forall|i: int| 0 <= i < edges@.len() ==> edge_known(*vocabulary, #[trigger] edges@[i]),
            i <= edges@.len(),
            triple_texts(out@) == materialized(*vocabulary, edges@, i as int),
        decreases edges@.len() - i,
    {
        let (role, src, tgt) = edges[i];
        assert(edge_known(*vocabulary, edges@[i as int]));
        let prop = vocabulary.role_iri(role);
        if !is_builtin_object_property(prop.as_str()) {
            let ghost t0 = out@;
            out.push(
                (
                    vocabulary.individual_iri(src).clone(),
                    prop.clone(),
                    vocabulary.individual_iri(tgt).clone(),
                ),
            );
            assert(triple_texts(out@) =~= triple_texts(t0).push(
                named_edge(*vocabulary, edges@[i as int]),
            ));
        }
        i += 1;
    }
    out
}

/// What is materialized is exactly the edges whose property is not built in.
pub proof fn lemma_materialized(
    v: Vocabulary,
    edges: Seq<(RoleId, IndividualId, IndividualId)>,
    n: int,
    t: (Seq<char>, Seq<char>, Seq<char>),
)
    requires
        0 <= n <= edges.len(),
    ensures
        materialized(v, edges, n).contains(t) <==> exists|i: int|
            0 <= i < n && #[trigger] named_edge(v, edges[i]) == t && !builtin(t.1),
    decreases n,
{
    if n > 0 {
        lemma_materialized(v, edges, n - 1, t);
        let rest = materialized(v, edges, n - 1);
        let last = named_edge(v, edges[n - 1]);
        crate::rules_wf::lemma_push_contains(rest, last);
        if materialized(v, edges, n).contains(t) {
            if rest.contains(t) {
                let i = choose|i: int|
                    0 <= i < n - 1 && #[trigger] named_edge(v, edges[i]) == t && !builtin(t.1);
                assert(named_edge(v, edges[i]) == t);
            } else {
                assert(named_edge(v, edges[n - 1]) == t);
            }
        }
    }
}

/// Every edge along a property of any name but the two of the properties that
/// hold between all individuals or none is among the assertions, by the names
/// of its property and its ends.
pub proof fn lemma_edge_materialized(
    v: Vocabulary,
    edges: Seq<(RoleId, IndividualId, IndividualId)>,
    i: int,
)
    requires
        0 <= i < edges.len(),
        v.role_names()[edges[i].0.0 as int]
            != "http://www.w3.org/2002/07/owl#topObjectProperty"@,
        v.role_names()[edges[i].0.0 as int]
            != "http://www.w3.org/2002/07/owl#bottomObjectProperty"@,
    ensures
        materialized(v, edges, edges.len() as int).contains(
            (
                v.individual_names()[edges[i].1.0 as int],
                v.role_names()[edges[i].0.0 as int],
                v.individual_names()[edges[i].2.0 as int],
            ),
        ),
{
    let t = (
        v.individual_names()[edges[i].1.0 as int],
        v.role_names()[edges[i].0.0 as int],
        v.individual_names()[edges[i].2.0 as int],
    );
    lemma_materialized(v, edges, edges.len() as int, t);
    assert(named_edge(v, edges[i]) == t);
}

/// An assertion stands for an edge, and is along neither of those two.
pub proof fn lemma_materialized_only(
    v: Vocabulary,
    edges: Seq<(RoleId, IndividualId, IndividualId)>,
    t: (Seq<char>, Seq<char>, Seq<char>),
)
    requires
        materialized(v, edges, edges.len() as int).contains(t),
    ensures
        t.1 != "http://www.w3.org/2002/07/owl#topObjectProperty"@,
        t.1 != "http://www.w3.org/2002/07/owl#bottomObjectProperty"@,
        exists|i: int|
            0 <= i < edges.len() && t.0 == v.individual_names()[(#[trigger] edges[i]).1.0 as int]
                && t.1 == v.role_names()[edges[i].0.0 as int] && t.2
                == v.individual_names()[edges[i].2.0 as int],
{
    lemma_materialized(v, edges, edges.len() as int, t);
    let i = choose|i: int|
        0 <= i < edges.len() && #[trigger] named_edge(v, edges[i]) == t && !builtin(t.1);
    assert(t.1 == v.role_names()[edges[i].0.0 as int]);
}

proof fn lemma_materialized_prefix(
    v: Vocabulary,
    a: Seq<(RoleId, IndividualId, IndividualId)>,
    b: Seq<(RoleId, IndividualId, IndividualId)>,
    n: int,
)
    requires
        n <= a.len(),
        n <= b.len(),
        forall|i: int| 0 <= i < n ==> #[trigger] a[i] == b[i],
    ensures
        materialized(v, a, n) == materialized(v, b, n),
    decreases n,
{
    if n > 0 {
        lemma_materialized_prefix(v, a, b, n - 1);
        assert(a[n - 1] == b[n - 1]);
    }
}

/// The assertions come in the order of the edges: one more edge adds one
/// assertion at the end, or none if it is along one of those two.
pub proof fn lemma_materialized_one_more(
    v: Vocabulary,
    edges: Seq<(RoleId, IndividualId, IndividualId)>,
    p: RoleId,
    a: IndividualId,
    b: IndividualId,
)
    ensures
        materialized(v, edges.push((p, a, b)), edges.len() as int + 1) == if v.role_names()[p.0 as int]
            == "http://www.w3.org/2002/07/owl#topObjectProperty"@ || v.role_names()[p.0 as int]
            == "http://www.w3.org/2002/07/owl#bottomObjectProperty"@ {
            materialized(v, edges, edges.len() as int)
        } else {
            materialized(v, edges, edges.len() as int).push(
                (
                    v.individual_names()[a.0 as int],
                    v.role_names()[p.0 as int],
                    v.individual_names()[b.0 as int],
                ),
            )
        },
        materialized(v, Seq::empty(), 0) == Seq::<(Seq<char>, Seq<char>, Seq<char>)>::empty(),
{
    let more = edges.push((p, a, b));
    lemma_materialized_prefix(v, edges, more, edges.len() as int);
    assert(more[edges.len() as int] == (p, a, b));
}

} // verus!
