//! The prose description of a mythos: one sentence per entity.

use crate::domains::{Domain, DomainType};
use crate::graph::{has_edge, is_root, lemma_parents_of, parents_of, Matrix};
use crate::mythos::{Entity, Mythos};
use crate::relations::RelationType;
use vstd::prelude::*;

verus! {

/// The word for an element.
pub open spec fn element_name(t: DomainType) -> Seq<char> {
    match t {
        DomainType::Water => "water"@,
        DomainType::Earth => "earth"@,
        DomainType::Fire => "fire"@,
        DomainType::Air => "air"@,
    }
}

/// Each element is written as its own name in lower case: water, earth,
/// fire, air.
pub proof fn law_element_names(t: DomainType)
    ensures
        t == DomainType::Water ==> element_name(t) == seq!['w', 'a', 't', 'e', 'r'],
        t == DomainType::Earth ==> element_name(t) == seq!['e', 'a', 'r', 't', 'h'],
        t == DomainType::Fire ==> element_name(t) == seq!['f', 'i', 'r', 'e'],
        t == DomainType::Air ==> element_name(t) == seq!['a', 'i', 'r'],
{
    reveal_strlit("water");
    reveal_strlit("earth");
    reveal_strlit("fire");
    reveal_strlit("air");
}

/// Each relation type is written as its own verb: invoked, created,
/// children.
pub proof fn law_relation_phrases(r: RelationType)
    ensures
        r == RelationType::Invoker ==> relation_phrase(r) == seq![' ', 'i', 'n', 'v', 'o', 'k', 'e', 'd', ' ', 'b', 'y'],
        r == RelationType::Creator ==> relation_phrase(r) == seq![' ', 'c', 'r', 'e', 'a', 't', 'e', 'd', ' ', 'b', 'y'],
        r == RelationType::Parent ==> relation_phrase(r) == seq![' ', 'c', 'h', 'i', 'l', 'd', 'r', 'e', 'n', ' ', 'o', 'f'],
        r == RelationType::Base ==> relation_phrase(r) == Seq::<char>::empty(),
{
    reveal_strlit(" invoked by");
    reveal_strlit(" created by");
    reveal_strlit(" children of");
    reveal_strlit("");
}

/// `master of <primary> and <secundary>`.
pub open spec fn domain_text(d: Domain) -> Seq<char> {
    "master of "@ + element_name(d.primary_of().unwrap()) + " and "@ + element_name(
        d.secundary_of().unwrap(),
    )
}

/// How an entity came about, by the type of relation: ` invoked by`,
/// ` created by`, ` children of`, and nothing for a `Base` relation.
pub open spec fn relation_phrase(r: RelationType) -> Seq<char> {
    match r {
        RelationType::Invoker => " invoked by"@,
        RelationType::Creator => " created by"@,
        RelationType::Parent => " children of"@,
        RelationType::Base => ""@,
    }
}

/// `, n1, n2, ..., n(k-1)`: the names at positions `1..k`, each after a comma.
pub open spec fn names_tail(names: Seq<Seq<char>>, k: int) -> Seq<char>
    decreases k,
{
    if k <= 1 {
        Seq::empty()
    } else {
        names_tail(names, k - 1) + ", "@ + names[k - 1]
    }
}

/// A non-empty list of names in prose: `a`, `a and b`, `a, b and c`, ...
pub open spec fn joined_names(names: Seq<Seq<char>>) -> Seq<char> {
    if names.len() == 1 {
        names[0]
    } else {
        names[0] + names_tail(names, names.len() - 1) + " and "@ + names.last()
    }
}

/// The names of the entities listed in `v`, in the same order.
pub open spec fn names_of(ents: Seq<Entity>, v: Seq<usize>) -> Seq<Seq<char>> {
    v.map_values(|j: usize| ents[j as int].name@)
}

/// The sentence about entity `e`: its name; then, when it has a primary
/// element, `, master of ... and ...,`; then ` children of the Void` when
/// nothing relates to it, otherwise how it came about (by the relation from
/// the lowest-numbered entity that relates to it) and the names of all
/// entities that relate to it; then a full stop.
pub open spec fn entity_description_text(m: Matrix, ents: Seq<Entity>, e: int) -> Seq<char> {
    let ent = ents[e];
    let head = if ent.domain.primary_of() is Some {
        ent.name@ + ", "@ + domain_text(ent.domain) + ","@
    } else {
        ent.name@
    };
    let origin = if is_root(m, e) {
        " children of the Void"@
    } else {
        let ps = parents_of(m, e);
        relation_phrase(m[ps[0] as int][e].unwrap()) + " "@ + joined_names(names_of(ents, ps))
    };
    head + origin + "."@
}

/// The sentences about entities `0..k`, one per line.
pub open spec fn descriptions_text(m: Matrix, ents: Seq<Entity>, k: int) -> Seq<char>
    decreases k,
{
    if k <= 1 {
        entity_description_text(m, ents, 0)
    } else {
        descriptions_text(m, ents, k - 1) + "\n"@ + entity_description_text(m, ents, k - 1)
    }
}

/// Entities whose domain has a primary element also have a secundary one.
pub open spec fn domains_ranked_in_pairs(ents: Seq<Entity>) -> bool {
    forall|e: int|
        0 <= e < ents.len() && (#[trigger] ents[e].domain.primary_of() is Some) ==> ents[e].domain.secundary_of() is Some
}

fn element_word(t: DomainType) -> (s: &'static str)
    ensures
        s@ == element_name(t),
{
    match t {
        DomainType::Water => "water",
        DomainType::Earth => "earth",
        DomainType::Fire => "fire",
        DomainType::Air => "air",
    }
}

/// The names of the listed entities in prose.
fn get_names(mythos: &Mythos, v: Vec<usize>) -> (s: String)
    requires
        v.len() >= 1,
        forall|x: int| 0 <= x < v.len() ==> #[trigger] v@[x] < mythos.entites.len(),
    ensures
        s@ == joined_names(names_of(mythos.entites@, v@)),
{
    let ghost names = names_of(mythos.entites@, v@);
    let n = v.len();
    let mut s: String = String::new();
    s.append(mythos.entites[v[0]].name.as_str());
    assert(s@ == names[0]);
    if n == 2 {
        s.append(" and ");
        s.append(mythos.entites[v[1]].name.as_str());
        assert(s@ =~= joined_names(names));
    } else if n > 2 {
        for i in 1..n - 1
            invariant
                n == v.len(),
                n > 2,
                forall|x: int| 0 <= x < v.len() ==> #[trigger] v@[x] < mythos.entites.len(),
                names == names_of(mythos.entites@, v@),
                s@ == names[0] + names_tail(names, i as int),
        {
            s.append(", ");
            s.append(mythos.entites[v[i]].name.as_str());
            assert(s@ =~= names[0] + names_tail(names, i + 1));
        }
        s.append(" and ");
        s.append(mythos.entites[v[n - 1]].name.as_str());
        assert(s@ =~= joined_names(names));
    }
    s
}

/// `master of <primary> and <secundary>`.
fn get_entity_domain(domain: &Domain) -> (s: String)
    requires
        domain.primary_of() is Some,
        domain.secundary_of() is Some,
    ensures
        s@ == domain_text(*domain),
{
    let mut s = String::from_str("master of ");
    s.append(element_word(domain.get_primary().unwrap()));
    s.append(" and ");
    s.append(element_word(domain.get_secundary().unwrap()));
    assert(s@ =~= domain_text(*domain));
    s
}

/// The sentence about entity `e`.
fn entity_description(mythos: &Mythos, e: usize) -> (s: String)
    requires
        mythos.wf(),
        e < mythos.entites.len(),
        mythos.entites@[e as int].domain.primary_of() is Some ==> mythos.entites@[e as int].domain.secundary_of() is Some,
    ensures
        s@ == entity_description_text(mythos.relations@, mythos.entites@, e as int),
{
    let ghost m = mythos.relations@;
    let ghost ents = mythos.entites@;
    let mut s = String::new();
    s.append(mythos.entites[e].name.as_str());
    if mythos.entites[e].domain.get_primary().is_some() {
        assert(ents[e as int].domain.primary_of() is Some);
        s.append(", ");
        let dt = get_entity_domain(&mythos.entites[e].domain);
        s.append(dt.as_str());
        s.append(",");
    }
    let ghost head = s@;
    let adj_in = mythos.relations.get_adj_in(e);
    proof {
        lemma_parents_of(m, e as int, adj_in@);
    }
    if adj_in.len() == 0 {
        proof {
            assert forall|k: int| 0 <= k < m.len() implies !#[trigger] has_edge(m, k, e as int) by {
                if has_edge(m, k, e as int) {
                    assert(adj_in@.contains(k as usize));
                }
            }
        }
        s.append(" children of the Void");
    } else {
        proof {
            assert(has_edge(m, adj_in@[0] as int, e as int));
        }
        let rt = mythos.relations.get_relation(adj_in[0], e).unwrap();
        let phrase = match rt {
            RelationType::Invoker => " invoked by",
            RelationType::Creator => " created by",
            RelationType::Parent => " children of",
            RelationType::Base => "",
        };
        assert(phrase@ == relation_phrase(rt));
        s.append(phrase);
        s.append(" ");
        let names = get_names(mythos, adj_in);
        s.append(names.as_str());
    }
    s.append(".");
    assert(s@ =~= entity_description_text(m, ents, e as int));
    s
}

/// The description of the mythos: one sentence per entity, one per line,
/// with no line break after the last. A mythos without entities has no last
/// line, so there must be at least one entity.
pub fn get_descriptions(mythos: &Mythos) -> (s: String)
    requires
        mythos.wf(),
        mythos.entites.len() >= 1,
        domains_ranked_in_pairs(mythos.entites@),
    ensures
        s@ == descriptions_text(mythos.relations@, mythos.entites@, mythos.entites.len() as int),
{
    let ghost m = mythos.relations@;
    let ghost ents = mythos.entites@;
    let mut s: String = String::new();
    let n = mythos.entites.len();
    for i in 0..n - 1
        invariant
            mythos.wf(),
            n == mythos.entites.len(),
            n >= 1,
            domains_ranked_in_pairs(mythos.entites@),
            m == mythos.relations@,
            ents == mythos.entites@,
            i == 0 ==> s@ == Seq::<char>::empty(),
            i > 0 ==> s@ == descriptions_text(m, ents, i as int) + "\n"@,
    {
        assert(mythos.entites@[i as int].domain.primary_of() is Some ==> mythos.entites@[i as int].domain.secundary_of() is Some);
        let d = entity_description(mythos, i);
        s.append(d.as_str());
        s.append("\n");
        proof {
            if i == 0 {
                assert(s@ =~= descriptions_text(m, ents, 1) + "\n"@);
            } else {
                assert(s@ =~= descriptions_text(m, ents, i + 1) + "\n"@);
            }
        }
    }
    assert(mythos.entites@[n - 1].domain.primary_of() is Some ==> mythos.entites@[n - 1].domain.secundary_of() is Some);
    let last = entity_description(mythos, n - 1);
    s.append(last.as_str());
    proof {
        if n == 1 {
            assert(s@ =~= descriptions_text(m, ents, 1));
        } else {
            assert(s@ =~= descriptions_text(m, ents, n as int));
        }
    }
    s
}

} // verus!
