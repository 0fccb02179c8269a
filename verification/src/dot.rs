//! The relation graph of a mythos in the Graphviz dot language.

use crate::graph::Matrix;
use crate::mythos::{Entity, Mythos};
use crate::relations::RelationType;
use crate::text::{push_signed_decimal, signed_decimal};
use vstd::prelude::*;

verus! {

/// The node of an entity: a rounded record with its name and level.
pub open spec fn entity_dot(e: Entity) -> Seq<char> {
    e.name@ + " [label=\"{ "@ + e.name@ + " | "@ + signed_decimal(e.level as int)
        + " }\" color=\"#e9e9f4\" fontcolor=\"#e9e9f4\"]"@
}

/// The colour of an edge by relation type.
pub open spec fn relation_color(r: RelationType) -> Seq<char> {
    match r {
        RelationType::Base => "#909090"@,
        RelationType::Invoker => "#ea51b2"@,
        RelationType::Creator => "#00f769"@,
        RelationType::Parent => "#62d6e8"@,
    }
}

/// The edge from entity `i` to entity `j` of relation type `r`.
pub open spec fn relation_dot(ents: Seq<Entity>, i: int, j: int, r: RelationType) -> Seq<char> {
    ents[i].name@ + " -> "@ + ents[j].name@ + " [color=\""@ + relation_color(r) + "\"]"@
}

/// The node lines of entities `0..k`, each indented by a tab.
pub open spec fn entity_lines(ents: Seq<Entity>, k: int) -> Seq<char>
    decreases k,
{
    if k <= 0 {
        Seq::empty()
    } else {
        entity_lines(ents, k - 1) + "\t"@ + entity_dot(ents[k - 1]) + "\n"@
    }
}

/// The edge lines from entity `i` to entities `0..k`, each indented by a tab.
pub open spec fn row_lines(m: Matrix, ents: Seq<Entity>, i: int, k: int) -> Seq<char>
    decreases k,
{
    if k <= 0 {
        Seq::empty()
    } else {
        row_lines(m, ents, i, k - 1) + match m[i][k - 1] {
            Some(r) => "\t"@ + relation_dot(ents, i, k - 1, r) + "\n"@,
            None => Seq::empty(),
        }
    }
}

/// The edge lines from entities `0..k` to all `n` entities, row by row.
pub open spec fn edge_lines(m: Matrix, ents: Seq<Entity>, k: int, n: int) -> Seq<char>
    decreases k,
{
    if k <= 0 {
        Seq::empty()
    } else {
        edge_lines(m, ents, k - 1, n) + row_lines(m, ents, k - 1, n)
    }
}

/// The whole graph: a header, the node lines, a blank line, the edge lines
/// among the entities and a closing brace.
pub open spec fn dot_text(m: Matrix, ents: Seq<Entity>) -> Seq<char> {
    "digraph G {\n"@ + "\tgraph [bgcolor=\"#282936\"]\n"@ + "\tnode [shape=record style=rounded]\n\n"@
        + entity_lines(ents, ents.len() as int) + "\n"@ + edge_lines(m, ents, ents.len() as int, ents.len() as int)
        + "}"@
}

/// `line` occurs in `text` starting at position `a`.
pub open spec fn occurs_at(text: Seq<char>, line: Seq<char>, a: int) -> bool {
    &&& 0 <= a
    &&& a + line.len() <= text.len()
    &&& text.subrange(a, a + line.len()) == line
}

proof fn lemma_occurs_after_prefix(p: Seq<char>, x: Seq<char>, line: Seq<char>, a: int)
    requires
        occurs_at(x, line, a),
    ensures
        occurs_at(p + x, line, a + p.len()),
{
    assert((p + x).subrange(a + p.len(), a + p.len() + line.len()) =~= x.subrange(a, a + line.len()));
}

proof fn lemma_occurs_before_suffix(x: Seq<char>, q: Seq<char>, line: Seq<char>, a: int)
    requires
        occurs_at(x, line, a),
    ensures
        occurs_at(x + q, line, a),
{
    assert((x + q).subrange(a, a + line.len()) =~= x.subrange(a, a + line.len()));
}

/// The line that a relation of type `r` from `i` to `j` gets.
pub open spec fn edge_line(ents: Seq<Entity>, i: int, j: int, r: RelationType) -> Seq<char> {
    "\t"@ + relation_dot(ents, i, j, r) + "\n"@
}

proof fn lemma_row_has_edge(m: Matrix, ents: Seq<Entity>, i: int, j: int, k: int)
    requires
        0 <= j < k,
        m[i][j] is Some,
    ensures
        exists|a: int| occurs_at(row_lines(m, ents, i, k), edge_line(ents, i, j, m[i][j].unwrap()), a),
    decreases k,
{
    let line = edge_line(ents, i, j, m[i][j].unwrap());
    let prev = row_lines(m, ents, i, k - 1);
    if j == k - 1 {
        assert(row_lines(m, ents, i, k) == prev + line);
        assert(occurs_at(line, line, 0)) by {
            assert(line.subrange(0, line.len() as int) =~= line);
        }
        lemma_occurs_after_prefix(prev, line, line, 0);
        assert(prev + line == row_lines(m, ents, i, k));
    } else {
        lemma_row_has_edge(m, ents, i, j, k - 1);
        let a = choose|a: int| occurs_at(prev, line, a);
        let rest = match m[i][k - 1] {
            Some(r) => "\t"@ + relation_dot(ents, i, k - 1, r) + "\n"@,
            None => Seq::empty(),
        };
        assert(row_lines(m, ents, i, k) == prev + rest);
        lemma_occurs_before_suffix(prev, rest, line, a);
    }
}

proof fn lemma_rows_have_edge(m: Matrix, ents: Seq<Entity>, i: int, j: int, k: int, n: int)
    requires
        0 <= i < k,
        0 <= j < n,
        m[i][j] is Some,
    ensures
        exists|a: int| occurs_at(edge_lines(m, ents, k, n), edge_line(ents, i, j, m[i][j].unwrap()), a),
    decreases k,
{
    let line = edge_line(ents, i, j, m[i][j].unwrap());
    let prev = edge_lines(m, ents, k - 1, n);
    let row = row_lines(m, ents, k - 1, n);
    assert(edge_lines(m, ents, k, n) == prev + row);
    if i == k - 1 {
        lemma_row_has_edge(m, ents, i, j, n);
        let a = choose|a: int| occurs_at(row, line, a);
        lemma_occurs_after_prefix(prev, row, line, a);
    } else {
        lemma_rows_have_edge(m, ents, i, j, k - 1, n);
        let a = choose|a: int| occurs_at(prev, line, a);
        lemma_occurs_before_suffix(prev, row, line, a);
    }
}

/// Every relation of the matrix, in either direction between any two
/// entities, has its coloured edge line in the graph.
pub proof fn law_every_relation_has_an_edge(m: Matrix, ents: Seq<Entity>, i: int, j: int)
    requires
        0 <= i < ents.len(),
        0 <= j < ents.len(),
        m[i][j] is Some,
    ensures
        exists|a: int| occurs_at(dot_text(m, ents), edge_line(ents, i, j, m[i][j].unwrap()), a),
{
    let n = ents.len() as int;
    let line = edge_line(ents, i, j, m[i][j].unwrap());
    let p = "digraph G {\n"@ + "\tgraph [bgcolor=\"#282936\"]\n"@ + "\tnode [shape=record style=rounded]\n\n"@
        + entity_lines(ents, n) + "\n"@;
    let e = edge_lines(m, ents, n, n);
    lemma_rows_have_edge(m, ents, i, j, n, n);
    let a = choose|a: int| occurs_at(e, line, a);
    lemma_occurs_after_prefix(p, e, line, a);
    lemma_occurs_before_suffix(p + e, "}"@, line, a + p.len());
    assert(dot_text(m, ents) == p + e + "}"@);
}

fn entity_to_dot(entity: &Entity) -> (s: String)
    ensures
        s@ == entity_dot(*entity),
{
    let mut s = String::new();
    s.append(entity.name.as_str());
    s.append(" [label=\"{ ");
    s.append(entity.name.as_str());
    s.append(" | ");
    push_signed_decimal(&mut s, entity.level);
    s.append(" }\" color=\"#e9e9f4\" fontcolor=\"#e9e9f4\"]");
    assert(s@ =~= entity_dot(*entity));
    s
}

fn get_color(rt: &RelationType) -> (s: &'static str)
    ensures
        s@ == relation_color(*rt),
{
    match rt {
        RelationType::Base => "#909090",
        RelationType::Invoker => "#ea51b2",
        RelationType::Creator => "#00f769",
        RelationType::Parent => "#62d6e8",
    }
}

fn relation_to_dot(mythos: &Mythos, i: usize, j: usize, rt: &RelationType) -> (s: String)
    requires
        i < mythos.entites.len(),
        j < mythos.entites.len(),
    ensures
        s@ == relation_dot(mythos.entites@, i as int, j as int, *rt),
{
    let mut s = String::new();
    s.append(mythos.entites[i].name.as_str());
    s.append(" -> ");
    s.append(mythos.entites[j].name.as_str());
    s.append(" [color=\"");
    s.append(get_color(rt));
    s.append("\"]");
    assert(s@ =~= relation_dot(mythos.entites@, i as int, j as int, *rt));
    s
}

/// The relation graph of the mythos in the dot language: one record node
/// per entity, labelled with its name and level, and one coloured edge per
/// relation.
pub fn relations_to_dot(mythos: &Mythos) -> (s: String)
    requires
        mythos.relations.wf(),
        mythos.entites.len() <= mythos.relations.size_of(),
    ensures
        s@ == dot_text(mythos.relations@, mythos.entites@),
{
    let ghost m = mythos.relations@;
    let ghost ents = mythos.entites@;
    let mut s = String::from_str("digraph G {\n");
    s.append("\tgraph [bgcolor=\"#282936\"]\n");
    s.append("\tnode [shape=record style=rounded]\n\n");
    let ghost header = s@;
    let n = mythos.entites.len();
    for k in 0..n
        invariant
            n == mythos.entites.len(),
            ents == mythos.entites@,
            s@ == header + entity_lines(ents, k as int),
    {
        s.append("\t");
        let line = entity_to_dot(&mythos.entites[k]);
        s.append(line.as_str());
        s.append("\n");
        assert(s@ =~= header + entity_lines(ents, k + 1));
    }
    s.append("\n");
    let ghost nodes = s@;
    for i in 0..n
        invariant
            mythos.relations.wf(),
            n <= mythos.relations.size_of(),
            n == mythos.entites.len(),
            ents == mythos.entites@,
            m == mythos.relations@,
            s@ == nodes + edge_lines(m, ents, i as int, n as int),
    {
        let ghost row_start = s@;
        for j in 0..n
            invariant
                mythos.relations.wf(),
                n <= mythos.relations.size_of(),
                i < n,
                n == mythos.entites.len(),
                ents == mythos.entites@,
                m == mythos.relations@,
                s@ == row_start + row_lines(m, ents, i as int, j as int),
        {
            match &mythos.relations.get_relation(i, j) {
                Some(rt) => {
                    s.append("\t");
                    let line = relation_to_dot(mythos, i, j, rt);
                    s.append(line.as_str());
                    s.append("\n");
                },
                None => {},
            }
            assert(s@ =~= row_start + row_lines(m, ents, i as int, j + 1));
        }
        assert(s@ =~= nodes + edge_lines(m, ents, i + 1, n as int));
    }
    s.append("}");
    assert(s@ =~= dot_text(m, ents));
    s
}

} // verus!
