//! Properties that tie the operations of the library together.

use crate::domains::{Domain, DomainType};
use crate::graph::{
    has_edge, is_root, is_topological_order, lists_in_neighbors, lists_out_neighbors, lists_roots, Matrix,
};
use crate::mythos::{follows_level_rule, is_first_in, level_step, Entity};
use vstd::prelude::*;

verus! {

/// An entity is among the roots (`get_roots`) exactly when the list of the
/// entities that relate to it (`get_adj_in`) is empty.
pub proof fn law_roots_are_without_parents(m: Matrix, roots: Seq<usize>, v: int, adj: Seq<usize>)
    requires
        0 <= v < m.len(),
        m.len() <= usize::MAX,
        lists_roots(m, roots, m.len()),
        lists_in_neighbors(m, v, adj, m.len()),
    ensures
        roots.contains(v as usize) <==> adj.len() == 0,
{
    if roots.contains(v as usize) {
        let a = choose|a: int| 0 <= a < roots.len() && roots[a] == v as usize;
        assert(is_root(m, roots[a] as int));
        if adj.len() > 0 {
            assert(has_edge(m, adj[0] as int, v));
        }
    }
    if adj.len() == 0 {
        assert forall|k: int| 0 <= k < m.len() implies !#[trigger] has_edge(m, k, v) by {
            if has_edge(m, k, v) {
                assert(adj.contains(k as usize));
            }
        }
        assert(is_root(m, v));
    }
}

/// In a topological order (`get_topological_sort`) every entity that relates
/// to `v` (`get_adj_in(v)`) comes before `v`.
pub proof fn law_parents_come_first(m: Matrix, order: Seq<usize>, v: int, adj: Seq<usize>, x: int)
    requires
        0 <= v < m.len(),
        m.len() <= usize::MAX,
        is_topological_order(m, order),
        lists_in_neighbors(m, v, adj, m.len()),
        0 <= x < adj.len(),
    ensures
        exists|a: int, b: int|
            0 <= a < b < order.len() && #[trigger] order[a] == adj[x] && #[trigger] order[b] == v as usize,
{
    assert(order.contains(adj[x]));
    assert(order.contains(v as usize));
    let a = choose|a: int| 0 <= a < order.len() && order[a] == adj[x];
    let b = choose|b: int| 0 <= b < order.len() && order[b] == v as usize;
    assert(has_edge(m, order[a] as int, order[b] as int));
}

/// The first entity that `get_adj_in(v)` lists is the lowest-numbered
/// entity that relates to `v`: the one whose relation the level and domain
/// rules go by.
pub proof fn law_first_listed_parent(m: Matrix, v: int, adj: Seq<usize>)
    requires
        0 <= v < m.len(),
        lists_in_neighbors(m, v, adj, m.len()),
        adj.len() > 0,
    ensures
        is_first_in(m, v, adj[0] as int),
{
    assert(has_edge(m, adj[0] as int, v));
    assert forall|k: int| 0 <= k < adj[0] implies !#[trigger] has_edge(m, k, v) by {
        if has_edge(m, k, v) {
            assert(adj.contains(k as usize));
        }
    }
}

/// Under the level rule, an invoked entity is one level below its strongest
/// invoker, a created entity one level above its strongest creator, and a
/// child at the level of its strongest parent: its level, moved back by the
/// relation, is the lowest level among the entities that relate to it.
pub proof fn law_level_against_parents(m: Matrix, ents: Seq<Entity>, v: int, adj: Seq<usize>)
    requires
        0 <= v < m.len(),
        m.len() <= usize::MAX,
        ents.len() == m.len(),
        lists_in_neighbors(m, v, adj, m.len()),
        adj.len() > 0,
        follows_level_rule(m, ents, v),
    ensures
        forall|x: int|
            0 <= x < adj.len() ==> ents[v].level - level_step(m[adj[0] as int][v]) <= #[trigger] ents[adj[x] as int].level,
        exists|x: int|
            0 <= x < adj.len() && ents[v].level - level_step(m[adj[0] as int][v]) == #[trigger] ents[adj[x] as int].level,
{
    law_first_listed_parent(m, v, adj);
    let f = adj[0] as int;
    assert(is_first_in(m, v, f));
    let target = ents[v].level - level_step(m[f][v]);
    assert forall|x: int| 0 <= x < adj.len() implies target <= #[trigger] ents[adj[x] as int].level by {
        assert(has_edge(m, adj[x] as int, v));
    }
    let j = choose|j: int| 0 <= j < m.len() && #[trigger] has_edge(m, j, v) && ents[j].level == target;
    assert(adj.contains(j as usize));
    let x = choose|x: int| 0 <= x < adj.len() && adj[x] == j as usize;
    assert(ents[adj[x] as int].level == target);
}

/// When primary and secundary are ranked, no element is stronger than the
/// primary, and only the primary is stronger than the secundary.
pub proof fn law_primary_is_strongest(d: Domain)
    requires
        d.ranks_set(),
    ensures
        forall|t: DomainType| #[trigger] d.value(t) <= d.value(d.primary_of().unwrap()),
        forall|t: DomainType|
            t != d.primary_of().unwrap() ==> #[trigger] d.value(t) <= d.value(d.secundary_of().unwrap()),
        d.primary_of().unwrap() != d.secundary_of().unwrap(),
{
    let p = d.primary_of().unwrap();
    let s = d.secundary_of().unwrap();
    assert forall|t: DomainType| #[trigger] d.value(t) <= d.value(p) by {
        if t != p {
            assert(d.rank_key(t) < d.rank_key(p));
        }
    }
    assert forall|t: DomainType| t != p implies #[trigger] d.value(t) <= d.value(s) by {
        if t != s {
            assert(d.rank_key(t) < d.rank_key(s));
        }
    }
}

/// The entities that `j` lists as relating to it (`adjacent_in`) and those
/// that `i` lists as related to (`adjacent_out`) agree with each other and
/// with the matrix: `i` is among the first exactly when `j` is among the
/// second, exactly when there is a relation from `i` to `j`.
pub proof fn law_in_and_out_agree(m: Matrix, i: int, j: int, ins: Seq<usize>, outs: Seq<usize>)
    requires
        0 <= i < m.len(),
        0 <= j < m.len(),
        m.len() <= usize::MAX,
        lists_in_neighbors(m, j, ins, m.len()),
        lists_out_neighbors(m, i, outs, m.len()),
    ensures
        ins.contains(i as usize) <==> has_edge(m, i, j),
        outs.contains(j as usize) <==> has_edge(m, i, j),
{
    if ins.contains(i as usize) {
        let a = choose|a: int| 0 <= a < ins.len() && ins[a] == i as usize;
        assert(has_edge(m, ins[a] as int, j));
    }
    if outs.contains(j as usize) {
        let a = choose|a: int| 0 <= a < outs.len() && outs[a] == j as usize;
        assert(has_edge(m, i, outs[a] as int));
    }
}

/// Going to the next element of the cycle and back, or back and then to the
/// next, returns to the same element, and no element precedes itself.
pub proof fn law_next_and_prev_invert(d: DomainType)
    ensures
        d.spec_next().spec_prev() == d,
        d.spec_prev().spec_next() == d,
        d.spec_prev() != d,
        d.spec_next() != d,
{
    match d {
        DomainType::Water => {},
        DomainType::Earth => {},
        DomainType::Fire => {},
        DomainType::Air => {},
    }
}

} // verus!
