//! The relations between the entities of a mythos, kept as an adjacency
//! matrix.

use crate::graph::{
    edge_count, has_no_edges, lemma_edge_count_positive, lemma_edge_count_same_edges,
    lemma_edge_count_update, lemma_row_count_update,
    dfs_order, dfs_upto, dfs_visit, dfs_visit_all, lemma_children_of,
    branches_once, edges_within, has_edge, increasing_below, is_acyclic, is_path, is_root,
    is_square, is_topological_order, lemma_acyclic_path_distinct, lemma_acyclic_within,
    lemma_add_edge_acyclic, lemma_closed_path, lemma_distinct_len, lemma_distinct_len_usize,
    lemma_no_way_back, lemma_path_push, lemma_reaches_prepend, lemma_reaches_self,
    lemma_reaches_step, lists_in_neighbors, lists_out_neighbors, lists_roots, only_adds_base,
    reaches, same_edges, Matrix,
};
use crate::random::random_below;
use vstd::prelude::*;

verus! {

/// How one entity stands to another.
#[derive(Debug, PartialEq, Eq, Structural, Clone, Copy)]
pub enum RelationType {
    Base,
    Parent,
    Invoker,
    Creator,
}


/// Number of entries set in a list of flags.
pub open spec fn num_true(v: Seq<bool>) -> nat
    decreases v.len(),
{
    if v.len() == 0 {
        0
    } else {
        num_true(v.drop_last()) + if v.last() {
            1nat
        } else {
            0nat
        }
    }
}

/// Setting an unset flag adds one to the count, which never exceeds the
/// length.
proof fn lemma_num_true_set(v: Seq<bool>, i: int)
    requires
        0 <= i < v.len(),
        !v[i],
    ensures
        num_true(v.update(i, true)) == num_true(v) + 1,
        num_true(v) < v.len(),
    decreases v.len(),
{
    let w = v.update(i, true);
    if i == v.len() - 1 {
        assert(w.drop_last() =~= v.drop_last());
        lemma_num_true_le(v.drop_last());
    } else {
        assert(w.drop_last() =~= v.drop_last().update(i, true));
        lemma_num_true_set(v.drop_last(), i);
    }
}

proof fn lemma_num_true_zero(v: Seq<bool>)
    requires
        forall|k: int| 0 <= k < v.len() ==> !#[trigger] v[k],
    ensures
        num_true(v) == 0,
    decreases v.len(),
{
    if v.len() > 0 {
        lemma_num_true_zero(v.drop_last());
    }
}

proof fn lemma_num_true_le(v: Seq<bool>)
    ensures
        num_true(v) <= v.len(),
    decreases v.len(),
{
    if v.len() > 0 {
        lemma_num_true_le(v.drop_last());
    }
}

/// All relations that end at `v` share one type, and it is not `Base`.
pub open spec fn has_uniform_in_type(m: Matrix, v: int) -> bool {
    exists|rt: RelationType| rt != RelationType::Base && #[trigger] in_edges_typed(m, v, rt)
}

/// What the cycle check demands of a relation from `src` to `d`: `d` does not
/// reach `src`, and reaches every entity along one path only.
pub open spec fn passes_cycle_check(m: Matrix, src: int, d: int) -> bool {
    !reaches(m, d, src) && branches_once(m, d)
}

/// `m2` is `m1` with the entry from `s` to `d` set to `Base`, where a
/// relation from `s` to `d` passes the cycle check in `m1`. The entry was
/// empty, unless the target was drawn anew for `s` after a first target
/// failed the cycle check (then the new target may already be related).
pub open spec fn adds_base_relation(m1: Matrix, m2: Matrix, s: int, d: int) -> bool {
    &&& 0 <= s < m1.len()
    &&& 0 <= d < m1.len()
    &&& passes_cycle_check(m1, s, d)
    &&& (m1[s][d] is None || can_retarget(m1, s))
    &&& m2 == m1.update(s, m1[s].update(d, Some(RelationType::Base)))
}

/// A first target for the source `s` can fail the cycle check: some entity
/// that `s` does not relate to fails it, where `s` itself only counts when
/// something relates to `s` (only then can `s` be drawn as source and target
/// at once).
pub open spec fn can_retarget(m: Matrix, s: int) -> bool {
    exists|d0: int|
        0 <= d0 < m.len() && m[s][d0] is None && !#[trigger] passes_cycle_check(m, s, d0) && (d0 != s
            || !is_root(m, s))
}

/// No new relation can be placed for some draw: some entity is already the
/// target of a relation from every entity, or some entity has no target
/// that passes the cycle check.
pub open spec fn lacks_candidates(m: Matrix) -> bool {
    ||| exists|d: int| 0 <= d < m.len() && #[trigger] targeted_by_all(m, d)
    ||| exists|s: int| 0 <= s < m.len() && #[trigger] has_no_passing_target(m, s)
}

/// Every entity relates to `d`.
pub open spec fn targeted_by_all(m: Matrix, d: int) -> bool {
    forall|x: int| 0 <= x < m.len() ==> #[trigger] has_edge(m, x, d)
}

/// No relation from `s` passes the cycle check.
pub open spec fn has_no_passing_target(m: Matrix, s: int) -> bool {
    forall|d: int| 0 <= d < m.len() ==> !#[trigger] passes_cycle_check(m, s, d)
}

/// One round of base relation generation: a relation that passes the cycle
/// check is set to `Base`, or, when there is no candidate, nothing changes.
pub open spec fn base_round(m1: Matrix, m2: Matrix) -> bool {
    ||| exists|s: int, d: int| #[trigger] adds_base_relation(m1, m2, s, d)
    ||| (m2 == m1 && lacks_candidates(m1))
}

/// `t` traces `k` rounds of base relation generation that lead from `m0`
/// to `m`.
pub open spec fn is_base_trace(t: Seq<Matrix>, m0: Matrix, m: Matrix, k: nat) -> bool {
    &&& t.len() == k + 1
    &&& t[0] == m0
    &&& t[k as int] == m
    &&& forall|j: int| 0 <= j < k ==> #[trigger] base_round(t[j], t[j + 1])
}

/// `m` comes from `m0` by `k` rounds of base relation generation.
pub open spec fn after_base_rounds(m0: Matrix, m: Matrix, k: nat) -> bool {
    exists|t: Seq<Matrix>| #[trigger] is_base_trace(t, m0, m, k)
}

/// The number of base relations drawn for `size` entities: one per entity,
/// one fewer below five entities.
pub open spec fn base_round_count(size: nat) -> nat {
    if size < 5 {
        (size - 1) as nat
    } else {
        size
    }
}

/// A round keeps every relation, adds at most one, and, where there are
/// candidates, leaves at least one relation behind.
proof fn lemma_base_round_facts(m1: Matrix, m2: Matrix)
    requires
        is_square(m1),
        base_round(m1, m2),
    ensures
        m2.len() == m1.len(),
        is_square(m2),
        edges_within(m1, m2),
        edge_count(m2) <= edge_count(m1) + 1,
        !lacks_candidates(m1) ==> exists|i: int, j: int|
            0 <= i < m2.len() && 0 <= j < m2.len() && #[trigger] has_edge(m2, i, j),
{
    if exists|s: int, d: int| #[trigger] adds_base_relation(m1, m2, s, d) {
        let (s, d) = choose|s: int, d: int| #[trigger] adds_base_relation(m1, m2, s, d);
        let r = m1[s].update(d, Some(RelationType::Base));
        lemma_row_count_update(m1[s], d, Some(RelationType::Base));
        lemma_edge_count_update(m1, s, r);
        assert(has_edge(m2, s, d));
        assert forall|i: int| 0 <= i < m2.len() implies #[trigger] m2[i].len() == m2.len() by {
            assert(m1[i].len() == m1.len());
        }
        assert forall|i: int, j: int|
            0 <= i < m1.len() && 0 <= j < m1.len() && #[trigger] has_edge(m1, i, j) implies has_edge(m2, i, j) by {
            if i == s && j == d {
            } else if i == s {
                assert(m2[i][j] == m1[i][j]);
            } else {
                assert(m2[i] == m1[i]);
            }
        }
    }
}

/// Without any relation, and with at least two entities, a relation can
/// always be placed.
proof fn lemma_no_edges_has_candidates(m: Matrix)
    requires
        is_square(m),
        m.len() >= 2,
        has_no_edges(m),
    ensures
        !lacks_candidates(m),
{
    assert forall|d: int| 0 <= d < m.len() implies !#[trigger] targeted_by_all(m, d) by {
        assert(!has_edge(m, 0, d));
    }
    assert forall|s: int| 0 <= s < m.len() implies !#[trigger] has_no_passing_target(m, s) by {
        let d = if s == 0 {
            1int
        } else {
            0int
        };
        assert forall|p: Seq<int>| #[trigger] is_path(m, p) && p[0] == d implies p.last() != s by {
            if p.len() >= 2 {
                assert(crate::graph::path_step(m, p, 0));
            }
        }
        assert(!reaches(m, d, s));
        assert(branches_once(m, d));
        assert(passes_cycle_check(m, s, d));
    }
}

/// Without relations no source can be given a second target: every target
/// other than the source passes the cycle check, and the source is a root.
proof fn lemma_no_edges_no_retarget(m: Matrix, s: int)
    requires
        is_square(m),
        has_no_edges(m),
        0 <= s < m.len(),
    ensures
        !can_retarget(m, s),
{
    assert forall|d0: int| 0 <= d0 < m.len() && d0 != s implies #[trigger] passes_cycle_check(m, s, d0) by {
        assert forall|p: Seq<int>| #[trigger] is_path(m, p) && p[0] == d0 implies p.last() != s by {
            if p.len() >= 2 {
                assert(crate::graph::path_step(m, p, 0));
            }
        }
        assert(!reaches(m, d0, s));
        assert(branches_once(m, d0));
    }
    assert(is_root(m, s));
}

/// A round of base generation on a graph where no source can be given a
/// second target, and where a relation can be placed, adds exactly one
/// relation where there was none.
pub proof fn law_base_round_adds_one(m1: Matrix, m2: Matrix)
    requires
        is_square(m1),
        base_round(m1, m2),
        !lacks_candidates(m1),
        forall|s: int| 0 <= s < m1.len() ==> !#[trigger] can_retarget(m1, s),
    ensures
        edge_count(m2) == edge_count(m1) + 1,
        exists|s: int, d: int|
            0 <= s < m1.len() && 0 <= d < m1.len() && !has_edge(m1, s, d) && #[trigger] has_edge(m2, s, d),
{
    let (s, d) = choose|s: int, d: int| #[trigger] adds_base_relation(m1, m2, s, d);
    assert(!can_retarget(m1, s));
    let r = m1[s].update(d, Some(RelationType::Base));
    lemma_row_count_update(m1[s], d, Some(RelationType::Base));
    lemma_edge_count_update(m1, s, r);
    assert(has_edge(m2, s, d));
}

/// The first round of base generation on a graph without relations, with
/// at least two entities, adds exactly one relation.
pub proof fn law_first_round_adds_one(m1: Matrix, m2: Matrix)
    requires
        is_square(m1),
        m1.len() >= 2,
        has_no_edges(m1),
        base_round(m1, m2),
    ensures
        edge_count(m2) == edge_count(m1) + 1,
{
    lemma_no_edges_has_candidates(m1);
    assert forall|s: int| 0 <= s < m1.len() implies !#[trigger] can_retarget(m1, s) by {
        lemma_no_edges_no_retarget(m1, s);
    }
    law_base_round_adds_one(m1, m2);
}

/// The `d`-th entity, counting from 0, among the entities other than `src`:
/// `d` itself below `src`, the one after it from `src` on. This is how a
/// target different from the source is drawn.
pub fn nth_other(src: usize, d: usize) -> (r: usize)
    requires
        d < usize::MAX,
    ensures
        r == if d < src {
            d
        } else {
            (d + 1) as usize
        },
        r != src,
{
    if d < src {
        d
    } else {
        d + 1
    }
}

/// Bookkeeping of the depth-first search behind the topological sort: the
/// visited entities are exactly those on the list, the list holds no entity
/// twice, and everything a listed entity relates to is listed before it.
spec fn dfs_state(m: Matrix, visited: Seq<bool>, list: Seq<usize>) -> bool {
    &&& visited.len() == m.len()
    &&& forall|a: int| 0 <= a < list.len() ==> #[trigger] list[a] < m.len() && visited[list[a] as int]
    &&& forall|v: int| 0 <= v < m.len() && #[trigger] visited[v] ==> list.contains(v as usize)
    &&& forall|a: int, b: int| 0 <= a < b < list.len() ==> list[a] != list[b]
    &&& forall|a: int, w: int|
        0 <= a < list.len() && 0 <= w < m.len() && #[trigger] has_edge(m, list[a] as int, w) ==> exists|
            b: int,
        |
            0 <= b < a && #[trigger] list[b] == w
}

/// An entry of the cycle check's walk: an entity and the entity whose
/// relation led to it (none for the start). The entity is in range, and
/// it was reached from a visited entity along a relation, or is the start.
spec fn valid_entry(m: Matrix, verif: Seq<bool>, dest: usize, e: (usize, Option<usize>)) -> bool {
    &&& e.0 < m.len()
    &&& match e.1 {
        None => e.0 == dest,
        Some(p) => p < m.len() && verif[p as int] && has_edge(m, p as int, e.0 as int),
    }
}

/// Meeting an entity a second time, by two different routes, shows that the
/// walk from `dest` does not branch only once.
proof fn lemma_second_visit(
    m: Matrix,
    verif: Seq<bool>,
    dest: usize,
    first: (usize, Option<usize>),
    second: (usize, Option<usize>),
)
    requires
        0 <= dest < m.len(),
        verif.len() == m.len(),
        forall|v: int| 0 <= v < m.len() && #[trigger] verif[v] ==> reaches(m, dest as int, v),
        valid_entry(m, verif, dest, first),
        valid_entry(m, verif, dest, second),
        first.0 == second.0,
        first != second,
    ensures
        !branches_once(m, dest as int),
{
    let x = first.0 as int;
    match (first.1, second.1) {
        (Some(p1), Some(p2)) => {
            assert(reaches(m, dest as int, p1 as int));
            assert(reaches(m, dest as int, p2 as int));
            assert(has_edge(m, p1 as int, x) && has_edge(m, p2 as int, x));
        },
        (None, Some(p2)) => {
            assert(reaches(m, dest as int, p2 as int));
            assert(has_edge(m, p2 as int, dest as int));
        },
        (Some(p1), None) => {
            assert(reaches(m, dest as int, p1 as int));
            assert(has_edge(m, p1 as int, dest as int));
        },
        (None, None) => {},
    }
}

/// A walk that ends without meeting `src` or any entity twice: `dest` does
/// not reach `src`, and reaches everything along one path only.
proof fn lemma_check_passed(
    m: Matrix,
    verif: Seq<bool>,
    dest: usize,
    src: usize,
    hist: Seq<(usize, Option<usize>)>,
)
    requires
        is_square(m),
        0 <= dest < m.len(),
        0 <= src < m.len(),
        verif.len() == m.len(),
        forall|k: int| 0 <= k < hist.len() ==> #[trigger] valid_entry(m, verif, dest, hist[k]),
        forall|k: int| 0 <= k < hist.len() ==> #[trigger] verif[hist[k].0 as int],
        forall|k: int, l: int| 0 <= k < l < hist.len() ==> hist[k].0 != hist[l].0,
        forall|p: int, y: int|
            0 <= p < m.len() && 0 <= y < m.len() && verif[p] && #[trigger] has_edge(m, p, y) ==> hist.contains(
                (y as usize, Some(p as usize)),
            ),
        hist.contains((dest, None)),
        forall|x: int| 0 <= x < m.len() && #[trigger] verif[x] ==> x != src,
        m.len() <= usize::MAX,
    ensures
        !reaches(m, dest as int, src as int),
        branches_once(m, dest as int),
{
    let kd = choose|k: int| 0 <= k < hist.len() && hist[k] == (dest, None::<usize>);
    assert(verif[hist[kd].0 as int]);
    assert(verif[dest as int]);
    assert forall|x: int, y: int| 0 <= x < m.len() && 0 <= y < m.len() && verif[x] && #[trigger] has_edge(m, x, y) implies verif[y] by {
        assert(hist.contains((y as usize, Some(x as usize))));
        assert((y as usize) as int == y);
        let k = choose|k: int| 0 <= k < hist.len() && hist[k] == (y as usize, Some(x as usize));
        assert(verif[hist[k].0 as int]);
    }
    assert forall|v: int| 0 <= v < m.len() && reaches(m, dest as int, v) implies verif[v] by {
        let p = choose|p: Seq<int>| #[trigger] is_path(m, p) && p[0] == dest as int && p.last() == v;
        lemma_closed_path(m, verif, p);
    }
    assert forall|p: int| 0 <= p < m.len() && #[trigger] reaches(m, dest as int, p) implies !has_edge(m, p, dest as int) by {
        if has_edge(m, p, dest as int) {
            assert(verif[p]);
            assert(hist.contains((dest, Some(p as usize))));
            let k = choose|k: int| 0 <= k < hist.len() && hist[k] == (dest, Some(p as usize));
            if k < kd {
                assert(hist[k].0 != hist[kd].0);
            } else if kd < k {
                assert(hist[kd].0 != hist[k].0);
            }
        }
    }
    assert forall|p1: int, p2: int, x: int|
        0 <= p1 < m.len() && 0 <= p2 < m.len() && 0 <= x < m.len() && reaches(m, dest as int, p1) && reaches(m, dest as int, p2)
            && #[trigger] has_edge(m, p1, x) && #[trigger] has_edge(m, p2, x) implies p1 == p2 by {
        assert(verif[p1] && verif[p2]);
        assert(hist.contains((x as usize, Some(p1 as usize))));
        assert(hist.contains((x as usize, Some(p2 as usize))));
        let k1 = choose|k: int| 0 <= k < hist.len() && hist[k] == (x as usize, Some(p1 as usize));
        let k2 = choose|k: int| 0 <= k < hist.len() && hist[k] == (x as usize, Some(p2 as usize));
        if k1 < k2 {
            assert(hist[k1].0 != hist[k2].0);
        } else if k2 < k1 {
            assert(hist[k2].0 != hist[k1].0);
        }
    }
    if reaches(m, dest as int, src as int) {
        assert(verif[src as int]);
    }
}

/// One step of the cycle check's walk keeps its bookkeeping: `top`, reached
/// by entry `e`, is visited and recorded, and every entity it relates to is
/// queued with `top` as its origin.
#[verifier::rlimit(80)]
proof fn lemma_check_step(
    m: Matrix,
    v0: Seq<bool>,
    v1: Seq<bool>,
    dest: usize,
    top: usize,
    e: (usize, Option<usize>),
    hist0: Seq<(usize, Option<usize>)>,
    pend0: Seq<(usize, Option<usize>)>,
    adj: Seq<usize>,
    hist1: Seq<(usize, Option<usize>)>,
    pend1: Seq<(usize, Option<usize>)>,
)
    requires
        is_square(m),
        dest < m.len(),
        top < m.len(),
        m.len() <= usize::MAX,
        v0.len() == m.len(),
        !v0[top as int],
        v1 == v0.update(top as int, true),
        e.0 == top,
        valid_entry(m, v0, dest, e),
        lists_out_neighbors(m, top as int, adj, m.len()),
        hist1 == hist0.push(e),
        pend1 == pend0 + adj.map_values(|y: usize| (y, Some(top))),
        forall|a: int| 0 <= a < pend0.len() ==> #[trigger] valid_entry(m, v0, dest, pend0[a]),
        forall|k: int| 0 <= k < hist0.len() ==> #[trigger] valid_entry(m, v0, dest, hist0[k]),
        forall|k: int| 0 <= k < hist0.len() ==> #[trigger] v0[hist0[k].0 as int],
        forall|v: int| 0 <= v < m.len() && #[trigger] v0[v] ==> exists|k: int| 0 <= k < hist0.len() && #[trigger] hist0[k].0 == v,
        forall|k: int, l: int| 0 <= k < l < hist0.len() ==> hist0[k].0 != hist0[l].0,
        forall|p: int, y: int|
            0 <= p < m.len() && 0 <= y < m.len() && v0[p] && #[trigger] has_edge(m, p, y) ==> (hist0 + pend0.push(e)).contains(
                (y as usize, Some(p as usize)),
            ),
        (hist0 + pend0.push(e)).contains((dest, None)),
        forall|a: int, b: int| 0 <= a < b < (hist0 + pend0.push(e)).len() ==> (hist0 + pend0.push(e))[a] != (hist0 + pend0.push(e))[b],
    ensures
        forall|a: int| 0 <= a < pend1.len() ==> #[trigger] valid_entry(m, v1, dest, pend1[a]),
        forall|k: int| 0 <= k < hist1.len() ==> #[trigger] valid_entry(m, v1, dest, hist1[k]),
        forall|k: int| 0 <= k < hist1.len() ==> #[trigger] v1[hist1[k].0 as int],
        forall|v: int| 0 <= v < m.len() && #[trigger] v1[v] ==> exists|k: int| 0 <= k < hist1.len() && #[trigger] hist1[k].0 == v,
        forall|k: int, l: int| 0 <= k < l < hist1.len() ==> hist1[k].0 != hist1[l].0,
        forall|p: int, y: int|
            0 <= p < m.len() && 0 <= y < m.len() && v1[p] && #[trigger] has_edge(m, p, y) ==> (hist1 + pend1).contains(
                (y as usize, Some(p as usize)),
            ),
        (hist1 + pend1).contains((dest, None)),
        forall|a: int, b: int| 0 <= a < b < (hist1 + pend1).len() ==> (hist1 + pend1)[a] != (hist1 + pend1)[b],
{
    let all0 = hist0 + pend0.push(e);
    let all1 = hist1 + pend1;
    let added = adj.map_values(|y: usize| (y, Some(top)));
    let h = hist0.len() as int;
    let q = pend0.len() as int;
    // all1 is all0 with `e` moved from the end of the pending part to the end
    // of the history, followed by the entries just queued
    assert forall|a: int| 0 <= a < all1.len() implies #[trigger] all1[a] == if a < h {
        all0[a]
    } else if a == h {
        e
    } else if a <= h + q {
        all0[a - 1]
    } else {
        added[a - h - q - 1]
    } by {}
    assert forall|a: int| #![trigger all0[a]] 0 <= a < all0.len() implies exists|b: int| 0 <= b < all1.len() && #[trigger] all1[b] == all0[a] by {
        if a < h {
            assert(all1[a] == all0[a]);
        } else if a < h + q {
            assert(all1[a + 1] == all0[a]);
        } else {
            assert(all1[h] == all0[a]);
        }
    }
    assert forall|a: int| 0 <= a < pend1.len() implies #[trigger] valid_entry(m, v1, dest, pend1[a]) by {
        if a < q {
            assert(valid_entry(m, v0, dest, pend0[a]));
        } else {
            assert(pend1[a] == added[a - q]);
            assert(has_edge(m, top as int, adj[a - q] as int));
        }
    }
    assert forall|k: int| 0 <= k < hist1.len() implies #[trigger] valid_entry(m, v1, dest, hist1[k]) by {
        if k < h {
            assert(valid_entry(m, v0, dest, hist0[k]));
        }
    }
    assert forall|k: int| 0 <= k < hist1.len() implies #[trigger] v1[hist1[k].0 as int] by {
        if k < h {
            assert(hist1[k] == hist0[k]);
            assert(valid_entry(m, v0, dest, hist0[k]));
            assert(v0[hist0[k].0 as int]);
            assert(v1[hist0[k].0 as int]);
        } else {
            assert(hist1[k] == e);
            assert(v1[top as int]);
        }
    }
    assert forall|v: int| 0 <= v < m.len() && #[trigger] v1[v] implies exists|k: int| 0 <= k < hist1.len() && #[trigger] hist1[k].0 == v by {
        if v == top as int {
            assert(hist1[h].0 == v);
        } else {
            assert(v0[v]);
            let k = choose|k: int| 0 <= k < hist0.len() && #[trigger] hist0[k].0 == v;
            assert(hist1[k].0 == v);
        }
    }
    assert forall|k: int, l: int| 0 <= k < l < hist1.len() implies hist1[k].0 != hist1[l].0 by {
        if l == h {
            assert(v0[hist0[k].0 as int]);
        }
    }
    assert forall|p: int, y: int|
        0 <= p < m.len() && 0 <= y < m.len() && v1[p] && #[trigger] has_edge(m, p, y) implies all1.contains(
            (y as usize, Some(p as usize)),
        ) by {
        if p == top as int {
            assert(adj.contains(y as usize));
            let x = choose|x: int| 0 <= x < adj.len() && adj[x] == y as usize;
            assert(all1[h + q + 1 + x] == (y as usize, Some(p as usize)));
        } else {
            assert(v0[p]);
            assert(all0.contains((y as usize, Some(p as usize))));
            let a = choose|a: int| 0 <= a < all0.len() && all0[a] == (y as usize, Some(p as usize));
            let b = choose|b: int| 0 <= b < all1.len() && #[trigger] all1[b] == all0[a];
        }
    }
    assert(all1.contains((dest, None))) by {
        let a = choose|a: int| 0 <= a < all0.len() && all0[a] == (dest, None::<usize>);
        let b = choose|b: int| 0 <= b < all1.len() && #[trigger] all1[b] == all0[a];
    }
    assert forall|a: int, b: int| 0 <= a < b < all1.len() implies all1[a] != all1[b] by {
        if b > h + q {
            // a freshly queued entry has origin `top`, which no earlier entry has
            let y = adj[b - h - q - 1];
            if a > h + q {
                assert(adj[a - h - q - 1] < adj[b - h - q - 1]);
            } else {
                let ea = all1[a];
                if a == h {
                    assert(ea == e);
                    if e.1 == Some(top) {
                        assert(v0[top as int]);
                    }
                } else if a < h {
                    assert(valid_entry(m, v0, dest, hist0[a]));
                    if hist0[a].1 == Some(top) {
                        assert(v0[top as int]);
                    }
                } else {
                    assert(valid_entry(m, v0, dest, pend0[a - h - 1]));
                    assert(all1[a] == pend0[a - h - 1]);
                    if pend0[a - h - 1].1 == Some(top) {
                        assert(v0[top as int]);
                    }
                }
            }
        } else {
            // both come from all0, at distinct positions
            let ia = if a < h {
                a
            } else if a == h {
                all0.len() - 1
            } else {
                a - 1
            };
            let ib = if b < h {
                b
            } else if b == h {
                all0.len() - 1
            } else {
                b - 1
            };
            assert(all1[a] == all0[ia]);
            assert(all1[b] == all0[ib]);
            assert(ia != ib);
            if ia < ib {
                assert(all0[ia] != all0[ib]);
            } else {
                assert(all0[ib] != all0[ia]);
            }
        }
    }
}

/// Every relation that ends at `v` is of type `rt`.
pub open spec fn in_edges_typed(m: Matrix, v: int, rt: RelationType) -> bool {
    forall|i: int| 0 <= i < m.len() && #[trigger] has_edge(m, i, v) ==> m[i][v] == Some(rt)
}

/// The relations among `size` entities: `data[i][j]` is the relation from
/// entity `i` to entity `j`, if there is one. Kept free of cycles by the
/// generation.
pub struct Relations {
    size: usize,
    data: Vec<Vec<Option<RelationType>>>,
}

impl View for Relations {
    type V = Matrix;

    closed spec fn view(&self) -> Matrix {
        self.data@.map_values(|row: Vec<Option<RelationType>>| row@)
    }
}

impl Relations {
    /// Number of entities.
    pub closed spec fn size_of(&self) -> nat {
        self.size as nat
    }

    /// The matrix is `size` by `size`.
    pub open spec fn wf(&self) -> bool {
        &&& self@.len() == self.size_of()
        &&& is_square(self@)
    }

    proof fn lemma_view(&self)
        ensures
            self@.len() == self.data@.len(),
            forall|i: int| 0 <= i < self.data@.len() ==> #[trigger] self@[i] == self.data@[i]@,
    {
    }

    proof fn lemma_rows(&self)
        requires
            self.wf(),
        ensures
            self.data@.len() == self.size,
            forall|i: int| 0 <= i < self.size ==> #[trigger] self.data@[i]@.len() == self.size,
            forall|i: int| 0 <= i < self.size ==> #[trigger] self@[i] == self.data@[i]@,
    {
        assert forall|i: int| 0 <= i < self.size implies #[trigger] self.data@[i]@.len() == self.size by {
            assert(self@[i] == self.data@[i]@);
        }
    }

    /// `size` entities without any relation.
    pub fn new(size: usize) -> (r: Relations)
        ensures
            r.wf(),
            r.size_of() == size,
            forall|i: int, j: int| 0 <= i < size && 0 <= j < size ==> #[trigger] r@[i][j] is None,
    {
        let mut data: Vec<Vec<Option<RelationType>>> = Vec::new();
        for i in 0..size
            invariant
                data.len() == i,
                forall|k: int| 0 <= k < i ==> #[trigger] data@[k]@.len() == size,
                forall|k: int, j: int| 0 <= k < i && 0 <= j < size ==> #[trigger] data@[k]@[j] is None,
        {
            let mut row: Vec<Option<RelationType>> = Vec::new();
            for j in 0..size
                invariant
                    row.len() == j,
                    forall|k: int| 0 <= k < j ==> #[trigger] row@[k] is None,
            {
                row.push(None);
            }
            data.push(row);
        }
        let r = Relations { size, data };
        proof {
            r.lemma_view();
        }
        r
    }

    /// Relations among `size` entities from the rows of their matrix; `None`
    /// unless there are `size` rows of `size` entries each.
    pub fn from_rows(size: usize, data: Vec<Vec<Option<RelationType>>>) -> (r: Option<Relations>)
        ensures
            r is Some <==> (data.len() == size && forall|i: int| 0 <= i < size ==> #[trigger] data@[i].len()
                == size),
            r matches Some(rel) ==> rel.wf() && rel.size_of() == size && forall|i: int, j: int|
                0 <= i < size && 0 <= j < size ==> #[trigger] rel@[i][j] == data@[i]@[j],
    {
        if data.len() != size {
            return None;
        }
        for i in 0..size
            invariant
                data.len() == size,
                forall|k: int| 0 <= k < i ==> #[trigger] data@[k].len() == size,
        {
            if data[i].len() != size {
                return None;
            }
        }
        let ghost d0 = data@;
        let r = Relations { size, data };
        proof {
            r.lemma_view();
            assert forall|i: int| 0 <= i < r@.len() implies #[trigger] r@[i].len() == r@.len() by {
                assert(r@[i] == r.data@[i]@);
                assert(d0[i].len() == size);
            }
            assert forall|i: int, j: int| 0 <= i < size && 0 <= j < size implies #[trigger] r@[i][j]
                == r.data@[i]@[j] by {
                assert(r@[i] == r.data@[i]@);
            }
        }
        Some(r)
    }

    /// The relation from `i` to `j`, if any.
    pub fn get(&self, i: usize, j: usize) -> (r: Option<RelationType>)
        requires
            self.wf(),
            i < self.size_of(),
            j < self.size_of(),
        ensures
            r == self@[i as int][j as int],
    {
        proof {
            self.lemma_rows();
        }
        self.data[i][j]
    }

    /// The relation from `i` to `j`, if any (the name the rest of the
    /// program reads relations by).
    pub fn get_relation(&self, i: usize, j: usize) -> (r: Option<RelationType>)
        requires
            self.wf(),
            i < self.size_of(),
            j < self.size_of(),
        ensures
            r == self@[i as int][j as int],
    {
        self.get(i, j)
    }

    /// Number of entities.
    pub fn size(&self) -> (n: usize)
        ensures
            n == self.size_of(),
    {
        self.size
    }

    /// The entities that `vertex` relates to, in increasing order.
    pub fn adjacent_out(&self, vertex: usize) -> (v: Vec<usize>)
        requires
            self.wf(),
            vertex < self.size_of(),
        ensures
            lists_out_neighbors(self@, vertex as int, v@, self.size_of()),
    {
        proof {
            self.lemma_rows();
        }
        let mut v: Vec<usize> = Vec::new();
        for j in 0..self.size
            invariant
                self.wf(),
                vertex < self.size,
                self.data@.len() == self.size,
                forall|i: int| 0 <= i < self.size ==> #[trigger] self.data@[i]@.len() == self.size,
                forall|i: int| 0 <= i < self.size ==> #[trigger] self@[i] == self.data@[i]@,
                lists_out_neighbors(self@, vertex as int, v@, j as nat),
        {
            let ghost old_v = v@;
            match &self.data[vertex][j] {
                Some(_) => {
                    v.push(j);
                },
                None => {},
            }
            proof {
                assert(self@[vertex as int] == self.data@[vertex as int]@);
                assert forall|k: int|
                    0 <= k < j + 1 && #[trigger] has_edge(self@, vertex as int, k) implies v@.contains(
                    k as usize,
                ) by {
                    if k < j {
                        assert(old_v.contains(k as usize));
                        let a = choose|a: int| 0 <= a < old_v.len() && old_v[a] == k as usize;
                        assert(v@[a] == k as usize);
                    } else {
                        assert(v@[v@.len() - 1] == j);
                    }
                }
            }
        }
        v
    }

    /// The entities that relate to `vertex`, in increasing order.
    pub fn adjacent_in(&self, vertex: usize) -> (v: Vec<usize>)
        requires
            self.wf(),
            vertex < self.size_of(),
        ensures
            lists_in_neighbors(self@, vertex as int, v@, self.size_of()),
    {
        proof {
            self.lemma_rows();
        }
        let mut v: Vec<usize> = Vec::new();
        for i in 0..self.size
            invariant
                self.wf(),
                vertex < self.size,
                self.data@.len() == self.size,
                forall|k: int| 0 <= k < self.size ==> #[trigger] self.data@[k]@.len() == self.size,
                forall|k: int| 0 <= k < self.size ==> #[trigger] self@[k] == self.data@[k]@,
                lists_in_neighbors(self@, vertex as int, v@, i as nat),
        {
            let ghost old_v = v@;
            match &self.data[i][vertex] {
                Some(_) => {
                    v.push(i);
                },
                None => {},
            }
            proof {
                assert(self@[i as int] == self.data@[i as int]@);
                assert forall|k: int|
                    0 <= k < i + 1 && #[trigger] has_edge(self@, k, vertex as int) implies v@.contains(
                    k as usize,
                ) by {
                    if k < i {
                        assert(old_v.contains(k as usize));
                        let a = choose|a: int| 0 <= a < old_v.len() && old_v[a] == k as usize;
                        assert(v@[a] == k as usize);
                    } else {
                        assert(v@[v@.len() - 1] == i);
                    }
                }
            }
        }
        v
    }

    /// The entities that relate to `vertex`, in increasing order.
    pub fn get_adj_in(&self, vertex: usize) -> (v: Vec<usize>)
        requires
            self.wf(),
            vertex < self.size_of(),
        ensures
            lists_in_neighbors(self@, vertex as int, v@, self.size_of()),
    {
        self.adjacent_in(vertex)
    }

    /// The entities that no relation ends at, in increasing order.
    pub fn get_roots(&self) -> (roots: Vec<usize>)
        requires
            self.wf(),
        ensures
            lists_roots(self@, roots@, self.size_of()),
    {
        let mut roots: Vec<usize> = Vec::new();
        for i in 0..self.size
            invariant
                self.wf(),
                lists_roots(self@, roots@, i as nat),
        {
            let ghost old_r = roots@;
            let adj = self.adjacent_in(i);
            if adj.len() == 0 {
                proof {
                    assert forall|k: int| 0 <= k < self@.len() implies !#[trigger] has_edge(
                        self@,
                        k,
                        i as int,
                    ) by {
                        if has_edge(self@, k, i as int) {
                            assert(adj@.contains(k as usize));
                            assert(false);
                        }
                    }
                }
                roots.push(i);
            } else {
                proof {
                    assert(has_edge(self@, adj@[0] as int, i as int));
                }
            }
            proof {
                assert forall|k: int| 0 <= k < i + 1 && #[trigger] is_root(self@, k) implies roots@.contains(
                    k as usize,
                ) by {
                    if k < i {
                        assert(old_r.contains(k as usize));
                        let a = choose|a: int| 0 <= a < old_r.len() && old_r[a] == k as usize;
                        assert(roots@[a] == k as usize);
                    } else {
                        assert(roots@[roots@.len() - 1] == i);
                    }
                }
            }
        }
        roots
    }

    /// Depth-first visit from `n`: visits what `n` relates to, then lists
    /// `n`. `anc` is the chain of entities whose visit is under way.
    fn topological_sort_visit(
        &self,
        n: usize,
        visited: &mut Vec<bool>,
        stack: &mut Vec<usize>,
        Ghost(anc): Ghost<Seq<int>>,
    )
        requires
            self.wf(),
            is_acyclic(self@),
            n < self.size_of(),
            dfs_state(self@, old(visited)@, old(stack)@),
            is_path(self@, anc.push(n as int)),
        ensures
            dfs_state(self@, final(visited)@, final(stack)@),
            final(visited)@[n as int],
            forall|v: int| 0 <= v < self@.len() && old(visited)@[v] ==> #[trigger] final(visited)@[v],
            forall|v: int|
                0 <= v < self@.len() && #[trigger] final(visited)@[v] && !old(visited)@[v] ==> reaches(
                    self@,
                    n as int,
                    v,
                ),
            final(visited)@ == dfs_visit(
                self@,
                (old(visited)@, old(stack)@),
                n as int,
                (self.size_of() - anc.len()) as nat,
            ).0,
            final(stack)@ == dfs_visit(
                self@,
                (old(visited)@, old(stack)@),
                n as int,
                (self.size_of() - anc.len()) as nat,
            ).1,
        decreases self.size_of() - anc.len(),
    {
        if visited[n] {
            return;
        }
        let ghost path = anc.push(n as int);
        proof {
            lemma_acyclic_path_distinct(self@, path);
            lemma_distinct_len(path, self@.len() as int);
        }
        let adj = self.adjacent_out(n);
        let ghost vis0 = visited@;
        let ghost stk0 = stack@;
        let ghost fuel: nat = (self.size_of() - path.len()) as nat;
        proof {
            lemma_children_of(self@, n as int, adj@);
        }
        let mut k: usize = 0;
        while k < adj.len()
            invariant
                self.wf(),
                is_acyclic(self@),
                n < self.size_of(),
                lists_out_neighbors(self@, n as int, adj@, self.size_of()),
                dfs_state(self@, visited@, stack@),
                vis0.len() == self@.len(),
                !vis0[n as int],
                !visited@[n as int],
                k <= adj.len(),
                forall|x: int| 0 <= x < k ==> #[trigger] visited@[adj@[x] as int],
                forall|v: int| 0 <= v < self@.len() && vis0[v] ==> #[trigger] visited@[v],
                forall|v: int|
                    0 <= v < self@.len() && #[trigger] visited@[v] && !vis0[v] ==> reaches(
                        self@,
                        n as int,
                        v,
                    ),
                path == anc.push(n as int),
                is_path(self@, path),
                path.len() <= self@.len(),
                fuel == self.size_of() - path.len(),
                visited@ == dfs_visit_all(self@, (vis0, stk0), adj@.take(k as int), fuel).0,
                stack@ == dfs_visit_all(self@, (vis0, stk0), adj@.take(k as int), fuel).1,
            decreases adj.len() - k,
        {
            let c = adj[k];
            let ghost vis1 = visited@;
            let ghost stk1 = stack@;
            proof {
                assert(has_edge(self@, n as int, c as int));
                lemma_path_push(self@, path, c as int);
                lemma_acyclic_path_distinct(self@, path.push(c as int));
                lemma_distinct_len(path.push(c as int), self@.len() as int);
            }
            self.topological_sort_visit(c, visited, stack, Ghost(path));
            proof {
                assert forall|v: int|
                    0 <= v < self@.len() && #[trigger] visited@[v] && !vis0[v] implies reaches(
                    self@,
                    n as int,
                    v,
                ) by {
                    if !vis1[v] {
                        lemma_reaches_prepend(self@, n as int, c as int, v);
                    }
                }
                if visited@[n as int] {
                    lemma_no_way_back(self@, n as int, c as int);
                    assert(false);
                }
                assert forall|x: int| 0 <= x < k + 1 implies #[trigger] visited@[adj@[x] as int] by {
                    if x < k {
                        assert(vis1[adj@[x] as int]);
                    }
                }
                let t = adj@.take(k + 1);
                assert(t.drop_last() =~= adj@.take(k as int));
                assert(t.last() == c);
            }
            k = k + 1;
        }
        proof {
            assert(adj@.take(adj.len() as int) =~= adj@);
        }
        let ghost list0 = stack@;
        visited[n] = true;
        stack.push(n);
        proof {
            let m = self@;
            let list = stack@;
            assert forall|v: int| 0 <= v < m.len() && #[trigger] visited@[v] implies list.contains(
                v as usize,
            ) by {
                if v == n {
                    assert(list[list.len() - 1] == n);
                } else {
                    assert(list0.contains(v as usize));
                    let a = choose|a: int| 0 <= a < list0.len() && list0[a] == v as usize;
                    assert(list[a] == v as usize);
                }
            }
            assert forall|a: int, b: int| 0 <= a < b < list.len() implies list[a] != list[b] by {
                if b == list.len() - 1 {
                    assert(visited@[list0[a] as int]);
                }
            }
            assert forall|a: int, w: int|
                0 <= a < list.len() && 0 <= w < m.len() && #[trigger] has_edge(m, list[a] as int, w)
                    implies exists|b: int| 0 <= b < a && #[trigger] list[b] == w by {
                if a < list0.len() {
                    let b = choose|b: int| 0 <= b < a && #[trigger] list0[b] == w;
                    assert(list[b] == w);
                } else {
                    assert(adj@.contains(w as usize));
                    let x = choose|x: int| 0 <= x < adj@.len() && adj@[x] == w as usize;
                    assert(visited@[adj@[x] as int]);
                    assert(w != n);
                    assert(list0.contains(w as usize));
                    let b = choose|b: int| 0 <= b < list0.len() && list0[b] == w as usize;
                    assert(list[b] == w);
                }
            }
            lemma_reaches_self(m, n as int);
        }
    }

    /// Every entity once, in an order in which each relation goes from an
    /// earlier entity to a later one (the reverse of the order in which a
    /// depth-first search from the entities `0, 1, ...` finishes them).
    fn topological_sort(&self) -> (sorted: Vec<usize>)
        requires
            self.wf(),
            is_acyclic(self@),
        ensures
            is_topological_order(self@, sorted@),
            sorted@ == dfs_order(self@),
    {
        let n = self.size;
        let mut visited: Vec<bool> = Vec::new();
        for i in 0..n
            invariant
                visited.len() == i,
                forall|k: int| 0 <= k < i ==> !#[trigger] visited@[k],
        {
            visited.push(false);
        }
        let mut list: Vec<usize> = Vec::new();
        proof {
            assert(visited@ =~= dfs_upto(self@, 0).0);
            assert(list@ =~= dfs_upto(self@, 0).1);
        }
        for i in 0..n
            invariant
                self.wf(),
                is_acyclic(self@),
                n == self.size_of(),
                dfs_state(self@, visited@, list@),
                forall|k: int| 0 <= k < i ==> #[trigger] visited@[k],
                visited@ == dfs_upto(self@, i as nat).0,
                list@ == dfs_upto(self@, i as nat).1,
        {
            if !visited[i] {
                proof {
                    assert(is_path(self@, Seq::<int>::empty().push(i as int)));
                }
                self.topological_sort_visit(i, &mut visited, &mut list, Ghost(Seq::empty()));
            }
        }
        let ghost full = list@;
        proof {
            assert forall|v: usize| v < n implies full.contains(v) by {
                assert(visited@[v as int]);
            }
            lemma_distinct_len_usize(full, n as int);
        }
        let mut sorted: Vec<usize> = Vec::new();
        loop
            invariant
                list@ == full.take(list.len() as int),
                list.len() <= full.len(),
                sorted.len() + list.len() == full.len(),
                forall|x: int| 0 <= x < sorted.len() ==> #[trigger] sorted@[x] == full[full.len() - 1 - x],
            ensures
                sorted.len() == full.len(),
                forall|x: int| 0 <= x < sorted.len() ==> #[trigger] sorted@[x] == full[full.len() - 1 - x],
            decreases list.len(),
        {
            match list.pop() {
                Some(top) => {
                    sorted.push(top);
                },
                None => {
                    break ;
                },
            }
        }
        proof {
            let m = self@;
            let l = full.len() as int;
            assert forall|a: int, b: int| 0 <= a < b < sorted.len() implies sorted@[a] != sorted@[b] by {
                assert(sorted@[a] == full[l - 1 - a]);
                assert(sorted@[b] == full[l - 1 - b]);
            }
            assert forall|a: int| 0 <= a < sorted.len() implies #[trigger] sorted@[a] < m.len() by {
                assert(sorted@[a] == full[l - 1 - a]);
            }
            assert(sorted.len() == l);
            assert forall|v: usize| v < m.len() implies sorted@.contains(v) by {
                assert(full.contains(v));
                let a = choose|a: int| 0 <= a < full.len() && full[a] == v;
                assert(sorted@[l - 1 - a] == full[a]);
            }
            assert forall|a: int, b: int|
                0 <= a < sorted.len() && 0 <= b < sorted.len() && has_edge(
                    m,
                    #[trigger] sorted@[a] as int,
                    #[trigger] sorted@[b] as int,
                ) implies a < b by {
                assert(sorted@[a] == full[l - 1 - a]);
                assert(sorted@[b] == full[l - 1 - b]);
                assert(has_edge(m, full[l - 1 - a] as int, full[l - 1 - b] as int));
                let c = choose|c: int| 0 <= c < l - 1 - a && #[trigger] full[c] == full[l - 1 - b];
            }
            assert(sorted@ =~= full.reverse());
        }
        sorted
    }

    /// Every entity once, in an order in which each relation goes from an
    /// earlier entity to a later one: the reverse of the order in which a
    /// depth-first search from the entities `0, 1, ...` finishes them.
    pub fn get_topological_sort(&self) -> (sorted: Vec<usize>)
        requires
            self.wf(),
            is_acyclic(self@),
        ensures
            is_topological_order(self@, sorted@),
            sorted@ == dfs_order(self@),
    {
        self.topological_sort()
    }

    /// Sets the entry from `i` to `j`.
    fn set_relation(&mut self, i: usize, j: usize, r: Option<RelationType>)
        requires
            old(self).wf(),
            i < old(self).size_of(),
            j < old(self).size_of(),
        ensures
            final(self).wf(),
            final(self).size_of() == old(self).size_of(),
            final(self)@ == old(self)@.update(i as int, old(self)@[i as int].update(j as int, r)),
    {
        proof {
            self.lemma_rows();
        }
        let ghost m0 = self@;
        self.data[i][j] = r;
        proof {
            self.lemma_view();
            assert(self@ =~= m0.update(i as int, m0[i as int].update(j as int, r)));
        }
    }

    /// The check made before relating `src` to `dest`: a depth-first walk
    /// from `dest` that gives up as soon as it meets `src`, or meets an
    /// entity for the second time. It passes exactly when `dest` does not
    /// reach `src` and reaches every entity along one path only; then the
    /// new relation closes no cycle.
    fn cycle_check_passes(&self, src: usize, dest: usize) -> (ok: bool)
        requires
            self.wf(),
            src < self.size_of(),
            dest < self.size_of(),
        ensures
            ok == (!reaches(self@, dest as int, src as int) && branches_once(self@, dest as int)),
    {
        let ghost m = self@;
        let n = self.size;
        let mut verif: Vec<bool> = Vec::new();
        for i in 0..n
            invariant
                verif.len() == i,
                forall|k: int| 0 <= k < i ==> !#[trigger] verif@[k],
        {
            verif.push(false);
        }
        proof {
            lemma_num_true_zero(verif@);
            lemma_reaches_self(m, dest as int);
        }
        let mut stack: Vec<usize> = Vec::new();
        stack.push(dest);
        let ghost mut pending: Seq<(usize, Option<usize>)> = seq![(dest, None)];
        let ghost mut hist: Seq<(usize, Option<usize>)> = Seq::empty();
        proof {
            assert(pending[0] == (dest, None::<usize>));
            assert(hist + pending =~= pending);
        }
        loop
            invariant
                self.wf(),
                m == self@,
                n == self.size_of(),
                n == m.len(),
                src < n,
                dest < n,
                verif.len() == n,
                num_true(verif@) <= n,
                pending.len() == stack.len(),
                forall|a: int| 0 <= a < stack.len() ==> #[trigger] pending[a].0 == stack@[a],
                forall|a: int| 0 <= a < pending.len() ==> #[trigger] valid_entry(m, verif@, dest, pending[a]),
                forall|k: int| 0 <= k < hist.len() ==> #[trigger] valid_entry(m, verif@, dest, hist[k]),
                forall|k: int| 0 <= k < hist.len() ==> #[trigger] verif@[hist[k].0 as int],
                forall|v: int| 0 <= v < n && #[trigger] verif@[v] ==> exists|k: int| 0 <= k < hist.len() && #[trigger] hist[k].0 == v,
                forall|k: int, l: int| 0 <= k < l < hist.len() ==> hist[k].0 != hist[l].0,
                forall|a: int| 0 <= a < pending.len() ==> reaches(m, dest as int, #[trigger] pending[a].0 as int),
                forall|v: int| 0 <= v < n && #[trigger] verif@[v] ==> reaches(m, dest as int, v),
                forall|p: int, y: int|
                    0 <= p < n && 0 <= y < n && verif@[p] && #[trigger] has_edge(m, p, y) ==> (hist + pending).contains(
                        (y as usize, Some(p as usize)),
                    ),
                (hist + pending).contains((dest, None)),
                forall|a: int, b: int| 0 <= a < b < (hist + pending).len() ==> (hist + pending)[a] != (hist + pending)[b],
                forall|x: int| 0 <= x < n && #[trigger] verif@[x] ==> x != src,
            ensures
                stack.len() == 0,
                pending.len() == 0,
            decreases n - num_true(verif@),
        {
            let ghost all0 = hist + pending;
            let ghost pend_before = pending;
            match stack.pop() {
                None => {
                    break ;
                },
                Some(top) => {
                    let ghost e = pending.last();
                    proof {
                        pending = pending.drop_last();
                        assert(e.0 == top);
                        assert(all0.last() == e);
                    }
                    if verif[top] || top == src {
                        proof {
                            if verif@[top as int] {
                                let k = choose|k: int| 0 <= k < hist.len() && #[trigger] hist[k].0 == top as int;
                                assert(all0[k] == hist[k]);
                                assert(all0[all0.len() - 1] == e);
                                assert(hist[k] != e);
                                lemma_second_visit(m, verif@, dest, hist[k], e);
                            } else {
                                assert(all0[all0.len() - 1] == e);
                            }
                        }
                        return false;
                    }
                    let ghost v0 = verif@;
                    proof {
                        lemma_num_true_set(verif@, top as int);
                    }
                    verif[top] = true;
                    let ghost h0 = hist;
                    proof {
                        hist = hist.push(e);
                    }
                    let adj = self.adjacent_out(top);
                    let ghost s1 = stack@;
                    let ghost p1 = pending;
                    for k in 0..adj.len()
                        invariant
                            stack@ == s1 + adj@.take(k as int),
                            pending == p1 + adj@.take(k as int).map_values(|y: usize| (y, Some(top))),
                            k <= adj.len(),
                    {
                        stack.push(adj[k]);
                        proof {
                            assert(adj@.take(k + 1) =~= adj@.take(k as int).push(adj@[k as int]));
                            pending = pending.push((adj@[k as int], Some(top)));
                            assert(pending =~= p1 + adj@.take(k + 1).map_values(|y: usize| (y, Some(top))));
                        }
                    }
                    proof {
                        let added = adj@.map_values(|y: usize| (y, Some(top)));
                        assert(adj@.take(adj.len() as int) =~= adj@);
                        assert(pending == p1 + added);
                        assert(pend_before =~= p1.push(e));
                        assert(all0 =~= h0 + p1.push(e));
                        lemma_check_step(m, v0, verif@, dest, top, e, h0, p1, adj@, hist, pending);
                        lemma_reaches_self(m, dest as int);
                        assert forall|a: int| 0 <= a < stack.len() implies #[trigger] pending[a].0 == stack@[a] by {
                            if a >= s1.len() {
                                assert(stack@[a] == adj@[a - s1.len()]);
                            }
                        }
                        assert forall|a: int| 0 <= a < pending.len() implies reaches(
                            m,
                            dest as int,
                            #[trigger] pending[a].0 as int,
                        ) by {
                            if a >= p1.len() {
                                assert(has_edge(m, top as int, adj@[a - p1.len()] as int));
                                lemma_reaches_step(m, dest as int, top as int, adj@[a - p1.len()] as int);
                            } else {
                                assert(all0[hist.len() - 1 + a] == p1[a]);
                            }
                        }
                    }
                },
            }
        }
        proof {
            lemma_check_passed(m, verif@, dest, src, hist);
        }
        true
    }

    /// The entities, in increasing order, that have no relation to `dest`.
    pub fn free_sources(&self, dest: usize) -> (v: Vec<usize>)
        requires
            self.wf(),
            dest < self.size_of(),
        ensures
            increasing_below(v@, self.size_of()),
            forall|a: int| 0 <= a < v.len() ==> !has_edge(self@, #[trigger] v@[a] as int, dest as int),
            forall|x: int| 0 <= x < self.size_of() && !has_edge(self@, x, dest as int) ==> v@.contains(x as usize),
    {
        let mut v: Vec<usize> = Vec::new();
        for x in 0..self.size
            invariant
                self.wf(),
                dest < self.size_of(),
                increasing_below(v@, x as nat),
                forall|a: int| 0 <= a < v.len() ==> !has_edge(self@, #[trigger] v@[a] as int, dest as int),
                forall|y: int| 0 <= y < x && !has_edge(self@, y, dest as int) ==> v@.contains(y as usize),
        {
            let ghost old_v = v@;
            if self.get(x, dest).is_none() {
                v.push(x);
            }
            proof {
                assert forall|y: int| 0 <= y < x + 1 && !has_edge(self@, y, dest as int) implies v@.contains(
                    y as usize,
                ) by {
                    if y < x {
                        let a = choose|a: int| 0 <= a < old_v.len() && old_v[a] == y as usize;
                        assert(v@[a] == y as usize);
                    } else {
                        assert(v@[v@.len() - 1] == x);
                    }
                }
            }
        }
        v
    }

    /// The entities, in increasing order, that pass the cycle check as
    /// targets of a relation from `src`.
    pub fn passing_dests(&self, src: usize) -> (v: Vec<usize>)
        requires
            self.wf(),
            src < self.size_of(),
        ensures
            increasing_below(v@, self.size_of()),
            forall|a: int| 0 <= a < v.len() ==> #[trigger] passes_cycle_check(self@, src as int, v@[a] as int),
            forall|d: int| 0 <= d < self.size_of() && #[trigger] passes_cycle_check(self@, src as int, d) ==> v@.contains(d as usize),
    {
        let mut v: Vec<usize> = Vec::new();
        for d in 0..self.size
            invariant
                self.wf(),
                src < self.size_of(),
                increasing_below(v@, d as nat),
                forall|a: int| 0 <= a < v.len() ==> #[trigger] passes_cycle_check(self@, src as int, v@[a] as int),
                forall|y: int| 0 <= y < d && #[trigger] passes_cycle_check(self@, src as int, y) ==> v@.contains(y as usize),
        {
            let ghost old_v = v@;
            if self.cycle_check_passes(src, d) {
                v.push(d);
            }
            proof {
                assert forall|y: int| 0 <= y < d + 1 && #[trigger] passes_cycle_check(self@, src as int, y) implies v@.contains(
                    y as usize,
                ) by {
                    if y < d {
                        let a = choose|a: int| 0 <= a < old_v.len() && old_v[a] == y as usize;
                        assert(v@[a] == y as usize);
                    } else {
                        assert(v@[v@.len() - 1] == d);
                    }
                }
            }
        }
        v
    }

    /// Adds `size` random `Base` relations (one fewer below five entities),
    /// never one that would close a cycle. Each relation goes from a random
    /// entity to a random other one; when the source already relates to the
    /// target, another source without such a relation is drawn, and when the
    /// target fails the cycle check, another target that passes it is drawn.
    /// A draw with no candidate left adds nothing.
    fn generate_base_relation(&mut self)
        requires
            old(self).wf(),
            old(self).size_of() >= 1,
        ensures
            final(self).wf(),
            final(self).size_of() == old(self).size_of(),
            only_adds_base(old(self)@, final(self)@),
            is_acyclic(old(self)@) ==> is_acyclic(final(self)@),
            after_base_rounds(old(self)@, final(self)@, base_round_count(old(self).size_of())),
            edge_count(final(self)@) <= edge_count(old(self)@) + base_round_count(old(self).size_of()),
            has_no_edges(old(self)@) && old(self).size_of() >= 2 ==> edge_count(final(self)@) >= 1,
    {
        let s = self.size;
        let n = s;
        let mut n_gem = n;
        if n < 5 {
            n_gem -= 1;
        }
        let ghost m0 = self@;
        let ghost mut trace: Seq<Matrix> = seq![m0];
        for _i in 0..n_gem
            invariant
                self.wf(),
                self.size_of() == s,
                n_gem > 0 ==> s >= 2,
                only_adds_base(m0, self@),
                is_acyclic(m0) ==> is_acyclic(self@),
                trace.len() == _i + 1,
                trace[0] == m0,
                trace[_i as int] == self@,
                forall|j: int| 0 <= j < _i ==> #[trigger] base_round(trace[j], trace[j + 1]),
                edge_count(self@) <= edge_count(m0) + _i,
                has_no_edges(m0) && s >= 2 && _i > 0 ==> exists|i: int, j: int|
                    0 <= i < s && 0 <= j < s && #[trigger] has_edge(self@, i, j),
        {
            let ghost before = self@;
            let mut src = random_below(0, s);
            let mut dest = random_below(0, s);
            if src == dest {
                dest = nth_other(src, random_below(0, s - 1));
            }
            let mut found = true;
            let ghost src0 = src;
            if self.get(src, dest).is_some() {
                let free = self.free_sources(dest);
                if free.len() > 0 {
                    let pick = random_below(0, free.len());
                    src = free[pick];
                    proof {
                        assert(!has_edge(before, free@[pick as int] as int, dest as int));
                        assert(has_edge(before, src0 as int, dest as int));
                    }
                } else {
                    found = false;
                    proof {
                        assert forall|x: int| 0 <= x < before.len() implies #[trigger] has_edge(before, x, dest as int) by {
                            if !has_edge(before, x, dest as int) {
                                assert(free@.contains(x as usize));
                            }
                        }
                        assert(targeted_by_all(before, dest as int));
                        assert(lacks_candidates(before));
                    }
                }
            }
            proof {
                if found {
                    assert(before[src as int][dest as int] is None);
                    assert(src == dest ==> !is_root(before, dest as int));
                }
            }
            if found && !self.cycle_check_passes(src, dest) {
                let ghost d0 = dest;
                let ok = self.passing_dests(src);
                if ok.len() > 0 {
                    let pick = random_below(0, ok.len());
                    dest = ok[pick];
                    proof {
                        assert(passes_cycle_check(self@, src as int, ok@[pick as int] as int));
                        assert(!passes_cycle_check(before, src as int, d0 as int));
                        assert(can_retarget(before, src as int));
                    }
                } else {
                    found = false;
                    proof {
                        assert forall|d: int| 0 <= d < before.len() implies !#[trigger] passes_cycle_check(before, src as int, d) by {
                            if passes_cycle_check(before, src as int, d) {
                                assert(ok@.contains(d as usize));
                            }
                        }
                        assert(has_no_passing_target(before, src as int));
                        assert(lacks_candidates(before));
                    }
                }
            }
            if found {
                proof {
                    assert(passes_cycle_check(before, src as int, dest as int));
                }
                let ghost m1 = self@;
                self.set_relation(src, dest, Some(RelationType::Base));
                proof {
                    let m2 = self@;
                    assert(only_adds_base(m0, m2)) by {
                        assert forall|i: int, j: int| 0 <= i < m0.len() && 0 <= j < m0.len() implies #[trigger] m2[i][j]
                            == m0[i][j] || m2[i][j] == Some(RelationType::Base) by {
                            assert(m1[i][j] == m0[i][j] || m1[i][j] == Some(RelationType::Base));
                        }
                    }
                    if is_acyclic(m0) {
                        assert forall|i: int, j: int|
                            0 <= i < m1.len() && 0 <= j < m1.len() && #[trigger] has_edge(m2, i, j) implies has_edge(
                            m1,
                            i,
                            j,
                        ) || (i == src && j == dest) by {}
                        lemma_add_edge_acyclic(m1, m2, src as int, dest as int);
                    }
                    assert(adds_base_relation(before, m2, src as int, dest as int));
                }
            }
            proof {
                assert(base_round(before, self@));
                lemma_base_round_facts(before, self@);
                if has_no_edges(m0) && s >= 2 {
                    if _i == 0 {
                        lemma_no_edges_has_candidates(m0);
                    } else {
                        let (i, j) = choose|i: int, j: int| 0 <= i < s && 0 <= j < s && #[trigger] has_edge(before, i, j);
                        assert(has_edge(self@, i, j));
                    }
                }
                let t0 = trace;
                trace = trace.push(self@);
                assert forall|j: int| 0 <= j < _i + 1 implies #[trigger] base_round(trace[j], trace[j + 1]) by {
                    if j < _i {
                        assert(trace[j] == t0[j] && trace[j + 1] == t0[j + 1]);
                    }
                }
            }
        }
        proof {
            assert(n_gem == base_round_count(s as nat));
            assert(is_base_trace(trace, m0, self@, n_gem as nat));
            if has_no_edges(m0) && s >= 2 {
                let (i, j) = choose|i: int, j: int| 0 <= i < s && 0 <= j < s && #[trigger] has_edge(self@, i, j);
                lemma_edge_count_positive(self@, i, j);
            }
        }
    }

    /// Gives every relation that ends at `vertex` the type `rt`; nothing
    /// else changes.
    pub fn set_in_relations(&mut self, vertex: usize, rt: RelationType)
        requires
            old(self).wf(),
            vertex < old(self).size_of(),
        ensures
            final(self).wf(),
            final(self).size_of() == old(self).size_of(),
            forall|i: int, j: int|
                0 <= i < final(self)@.len() && 0 <= j < final(self)@.len() ==> #[trigger] final(self)@[i][j]
                    == if j == vertex && old(self)@[i][j] is Some {
                    Some(rt)
                } else {
                    old(self)@[i][j]
                },
    {
        let adj_in = self.adjacent_in(vertex);
        let ghost m0 = self@;
        for k in 0..adj_in.len()
            invariant
                self.wf(),
                self.size_of() == m0.len(),
                vertex < m0.len(),
                lists_in_neighbors(m0, vertex as int, adj_in@, m0.len()),
                forall|i: int, j: int|
                    0 <= i < m0.len() && 0 <= j < m0.len() ==> #[trigger] self@[i][j] == if j == vertex
                        && adj_in@.take(k as int).contains(i as usize) {
                        Some(rt)
                    } else {
                        m0[i][j]
                    },
        {
            let ghost m1 = self@;
            self.set_relation(adj_in[k], vertex, Some(rt));
            proof {
                assert forall|i: int, j: int| 0 <= i < m0.len() && 0 <= j < m0.len() implies #[trigger] self@[i][j]
                    == if j == vertex && adj_in@.take(k + 1).contains(i as usize) {
                    Some(rt)
                } else {
                    m0[i][j]
                } by {
                    let t0 = adj_in@.take(k as int);
                    let t1 = adj_in@.take(k + 1);
                    assert(t1 =~= t0.push(adj_in@[k as int]));
                    assert(m1[i][j] == if j == vertex && t0.contains(i as usize) {
                        Some(rt)
                    } else {
                        m0[i][j]
                    });
                    let a = adj_in@[k as int] as int;
                    if i == a && j == vertex {
                        assert(t1[k as int] == i as usize);
                        assert(t1.contains(i as usize));
                    } else {
                        assert(self@[i][j] == m1[i][j]);
                        if j == vertex {
                            if t1.contains(i as usize) {
                                let b = choose|b: int| 0 <= b < t1.len() && t1[b] == i as usize;
                                assert(b < k);
                                assert(t0[b] == i as usize);
                            }
                            if t0.contains(i as usize) {
                                let b = choose|b: int| 0 <= b < t0.len() && t0[b] == i as usize;
                                assert(t1[b] == i as usize);
                            }
                        }
                    }
                }
            }
        }
        proof {
            assert(adj_in@.take(adj_in.len() as int) =~= adj_in@);
            assert forall|i: int, j: int| 0 <= i < m0.len() && 0 <= j < m0.len() implies #[trigger] self@[i][j]
                == if j == vertex && m0[i][j] is Some {
                Some(rt)
            } else {
                m0[i][j]
            } by {
                if j == vertex {
                    if has_edge(m0, i, j) {
                        assert(adj_in@.contains(i as usize));
                    } else if adj_in@.contains(i as usize) {
                        let a = choose|a: int| 0 <= a < adj_in@.len() && adj_in@[a] == i as usize;
                        assert(has_edge(m0, adj_in@[a] as int, vertex as int));
                    }
                }
            }
        }
    }

    /// Draws, for every entity, one of `Parent`, `Invoker` and `Creator`, and
    /// gives all relations that end at the entity that type.
    fn generate_relations(&mut self)
        requires
            old(self).wf(),
        ensures
            final(self).wf(),
            final(self).size_of() == old(self).size_of(),
            same_edges(old(self)@, final(self)@),
            forall|v: int|
                0 <= v < final(self)@.len() ==> #[trigger] has_uniform_in_type(final(self)@, v),
    {
        let n = self.size;
        let ghost m0 = self@;
        for e in 0..n
            invariant
                self.wf(),
                n == self.size_of(),
                n == m0.len(),
                forall|i: int, j: int|
                    0 <= i < n && 0 <= j < n ==> (#[trigger] self@[i][j] is Some) == (m0[i][j] is Some),
                forall|v: int|
                    0 <= v < e ==> #[trigger] has_uniform_in_type(self@, v),
        {
            let rt_n = random_below(0, 3);
            let rt: RelationType = match rt_n {
                0 => RelationType::Parent,
                1 => RelationType::Invoker,
                _ => RelationType::Creator,
            };
            let ghost m1 = self@;
            self.set_in_relations(e, rt);
            proof {
                let m2 = self@;
                assert forall|i: int, j: int| 0 <= i < n && 0 <= j < n implies (#[trigger] m2[i][j] is Some)
                    == (m0[i][j] is Some) by {
                    assert(m1[i][j] is Some == m0[i][j] is Some);
                }
                assert forall|v: int| 0 <= v < e + 1 implies #[trigger] has_uniform_in_type(m2, v) by {
                    if v < e {
                        assert(has_uniform_in_type(m1, v));
                        let r = choose|r: RelationType|
                            r != RelationType::Base && #[trigger] in_edges_typed(m1, v, r);
                        assert forall|i: int| 0 <= i < m2.len() && #[trigger] has_edge(m2, i, v) implies m2[i][v]
                            == Some(r) by {
                            assert(m2[i][v] == m1[i][v]);
                            assert(has_edge(m1, i, v));
                        }
                        assert(in_edges_typed(m2, v, r));
                    } else {
                        assert forall|i: int| 0 <= i < m2.len() && #[trigger] has_edge(m2, i, v) implies m2[i][v]
                            == Some(rt) by {
                            assert(m2[i][v] == if m1[i][v] is Some {
                                Some(rt)
                            } else {
                                m1[i][v]
                            });
                        }
                        assert(in_edges_typed(m2, v, rt));
                    }
                }
            }
        }
    }

    /// Adds random `Base` relations that close no cycle, one per round for
    /// one round per entity (one round fewer below five entities; a round
    /// with no candidate adds nothing), then gives all relations that end at
    /// an entity one randomly drawn type among `Parent`, `Invoker` and
    /// `Creator`. Existing relations stay (with their type redrawn), a graph
    /// without cycles stays without cycles, and no `Base` relation is left.
    pub fn generate(&mut self)
        requires
            old(self).wf(),
            old(self).size_of() >= 1,
        ensures
            final(self).wf(),
            final(self).size_of() == old(self).size_of(),
            edges_within(old(self)@, final(self)@),
            is_acyclic(old(self)@) ==> is_acyclic(final(self)@),
            forall|v: int|
                0 <= v < final(self)@.len() ==> #[trigger] has_uniform_in_type(final(self)@, v),
            forall|i: int, j: int|
                0 <= i < final(self)@.len() && 0 <= j < final(self)@.len() ==> #[trigger] final(self)@[i][j]
                    != Some(RelationType::Base),
            exists|mb: Matrix|
                #[trigger] after_base_rounds(old(self)@, mb, base_round_count(old(self).size_of())) && same_edges(
                    mb,
                    final(self)@,
                ),
            edge_count(final(self)@) <= edge_count(old(self)@) + base_round_count(old(self).size_of()),
            has_no_edges(old(self)@) && old(self).size_of() >= 2 ==> edge_count(final(self)@) >= 1,
    {
        let ghost m0 = self@;
        self.generate_base_relation();
        let ghost m1 = self@;
        self.generate_relations();
        proof {
            let m2 = self@;
            assert(edges_within(m0, m1)) by {
                assert forall|i: int, j: int|
                    0 <= i < m0.len() && 0 <= j < m0.len() && #[trigger] has_edge(m0, i, j) implies has_edge(
                    m1,
                    i,
                    j,
                ) by {
                    assert(m1[i][j] == m0[i][j] || m1[i][j] == Some(RelationType::Base));
                }
            }
            if is_acyclic(m0) {
                lemma_acyclic_within(m2, m1);
            }
            lemma_edge_count_same_edges(m1, m2);
            assert(after_base_rounds(m0, m1, base_round_count(m0.len())));
            assert forall|i: int, j: int| 0 <= i < m2.len() && 0 <= j < m2.len() implies #[trigger] m2[i][j]
                != Some(RelationType::Base) by {
                assert(has_uniform_in_type(m2, j));
                let r = choose|r: RelationType| r != RelationType::Base && #[trigger] in_edges_typed(m2, j, r);
                if m2[i][j] is Some {
                    assert(has_edge(m2, i, j));
                }
            }
        }
    }
}

} // verus!
