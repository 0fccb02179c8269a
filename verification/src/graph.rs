//! The relation graph as a mathematical object: an adjacency matrix in which
//! entry `m[i][j]` holds the relation from entity `i` to entity `j`, if any.
//! Paths, reachability and acyclicity are defined here, with the lemmas the
//! relation code relies on.

use crate::relations::RelationType;
use vstd::prelude::*;
use vstd::set_lib::*;

verus! {

/// An adjacency matrix of relations.
pub type Matrix = Seq<Seq<Option<RelationType>>>;

/// Every row is as long as the matrix.
pub open spec fn is_square(m: Matrix) -> bool {
    forall|i: int| 0 <= i < m.len() ==> #[trigger] m[i].len() == m.len()
}

/// There is a relation from `i` to `j`.
pub open spec fn has_edge(m: Matrix, i: int, j: int) -> bool {
    m[i][j] is Some
}

/// The `k`-th step of `p` follows an edge.
pub open spec fn path_step(m: Matrix, p: Seq<int>, k: int) -> bool {
    has_edge(m, p[k], p[k + 1])
}

/// `p` is a non-empty walk along edges between entities of the matrix.
pub open spec fn is_path(m: Matrix, p: Seq<int>) -> bool {
    &&& p.len() >= 1
    &&& forall|k: int| 0 <= k < p.len() ==> 0 <= #[trigger] p[k] < m.len()
    &&& forall|k: int| 0 <= k < p.len() - 1 ==> #[trigger] path_step(m, p, k)
}

/// Some path leads from `a` to `b` (every entity reaches itself).
pub open spec fn reaches(m: Matrix, a: int, b: int) -> bool {
    exists|p: Seq<int>| #[trigger] is_path(m, p) && p[0] == a && p.last() == b
}

/// No path of one or more edges returns to where it started.
pub open spec fn is_acyclic(m: Matrix) -> bool {
    forall|p: Seq<int>| #[trigger] is_path(m, p) && p.len() >= 2 ==> p[0] != p.last()
}

/// Every edge of `m1` is an edge of `m2`.
pub open spec fn edges_within(m1: Matrix, m2: Matrix) -> bool {
    forall|i: int, j: int|
        0 <= i < m1.len() && 0 <= j < m1.len() && #[trigger] has_edge(m1, i, j) ==> has_edge(
            m2,
            i,
            j,
        )
}

/// `m1` and `m2` have the same edges (the relation types may differ).
pub open spec fn same_edges(m1: Matrix, m2: Matrix) -> bool {
    &&& m1.len() == m2.len()
    &&& edges_within(m1, m2)
    &&& edges_within(m2, m1)
}

/// Every entry of `m2` either equals the entry of `m1` or is a `Base`
/// relation: relations are only added or turned into `Base` relations.
pub open spec fn only_adds_base(m1: Matrix, m2: Matrix) -> bool {
    &&& m1.len() == m2.len()
    &&& forall|i: int, j: int|
        0 <= i < m1.len() && 0 <= j < m1.len() ==> #[trigger] m2[i][j] == m1[i][j] || m2[i][j]
            == Some(RelationType::Base)
}

/// A list of the entities `0..n` in an order in which every relation goes
/// from an earlier entity to a later one.
pub open spec fn is_topological_order(m: Matrix, s: Seq<usize>) -> bool {
    &&& s.len() == m.len()
    &&& forall|a: int| 0 <= a < s.len() ==> #[trigger] s[a] < m.len()
    &&& forall|a: int, b: int| 0 <= a < b < s.len() ==> s[a] != s[b]
    &&& forall|v: usize| v < m.len() ==> s.contains(v)
    &&& forall|a: int, b: int|
        0 <= a < s.len() && 0 <= b < s.len() && has_edge(m, #[trigger] s[a] as int, #[trigger] s[b] as int)
            ==> a < b
}

/// `s` is strictly increasing and holds entities below `n` only.
pub open spec fn increasing_below(s: Seq<usize>, n: nat) -> bool {
    &&& forall|a: int, b: int| 0 <= a < b < s.len() ==> s[a] < s[b]
    &&& forall|a: int| 0 <= a < s.len() ==> #[trigger] s[a] < n
}

/// `s` lists, in increasing order, the entities below `n` that `v` relates to.
pub open spec fn lists_out_neighbors(m: Matrix, v: int, s: Seq<usize>, n: nat) -> bool {
    &&& increasing_below(s, n)
    &&& forall|a: int| 0 <= a < s.len() ==> has_edge(m, v, #[trigger] s[a] as int)
    &&& forall|j: int| 0 <= j < n && #[trigger] has_edge(m, v, j) ==> s.contains(j as usize)
}

/// `s` lists, in increasing order, the entities below `n` that relate to `v`.
pub open spec fn lists_in_neighbors(m: Matrix, v: int, s: Seq<usize>, n: nat) -> bool {
    &&& increasing_below(s, n)
    &&& forall|a: int| 0 <= a < s.len() ==> has_edge(m, #[trigger] s[a] as int, v)
    &&& forall|j: int| 0 <= j < n && #[trigger] has_edge(m, j, v) ==> s.contains(j as usize)
}

/// No relation ends at `v`.
pub open spec fn is_root(m: Matrix, v: int) -> bool {
    forall|k: int| 0 <= k < m.len() ==> !#[trigger] has_edge(m, k, v)
}

/// `s` lists, in increasing order, the entities below `n` that no relation
/// ends at.
pub open spec fn lists_roots(m: Matrix, s: Seq<usize>, n: nat) -> bool {
    &&& increasing_below(s, n)
    &&& forall|a: int| 0 <= a < s.len() ==> is_root(m, #[trigger] s[a] as int)
    &&& forall|j: int| 0 <= j < n && #[trigger] is_root(m, j) ==> s.contains(j as usize)
}

/// The entities that relate to `v`, in increasing order.
pub open spec fn parents_of(m: Matrix, v: int) -> Seq<usize> {
    choose|s: Seq<usize>| lists_in_neighbors(m, v, s, m.len())
}

/// Two strictly increasing lists with the same elements are equal.
pub proof fn lemma_increasing_unique(s1: Seq<usize>, s2: Seq<usize>)
    requires
        forall|a: int, b: int| 0 <= a < b < s1.len() ==> s1[a] < s1[b],
        forall|a: int, b: int| 0 <= a < b < s2.len() ==> s2[a] < s2[b],
        forall|x: usize| s1.contains(x) <==> s2.contains(x),
    ensures
        s1 == s2,
    decreases s1.len(),
{
    if s1.len() == 0 {
        if s2.len() > 0 {
            assert(s2.contains(s2[0]));
        }
        assert(s1 =~= s2);
    } else {
        assert(s1.contains(s1[0]));
        assert(s2.len() > 0);
        let l1 = s1.last();
        let l2 = s2.last();
        assert(s1.contains(l1));
        assert(s2.contains(l2));
        let p2 = choose|p: int| 0 <= p < s2.len() && s2[p] == l1;
        let p1 = choose|p: int| 0 <= p < s1.len() && s1[p] == l2;
        assert(l1 <= l2);
        assert(l2 <= l1);
        let t1 = s1.drop_last();
        let t2 = s2.drop_last();
        assert forall|x: usize| t1.contains(x) <==> t2.contains(x) by {
            if t1.contains(x) {
                let a = choose|a: int| 0 <= a < t1.len() && t1[a] == x;
                assert(s1.contains(x));
                let b = choose|b: int| 0 <= b < s2.len() && s2[b] == x;
                assert(b != s2.len() - 1);
                assert(t2[b] == x);
            }
            if t2.contains(x) {
                let a = choose|a: int| 0 <= a < t2.len() && t2[a] == x;
                assert(s2.contains(x));
                let b = choose|b: int| 0 <= b < s1.len() && s1[b] == x;
                assert(b != s1.len() - 1);
                assert(t1[b] == x);
            }
        }
        lemma_increasing_unique(t1, t2);
        assert(s1 =~= t1.push(l1));
        assert(s2 =~= t2.push(l2));
    }
}

/// A list of the entities that relate to `v` is the list `parents_of`.
pub proof fn lemma_parents_of(m: Matrix, v: int, s: Seq<usize>)
    requires
        lists_in_neighbors(m, v, s, m.len()),
    ensures
        parents_of(m, v) == s,
{
    let p = parents_of(m, v);
    assert(lists_in_neighbors(m, v, p, m.len()));
    assert forall|x: usize| p.contains(x) <==> s.contains(x) by {
        if p.contains(x) {
            let a = choose|a: int| 0 <= a < p.len() && p[a] == x;
            assert(has_edge(m, p[a] as int, v));
        }
        if s.contains(x) {
            let a = choose|a: int| 0 <= a < s.len() && s[a] == x;
            assert(has_edge(m, s[a] as int, v));
        }
    }
    lemma_increasing_unique(p, s);
}

/// The entities that `v` relates to, in increasing order.
pub open spec fn children_of(m: Matrix, v: int) -> Seq<usize> {
    choose|s: Seq<usize>| lists_out_neighbors(m, v, s, m.len())
}

pub proof fn lemma_children_of(m: Matrix, v: int, s: Seq<usize>)
    requires
        lists_out_neighbors(m, v, s, m.len()),
    ensures
        children_of(m, v) == s,
{
    let c = children_of(m, v);
    assert(lists_out_neighbors(m, v, c, m.len()));
    assert forall|x: usize| c.contains(x) <==> s.contains(x) by {
        if c.contains(x) {
            let a = choose|a: int| 0 <= a < c.len() && c[a] == x;
            assert(has_edge(m, v, c[a] as int));
        }
        if s.contains(x) {
            let a = choose|a: int| 0 <= a < s.len() && s[a] == x;
            assert(has_edge(m, v, s[a] as int));
        }
    }
    lemma_increasing_unique(c, s);
}

/// The state of a depth-first search: which entities are marked, and the
/// list of entities in the order in which the search finished them.
pub type DfsState = (Seq<bool>, Seq<usize>);

/// A depth-first visit of `v` from the state `st`: unless `v` is marked,
/// the entities it relates to are visited in increasing order, then `v` is
/// marked and added to the list. `fuel` bounds the depth of the search.
pub open spec fn dfs_visit(m: Matrix, st: DfsState, v: int, fuel: nat) -> DfsState
    decreases fuel, 0int, 0int,
{
    if st.0[v] || fuel == 0 {
        st
    } else {
        let inner = dfs_visit_all(m, st, children_of(m, v), (fuel - 1) as nat);
        (inner.0.update(v, true), inner.1.push(v as usize))
    }
}

/// Depth-first visits of the entities of `s`, one after the other.
pub open spec fn dfs_visit_all(m: Matrix, st: DfsState, s: Seq<usize>, fuel: nat) -> DfsState
    decreases fuel, 1int, s.len(),
{
    if s.len() == 0 {
        st
    } else {
        dfs_visit(m, dfs_visit_all(m, st, s.drop_last(), fuel), s.last() as int, fuel)
    }
}

/// The state after depth-first visits of the entities `0 .. k` in turn,
/// starting with nothing marked.
pub open spec fn dfs_upto(m: Matrix, k: nat) -> DfsState
    decreases k,
{
    if k == 0 {
        (Seq::new(m.len(), |i: int| false), Seq::empty())
    } else {
        dfs_visit(m, dfs_upto(m, (k - 1) as nat), k - 1, m.len())
    }
}

/// The topological order found by depth-first search: the reverse of the
/// order in which the search from the entities `0, 1, ...` finishes them.
pub open spec fn dfs_order(m: Matrix) -> Seq<usize> {
    dfs_upto(m, m.len()).1.reverse()
}

/// The entities below `j` that relate to `v`, in increasing order.
pub open spec fn in_neighbors_below(m: Matrix, v: int, j: int) -> Seq<usize>
    decreases j,
{
    if j <= 0 {
        Seq::empty()
    } else {
        let s = in_neighbors_below(m, v, j - 1);
        if has_edge(m, j - 1, v) {
            s.push((j - 1) as usize)
        } else {
            s
        }
    }
}

proof fn lemma_in_neighbors_below(m: Matrix, v: int, j: int)
    requires
        0 <= j <= m.len(),
        m.len() <= usize::MAX,
    ensures
        lists_in_neighbors(m, v, in_neighbors_below(m, v, j), j as nat),
    decreases j,
{
    if j > 0 {
        lemma_in_neighbors_below(m, v, j - 1);
        let s = in_neighbors_below(m, v, j - 1);
        let t = in_neighbors_below(m, v, j);
        assert forall|k: int| 0 <= k < j && #[trigger] has_edge(m, k, v) implies t.contains(k as usize) by {
            if k < j - 1 {
                let a = choose|a: int| 0 <= a < s.len() && s[a] == k as usize;
                assert(t[a] == k as usize);
            } else {
                assert(t[t.len() - 1] == k as usize);
            }
        }
    }
}

/// The entities that relate to `v` are listed by `parents_of`.
pub proof fn lemma_parents_exist(m: Matrix, v: int)
    requires
        m.len() <= usize::MAX,
    ensures
        lists_in_neighbors(m, v, parents_of(m, v), m.len()),
{
    lemma_in_neighbors_below(m, v, m.len() as int);
    lemma_parents_of(m, v, in_neighbors_below(m, v, m.len() as int));
}

/// The entities below `j` that `v` relates to, in increasing order.
pub open spec fn out_neighbors_below(m: Matrix, v: int, j: int) -> Seq<usize>
    decreases j,
{
    if j <= 0 {
        Seq::empty()
    } else {
        let s = out_neighbors_below(m, v, j - 1);
        if has_edge(m, v, j - 1) {
            s.push((j - 1) as usize)
        } else {
            s
        }
    }
}

proof fn lemma_out_neighbors_below(m: Matrix, v: int, j: int)
    requires
        0 <= j <= m.len(),
        m.len() <= usize::MAX,
    ensures
        lists_out_neighbors(m, v, out_neighbors_below(m, v, j), j as nat),
    decreases j,
{
    if j > 0 {
        lemma_out_neighbors_below(m, v, j - 1);
        let s = out_neighbors_below(m, v, j - 1);
        let t = out_neighbors_below(m, v, j);
        assert forall|k: int| 0 <= k < j && #[trigger] has_edge(m, v, k) implies t.contains(k as usize) by {
            if k < j - 1 {
                let a = choose|a: int| 0 <= a < s.len() && s[a] == k as usize;
                assert(t[a] == k as usize);
            } else {
                assert(t[t.len() - 1] == k as usize);
            }
        }
    }
}

/// The entities that `v` relates to are listed by `children_of`.
pub proof fn lemma_children_exist(m: Matrix, v: int)
    requires
        m.len() <= usize::MAX,
    ensures
        lists_out_neighbors(m, v, children_of(m, v), m.len()),
{
    lemma_out_neighbors_below(m, v, m.len() as int);
    lemma_children_of(m, v, out_neighbors_below(m, v, m.len() as int));
}

/// The marks cover every entity and the list holds entities only.
pub open spec fn dfs_state_in_range(m: Matrix, st: DfsState) -> bool {
    &&& st.0.len() == m.len()
    &&& forall|a: int| 0 <= a < st.1.len() ==> #[trigger] st.1[a] < m.len()
}

pub proof fn lemma_dfs_visit_in_range(m: Matrix, st: DfsState, v: int, fuel: nat)
    requires
        m.len() <= usize::MAX,
        dfs_state_in_range(m, st),
        0 <= v < m.len(),
    ensures
        dfs_state_in_range(m, dfs_visit(m, st, v, fuel)),
    decreases fuel, 0int, 0int,
{
    if !(st.0[v] || fuel == 0) {
        lemma_children_exist(m, v);
        let c = children_of(m, v);
        lemma_dfs_visit_all_in_range(m, st, c, (fuel - 1) as nat);
        let inner = dfs_visit_all(m, st, c, (fuel - 1) as nat);
        let r = (inner.0.update(v, true), inner.1.push(v as usize));
        assert forall|a: int| 0 <= a < r.1.len() implies #[trigger] r.1[a] < m.len() by {
            if a < inner.1.len() {
                assert(r.1[a] == inner.1[a]);
            }
        }
    }
}

pub proof fn lemma_dfs_visit_all_in_range(m: Matrix, st: DfsState, s: Seq<usize>, fuel: nat)
    requires
        m.len() <= usize::MAX,
        dfs_state_in_range(m, st),
        forall|x: int| 0 <= x < s.len() ==> #[trigger] s[x] < m.len(),
    ensures
        dfs_state_in_range(m, dfs_visit_all(m, st, s, fuel)),
    decreases fuel, 1int, s.len(),
{
    if s.len() > 0 {
        lemma_dfs_visit_all_in_range(m, st, s.drop_last(), fuel);
        assert(s.last() == s[s.len() - 1]);
        lemma_dfs_visit_in_range(m, dfs_visit_all(m, st, s.drop_last(), fuel), s.last() as int, fuel);
    }
}

proof fn lemma_dfs_upto_in_range(m: Matrix, k: nat)
    requires
        m.len() <= usize::MAX,
        k <= m.len(),
    ensures
        dfs_state_in_range(m, dfs_upto(m, k)),
    decreases k,
{
    if k > 0 {
        lemma_dfs_upto_in_range(m, (k - 1) as nat);
        lemma_dfs_visit_in_range(m, dfs_upto(m, (k - 1) as nat), k - 1, m.len());
    }
}

/// The topological order found by depth-first search lists entities only.
pub proof fn lemma_dfs_order_in_range(m: Matrix)
    requires
        m.len() <= usize::MAX,
    ensures
        forall|a: int| 0 <= a < dfs_order(m).len() ==> #[trigger] dfs_order(m)[a] < m.len(),
{
    lemma_dfs_upto_in_range(m, m.len());
    let l = dfs_upto(m, m.len()).1;
    assert forall|a: int| 0 <= a < dfs_order(m).len() implies #[trigger] dfs_order(m)[a] < m.len() by {
        assert(dfs_order(m)[a] == l[l.len() - 1 - a]);
    }
}

/// From `d`, every entity is reached along one path only: nothing that `d`
/// reaches relates to `d`, and no entity has two different entities that
/// `d` reaches relating to it.
pub open spec fn branches_once(m: Matrix, d: int) -> bool {
    &&& forall|p: int| 0 <= p < m.len() && #[trigger] reaches(m, d, p) ==> !has_edge(m, p, d)
    &&& forall|p1: int, p2: int, x: int|
        0 <= p1 < m.len() && 0 <= p2 < m.len() && 0 <= x < m.len() && reaches(m, d, p1) && reaches(m, d, p2)
            && #[trigger] has_edge(m, p1, x) && #[trigger] has_edge(m, p2, x) ==> p1 == p2
}

/// A path of `m1` is a path of any matrix with at least its edges.
pub proof fn lemma_path_within(m1: Matrix, m2: Matrix, p: Seq<int>)
    requires
        m1.len() == m2.len(),
        edges_within(m1, m2),
        is_path(m1, p),
    ensures
        is_path(m2, p),
{
    assert forall|k: int| 0 <= k < p.len() - 1 implies #[trigger] path_step(m2, p, k) by {
        assert(path_step(m1, p, k));
    }
}

/// Removing edges keeps a graph acyclic.
pub proof fn lemma_acyclic_within(m1: Matrix, m2: Matrix)
    requires
        m1.len() == m2.len(),
        edges_within(m1, m2),
        is_acyclic(m2),
    ensures
        is_acyclic(m1),
{
    assert forall|p: Seq<int>| #[trigger] is_path(m1, p) && p.len() >= 2 implies p[0] != p.last() by {
        lemma_path_within(m1, m2, p);
    }
}

/// A single entity is a path to itself.
pub proof fn lemma_reaches_self(m: Matrix, a: int)
    requires
        0 <= a < m.len(),
    ensures
        reaches(m, a, a),
{
    let p = seq![a];
    assert(is_path(m, p));
}

/// A path followed by an edge is a path.
pub proof fn lemma_path_push(m: Matrix, p: Seq<int>, c: int)
    requires
        is_path(m, p),
        0 <= c < m.len(),
        has_edge(m, p.last(), c),
    ensures
        is_path(m, p.push(c)),
        p.push(c)[0] == p[0],
        p.push(c).last() == c,
{
    let q = p.push(c);
    assert forall|k: int| 0 <= k < q.len() - 1 implies #[trigger] path_step(m, q, k) by {
        if k < p.len() - 1 {
            assert(path_step(m, p, k));
        }
    }
}

/// Reaching `b` and then following an edge to `c` reaches `c`.
pub proof fn lemma_reaches_step(m: Matrix, a: int, b: int, c: int)
    requires
        reaches(m, a, b),
        0 <= c < m.len(),
        has_edge(m, b, c),
    ensures
        reaches(m, a, c),
{
    let p = choose|p: Seq<int>| #[trigger] is_path(m, p) && p[0] == a && p.last() == b;
    lemma_path_push(m, p, c);
}

/// Two paths that meet can be joined.
pub proof fn lemma_path_join(m: Matrix, p: Seq<int>, q: Seq<int>)
    requires
        is_path(m, p),
        is_path(m, q),
        p.last() == q[0],
    ensures
        is_path(m, p + q.drop_first()),
        (p + q.drop_first())[0] == p[0],
        (p + q.drop_first()).last() == q.last(),
    decreases q.len(),
{
    if q.len() == 1 {
        assert(p + q.drop_first() =~= p);
    } else {
        let q0 = q.drop_last();
        assert forall|k: int| 0 <= k < q0.len() - 1 implies #[trigger] path_step(m, q0, k) by {
            assert(path_step(m, q, k));
        }
        lemma_path_join(m, p, q0);
        let r = p + q0.drop_first();
        assert(path_step(m, q, q.len() - 2));
        lemma_path_push(m, r, q.last());
        assert(r.push(q.last()) =~= p + q.drop_first());
    }
}

/// Reachability is transitive.
pub proof fn lemma_reaches_trans(m: Matrix, a: int, b: int, c: int)
    requires
        reaches(m, a, b),
        reaches(m, b, c),
    ensures
        reaches(m, a, c),
{
    let p = choose|p: Seq<int>| #[trigger] is_path(m, p) && p[0] == a && p.last() == b;
    let q = choose|q: Seq<int>| #[trigger] is_path(m, q) && q[0] == b && q.last() == c;
    lemma_path_join(m, p, q);
}

/// Adding the edge `(s, d)` to a graph in which `d` does not reach `s`: every
/// path of the new graph is a path of the old one, or it reaches `s` from its
/// start and its end from `d` in the old graph.
proof fn lemma_split_new_path(m1: Matrix, m2: Matrix, s: int, d: int, p: Seq<int>)
    requires
        0 <= s < m1.len(),
        0 <= d < m1.len(),
        m2.len() == m1.len(),
        forall|i: int, j: int|
            0 <= i < m1.len() && 0 <= j < m1.len() && #[trigger] has_edge(m2, i, j) ==> has_edge(
                m1,
                i,
                j,
            ) || (i == s && j == d),
        is_path(m2, p),
    ensures
        is_path(m1, p) || (reaches(m1, p[0], s) && reaches(m1, d, p.last())),
    decreases p.len(),
{
    if p.len() > 1 {
        let q = p.drop_last();
        assert forall|k: int| 0 <= k < q.len() - 1 implies #[trigger] path_step(m2, q, k) by {
            assert(path_step(m2, p, k));
        }
        lemma_split_new_path(m1, m2, s, d, q);
        let a = p[p.len() - 2];
        let b = p.last();
        assert(path_step(m2, p, p.len() - 2));
        assert(has_edge(m2, a, b));
        if has_edge(m1, a, b) {
            if is_path(m1, q) {
                lemma_path_push(m1, q, b);
                assert(q.push(b) =~= p);
            } else {
                lemma_reaches_step(m1, d, a, b);
            }
        } else {
            assert(a == s && b == d);
            lemma_reaches_self(m1, d);
            if is_path(m1, q) {
                assert(reaches(m1, p[0], s));
            }
        }
    }
}

/// Adding an edge `(s, d)` keeps a graph acyclic when `d` does not reach `s`.
pub proof fn lemma_add_edge_acyclic(m1: Matrix, m2: Matrix, s: int, d: int)
    requires
        0 <= s < m1.len(),
        0 <= d < m1.len(),
        m2.len() == m1.len(),
        forall|i: int, j: int|
            0 <= i < m1.len() && 0 <= j < m1.len() && #[trigger] has_edge(m2, i, j) ==> has_edge(
                m1,
                i,
                j,
            ) || (i == s && j == d),
        is_acyclic(m1),
        !reaches(m1, d, s),
    ensures
        is_acyclic(m2),
{
    assert forall|p: Seq<int>| #[trigger] is_path(m2, p) && p.len() >= 2 implies p[0] != p.last() by {
        lemma_split_new_path(m1, m2, s, d, p);
        if !is_path(m1, p) && p[0] == p.last() {
            lemma_reaches_trans(m1, d, p.last(), s);
        }
    }
}

/// An edge followed by a path is a path.
pub proof fn lemma_reaches_prepend(m: Matrix, a: int, b: int, c: int)
    requires
        0 <= a < m.len(),
        0 <= b < m.len(),
        has_edge(m, a, b),
        reaches(m, b, c),
    ensures
        reaches(m, a, c),
{
    let p = seq![a, b];
    assert(path_step(m, p, 0));
    assert(is_path(m, p));
    lemma_reaches_trans(m, a, b, c);
}

/// In an acyclic graph nothing that an entity relates to reaches back to it.
pub proof fn lemma_no_way_back(m: Matrix, a: int, b: int)
    requires
        is_acyclic(m),
        0 <= a < m.len(),
        0 <= b < m.len(),
        has_edge(m, a, b),
    ensures
        !reaches(m, b, a),
{
    if reaches(m, b, a) {
        let p = seq![a, b];
        assert(path_step(m, p, 0));
        assert(is_path(m, p));
        let q = choose|q: Seq<int>| #[trigger] is_path(m, q) && q[0] == b && q.last() == a;
        lemma_path_join(m, p, q);
        assert((p + q.drop_first()).len() >= 2);
    }
}

/// A set of entities (given by flags) that holds `p[0]` and everything its
/// members relate to holds the whole path `p`.
pub proof fn lemma_closed_path(m: Matrix, set: Seq<bool>, p: Seq<int>)
    requires
        set.len() == m.len(),
        forall|x: int, y: int|
            0 <= x < m.len() && 0 <= y < m.len() && set[x] && #[trigger] has_edge(m, x, y) ==> set[y],
        is_path(m, p),
        set[p[0]],
    ensures
        set[p.last()],
    decreases p.len(),
{
    if p.len() > 1 {
        let q = p.drop_last();
        assert forall|k: int| 0 <= k < q.len() - 1 implies #[trigger] path_step(m, q, k) by {
            assert(path_step(m, p, k));
        }
        lemma_closed_path(m, set, q);
        assert(path_step(m, p, p.len() - 2));
    }
}

/// In an acyclic graph the entities of a path are pairwise distinct.
pub proof fn lemma_acyclic_path_distinct(m: Matrix, p: Seq<int>)
    requires
        is_acyclic(m),
        is_path(m, p),
    ensures
        forall|a: int, b: int| 0 <= a < b < p.len() ==> p[a] != p[b],
{
    assert forall|a: int, b: int| 0 <= a < b < p.len() implies p[a] != p[b] by {
        let q = p.subrange(a, b + 1);
        assert forall|k: int| 0 <= k < q.len() - 1 implies #[trigger] path_step(m, q, k) by {
            assert(path_step(m, p, a + k));
        }
        assert(is_path(m, q));
    }
}

/// A list of distinct entities below `n` has at most `n` elements, and
/// exactly `n` when every entity below `n` occurs in it.
pub proof fn lemma_distinct_len(s: Seq<int>, n: int)
    requires
        0 <= n,
        forall|a: int| 0 <= a < s.len() ==> 0 <= #[trigger] s[a] < n,
        forall|a: int, b: int| 0 <= a < b < s.len() ==> s[a] != s[b],
    ensures
        s.len() <= n,
        (forall|v: int| 0 <= v < n ==> s.contains(v)) ==> s.len() == n,
{
    assert(s.no_duplicates());
    s.unique_seq_to_set();
    lemma_int_range(0, n);
    assert(s.to_set().subset_of(set_int_range(0, n)));
    lemma_len_subset(s.to_set(), set_int_range(0, n));
    if forall|v: int| 0 <= v < n ==> s.contains(v) {
        assert(s.to_set() =~= set_int_range(0, n));
    }
}

/// The usize version of `lemma_distinct_len`.
pub proof fn lemma_distinct_len_usize(s: Seq<usize>, n: int)
    requires
        0 <= n <= usize::MAX,
        forall|a: int| 0 <= a < s.len() ==> #[trigger] s[a] < n,
        forall|a: int, b: int| 0 <= a < b < s.len() ==> s[a] != s[b],
    ensures
        s.len() <= n,
        (forall|v: usize| v < n ==> s.contains(v)) ==> s.len() == n,
{
    let t = s.map_values(|x: usize| x as int);
    assert forall|a: int| 0 <= a < t.len() implies 0 <= #[trigger] t[a] < n by {
        assert(t[a] == s[a] as int);
    }
    assert forall|a: int, b: int| 0 <= a < b < t.len() implies t[a] != t[b] by {
        assert(s[a] != s[b]);
    }
    lemma_distinct_len(t, n);
    if forall|v: usize| v < n ==> s.contains(v) {
        assert forall|v: int| 0 <= v < n implies t.contains(v) by {
            assert(s.contains(v as usize));
            let k = choose|k: int| 0 <= k < s.len() && s[k] == v as usize;
            assert((v as usize) as int == v);
            assert(t[k] == s[k] as int);
        }
    }
}

/// No relation at all.
pub open spec fn has_no_edges(m: Matrix) -> bool {
    forall|i: int, j: int| 0 <= i < m.len() && 0 <= j < m.len() ==> !#[trigger] has_edge(m, i, j)
}

/// The number of relations in a row.
pub open spec fn row_count(r: Seq<Option<RelationType>>) -> nat
    decreases r.len(),
{
    if r.len() == 0 {
        0
    } else {
        row_count(r.drop_last()) + if r.last() is Some {
            1nat
        } else {
            0nat
        }
    }
}

/// The number of relations in the matrix.
pub open spec fn edge_count(m: Matrix) -> nat
    decreases m.len(),
{
    if m.len() == 0 {
        0
    } else {
        edge_count(m.drop_last()) + row_count(m.last())
    }
}

/// Setting one entry of a row changes its count by what the entry held and
/// what it holds now.
pub proof fn lemma_row_count_update(r: Seq<Option<RelationType>>, j: int, x: Option<RelationType>)
    requires
        0 <= j < r.len(),
    ensures
        row_count(r.update(j, x)) + (if r[j] is Some {
            1int
        } else {
            0int
        }) == row_count(r) + (if x is Some {
            1int
        } else {
            0int
        }),
    decreases r.len(),
{
    let u = r.update(j, x);
    if j == r.len() - 1 {
        assert(u.drop_last() =~= r.drop_last());
    } else {
        assert(u.drop_last() =~= r.drop_last().update(j, x));
        lemma_row_count_update(r.drop_last(), j, x);
    }
}

/// Replacing one row changes the count of the matrix by the counts of the
/// old and the new row.
pub proof fn lemma_edge_count_update(m: Matrix, i: int, r: Seq<Option<RelationType>>)
    requires
        0 <= i < m.len(),
    ensures
        edge_count(m.update(i, r)) + row_count(m[i]) == edge_count(m) + row_count(r),
    decreases m.len(),
{
    let u = m.update(i, r);
    if i == m.len() - 1 {
        assert(u.drop_last() =~= m.drop_last());
    } else {
        assert(u.drop_last() =~= m.drop_last().update(i, r));
        lemma_edge_count_update(m.drop_last(), i, r);
    }
}

/// Rows that hold relations in the same places have the same count.
pub proof fn lemma_row_count_same_places(r1: Seq<Option<RelationType>>, r2: Seq<Option<RelationType>>)
    requires
        r1.len() == r2.len(),
        forall|j: int| 0 <= j < r1.len() ==> (#[trigger] r1[j] is Some) == (r2[j] is Some),
    ensures
        row_count(r1) == row_count(r2),
    decreases r1.len(),
{
    if r1.len() > 0 {
        lemma_row_count_same_places(r1.drop_last(), r2.drop_last());
        assert(r1.last() is Some == r2.last() is Some);
    }
}

/// Square matrices with the same edges have the same number of relations.
pub proof fn lemma_edge_count_same_edges(m1: Matrix, m2: Matrix)
    requires
        is_square(m1),
        is_square(m2),
        same_edges(m1, m2),
    ensures
        edge_count(m1) == edge_count(m2),
{
    lemma_edge_count_same_places(m1, m2, m1.len() as int);
    assert(m1.take(m1.len() as int) =~= m1);
    assert(m2.take(m1.len() as int) =~= m2);
}

proof fn lemma_edge_count_same_places(m1: Matrix, m2: Matrix, k: int)
    requires
        is_square(m1),
        is_square(m2),
        same_edges(m1, m2),
        0 <= k <= m1.len(),
    ensures
        edge_count(m1.take(k)) == edge_count(m2.take(k)),
    decreases k,
{
    if k > 0 {
        lemma_edge_count_same_places(m1, m2, k - 1);
        assert(m1.take(k).drop_last() =~= m1.take(k - 1));
        assert(m2.take(k).drop_last() =~= m2.take(k - 1));
        let r1 = m1[k - 1];
        let r2 = m2[k - 1];
        assert forall|j: int| 0 <= j < r1.len() implies (#[trigger] r1[j] is Some) == (r2[j] is Some) by {
            if r1[j] is Some {
                assert(has_edge(m1, k - 1, j));
            }
            if r2[j] is Some {
                assert(has_edge(m2, k - 1, j));
            }
        }
        lemma_row_count_same_places(r1, r2);
    }
    if k == m1.len() {
        assert(m1.take(k) =~= m1);
        assert(m2.take(k) =~= m2);
    }
}

/// A row with a relation in it has a positive count, and the matrix counts
/// at least the relations of each row.
pub proof fn lemma_edge_count_positive(m: Matrix, i: int, j: int)
    requires
        0 <= i < m.len(),
        0 <= j < m[i].len(),
        m[i][j] is Some,
    ensures
        edge_count(m) >= 1,
    decreases m.len(),
{
    if i < m.len() - 1 {
        lemma_edge_count_positive(m.drop_last(), i, j);
    } else {
        lemma_row_count_positive(m[i], j);
    }
}

proof fn lemma_row_count_positive(r: Seq<Option<RelationType>>, j: int)
    requires
        0 <= j < r.len(),
        r[j] is Some,
    ensures
        row_count(r) >= 1,
    decreases r.len(),
{
    if j < r.len() - 1 {
        lemma_row_count_positive(r.drop_last(), j);
    }
}

} // verus!
