//! A mythos: entities with a level of power and elemental domains, and the
//! relations between them.

use crate::domains::{
    average_value, cross_value, is_cross_of, is_mutated_average, is_mutated_cross, is_mutated_generated, is_mutation_of, Domain, DomainType,
};
use crate::graph::{
    dfs_order, edge_count, edges_within, lemma_dfs_order_in_range, has_edge, has_no_edges, is_acyclic, same_edges, is_path, is_root, is_topological_order, lemma_parents_exist, lemma_parents_of,
    lists_in_neighbors, lists_roots, parents_of,
    Matrix,
};
use crate::relations::{after_base_rounds, base_round_count, has_uniform_in_type, RelationType, Relations};
use crate::random::random_ratio;
use crate::text::{decimal_two_digits, push_decimal_two_digits};
use vstd::prelude::*;

verus! {

/// An entity of the mythos.
#[derive(Debug, PartialEq, Eq)]
pub struct Entity {
    pub name: String,
    /// The base level is 0. The lower the level, the more powerful the
    /// entity.
    pub level: i8,
    pub domain: Domain,
}

/// The name of the `i`-th entity: `ent` and the index, at least two digits.
pub open spec fn entity_name(i: nat) -> Seq<char> {
    seq!['e', 'n', 't'] + decimal_two_digits(i)
}

/// How a relation type moves the level of the related entity: an invoked
/// entity is one level below (stronger than) its strongest invoker, a created
/// one one level above its strongest creator, a child at the level of its
/// strongest parent.
pub open spec fn level_step(r: Option<RelationType>) -> int {
    match r {
        Some(RelationType::Invoker) => -1,
        Some(RelationType::Creator) => 1,
        _ => 0,
    }
}

/// `f` is the lowest-numbered entity that relates to `e`.
pub open spec fn is_first_in(m: Matrix, e: int, f: int) -> bool {
    &&& 0 <= f < m.len()
    &&& has_edge(m, f, e)
    &&& forall|k: int| 0 <= k < f ==> !#[trigger] has_edge(m, k, e)
}

/// The level of `e` is the lowest level among the entities that relate to
/// it, moved by the type of the relation from the first of them.
pub open spec fn follows_level_rule(m: Matrix, ents: Seq<Entity>, e: int) -> bool {
    forall|f: int|
        #[trigger] is_first_in(m, e, f) ==> {
            let target = ents[e].level - level_step(m[f][e]);
            &&& forall|j: int|
                0 <= j < m.len() && #[trigger] has_edge(m, j, e) ==> target <= ents[j].level
            &&& exists|j: int| 0 <= j < m.len() && #[trigger] has_edge(m, j, e) && ents[j].level == target
        }
}

/// The levels of a list of entities.
pub open spec fn levels_of(ents: Seq<Entity>) -> Seq<int> {
    ents.map_values(|e: Entity| e.level as int)
}

/// The lowest of the levels that `lv` gives the entities of `ps` (0 when
/// `ps` is empty).
pub open spec fn lowest_level(lv: Seq<int>, ps: Seq<usize>) -> int
    decreases ps.len(),
{
    if ps.len() == 0 {
        0
    } else if ps.len() == 1 {
        lv[ps[0] as int]
    } else {
        let r = lowest_level(lv, ps.drop_last());
        let x = lv[ps.last() as int];
        if x < r {
            x
        } else {
            r
        }
    }
}

/// The level that the level rule gives `v` under the levels `lv`: its own
/// when nothing relates to it, else the lowest level among the entities that
/// relate to it, moved by the type of the relation from the first of them.
pub open spec fn ruled_level(m: Matrix, lv: Seq<int>, v: int) -> int {
    let ps = parents_of(m, v);
    if ps.len() == 0 {
        lv[v]
    } else {
        lowest_level(lv, ps) + level_step(m[ps[0] as int][v])
    }
}

/// The levels after applying the level rule to the entities of `order`, one
/// after the other, starting from the levels `lv`.
pub open spec fn levels_along(m: Matrix, lv: Seq<int>, order: Seq<usize>) -> Seq<int>
    decreases order.len(),
{
    if order.len() == 0 {
        lv
    } else {
        let before = levels_along(m, lv, order.drop_last());
        let v = order.last() as int;
        before.update(v, ruled_level(m, before, v))
    }
}

/// Every level fits in `i8`.
pub open spec fn fits_in_i8(lv: Seq<int>) -> bool {
    forall|v: int| 0 <= v < lv.len() ==> i8::MIN <= #[trigger] lv[v] <= i8::MAX
}

/// The levels that the level rule computes along the topological order of
/// the relations (`dfs_order`) fit in `i8`.
pub open spec fn ruled_levels_fit(m: Matrix, ents: Seq<Entity>) -> bool {
    fits_in_i8(levels_along(m, levels_of(ents), dfs_order(m)))
}

/// Every level is at least one less than the number of entities away from
/// the ends of `i8`: along any relations, the level rule moves a level by
/// at most one per entity after the first, so the levels it computes fit.
pub open spec fn levels_leave_room(ents: Seq<Entity>) -> bool {
    forall|e: int|
        0 <= e < ents.len() ==> i8::MIN + (ents.len() - 1) <= #[trigger] ents[e].level <= i8::MAX - (
        ents.len() - 1)
}

/// Applying the rule keeps the number of levels.
proof fn lemma_levels_along_len(m: Matrix, lv: Seq<int>, order: Seq<usize>)
    requires
        forall|x: int| 0 <= x < order.len() ==> #[trigger] order[x] < lv.len(),
    ensures
        levels_along(m, lv, order).len() == lv.len(),
    decreases order.len(),
{
    if order.len() > 0 {
        lemma_levels_along_len(m, lv, order.drop_last());
        assert(order.last() == order[order.len() - 1]);
    }
}

/// Without level steps, the rule keeps every level within bounds that hold
/// of the starting levels, along any list of entities.
proof fn lemma_levels_along_without_steps(m: Matrix, lv: Seq<int>, order: Seq<usize>, lo: int, hi: int)
    requires
        lv.len() == m.len(),
        m.len() <= usize::MAX,
        forall|x: int| 0 <= x < order.len() ==> #[trigger] order[x] < lv.len(),
        forall|i: int, j: int| 0 <= i < m.len() && 0 <= j < m.len() ==> #[trigger] level_step(m[i][j]) == 0,
        forall|v: int| 0 <= v < lv.len() ==> lo <= #[trigger] lv[v] <= hi,
    ensures
        levels_along(m, lv, order).len() == lv.len(),
        forall|v: int| 0 <= v < lv.len() ==> lo <= #[trigger] levels_along(m, lv, order)[v] <= hi,
    decreases order.len(),
{
    if order.len() > 0 {
        let d = order.drop_last();
        lemma_levels_along_without_steps(m, lv, d, lo, hi);
        let before = levels_along(m, lv, d);
        let v = order.last() as int;
        assert(order.last() == order[order.len() - 1]);
        lemma_parents_exist(m, v);
        let ps = parents_of(m, v);
        if ps.len() > 0 {
            assert forall|x: int| 0 <= x < ps.len() implies #[trigger] ps[x] < before.len() by {}
            lemma_lowest_level_bounds(before, ps, lo, hi);
            assert(level_step(m[ps[0] as int][v]) == 0);
        }
    }
}

/// Where no relation moves a level (only `Parent` and `Base` relations),
/// the levels that the level rule computes are among the starting levels'
/// range, so they fit in `i8` whatever the number of entities.
pub proof fn law_levels_fit_without_steps(m: Matrix, ents: Seq<Entity>)
    requires
        m.len() == ents.len(),
        m.len() <= usize::MAX,
        forall|i: int, j: int| 0 <= i < m.len() && 0 <= j < m.len() ==> #[trigger] level_step(m[i][j]) == 0,
    ensures
        ruled_levels_fit(m, ents),
{
    let lv = levels_of(ents);
    assert forall|v: int| 0 <= v < lv.len() implies i8::MIN <= #[trigger] lv[v] <= i8::MAX by {
        assert(lv[v] == ents[v].level as int);
    }
    lemma_dfs_order_in_range(m);
    lemma_levels_along_without_steps(m, lv, dfs_order(m), i8::MIN as int, i8::MAX as int);
}

/// The lowest level of a non-empty list lies within bounds that hold for
/// every level.
proof fn lemma_lowest_level_bounds(lv: Seq<int>, ps: Seq<usize>, lo: int, hi: int)
    requires
        ps.len() >= 1,
        forall|x: int| 0 <= x < ps.len() ==> #[trigger] ps[x] < lv.len(),
        forall|v: int| 0 <= v < lv.len() ==> lo <= #[trigger] lv[v] <= hi,
    ensures
        lo <= lowest_level(lv, ps) <= hi,
    decreases ps.len(),
{
    assert(lo <= lv[ps[0] as int] <= hi);
    if ps.len() > 1 {
        lemma_lowest_level_bounds(lv, ps.drop_last(), lo, hi);
        assert(ps.last() == ps[ps.len() - 1]);
        assert(lo <= lv[ps.last() as int] <= hi);
    }
}

/// The level of the `k`-th entity of a list without repetitions is set when
/// the rule reaches it and stays after.
proof fn lemma_levels_along_keep(m: Matrix, lv: Seq<int>, order: Seq<usize>, k: int)
    requires
        0 <= k < order.len(),
        forall|a: int, b: int| 0 <= a < b < order.len() ==> order[a] != order[b],
        forall|x: int| 0 <= x < order.len() ==> #[trigger] order[x] < lv.len(),
    ensures
        levels_along(m, lv, order)[order[k] as int] == levels_along(m, lv, order.take(k + 1))[order[k] as int],
    decreases order.len(),
{
    if k == order.len() - 1 {
        assert(order.take(k + 1) =~= order);
    } else {
        let d = order.drop_last();
        lemma_levels_along_keep(m, lv, d, k);
        lemma_levels_along_len(m, lv, d);
        assert(d.take(k + 1) =~= order.take(k + 1));
        assert(order.last() == order[order.len() - 1]);
        assert(order.last() != order[k]);
    }
}

/// Along a topological order, after `k` entities every level lies within
/// `k - 1` of the bounds of the starting levels.
proof fn lemma_levels_along_bounds(m: Matrix, lv: Seq<int>, order: Seq<usize>, k: int, lo: int, hi: int)
    requires
        is_topological_order(m, order),
        m.len() <= usize::MAX,
        lv.len() == m.len(),
        1 <= k <= order.len(),
        forall|v: int| 0 <= v < lv.len() ==> lo <= #[trigger] lv[v] <= hi,
    ensures
        levels_along(m, lv, order.take(k)).len() == lv.len(),
        forall|v: int|
            0 <= v < lv.len() ==> lo - (k - 1) <= #[trigger] levels_along(m, lv, order.take(k))[v] <= hi + (k
                - 1),
    decreases k,
{
    let t = order.take(k);
    let v = order[k - 1] as int;
    lemma_parents_exist(m, v);
    let ps = parents_of(m, v);
    let before = levels_along(m, lv, t.drop_last());
    lemma_levels_along_len(m, lv, t.drop_last());
    if k == 1 {
        assert(t.drop_last() =~= Seq::<usize>::empty());
        if ps.len() > 0 {
            assert(has_edge(m, ps[0] as int, v));
            assert(order.contains(ps[0]));
            let a = choose|a: int| 0 <= a < order.len() && order[a] == ps[0];
            assert(has_edge(m, order[a] as int, order[0] as int));
        }
    } else {
        lemma_levels_along_bounds(m, lv, order, k - 1, lo, hi);
        assert(t.drop_last() =~= order.take(k - 1));
        if ps.len() > 0 {
            assert forall|x: int| 0 <= x < ps.len() implies #[trigger] ps[x] < before.len() by {}
            lemma_lowest_level_bounds(before, ps, lo - (k - 2), hi + (k - 2));
        }
    }
    assert(t.last() == order[k - 1]);
}

/// Two lists of entities agree on everything but the levels.
pub open spec fn same_but_levels(a: Seq<Entity>, b: Seq<Entity>) -> bool {
    &&& a.len() == b.len()
    &&& forall|i: int| #![trigger b[i]] 0 <= i < a.len() ==> b[i].name == a[i].name && b[i].domain == a[i].domain
}

/// The `i`-th entity of a new mythos: named after its index, at level 0,
/// with no strength in any element and no primary or secundary.
pub open spec fn is_fresh_entity(e: Entity, i: nat) -> bool {
    &&& e.name@ == entity_name(i)
    &&& e.level == 0
    &&& forall|t: DomainType| #[trigger] e.domain.value(t) == 0
    &&& e.domain.primary_of() is None
    &&& e.domain.secundary_of() is None
}

/// The level rule of `e` only looks at the levels of `e` and of the
/// entities that relate to it.
proof fn lemma_rule_frame(m: Matrix, a: Seq<Entity>, b: Seq<Entity>, e: int)
    requires
        0 <= e < a.len(),
        a.len() == b.len(),
        a.len() == m.len(),
        a[e].level == b[e].level,
        forall|j: int| 0 <= j < m.len() && #[trigger] has_edge(m, j, e) ==> a[j].level == b[j].level,
        follows_level_rule(m, a, e),
    ensures
        follows_level_rule(m, b, e),
{
    assert forall|f: int| #[trigger] is_first_in(m, e, f) implies {
        let target = b[e].level - level_step(m[f][e]);
        &&& forall|j: int| 0 <= j < m.len() && #[trigger] has_edge(m, j, e) ==> target <= b[j].level
        &&& exists|j: int| 0 <= j < m.len() && #[trigger] has_edge(m, j, e) && b[j].level == target
    } by {
        let target = a[e].level - level_step(m[f][e]);
        let j0 = choose|j: int| 0 <= j < m.len() && #[trigger] has_edge(m, j, e) && a[j].level == target;
        assert(has_edge(m, j0, e) && b[j0].level == target);
    }
}

/// The domains of the entities that relate to `e`, in increasing order of
/// the entities.
pub open spec fn parent_domains(m: Matrix, ents: Seq<Entity>, e: int) -> Seq<Domain> {
    parents_of(m, e).map_values(|j: usize| ents[j as int].domain)
}

/// The domain of `e` agrees with how `e` came about, and is mutated: a
/// mutation of a fresh draw when nothing relates to it; otherwise, by the
/// type of the relation from the lowest-numbered entity that relates to it,
/// a mutation of the blend of its parents' domains, a mutation of the
/// average of its creators' domains, or for an invoked entity either a
/// mutation of its invokers' average (a successful invocation) or a mutation
/// of a fresh draw (a failed one).
pub open spec fn domain_follows_rule(m: Matrix, ents: Seq<Entity>, e: int) -> bool {
    if is_root(m, e) {
        is_mutated_generated(ents[e].domain)
    } else {
        forall|f: int|
            #[trigger] is_first_in(m, e, f) ==> {
                let ds = parent_domains(m, ents, e);
                let d = ents[e].domain;
                match m[f][e] {
                    Some(RelationType::Parent) => is_mutated_cross(ds, d),
                    Some(RelationType::Creator) => is_mutated_average(ds, d),
                    Some(RelationType::Invoker) => is_mutated_average(ds, d) || is_mutated_generated(d),
                    _ => true,
                }
            }
    }
}

/// The first relation into `e` is a `Base` relation.
pub open spec fn first_in_is_base(m: Matrix, e: int) -> bool {
    exists|f: int| #[trigger] is_first_in(m, e, f) && m[f][e] == Some(RelationType::Base)
}

/// Two lists of entities agree on everything but the domains.
pub open spec fn same_but_domains(a: Seq<Entity>, b: Seq<Entity>) -> bool {
    &&& a.len() == b.len()
    &&& forall|i: int| #![trigger b[i]] 0 <= i < a.len() ==> b[i].name == a[i].name && b[i].level == a[i].level
}

/// The domain rule of `e` only looks at the domains of `e` and of the
/// entities that relate to it.
proof fn lemma_domain_rule_frame(m: Matrix, a: Seq<Entity>, b: Seq<Entity>, e: int)
    requires
        0 <= e < a.len(),
        a.len() == b.len(),
        a.len() == m.len(),
        lists_in_neighbors(m, e, parents_of(m, e), m.len()),
        a[e].domain == b[e].domain,
        forall|j: int| 0 <= j < m.len() && #[trigger] has_edge(m, j, e) ==> a[j].domain == b[j].domain,
        domain_follows_rule(m, a, e),
    ensures
        domain_follows_rule(m, b, e),
{
    let p = parents_of(m, e);
    assert(parent_domains(m, a, e) =~= parent_domains(m, b, e)) by {
        assert forall|x: int| 0 <= x < p.len() implies a[p[x] as int].domain == b[p[x] as int].domain by {
            assert(has_edge(m, p[x] as int, e));
        }
    }
}

/// The domain that an entity inherits, before it is mutated, from the
/// domains `ds` of the entities that relate to it, by the type `rt` of the
/// first of those relations: the blend of the domains for a child, their
/// average for a created entity and for a successfully invoked one. A failed
/// invocation inherits nothing: the entity draws a fresh domain instead.
pub fn inherited_domain(rt: RelationType, ds: Vec<Domain>, invocation_succeeds: bool) -> (d: Option<Domain>)
    requires
        ds.len() >= 1,
        rt != RelationType::Base,
    ensures
        rt == RelationType::Parent ==> (d matches Some(x) && is_cross_of(ds@, x)),
        rt == RelationType::Creator || (rt == RelationType::Invoker && invocation_succeeds) ==> (d matches Some(x)
            && x.ranks_set() && forall|t: DomainType| #[trigger] x.value(t) as int == average_value(ds@, t)),
        rt == RelationType::Invoker && !invocation_succeeds ==> d is None,
{
    match rt {
        RelationType::Parent => Some(Domain::cross_over_many(&ds)),
        RelationType::Creator => Some(Domain::gen_from_average(ds)),
        _ => {
            if invocation_succeeds {
                Some(Domain::gen_from_average(ds))
            } else {
                None
            }
        },
    }
}

/// Entities and the relations among them.
pub struct Mythos {
    pub entites: Vec<Entity>,
    pub relations: Relations,
}

impl Mythos {
    /// One relation matrix entry per pair of entities.
    pub open spec fn wf(&self) -> bool {
        &&& self.relations.wf()
        &&& self.relations.size_of() == self.entites.len()
    }

    /// `size` entities named `ent00`, `ent01`, ..., at level 0, with empty
    /// domains and no relations. A mythos has at least one entity, so `size`
    /// must be positive.
    pub fn init(size: usize) -> (r: Mythos)
        requires
            size > 0,
        ensures
            r.wf(),
            r.entites.len() == size,
            forall|i: int| 0 <= i < size ==> #[trigger] is_fresh_entity(r.entites@[i], i as nat),
            forall|i: int, j: int| 0 <= i < size && 0 <= j < size ==> #[trigger] r.relations@[i][j] is None,
    {
        let mut entites: Vec<Entity> = Vec::new();
        for i in 0..size
            invariant
                entites.len() == i,
                forall|k: int| 0 <= k < i ==> #[trigger] is_fresh_entity(entites@[k], k as nat),
        {
            let mut name = String::new();
            proof {
                reveal_strlit("ent");
            }
            name.append("ent");
            assert(name@ =~= seq!['e', 'n', 't']);
            push_decimal_two_digits(&mut name, i);
            assert(name@ =~= entity_name(i as nat));
            let domain = Domain::new();
            let ghost old_e = entites@;
            entites.push(Entity { name, level: 0, domain });
            proof {
                assert forall|k: int| 0 <= k < i + 1 implies #[trigger] is_fresh_entity(
                    entites@[k],
                    k as nat,
                ) by {
                    if k < i {
                        assert(entites@[k] == old_e[k]);
                    }
                }
            }
        }
        let relations = Relations::new(size);
        Mythos { entites, relations }
    }

    /// Whether the levels that fixing the levels would compute all fit in
    /// `i8`; they are computed here in a wider type, and the first one that
    /// does not fit ends the computation.
    fn levels_fit(&self) -> (ok: bool)
        requires
            self.wf(),
            is_acyclic(self.relations@),
        ensures
            ok == ruled_levels_fit(self.relations@, self.entites@),
            is_topological_order(self.relations@, dfs_order(self.relations@)),
    {
        let order = self.relations.get_topological_sort();
        let ghost m = self.relations@;
        let ghost ents = self.entites@;
        let ghost lv0 = levels_of(ents);
        let n = self.entites.len();
        let mut lv: Vec<i16> = Vec::new();
        for i in 0..n
            invariant
                n == self.entites.len(),
                ents == self.entites@,
                lv0 == levels_of(ents),
                lv.len() == i,
                forall|k: int| 0 <= k < i ==> #[trigger] lv@[k] as int == lv0[k],
                forall|k: int| 0 <= k < i ==> i8::MIN <= #[trigger] lv@[k] <= i8::MAX,
        {
            lv.push(self.entites[i].level as i16);
        }
        proof {
            assert(order@.take(0) =~= Seq::<usize>::empty());
        }
        let mut idx: usize = 0;
        while idx < order.len()
            invariant
                self.wf(),
                self.relations@ == m,
                self.entites@ == ents,
                lv0 == levels_of(ents),
                is_topological_order(m, order@),
                order@ == dfs_order(m),
                n == order.len(),
                n == m.len(),
                n == ents.len(),
                lv.len() == n,
                idx <= n,
                forall|k: int| 0 <= k < n ==> #[trigger] lv@[k] as int == levels_along(m, lv0, order@.take(idx as int))[k],
                forall|k: int| 0 <= k < n ==> i8::MIN <= #[trigger] lv@[k] <= i8::MAX,
            decreases n - idx,
        {
            let v = order[idx];
            let ghost cur = levels_along(m, lv0, order@.take(idx as int));
            let adj_in = self.relations.get_adj_in(v);
            proof {
                lemma_parents_of(m, v as int, adj_in@);
                lemma_levels_along_len(m, lv0, order@.take(idx as int));
                let t = order@.take(idx + 1);
                assert(t.drop_last() =~= order@.take(idx as int));
                assert(t.last() == v);
            }
            if adj_in.len() > 0 {
                let rt = self.relations.get(adj_in[0], v).unwrap();
                let mut min: i16 = lv[adj_in[0]];
                let mut k: usize = 0;
                while k < adj_in.len()
                    invariant
                        lists_in_neighbors(m, v as int, adj_in@, n as nat),
                        lv.len() == n,
                        cur.len() == n,
                        forall|j: int| 0 <= j < n ==> #[trigger] lv@[j] as int == cur[j],
                        forall|j: int| 0 <= j < n ==> i8::MIN <= #[trigger] lv@[j] <= i8::MAX,
                        adj_in.len() > 0,
                        k <= adj_in.len(),
                        i8::MIN <= min <= i8::MAX,
                        k == 0 ==> min as int == cur[adj_in@[0] as int],
                        k > 0 ==> min as int == lowest_level(cur, adj_in@.take(k as int)),
                    decreases adj_in.len() - k,
                {
                    let l = lv[adj_in[k]];
                    if l < min {
                        min = l;
                    }
                    proof {
                        let t = adj_in@.take(k + 1);
                        assert(t.drop_last() =~= adj_in@.take(k as int));
                        assert(t.last() == adj_in@[k as int]);
                        if k == 0 {
                            assert(t.len() == 1 && t[0] == adj_in@[0]);
                        }
                    }
                    k = k + 1;
                }
                proof {
                    assert(adj_in@.take(adj_in.len() as int) =~= adj_in@);
                    assert(has_edge(m, adj_in@[0] as int, v as int));
                    assert(m[adj_in@[0] as int][v as int] == Some(rt));
                }
                let inc: i16 = match rt {
                    RelationType::Invoker => -1,
                    RelationType::Creator => 1,
                    _ => 0,
                };
                let new_level = min + inc;
                proof {
                    assert(inc == level_step(m[adj_in@[0] as int][v as int]));
                    assert(ruled_level(m, cur, v as int) == new_level);
                    assert(levels_along(m, lv0, order@.take(idx + 1))[v as int] == new_level);
                    lemma_levels_along_keep(m, lv0, order@, idx as int);
                    lemma_levels_along_len(m, lv0, order@);
                }
                if new_level < -128 || new_level > 127 {
                    proof {
                        assert(!fits_in_i8(levels_along(m, lv0, order@)));
                    }
                    return false;
                }
                lv.set(v, new_level);
            }
            proof {
                let next = levels_along(m, lv0, order@.take(idx + 1));
                assert forall|k: int| 0 <= k < n implies #[trigger] lv@[k] as int == next[k] by {
                    if k != v as int {
                        assert(next[k] == cur[k]);
                    }
                }
            }
            idx = idx + 1;
        }
        proof {
            assert(order@.take(n as int) =~= order@);
            lemma_levels_along_len(m, lv0, order@);
            assert forall|k: int| 0 <= k < levels_along(m, lv0, order@).len() implies i8::MIN
                <= #[trigger] levels_along(m, lv0, order@)[k] <= i8::MAX by {
                assert(lv@[k] as int == levels_along(m, lv0, order@)[k]);
            }
        }
        true
    }

    /// Adjusts the levels along a topological order of the relations, so
    /// that every entity is fixed after all entities that relate to it: an
    /// entity that others relate to gets the lowest of their levels, one
    /// lower for an invoked entity and one higher for a created one (the type
    /// of the relation from the lowest-numbered of them counts). Entities that
    /// nothing relates to keep their level. The levels so computed must fit
    /// in `i8`.
    #[verifier::rlimit(60)]
    fn fix_levels(&mut self)
        requires
            old(self).wf(),
            is_acyclic(old(self).relations@),
            ruled_levels_fit(old(self).relations@, old(self).entites@),
        ensures
            final(self).wf(),
            final(self).relations == old(self).relations,
            same_but_levels(old(self).entites@, final(self).entites@),
            forall|e: int|
                0 <= e < final(self).entites.len() && #[trigger] is_root(final(self).relations@, e)
                    ==> final(self).entites@[e].level == old(self).entites@[e].level,
            forall|e: int|
                0 <= e < final(self).entites.len() ==> #[trigger] follows_level_rule(
                    final(self).relations@,
                    final(self).entites@,
                    e,
                ),
    {
        let order = self.relations.get_topological_sort();
        let ghost m = self.relations@;
        let ghost rel0 = self.relations;
        let ghost ents0 = self.entites@;
        let ghost n = ents0.len() as int;
        let ghost lv0 = levels_of(ents0);
        proof {
            assert(fits_in_i8(levels_along(m, lv0, order@)));
            assert(order@.take(0) =~= Seq::<usize>::empty());
            assert(levels_of(self.entites@) =~= levels_along(m, lv0, order@.take(0)));
        }
        let mut idx: usize = 0;
        while idx < order.len()
            invariant
                self.wf(),
                self.relations@ == m,
                self.relations == rel0,
                is_acyclic(m),
                is_topological_order(m, order@),
                fits_in_i8(levels_along(m, lv0, order@)),
                lv0 == levels_of(ents0),
                levels_of(self.entites@) == levels_along(m, lv0, order@.take(idx as int)),
                n == order.len(),
                n == m.len(),
                n == ents0.len(),
                idx <= n,
                same_but_levels(ents0, self.entites@),
                forall|a: int| idx <= a < n ==> self.entites@[order@[a] as int].level == #[trigger] ents0[order@[a] as int].level,
                forall|a: int| 0 <= a < idx ==> #[trigger] follows_level_rule(m, self.entites@, order@[a] as int),
                forall|a: int|
                    0 <= a < idx && #[trigger] is_root(m, order@[a] as int) ==> self.entites@[order@[a] as int].level
                        == ents0[order@[a] as int].level,
            decreases n - idx,
        {
            let entity = order[idx];
            let ghost cur = self.entites@;
            let adj_in = self.relations.get_adj_in(entity);
            if adj_in.len() > 0 {
                let rt = self.relations.get(adj_in[0], entity).unwrap();
                let mut min = self.entites[adj_in[0]].level;
                let mut k: usize = 0;
                while k < adj_in.len()
                    invariant
                        self.entites@ == cur,
                        cur.len() == n,
                        lists_in_neighbors(m, entity as int, adj_in@, n as nat),
                        adj_in.len() > 0,
                        k <= adj_in.len(),
                        forall|x: int| 0 <= x < k ==> min <= #[trigger] cur[adj_in@[x] as int].level,
                        exists|x: int| 0 <= x < adj_in.len() && #[trigger] cur[adj_in@[x] as int].level == min,
                        k == 0 ==> min == cur[adj_in@[0] as int].level,
                        k > 0 ==> min == lowest_level(levels_of(cur), adj_in@.take(k as int)),
                    decreases adj_in.len() - k,
                {
                    let l = self.entites[adj_in[k]].level;
                    let ghost before_min = min;
                    if l < min {
                        min = l;
                    }
                    proof {
                        assert(cur[adj_in@[k as int] as int].level == l);
                        let t = adj_in@.take(k + 1);
                        assert(t.drop_last() =~= adj_in@.take(k as int));
                        assert(t.last() == adj_in@[k as int]);
                        assert(levels_of(cur)[adj_in@[k as int] as int] == l as int);
                        if k == 0 {
                            assert(t.len() == 1 && t[0] == adj_in@[0]);
                        }
                    }
                    k = k + 1;
                }
                proof {
                    assert(adj_in@.take(adj_in.len() as int) =~= adj_in@);
                }
                let ghost first = adj_in@[0] as int;
                let ghost xmin = choose|x: int| 0 <= x < adj_in.len() && #[trigger] cur[adj_in@[x] as int].level == min;
                proof {
                    // the entity that attains the minimum comes earlier in the order
                    let p = adj_in@[xmin] as int;
                    assert(has_edge(m, p, entity as int));
                    assert(order@.contains(p as usize));
                    let ap = choose|ap: int| 0 <= ap < order@.len() && order@[ap] == p as usize;
                    assert(has_edge(m, order@[ap] as int, order@[idx as int] as int));
                    assert(ap < idx);
                    // the rule's level for the entity fits
                    lemma_parents_of(m, entity as int, adj_in@);
                    assert(m[first][entity as int] == Some(rt));
                    let lv = levels_along(m, lv0, order@.take(idx as int));
                    let t = order@.take(idx + 1);
                    assert(t.drop_last() =~= order@.take(idx as int));
                    assert(t.last() == entity);
                    lemma_levels_along_keep(m, lv0, order@, idx as int);
                    lemma_levels_along_len(m, lv0, order@);
                    lemma_levels_along_len(m, lv0, order@.take(idx as int));
                    assert(i8::MIN <= levels_along(m, lv0, order@)[entity as int] <= i8::MAX);
                }
                let inc: i8 = match rt {
                    RelationType::Invoker => -1,
                    RelationType::Creator => 1,
                    _ => 0,
                };
                proof {
                    let lv = levels_along(m, lv0, order@.take(idx as int));
                    assert(inc == level_step(m[first][entity as int]));
                    assert(ruled_level(m, lv, entity as int) == min + inc);
                    assert(levels_along(m, lv0, order@.take(idx + 1))[entity as int] == min + inc);
                }
                let new_level = min + inc;
                if (new_level as i16) - (self.entites[entity].level as i16) != 0 {
                    self.entites[entity].level = new_level;
                }
                proof {
                    assert(levels_of(self.entites@) =~= levels_along(m, lv0, order@.take(idx + 1)));
                    let ents = self.entites@;
                    let e = entity as int;
                    assert(ents[e].level == new_level);
                    assert forall|j: int| 0 <= j < n && j != e implies #[trigger] ents[j] == cur[j] by {}
                    // the rule holds for the entity just fixed
                    assert forall|f: int| #[trigger] is_first_in(m, e, f) implies {
                        let target = ents[e].level - level_step(m[f][e]);
                        &&& forall|j: int| 0 <= j < m.len() && #[trigger] has_edge(m, j, e) ==> target <= ents[j].level
                        &&& exists|j: int| 0 <= j < m.len() && #[trigger] has_edge(m, j, e) && ents[j].level == target
                    } by {
                        if f != first {
                            assert(adj_in@.contains(f as usize));
                            let x = choose|x: int| 0 <= x < adj_in@.len() && adj_in@[x] == f as usize;
                            assert(x > 0);
                            assert(has_edge(m, first, e));
                        }
                        assert(m[f][e] == Some(rt));
                        assert(ents[e].level - level_step(m[f][e]) == min);
                        assert forall|j: int| 0 <= j < m.len() && #[trigger] has_edge(m, j, e) implies min <= ents[j].level by {
                            assert(adj_in@.contains(j as usize));
                            let x = choose|x: int| 0 <= x < adj_in@.len() && adj_in@[x] == j as usize;
                            assert(min <= cur[adj_in@[x] as int].level);
                            if j == e {
                                assert(is_path(m, seq![e, e])) by {
                                    assert(crate::graph::path_step(m, seq![e, e], 0));
                                }
                            }
                        }
                        let p = adj_in@[xmin] as int;
                        assert(has_edge(m, p, e));
                        if p == e {
                            assert(is_path(m, seq![e, e])) by {
                                assert(crate::graph::path_step(m, seq![e, e], 0));
                            }
                        }
                        assert(ents[p].level == min);
                    }
                    assert(follows_level_rule(m, ents, e));
                    // earlier entities keep their rule
                    assert forall|a: int| 0 <= a < idx + 1 implies #[trigger] follows_level_rule(m, ents, order@[a] as int) by {
                        if a < idx {
                            let v = order@[a] as int;
                            assert(follows_level_rule(m, cur, v));
                            assert(v != e);
                            assert forall|j: int| 0 <= j < m.len() && #[trigger] has_edge(m, j, v) implies cur[j].level == ents[j].level by {
                                assert(order@.contains(j as usize));
                                let aj = choose|aj: int| 0 <= aj < order@.len() && order@[aj] == j as usize;
                                assert(has_edge(m, order@[aj] as int, order@[a] as int));
                            }
                            lemma_rule_frame(m, cur, ents, v);
                        }
                    }
                    assert forall|a: int| idx + 1 <= a < n implies ents[order@[a] as int].level == #[trigger] ents0[order@[a] as int].level by {
                        assert(order@[a] != order@[idx as int]);
                    }
                    assert forall|a: int| 0 <= a < idx + 1 && #[trigger] is_root(m, order@[a] as int) implies ents[order@[a] as int].level
                        == ents0[order@[a] as int].level by {
                        if a == idx {
                            assert(has_edge(m, first, e));
                        } else {
                            assert(order@[a] != order@[idx as int]);
                        }
                    }
                }
            } else {
                proof {
                    let e = entity as int;
                    assert forall|f: int| #[trigger] is_first_in(m, e, f) implies false by {
                        assert(adj_in@.contains(f as usize));
                    }
                    assert(follows_level_rule(m, cur, e));
                    lemma_parents_of(m, e, adj_in@);
                    let lv = levels_along(m, lv0, order@.take(idx as int));
                    let t = order@.take(idx + 1);
                    assert(t.drop_last() =~= order@.take(idx as int));
                    assert(levels_of(self.entites@) =~= levels_along(m, lv0, order@.take(idx + 1)));
                }
            }
            idx = idx + 1;
        }
        proof {
            let ents = self.entites@;
            assert forall|e: int| 0 <= e < n implies #[trigger] follows_level_rule(m, ents, e) by {
                assert(order@.contains(e as usize));
                let a = choose|a: int| 0 <= a < order@.len() && order@[a] == e as usize;
                assert(follows_level_rule(m, ents, order@[a] as int));
            }
            assert forall|e: int| 0 <= e < n && #[trigger] is_root(m, e) implies ents[e].level == ents0[e].level by {
                assert(order@.contains(e as usize));
                let a = choose|a: int| 0 <= a < order@.len() && order@[a] == e as usize;
                assert(is_root(m, order@[a] as int));
            }
        }
    }

    /// The domains of the entities listed in `adj`, in the same order.
    fn collect_domains(&self, adj: &Vec<usize>) -> (ds: Vec<Domain>)
        requires
            forall|x: int| 0 <= x < adj.len() ==> #[trigger] adj@[x] < self.entites.len(),
        ensures
            ds@ == adj@.map_values(|j: usize| self.entites@[j as int].domain),
    {
        let mut ds: Vec<Domain> = Vec::new();
        for k in 0..adj.len()
            invariant
                forall|x: int| 0 <= x < adj.len() ==> #[trigger] adj@[x] < self.entites.len(),
                ds@ == adj@.take(k as int).map_values(|j: usize| self.entites@[j as int].domain),
        {
            ds.push(self.entites[adj[k]].domain);
            proof {
                assert(adj@.take(k + 1) =~= adj@.take(k as int).push(adj@[k as int]));
                assert(ds@ =~= adj@.take(k + 1).map_values(|j: usize| self.entites@[j as int].domain));
            }
        }
        proof {
            assert(adj@.take(adj.len() as int) =~= adj@);
        }
        ds
    }

    /// Draws domains: a mutated fresh one for every entity that nothing relates to;
    /// then, along a topological order, for every other entity by the type
    /// of the relation from the lowest-numbered entity that relates to it:
    /// parents' domains are blended and mutated; creators' domains are
    /// averaged and mutated; invokers' domains are
    /// averaged and mutated when the invocation succeeds (probability 7/10),
    /// otherwise a fresh domain is drawn and mutated. An entity whose first
    /// relation is a `Base` relation keeps its domain.
    #[verifier::rlimit(40)]
    fn generate_domains(&mut self)
        requires
            old(self).wf(),
            is_acyclic(old(self).relations@),
        ensures
            final(self).wf(),
            final(self).relations == old(self).relations,
            same_but_domains(old(self).entites@, final(self).entites@),
            forall|e: int|
                0 <= e < final(self).entites.len() ==> #[trigger] domain_follows_rule(
                    final(self).relations@,
                    final(self).entites@,
                    e,
                ),
            forall|e: int|
                0 <= e < final(self).entites.len() && #[trigger] first_in_is_base(final(self).relations@, e)
                    ==> final(self).entites@[e].domain == old(self).entites@[e].domain,
    {
        let ghost m = self.relations@;
        let ghost rel0 = self.relations;
        let ghost ents0 = self.entites@;
        let ghost n = ents0.len() as int;
        let roots = self.relations.get_roots();
        for k in 0..roots.len()
            invariant
                self.wf(),
                self.relations == rel0,
                self.relations@ == m,
                n == m.len(),
                lists_roots(m, roots@, n as nat),
                same_but_domains(ents0, self.entites@),
                forall|e: int|
                    0 <= e < n && !roots@.take(k as int).contains(e as usize) ==> #[trigger] self.entites@[e].domain
                        == ents0[e].domain,
                forall|e: int|
                    0 <= e < n && roots@.take(k as int).contains(e as usize) ==> is_mutated_generated(
                        (#[trigger] self.entites@[e]).domain,
                    ),
        {
            let r = roots[k];
            let ghost before = self.entites@;
            let mut drawn = Domain::gen_domain();
            let ghost g0 = drawn;
            let fresh = drawn.mutate();
            self.entites[r].domain = fresh;
            proof {
                assert(g0.is_generated() && forall|t: DomainType| is_mutation_of(#[trigger] g0.value(t), fresh.value(t)));
                assert(is_mutated_generated(fresh));
                assert(self.entites@[r as int].domain == fresh);
                assert(roots@.take(k + 1) =~= roots@.take(k as int).push(r));
                assert forall|e: int| 0 <= e < n && !roots@.take(k + 1).contains(e as usize) implies #[trigger] self.entites@[e].domain
                    == ents0[e].domain by {
                    let t0 = roots@.take(k as int);
                    let t1 = roots@.take(k + 1);
                    if e == r {
                        assert(t1[k as int] == r);
                    }
                    if t0.contains(e as usize) {
                        let x = choose|x: int| 0 <= x < t0.len() && t0[x] == e as usize;
                        assert(t1[x] == e as usize);
                    }
                }
                assert forall|e: int| 0 <= e < n && roots@.take(k + 1).contains(e as usize) implies is_mutated_generated(
                    (#[trigger] self.entites@[e]).domain,
                ) by {
                    let t0 = roots@.take(k as int);
                    let t1 = roots@.take(k + 1);
                    if e == r as int {
                        assert(self.entites@[e].domain == fresh);
                    } else {
                        let x = choose|x: int| 0 <= x < t1.len() && t1[x] == e as usize;
                        assert(x != k);
                        assert(t0[x] == e as usize);
                        assert(t0.contains(e as usize));
                        assert(is_mutated_generated(before[e].domain));
                        assert(self.entites@[e] == before[e]);
                    }
                }
            }
        }
        let ghost ents1 = self.entites@;
        proof {
            assert(roots@.take(roots.len() as int) =~= roots@);
        }
        let order = self.relations.get_topological_sort();
        let mut idx: usize = 0;
        while idx < order.len()
            invariant
                self.wf(),
                self.relations == rel0,
                self.relations@ == m,
                is_acyclic(m),
                is_topological_order(m, order@),
                n == order.len(),
                n == m.len(),
                n == ents0.len(),
                idx <= n,
                lists_roots(m, roots@, n as nat),
                same_but_domains(ents0, self.entites@),
                ents1.len() == n,
                forall|e: int|
                    0 <= e < n && !roots@.contains(e as usize) ==> #[trigger] ents1[e].domain == ents0[e].domain,
                forall|e: int|
                    0 <= e < n && roots@.contains(e as usize) ==> is_mutated_generated(#[trigger] ents1[e].domain),
                forall|a: int|
                    idx <= a < n ==> self.entites@[order@[a] as int].domain == #[trigger] ents1[order@[a] as int].domain,
                forall|a: int|
                    0 <= a < idx ==> #[trigger] domain_follows_rule(m, self.entites@, order@[a] as int),
                forall|a: int|
                    0 <= a < idx ==> lists_in_neighbors(
                        m,
                        order@[a] as int,
                        #[trigger] parents_of(m, order@[a] as int),
                        n as nat,
                    ),
                forall|a: int|
                    0 <= a < idx && #[trigger] first_in_is_base(m, order@[a] as int) ==> self.entites@[order@[a] as int].domain
                        == ents0[order@[a] as int].domain,
                forall|a: int|
                    0 <= a < idx && is_root(m, #[trigger] order@[a] as int) ==> self.entites@[order@[a] as int].domain
                        == ents1[order@[a] as int].domain,
            decreases n - idx,
        {
            let i = order[idx];
            let ghost cur = self.entites@;
            let adj_in = self.relations.get_adj_in(i);
            proof {
                lemma_parents_of(m, i as int, adj_in@);
                assert(cur[order@[idx as int] as int].domain == ents1[order@[idx as int] as int].domain);
            }
            if adj_in.len() > 0 {
                let rt = self.relations.get(adj_in[0], i).unwrap();
                let ghost first = adj_in@[0] as int;
                proof {
                    assert(has_edge(m, first, i as int));
                    assert(!roots@.contains(i as usize)) by {
                        if roots@.contains(i as usize) {
                            let x = choose|x: int| 0 <= x < roots@.len() && roots@[x] == i as usize;
                            assert(is_root(m, roots@[x] as int));
                        }
                    }
                }
                if rt == RelationType::Parent || rt == RelationType::Creator || rt == RelationType::Invoker {
                    let domains = self.collect_domains(&adj_in);
                    let ghost ds = domains@;
                    let succeeds = if rt == RelationType::Invoker {
                        random_ratio(7, 10)
                    } else {
                        false
                    };
                    let inherited = inherited_domain(rt, domains, succeeds);
                    let mut base = match inherited {
                        Some(b) => b,
                        None => Domain::gen_domain(),
                    };
                    let ghost b0 = base;
                    let d = base.mutate();
                    proof {
                        if rt == RelationType::Parent {
                            assert forall|t: DomainType| is_mutation_of(cross_value(ds, t), #[trigger] d.value(t)) by {
                                assert(is_mutation_of(b0.value(t), d.value(t)));
                                assert(b0.value(t) == cross_value(ds, t));
                            }
                            assert(is_mutated_cross(ds, d));
                        } else if rt == RelationType::Creator || succeeds {
                            assert forall|t: DomainType| is_mutation_of(
                                average_value(ds, t) as u8,
                                #[trigger] d.value(t),
                            ) by {
                                assert(is_mutation_of(b0.value(t), d.value(t)));
                            }
                            assert(is_mutated_average(ds, d));
                        } else {
                            assert(b0.is_generated() && forall|t: DomainType|
                                is_mutation_of(#[trigger] b0.value(t), d.value(t)));
                            assert(is_mutated_generated(d));
                        }
                    }
                    self.entites[i].domain = d;
                    proof {
                        let ents = self.entites@;
                        let e = i as int;
                        assert forall|j: int| 0 <= j < n && j != e implies #[trigger] ents[j] == cur[j] by {}
                        assert forall|j: int| 0 <= j < m.len() && #[trigger] has_edge(m, j, e) implies j != e by {
                            if j == e {
                                assert(is_path(m, seq![e, e])) by {
                                    assert(crate::graph::path_step(m, seq![e, e], 0));
                                }
                            }
                        }
                        assert(parent_domains(m, ents, e) =~= ds) by {
                            assert forall|x: int| 0 <= x < adj_in@.len() implies ents[adj_in@[x] as int].domain
                                == cur[adj_in@[x] as int].domain by {
                                assert(has_edge(m, adj_in@[x] as int, e));
                            }
                        }
                        assert forall|f: int| #[trigger] is_first_in(m, e, f) implies f == first by {
                            if f != first {
                                assert(adj_in@.contains(f as usize));
                                let x = choose|x: int| 0 <= x < adj_in@.len() && adj_in@[x] == f as usize;
                                assert(x > 0);
                            }
                        }
                        assert(!is_root(m, e));
                        assert(domain_follows_rule(m, ents, e));
                        assert(!first_in_is_base(m, e));
                    }
                } else {
                    proof {
                        assert(first_in_is_base(m, i as int)) by {
                            assert(is_first_in(m, i as int, first)) by {
                                assert forall|k: int| 0 <= k < first implies !#[trigger] has_edge(m, k, i as int) by {
                                    if has_edge(m, k, i as int) {
                                        assert(adj_in@.contains(k as usize));
                                    }
                                }
                            }
                        }
                        assert forall|f: int| #[trigger] is_first_in(m, i as int, f) implies m[f][i as int]
                            == Some(RelationType::Base) by {
                            if f != first {
                                assert(adj_in@.contains(f as usize));
                                let x = choose|x: int| 0 <= x < adj_in@.len() && adj_in@[x] == f as usize;
                                assert(x > 0);
                            }
                        }
                        assert(!is_root(m, i as int));
                        assert(domain_follows_rule(m, cur, i as int));
                        assert(cur[i as int].domain == ents0[i as int].domain);
                    }
                }
            } else {
                proof {
                    assert(is_root(m, i as int)) by {
                        assert forall|k: int| 0 <= k < m.len() implies !#[trigger] has_edge(m, k, i as int) by {
                            if has_edge(m, k, i as int) {
                                assert(adj_in@.contains(k as usize));
                            }
                        }
                    }
                    assert(roots@.contains(i as usize));
                    let ie = i as int;
                    assert(0 <= ie < n && roots@.contains(ie as usize));
                    assert(is_mutated_generated(ents1[ie].domain));
                    assert(domain_follows_rule(m, cur, i as int));
                    assert(!first_in_is_base(m, i as int));
                }
            }
            proof {
                let ents = self.entites@;
                let e = i as int;
                assert forall|j: int| 0 <= j < n && j != e implies #[trigger] ents[j] == cur[j] by {}
                assert forall|a: int| 0 <= a < idx + 1 implies #[trigger] domain_follows_rule(m, ents, order@[a] as int) by {
                    if a < idx {
                        let v = order@[a] as int;
                        assert(v != e);
                        assert forall|j: int| 0 <= j < m.len() && #[trigger] has_edge(m, j, v) implies cur[j].domain
                            == ents[j].domain by {
                            assert(order@.contains(j as usize));
                            let aj = choose|aj: int| 0 <= aj < order@.len() && order@[aj] == j as usize;
                            assert(has_edge(m, order@[aj] as int, order@[a] as int));
                        }
                        lemma_domain_rule_frame(m, cur, ents, v);
                    }
                }
                assert forall|a: int| idx + 1 <= a < n implies ents[order@[a] as int].domain == #[trigger] ents1[order@[a] as int].domain by {
                    assert(order@[a] != order@[idx as int]);
                }
                assert forall|a: int| 0 <= a < idx + 1 && #[trigger] first_in_is_base(m, order@[a] as int) implies ents[order@[a] as int].domain
                    == ents0[order@[a] as int].domain by {
                    if a < idx {
                        assert(order@[a] != order@[idx as int]);
                    }
                }
                assert forall|a: int| 0 <= a < idx + 1 && is_root(m, #[trigger] order@[a] as int) implies ents[order@[a] as int].domain
                    == ents1[order@[a] as int].domain by {
                    if a < idx {
                        assert(order@[a] != order@[idx as int]);
                    }
                }
            }
            idx = idx + 1;
        }
        proof {
            let ents = self.entites@;
            assert forall|e: int| 0 <= e < n implies #[trigger] domain_follows_rule(m, ents, e) by {
                assert(order@.contains(e as usize));
                let a = choose|a: int| 0 <= a < order@.len() && order@[a] == e as usize;
                assert(domain_follows_rule(m, ents, order@[a] as int));
            }
            assert forall|e: int| 0 <= e < n && #[trigger] first_in_is_base(m, e) implies ents[e].domain == ents0[e].domain by {
                assert(order@.contains(e as usize));
                let a = choose|a: int| 0 <= a < order@.len() && order@[a] == e as usize;
                assert(first_in_is_base(m, order@[a] as int));
            }
        }
    }

    /// Generates the mythos: random relations without cycles (see
    /// `Relations::generate`), then the levels fixed by the relations, then
    /// the domains drawn along the relations. Names stay, and so do the
    /// levels of the entities that nothing relates to.
    ///
    /// The levels are fixed only when every level that the level rule
    /// computes for the drawn relations fits in `i8`; otherwise the entities
    /// stay as they were and `false` is returned. That cannot happen when
    /// every level is at least one less than the number of entities away
    /// from the ends of `i8`.
    pub fn generate(&mut self) -> (fits: bool)
        requires
            old(self).wf(),
            old(self).entites.len() >= 1,
            is_acyclic(old(self).relations@),
        ensures
            final(self).wf(),
            final(self).entites.len() == old(self).entites.len(),
            forall|i: int|
                0 <= i < final(self).entites.len() ==> #[trigger] final(self).entites@[i].name
                    == old(self).entites@[i].name,
            edges_within(old(self).relations@, final(self).relations@),
            is_acyclic(final(self).relations@),
            forall|i: int, j: int|
                0 <= i < final(self).entites.len() && 0 <= j < final(self).entites.len()
                    ==> #[trigger] final(self).relations@[i][j] != Some(RelationType::Base),
            forall|v: int|
                0 <= v < final(self).entites.len() ==> #[trigger] has_uniform_in_type(
                    final(self).relations@,
                    v,
                ),
            exists|mb: Matrix|
                #[trigger] after_base_rounds(
                    old(self).relations@,
                    mb,
                    base_round_count(old(self).relations.size_of()),
                ) && same_edges(mb, final(self).relations@),
            edge_count(final(self).relations@) <= edge_count(old(self).relations@) + base_round_count(
                old(self).relations.size_of(),
            ),
            has_no_edges(old(self).relations@) && old(self).entites.len() >= 2 ==> edge_count(
                final(self).relations@,
            ) >= 1,
            fits == ruled_levels_fit(final(self).relations@, old(self).entites@),
            levels_leave_room(old(self).entites@) ==> fits,
            !fits ==> final(self).entites@ == old(self).entites@,
            fits ==> forall|e: int|
                0 <= e < final(self).entites.len() && #[trigger] is_root(final(self).relations@, e)
                    ==> final(self).entites@[e].level == old(self).entites@[e].level,
            fits ==> forall|e: int|
                0 <= e < final(self).entites.len() ==> #[trigger] follows_level_rule(
                    final(self).relations@,
                    final(self).entites@,
                    e,
                ),
            fits ==> forall|e: int|
                0 <= e < final(self).entites.len() ==> #[trigger] domain_follows_rule(
                    final(self).relations@,
                    final(self).entites@,
                    e,
                ),
    {
        let ghost ents0 = self.entites@;
        self.relations.generate();
        let fits = self.levels_fit();
        proof {
            let m = self.relations@;
            let n = ents0.len() as int;
            if levels_leave_room(ents0) {
                let lo = i8::MIN + (n - 1);
                let hi = i8::MAX - (n - 1);
                assert forall|v: int| 0 <= v < levels_of(ents0).len() implies lo <= #[trigger] levels_of(ents0)[v]
                    <= hi by {
                    assert(lo <= ents0[v].level <= hi);
                }
                let order = dfs_order(m);
                lemma_levels_along_bounds(m, levels_of(ents0), order, n, lo, hi);
                assert(order.take(n) =~= order);
                assert(fits_in_i8(levels_along(m, levels_of(ents0), order)));
            }
        }
        if !fits {
            return false;
        }
        self.fix_levels();
        let ghost ents1 = self.entites@;
        self.generate_domains();
        proof {
            let m = self.relations@;
            let ents = self.entites@;
            assert forall|e: int| 0 <= e < ents.len() implies #[trigger] follows_level_rule(m, ents, e) by {
                assert(follows_level_rule(m, ents1, e));
                assert forall|j: int| 0 <= j < m.len() && #[trigger] has_edge(m, j, e) implies ents1[j].level
                    == ents[j].level by {
                    assert(ents[j].level == ents1[j].level);
                }
                assert(ents[e].level == ents1[e].level);
                lemma_rule_frame(m, ents1, ents, e);
            }
            assert forall|e: int| 0 <= e < ents.len() && #[trigger] is_root(m, e) implies ents[e].level
                == ents0[e].level by {
                assert(ents[e].level == ents1[e].level);
            }
            assert forall|i: int| 0 <= i < ents.len() implies #[trigger] ents[i].name == ents0[i].name by {
                assert(ents[i].name == ents1[i].name);
            }
        }
        true
    }
}

} // verus!
