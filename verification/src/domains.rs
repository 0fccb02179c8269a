//! The elemental domains of an entity: a strength for each of the four
//! elements, and which of them rank first (primary) and second (secundary).

use crate::console::print_primary;
use crate::random::{random_below, random_ratio};
use vstd::prelude::*;

verus! {

/// One of the four elements.
#[derive(Debug, PartialEq, Eq, Structural, PartialOrd, Ord, Hash, Clone, Copy)]
pub enum DomainType {
    Water,
    Earth,
    Fire,
    Air,
}

impl DomainType {
    /// Position of the element in the cycle Water, Earth, Fire, Air (also
    /// its place in the order of the enum).
    pub open spec fn index(self) -> int {
        match self {
            DomainType::Water => 0,
            DomainType::Earth => 1,
            DomainType::Fire => 2,
            DomainType::Air => 3,
        }
    }

    /// The element at position `i` of the cycle (`Air` for any `i` past 2).
    pub open spec fn from_index(i: int) -> DomainType {
        if i == 0 {
            DomainType::Water
        } else if i == 1 {
            DomainType::Earth
        } else if i == 2 {
            DomainType::Fire
        } else {
            DomainType::Air
        }
    }

    /// The element that follows in the cycle.
    pub open spec fn spec_next(self) -> DomainType {
        DomainType::from_index((self.index() + 1) % 4)
    }

    /// The element that precedes in the cycle.
    pub open spec fn spec_prev(self) -> DomainType {
        DomainType::from_index((self.index() + 3) % 4)
    }

    /// The element that follows in the cycle water, earth, fire, air.
    pub fn next(&self) -> (r: DomainType)
        ensures
            r == self.spec_next(),
    {
        match self {
            DomainType::Water => DomainType::Earth,
            DomainType::Earth => DomainType::Fire,
            DomainType::Fire => DomainType::Air,
            DomainType::Air => DomainType::Water,
        }
    }

    /// The element that precedes in the cycle water, earth, fire, air.
    pub fn prev(&self) -> (r: DomainType)
        ensures
            r == self.spec_prev(),
    {
        match self {
            DomainType::Water => DomainType::Air,
            DomainType::Earth => DomainType::Water,
            DomainType::Fire => DomainType::Earth,
            DomainType::Air => DomainType::Fire,
        }
    }

    fn position(&self) -> (r: u8)
        ensures
            r as int == self.index(),
    {
        match self {
            DomainType::Water => 0,
            DomainType::Earth => 1,
            DomainType::Fire => 2,
            DomainType::Air => 3,
        }
    }
}

/// The value that a single bit flip of a mutation adds or removes: bit
/// `spot` when `flip` is set, nothing otherwise.
pub open spec fn flip_mask(spot: u32, flip: bool) -> u8 {
    if flip {
        1u8 << spot
    } else {
        0u8
    }
}

/// Inverting no bit leaves a strength as it is.
pub proof fn lemma_xor_zero(v: u8)
    ensures
        v ^ 0u8 == v,
{
    assert(v ^ 0u8 == v) by (bit_vector);
}

/// Blending twice keeps the high nibble of the first and the low nibble of
/// the last.
pub proof fn lemma_crossed_twice(a: u8, b: u8, c: u8)
    ensures
        crossed(crossed(a, b), c) == crossed(a, c),
{
    assert(((((a & 0xf0) | (b & 0x0f)) & 0xf0) | (c & 0x0f)) == ((a & 0xf0) | (c & 0x0f))) by (bit_vector);
}

/// `w` is what a mutation can make of `v`: at most one of the low four bits
/// and at most one of the high four bits inverted.
pub open spec fn is_mutation_of(v: u8, w: u8) -> bool {
    exists|spot0: u32, flip0: bool, spot1: u32, flip1: bool|
        spot0 < 4 && 4 <= spot1 < 8 && w == v ^ flip_mask(spot0, flip0) ^ flip_mask(spot1, flip1)
}

/// Sum of the strengths of element `t` over a list of domains.
pub open spec fn sum_values(ds: Seq<Domain>, t: DomainType) -> int
    decreases ds.len(),
{
    if ds.len() == 0 {
        0
    } else {
        sum_values(ds.drop_last(), t) + ds.last().value(t) as int
    }
}

/// Average strength of element `t` over a non-empty list, rounded down.
pub open spec fn average_value(ds: Seq<Domain>, t: DomainType) -> int {
    sum_values(ds, t) / (ds.len() as int)
}

/// `d` is what blending a non-empty list of domains from left to right gives:
/// the domain itself for a single one; otherwise the high nibbles of the
/// first and the low nibbles of the last, ranked anew.
pub open spec fn is_cross_of(ds: Seq<Domain>, d: Domain) -> bool {
    &&& ds.len() == 1 ==> d == ds[0]
    &&& ds.len() >= 2 ==> d.ranks_set() && forall|t: DomainType|
        #[trigger] d.value(t) == crossed(ds[0].value(t), ds.last().value(t))
}

/// Strength of element `t` after blending a non-empty list of domains.
pub open spec fn cross_value(ds: Seq<Domain>, t: DomainType) -> u8 {
    if ds.len() == 1 {
        ds[0].value(t)
    } else {
        crossed(ds[0].value(t), ds.last().value(t))
    }
}

/// `d` is a mutation of the blend of `ds`, ranked anew.
pub open spec fn is_mutated_cross(ds: Seq<Domain>, d: Domain) -> bool {
    &&& d.ranks_set()
    &&& forall|t: DomainType| is_mutation_of(cross_value(ds, t), #[trigger] d.value(t))
}

/// `d` is a mutation of the average of `ds`, ranked anew.
pub open spec fn is_mutated_average(ds: Seq<Domain>, d: Domain) -> bool {
    &&& d.ranks_set()
    &&& forall|t: DomainType| is_mutation_of(average_value(ds, t) as u8, #[trigger] d.value(t))
}

/// `d` is a mutation of a freshly drawn domain, ranked anew.
pub open spec fn is_mutated_generated(d: Domain) -> bool {
    &&& d.ranks_set()
    &&& exists|g: Domain|
        g.is_generated() && forall|t: DomainType| is_mutation_of(#[trigger] g.value(t), d.value(t))
}

/// Strength of element `t` after blending `a` with `b`: the high nibble of
/// `a`, the low nibble of `b`.
pub open spec fn crossed(a: u8, b: u8) -> u8 {
    (a & 0xf0) | (b & 0x0f)
}

/// The strength of each element, and the elements that rank first and second.
#[derive(Debug, PartialEq, Eq, Clone, Copy)]
pub struct Domain {
    water: u8,
    earth: u8,
    fire: u8,
    air: u8,
    primary: Option<DomainType>,
    secundary: Option<DomainType>,
}

impl Domain {
    /// Strength of element `t`.
    pub closed spec fn value(self, t: DomainType) -> u8 {
        match t {
            DomainType::Water => self.water,
            DomainType::Earth => self.earth,
            DomainType::Fire => self.fire,
            DomainType::Air => self.air,
        }
    }

    /// The element recorded as ranking first, if any.
    pub closed spec fn primary_of(self) -> Option<DomainType> {
        self.primary
    }

    /// The element recorded as ranking second, if any.
    pub closed spec fn secundary_of(self) -> Option<DomainType> {
        self.secundary
    }

    /// Key by which elements are ranked: by strength, and between equal
    /// strengths the later element of the enum ranks higher.
    pub open spec fn rank_key(self, t: DomainType) -> int {
        self.value(t) as int * 4 + t.index()
    }

    /// `p` ranks first and `s` second by `rank_key`.
    pub open spec fn is_ranked(self, p: DomainType, s: DomainType) -> bool {
        &&& p != s
        &&& forall|u: DomainType| u != p ==> #[trigger] self.rank_key(u) < self.rank_key(p)
        &&& forall|u: DomainType| u != p && u != s ==> #[trigger] self.rank_key(u) < self.rank_key(s)
    }

    /// Primary and secundary are set, and are the elements that rank first
    /// and second.
    pub open spec fn ranks_set(self) -> bool {
        match (self.primary_of(), self.secundary_of()) {
            (Some(p), Some(s)) => self.is_ranked(p, s),
            _ => false,
        }
    }

    /// `self` and `other` hold the same strength for every element.
    pub open spec fn same_values(self, other: Domain) -> bool {
        forall|t: DomainType| #[trigger] self.value(t) == other.value(t)
    }

    /// What a fresh draw of a domain looks like: the primary is Water, Earth
    /// or Fire with a strength in 127..=254, the secundary is the element that
    /// follows it with a strength in 63..=126, the element before the primary
    /// has at most 62, and the element opposite the primary has none.
    pub open spec fn is_generated(self) -> bool {
        match (self.primary_of(), self.secundary_of()) {
            (Some(p), Some(s)) => {
                &&& p != DomainType::Air
                &&& s == p.spec_next()
                &&& 127 <= self.value(p) <= 254
                &&& 63 <= self.value(s) <= 126
                &&& self.value(p.spec_prev()) <= 62
                &&& self.value(p.spec_next().spec_next()) == 0
            },
            _ => false,
        }
    }

    /// All four strengths zero, no primary and no secundary.
    pub fn new() -> (d: Domain)
        ensures
            forall|t: DomainType| #[trigger] d.value(t) == 0,
            d.primary_of() is None,
            d.secundary_of() is None,
    {
        Domain { water: 0, earth: 0, fire: 0, air: 0, primary: None, secundary: None }
    }

    /// A domain with the given strengths and ranks, taken as they are.
    pub fn from_parts(
        water: u8,
        earth: u8,
        fire: u8,
        air: u8,
        primary: Option<DomainType>,
        secundary: Option<DomainType>,
    ) -> (d: Domain)
        ensures
            d.value(DomainType::Water) == water,
            d.value(DomainType::Earth) == earth,
            d.value(DomainType::Fire) == fire,
            d.value(DomainType::Air) == air,
            d.primary_of() == primary,
            d.secundary_of() == secundary,
    {
        Domain { water, earth, fire, air, primary, secundary }
    }

    pub fn get_water(&self) -> (r: &u8)
        ensures
            *r == self.value(DomainType::Water),
    {
        &self.water
    }

    pub fn get_earth(&self) -> (r: &u8)
        ensures
            *r == self.value(DomainType::Earth),
    {
        &self.earth
    }

    pub fn get_fire(&self) -> (r: &u8)
        ensures
            *r == self.value(DomainType::Fire),
    {
        &self.fire
    }

    pub fn get_air(&self) -> (r: &u8)
        ensures
            *r == self.value(DomainType::Air),
    {
        &self.air
    }

    pub fn get_primary(&self) -> (r: &Option<DomainType>)
        ensures
            *r == self.primary_of(),
    {
        &self.primary
    }

    pub fn get_secundary(&self) -> (r: &Option<DomainType>)
        ensures
            *r == self.secundary_of(),
    {
        &self.secundary
    }

    /// Strength of element `t`.
    pub fn get_value(&self, t: DomainType) -> (r: u8)
        ensures
            r == self.value(t),
    {
        match t {
            DomainType::Water => self.water,
            DomainType::Earth => self.earth,
            DomainType::Fire => self.fire,
            DomainType::Air => self.air,
        }
    }

    fn set_value(&mut self, t: DomainType, v: u8)
        ensures
            final(self).value(t) == v,
            forall|u: DomainType| u != t ==> #[trigger] final(self).value(u) == old(self).value(u),
            final(self).primary_of() == old(self).primary_of(),
            final(self).secundary_of() == old(self).secundary_of(),
    {
        match t {
            DomainType::Water => self.water = v,
            DomainType::Earth => self.earth = v,
            DomainType::Fire => self.fire = v,
            DomainType::Air => self.air = v,
        }
    }

    fn key(&self, t: DomainType) -> (k: u16)
        ensures
            k as int == self.rank_key(t),
    {
        self.get_value(t) as u16 * 4 + t.position() as u16
    }

    /// Keeps `best`, or takes `cand` in its place when `cand` is not the
    /// excluded element and ranks higher.
    fn consider(&self, best: Option<DomainType>, cand: DomainType, excluded: Option<DomainType>) -> (r:
        Option<DomainType>)
        requires
            best != Some(cand),
            best is Some ==> best != excluded,
        ensures
            r == best || r == Some(cand),
            r is Some ==> r != excluded,
            Some(cand) != excluded ==> r is Some,
            r matches Some(b) ==> best matches Some(c) ==> self.rank_key(c) <= self.rank_key(b),
            r matches Some(b) ==> (Some(cand) != excluded ==> self.rank_key(cand) <= self.rank_key(
                b,
            )),
    {
        if excluded == Some(cand) {
            best
        } else {
            match best {
                None => Some(cand),
                Some(b) => {
                    if self.key(cand) > self.key(b) {
                        Some(cand)
                    } else {
                        best
                    }
                },
            }
        }
    }

    /// The highest ranking element other than `excluded`.
    fn best_except(&self, excluded: Option<DomainType>) -> (r: DomainType)
        ensures
            Some(r) != excluded,
            forall|u: DomainType|
                Some(u) != excluded && u != r ==> #[trigger] self.rank_key(u) < self.rank_key(r),
    {
        let b0 = self.consider(None, DomainType::Water, excluded);
        let b1 = self.consider(b0, DomainType::Earth, excluded);
        let b2 = self.consider(b1, DomainType::Fire, excluded);
        let b3 = self.consider(b2, DomainType::Air, excluded);
        let r = b3.unwrap();
        assert forall|u: DomainType| Some(u) != excluded && u != r implies #[trigger] self.rank_key(u)
            < self.rank_key(r) by {
            match u {
                DomainType::Water => {},
                DomainType::Earth => {},
                DomainType::Fire => {},
                DomainType::Air => {},
            }
        }
        r
    }

    fn find_primary_secundary(&self) -> (r: (DomainType, DomainType))
        ensures
            self.is_ranked(r.0, r.1),
    {
        let p = self.best_except(None);
        let s = self.best_except(Some(p));
        (p, s)
    }

    fn set_primary_secundary(&mut self)
        ensures
            final(self).same_values(*old(self)),
            final(self).ranks_set(),
    {
        let p = self.find_primary_secundary();
        let ghost before = *self;
        self.primary = Some(p.0);
        self.secundary = Some(p.1);
        proof {
            assert forall|u: DomainType| #[trigger] self.rank_key(u) == before.rank_key(u) by {}
        }
    }

    /// A domain from the draws of `gen_domain`: the index of the primary
    /// element (`0..=3`, Water to Air) and its strength, the choice of the
    /// secundary (`0` for the element after the primary, any other value for
    /// the one before it) and its strength, and the strength of the remaining
    /// neighbour of the primary. The element opposite the primary gets none.
    pub fn from_draws(pri: usize, pri_l: u8, sec_dn: usize, sec_l: u8, ter_l: u8) -> (d: Domain)
        requires
            pri <= 3,
        ensures
            ({
                let p = DomainType::from_index(pri as int);
                let (s, t) = if sec_dn == 0 {
                    (p.spec_next(), p.spec_prev())
                } else {
                    (p.spec_prev(), p.spec_next())
                };
                &&& d.primary_of() == Some(p)
                &&& d.secundary_of() == Some(s)
                &&& d.value(p) == pri_l
                &&& d.value(s) == sec_l
                &&& d.value(t) == ter_l
                &&& d.value(p.spec_next().spec_next()) == 0
            }),
    {
        let mut d = Domain::new();
        let ghost d0 = d;
        let pri_d = match pri {
            0 => DomainType::Water,
            1 => DomainType::Earth,
            2 => DomainType::Fire,
            _ => DomainType::Air,
        };
        d.primary = Some(pri_d);
        d.set_value(pri_d, pri_l);
        let ghost d1 = d;
        let sec_d: DomainType;
        let ter_d: DomainType;
        if sec_dn == 0 {
            sec_d = pri_d.next();
            ter_d = pri_d.prev();
        } else {
            sec_d = pri_d.prev();
            ter_d = pri_d.next();
        }
        d.secundary = Some(sec_d);
        d.set_value(sec_d, sec_l);
        let ghost d2 = d;
        d.set_value(ter_d, ter_l);
        proof {
            let p = DomainType::from_index(pri as int);
            assert(pri_d == p);
            let opp = pri_d.spec_next().spec_next();
            assert(d0.value(opp) == 0);
            assert(opp != pri_d && opp != sec_d && opp != ter_d) by {
                match pri_d {
                    DomainType::Water => {},
                    DomainType::Earth => {},
                    DomainType::Fire => {},
                    DomainType::Air => {},
                }
            }
            assert(d1.value(opp) == 0);
            assert(d2.value(opp) == 0);
        }
        d
    }

    /// A randomly drawn domain (see `is_generated`); its primary and
    /// secundary are the elements that rank first and second. The primary
    /// and its strength are written to standard output.
    pub fn gen_domain() -> (d: Domain)
        ensures
            d.is_generated(),
            d.ranks_set(),
    {
        let pri = random_below(0, 3);
        let pri_l = random_below(127, 255);
        let sec_dn = random_below(0, 1);
        let sec_l = random_below(63, 127);
        let ter_l = random_below(0, 63);
        let d = Domain::from_draws(pri, pri_l as u8, sec_dn, sec_l as u8, ter_l as u8);
        if let Some(p) = d.primary {
            print_primary(p, pri_l as u8);
        }
        proof {
            let p = DomainType::from_index(pri as int);
            assert forall|u: DomainType| u != p implies #[trigger] d.rank_key(u) < d.rank_key(p) by {
                match u {
                    DomainType::Water => {},
                    DomainType::Earth => {},
                    DomainType::Fire => {},
                    DomainType::Air => {},
                }
            }
            let s = p.spec_next();
            assert forall|u: DomainType| u != p && u != s implies #[trigger] d.rank_key(u) < d.rank_key(
                s,
            ) by {
                match u {
                    DomainType::Water => {},
                    DomainType::Earth => {},
                    DomainType::Fire => {},
                    DomainType::Air => {},
                }
            }
        }
        d
    }

    /// Blends two domains: each strength takes its high nibble from `self` and
    /// its low nibble from `d2`; primary and secundary are then ranked anew.
    pub fn cross_over(&self, d2: &Domain) -> (d: Domain)
        ensures
            forall|t: DomainType| #[trigger] d.value(t) == crossed(self.value(t), d2.value(t)),
            d.ranks_set(),
    {
        let mut d_new = Domain::new();
        d_new.water = (self.water & 0xf0) | (d2.water & 0x0f);
        d_new.earth = (self.earth & 0xf0) | (d2.earth & 0x0f);
        d_new.fire = (self.fire & 0xf0) | (d2.fire & 0x0f);
        d_new.air = (self.air & 0xf0) | (d2.air & 0x0f);
        d_new.set_primary_secundary();
        d_new
    }

    /// `v` with bit `spot0` inverted when `flip0` holds and bit `spot1`
    /// inverted when `flip1` holds.
    pub fn mutate_value(v: u8, spot0: u32, flip0: bool, spot1: u32, flip1: bool) -> (w: u8)
        requires
            spot0 < 4,
            4 <= spot1 < 8,
        ensures
            w == v ^ flip_mask(spot0, flip0) ^ flip_mask(spot1, flip1),
    {
        let mut new_v = v;
        if flip0 {
            let spot0_v: u8 = 1u8 << spot0;
            if (v & spot0_v) == spot0_v {
                new_v &= 255 - spot0_v;
            } else {
                assert(v & spot0_v != spot0_v ==> (v as int) + (spot0_v as int) <= 255 && v
                    + spot0_v == v ^ spot0_v) by (bit_vector)
                    requires
                        spot0_v == 1u8 << spot0,
                        spot0 < 4,
                ;
                new_v += spot0_v;
            }
            assert(new_v == v ^ (1u8 << spot0)) by (bit_vector)
                requires
                    spot0_v == 1u8 << spot0,
                    spot0 < 4,
                    (v & spot0_v) == spot0_v ==> new_v == v & ((255 - spot0_v) as u8),
                    (v & spot0_v) != spot0_v ==> new_v == v ^ spot0_v,
            ;
        }
        let mid = new_v;
        if flip1 {
            let spot1_v: u8 = 1u8 << spot1;
            if (v & spot1_v) == spot1_v {
                new_v &= 255 - spot1_v;
            } else {
                assert((v & spot1_v) != spot1_v ==> (mid as int) + (spot1_v as int) <= 255) by (bit_vector)
                    requires
                        spot1_v == 1u8 << spot1,
                        4 <= spot1 < 8,
                        spot0 < 4,
                        flip0 ==> mid == v ^ (1u8 << spot0),
                        !flip0 ==> mid == v,
                ;
                new_v += spot1_v;
            }
            assert(new_v == mid ^ (1u8 << spot1)) by (bit_vector)
                requires
                    spot1_v == 1u8 << spot1,
                    4 <= spot1 < 8,
                    spot0 < 4,
                    flip0 ==> mid == v ^ (1u8 << spot0),
                    !flip0 ==> mid == v,
                    (v & spot1_v) == spot1_v ==> new_v == mid & ((255 - spot1_v) as u8),
                    (v & spot1_v) != spot1_v ==> new_v == mid + spot1_v,
            ;
        }
        proof {
            lemma_xor_zero(v);
            lemma_xor_zero(v ^ flip_mask(spot0, flip0));
        }
        new_v
    }

    /// Draws a mutation of one strength.
    fn mutate_one(v: u8) -> (w: u8)
        ensures
            is_mutation_of(v, w),
    {
        let spot0 = random_below(0, 4) as u32;
        let spot1 = random_below(4, 8) as u32;
        let flip0 = random_ratio(1, 5);
        let flip1 = random_ratio(1, 10);
        let w = Domain::mutate_value(v, spot0, flip0, spot1, flip1);
        assert(spot0 < 4 && 4 <= spot1 < 8 && w == v ^ flip_mask(spot0, flip0) ^ flip_mask(
            spot1,
            flip1,
        ));
        w
    }

    /// A mutated copy of this domain: each strength may have one bit of its
    /// low nibble inverted (probability 1/5) and one bit of its high nibble
    /// (probability 1/10); primary and secundary are ranked anew. `self` is
    /// left as it was.
    pub fn mutate(&mut self) -> (d: Domain)
        ensures
            *final(self) == *old(self),
            forall|t: DomainType| is_mutation_of(#[trigger] old(self).value(t), d.value(t)),
            d.ranks_set(),
    {
        let mut new_d = Domain::new();
        new_d.water = Domain::mutate_one(self.water);
        new_d.earth = Domain::mutate_one(self.earth);
        new_d.fire = Domain::mutate_one(self.fire);
        new_d.air = Domain::mutate_one(self.air);
        new_d.set_primary_secundary();
        proof {
            assert forall|t: DomainType| is_mutation_of(#[trigger] old(self).value(t), new_d.value(t)) by {
                match t {
                    DomainType::Water => {},
                    DomainType::Earth => {},
                    DomainType::Fire => {},
                    DomainType::Air => {},
                }
            }
        }
        new_d
    }

    /// Blends a non-empty list of domains from left to right with
    /// `cross_over`. A single domain comes back as it is; otherwise each
    /// strength has the high nibble of the first domain and the low nibble of
    /// the last one, and primary and secundary are ranked anew.
    pub fn cross_over_many(ds: &Vec<Domain>) -> (d: Domain)
        requires
            ds.len() >= 1,
        ensures
            is_cross_of(ds@, d),
    {
        let mut acc = ds[0];
        let n = ds.len();
        for i in 1..n
            invariant
                n == ds.len(),
                n >= 1,
                i == 1 ==> acc == ds@[0],
                i >= 2 ==> acc.ranks_set() && forall|t: DomainType|
                    #[trigger] acc.value(t) == crossed(ds@[0].value(t), ds@[i - 1].value(t)),
        {
            let next = acc.cross_over(&ds[i]);
            proof {
                assert forall|t: DomainType| #[trigger] next.value(t) == crossed(
                    ds@[0].value(t),
                    ds@[i as int].value(t),
                ) by {
                    if i >= 2 {
                        lemma_crossed_twice(
                            ds@[0].value(t),
                            ds@[i - 1].value(t),
                            ds@[i as int].value(t),
                        );
                    }
                }
            }
            acc = next;
        }
        acc
    }

    /// Average strength of element `t` over a non-empty list, rounded down.
    fn average_of(ds: &Vec<Domain>, t: DomainType) -> (r: u8)
        requires
            ds.len() >= 1,
        ensures
            r as int == sum_values(ds@, t) / (ds.len() as int),
    {
        let n = ds.len();
        let mut sum: u128 = 0;
        for i in 0..n
            invariant
                n == ds.len(),
                sum as int == sum_values(ds@.take(i as int), t),
                sum <= 255 * i,
        {
            proof {
                assert(ds@.take(i + 1).drop_last() =~= ds@.take(i as int));
            }
            sum = sum + ds[i].get_value(t) as u128;
        }
        proof {
            assert(ds@.take(n as int) =~= ds@);
            assert(sum / (n as u128) <= 255) by (nonlinear_arith)
                requires
                    sum <= 255 * n,
                    n >= 1,
            ;
        }
        (sum / (n as u128)) as u8
    }

    /// A domain whose strengths are the averages (rounded down) of those of a
    /// non-empty list of domains, with primary and secundary ranked anew.
    pub fn gen_from_average(ds: Vec<Domain>) -> (d: Domain)
        requires
            ds.len() >= 1,
        ensures
            forall|t: DomainType| #[trigger] d.value(t) as int == average_value(ds@, t),
            d.ranks_set(),
    {
        let mut d = Domain::new();
        d.water = Domain::average_of(&ds, DomainType::Water);
        d.earth = Domain::average_of(&ds, DomainType::Earth);
        d.fire = Domain::average_of(&ds, DomainType::Fire);
        d.air = Domain::average_of(&ds, DomainType::Air);
        d.set_primary_secundary();
        proof {
            assert forall|t: DomainType| #[trigger] d.value(t) as int == average_value(ds@, t) by {
                match t {
                    DomainType::Water => {},
                    DomainType::Earth => {},
                    DomainType::Fire => {},
                    DomainType::Air => {},
                }
            }
        }
        d
    }
}

} // verus!
