use random_mythos::domains::{Domain, DomainType};
use random_mythos::mythos::inherited_domain;
use random_mythos::relations::RelationType;

fn values(d: &Domain) -> (u8, u8, u8, u8) {
    (*d.get_water(), *d.get_earth(), *d.get_fire(), *d.get_air())
}

fn next(t: DomainType) -> DomainType {
    match t {
        DomainType::Water => DomainType::Earth,
        DomainType::Earth => DomainType::Fire,
        DomainType::Fire => DomainType::Air,
        DomainType::Air => DomainType::Water,
    }
}

fn prev(t: DomainType) -> DomainType {
    match t {
        DomainType::Water => DomainType::Air,
        DomainType::Earth => DomainType::Water,
        DomainType::Fire => DomainType::Earth,
        DomainType::Air => DomainType::Fire,
    }
}

fn one_bit_per_nibble(before: u8, after: u8) -> bool {
    let x = before ^ after;
    (x & 0x0f).count_ones() <= 1 && (x & 0xf0).count_ones() <= 1
}

#[test]
fn new_domain_is_empty() {
    let d = Domain::new();
    assert_eq!(values(&d), (0, 0, 0, 0));
    assert_eq!(*d.get_primary(), None);
    assert_eq!(*d.get_secundary(), None);
}

#[test]
fn from_draws_places_the_three_strengths() {
    let d = Domain::from_draws(1, 200, 0, 100, 50);
    assert_eq!(values(&d), (50, 200, 100, 0));
    assert_eq!(*d.get_primary(), Some(DomainType::Earth));
    assert_eq!(*d.get_secundary(), Some(DomainType::Fire));

    let d = Domain::from_draws(0, 130, 1, 70, 10);
    assert_eq!(values(&d), (130, 10, 0, 70));
    assert_eq!(*d.get_primary(), Some(DomainType::Water));
    assert_eq!(*d.get_secundary(), Some(DomainType::Air));
}

#[test]
fn cross_over_takes_high_nibble_of_self_and_low_of_other() {
    let d1 = Domain::from_parts(0xAB, 0x12, 0xF0, 0x0F, None, None);
    let d2 = Domain::from_parts(0xCD, 0x34, 0x0F, 0xF0, None, None);
    let d = d1.cross_over(&d2);
    assert_eq!(values(&d), (0xAD, 0x14, 0xFF, 0x00));
    assert_eq!(*d.get_primary(), Some(DomainType::Fire));
    assert_eq!(*d.get_secundary(), Some(DomainType::Water));
}

#[test]
fn equal_strengths_rank_the_later_element_first() {
    let d1 = Domain::from_parts(5, 5, 5, 5, None, None);
    let d = d1.cross_over(&d1);
    assert_eq!(values(&d), (5, 5, 5, 5));
    assert_eq!(*d.get_primary(), Some(DomainType::Air));
    assert_eq!(*d.get_secundary(), Some(DomainType::Fire));

    let d2 = Domain::from_parts(9, 9, 3, 1, None, None);
    let d = d2.cross_over(&d2);
    assert_eq!(*d.get_primary(), Some(DomainType::Earth));
    assert_eq!(*d.get_secundary(), Some(DomainType::Water));
}

#[test]
fn mutate_value_inverts_chosen_bits() {
    assert_eq!(Domain::mutate_value(0xA5, 1, true, 6, true), 0xE7);
    assert_eq!(Domain::mutate_value(0xFF, 0, true, 7, false), 0xFE);
    assert_eq!(Domain::mutate_value(0x10, 3, false, 4, true), 0x00);
    assert_eq!(Domain::mutate_value(0x42, 2, false, 5, false), 0x42);
}

#[test]
fn gen_from_average_rounds_down() {
    let ds = vec![
        Domain::from_parts(10, 20, 30, 41, None, None),
        Domain::from_parts(20, 21, 31, 40, None, None),
    ];
    let d = Domain::gen_from_average(ds);
    assert_eq!(values(&d), (15, 20, 30, 40));
    assert_eq!(*d.get_primary(), Some(DomainType::Air));
    assert_eq!(*d.get_secundary(), Some(DomainType::Fire));

    let d = Domain::gen_from_average(vec![Domain::from_parts(255, 254, 253, 0, None, None)]);
    assert_eq!(values(&d), (255, 254, 253, 0));
}

#[test]
fn cross_over_many_blends_first_and_last() {
    let one = Domain::from_parts(1, 2, 3, 4, Some(DomainType::Air), Some(DomainType::Fire));
    assert_eq!(Domain::cross_over_many(&vec![one]), one);

    let ds = vec![
        Domain::from_parts(0x12, 0x34, 0x56, 0x78, None, None),
        Domain::from_parts(0x9A, 0xBC, 0xDE, 0xF0, None, None),
        Domain::from_parts(0x0F, 0x0E, 0x0D, 0x0C, None, None),
    ];
    let d = Domain::cross_over_many(&ds);
    assert_eq!(values(&d), (0x1F, 0x3E, 0x5D, 0x7C));
    assert_eq!(*d.get_primary(), Some(DomainType::Air));
    assert_eq!(*d.get_secundary(), Some(DomainType::Fire));
}

#[test]
fn gen_domain_draws_within_the_ranges() {
    let mut strengths = std::collections::HashSet::new();
    for _ in 0..300 {
        let d = Domain::gen_domain();
        let p = d.get_primary().unwrap();
        let s = d.get_secundary().unwrap();
        assert_ne!(p, DomainType::Air);
        assert_eq!(s, next(p));
        let pv = d.get_value(p);
        let sv = d.get_value(s);
        assert!((127..=254).contains(&pv));
        assert!((63..=126).contains(&sv));
        assert!(d.get_value(prev(p)) <= 62);
        assert_eq!(d.get_value(next(next(p))), 0);
        strengths.insert(pv);
    }
    assert!(strengths.len() > 1);
}

#[test]
fn mutate_leaves_self_and_flips_at_most_one_bit_per_nibble() {
    let mut changed = 0;
    for _ in 0..200 {
        let mut d = Domain::from_parts(0x5A, 0xC3, 0x0F, 0xF0, Some(DomainType::Earth), Some(DomainType::Water));
        let before = d;
        let m = d.mutate();
        assert_eq!(d, before);
        if (*m.get_water(), *m.get_earth(), *m.get_fire(), *m.get_air()) != (0x5A, 0xC3, 0x0F, 0xF0) {
            changed += 1;
        }
        assert!(one_bit_per_nibble(0x5A, *m.get_water()));
        assert!(one_bit_per_nibble(0xC3, *m.get_earth()));
        assert!(one_bit_per_nibble(0x0F, *m.get_fire()));
        assert!(one_bit_per_nibble(0xF0, *m.get_air()));
        let ranked = m.cross_over(&m);
        assert_eq!(m.get_primary(), ranked.get_primary());
        assert_eq!(m.get_secundary(), ranked.get_secundary());
    }
    // each strength is left alone with probability 0.72, so some of the
    // 200 mutations change something
    assert!(changed > 0);
}

#[test]
fn primary_is_the_strongest_element() {
    for _ in 0..100 {
        let d = Domain::gen_domain().cross_over(&Domain::gen_domain());
        let p = d.get_primary().unwrap();
        let s = d.get_secundary().unwrap();
        assert_ne!(p, s);
        for t in [DomainType::Water, DomainType::Earth, DomainType::Fire, DomainType::Air] {
            assert!(d.get_value(t) <= d.get_value(p));
            if t != p {
                assert!(d.get_value(t) <= d.get_value(s));
            }
        }
    }
}

#[test]
fn inherited_domain_follows_the_relation_type() {
    let a = Domain::from_parts(0x12, 0x34, 0x56, 0x78, None, None);
    let b = Domain::from_parts(0x9A, 0xBC, 0xDE, 0xF0, None, None);
    let blend = inherited_domain(RelationType::Parent, vec![a, b], false).unwrap();
    assert_eq!(values(&blend), (0x1A, 0x3C, 0x5E, 0x70));
    assert_eq!(*blend.get_primary(), Some(DomainType::Air));
    let avg = inherited_domain(RelationType::Creator, vec![a, b], false).unwrap();
    assert_eq!(values(&avg), (0x56, 0x78, 0x9A, 0xB4));
    let invoked = inherited_domain(RelationType::Invoker, vec![a, b], true).unwrap();
    assert_eq!(values(&invoked), values(&avg));
    assert!(inherited_domain(RelationType::Invoker, vec![a, b], false).is_none());
}

#[test]
fn next_and_prev_invert_each_other() {
    for t in [DomainType::Water, DomainType::Earth, DomainType::Fire, DomainType::Air] {
        assert_eq!(t.next().prev(), t);
        assert_eq!(t.prev().next(), t);
        assert_ne!(t.prev(), t);
    }
    assert_eq!(DomainType::Air.next(), DomainType::Water);
}
