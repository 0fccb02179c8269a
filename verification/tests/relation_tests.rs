use random_mythos::relations::{RelationType, Relations};

fn chain_of_three() -> Relations {
    // 0 -> 1, 0 -> 2, 1 -> 2
    let p = Some(RelationType::Parent);
    let data = vec![vec![None, p, p], vec![None, None, p], vec![None, None, None]];
    Relations::from_rows(3, data).unwrap()
}

fn is_valid_order(r: &Relations, order: &Vec<usize>) -> bool {
    let n = r.size();
    if order.len() != n {
        return false;
    }
    let mut pos = vec![usize::MAX; n];
    for (k, v) in order.iter().enumerate() {
        if *v >= n || pos[*v] != usize::MAX {
            return false;
        }
        pos[*v] = k;
    }
    for i in 0..n {
        for j in 0..n {
            if r.get(i, j).is_some() && pos[i] >= pos[j] {
                return false;
            }
        }
    }
    true
}

#[test]
fn new_relations_are_empty() {
    let r = Relations::new(3);
    assert_eq!(r.size(), 3);
    for i in 0..3 {
        for j in 0..3 {
            assert_eq!(r.get(i, j), None);
        }
        assert!(r.get_adj_in(i).is_empty());
    }
    assert_eq!(r.get_roots(), vec![0, 1, 2]);
    assert_eq!(r.get_topological_sort(), vec![2, 1, 0]);
}

#[test]
fn from_rows_checks_the_shape() {
    assert!(Relations::from_rows(2, vec![vec![None, None]]).is_none());
    assert!(Relations::from_rows(2, vec![vec![None, None], vec![None]]).is_none());
    assert!(Relations::from_rows(0, vec![]).is_some());
}

#[test]
fn adjacency_roots_and_order_of_a_small_graph() {
    let r = chain_of_three();
    assert_eq!(r.get(0, 1), Some(RelationType::Parent));
    assert_eq!(r.get(1, 0), None);
    assert_eq!(r.get_adj_in(2), vec![0, 1]);
    assert_eq!(r.get_adj_in(1), vec![0]);
    assert_eq!(r.get_adj_in(0), Vec::<usize>::new());
    assert_eq!(r.get_roots(), vec![0]);
    assert_eq!(r.get_topological_sort(), vec![0, 1, 2]);
}

#[test]
fn set_in_relations_retypes_only_the_incoming_relations() {
    let mut r = chain_of_three();
    r.set_in_relations(2, RelationType::Creator);
    assert_eq!(r.get(0, 2), Some(RelationType::Creator));
    assert_eq!(r.get(1, 2), Some(RelationType::Creator));
    assert_eq!(r.get(0, 1), Some(RelationType::Parent));
    assert_eq!(r.get(2, 0), None);
}

#[test]
fn generate_keeps_the_graph_acyclic_and_typed() {
    for n in 1..30 {
        let mut r = Relations::new(n);
        r.generate();
        let order = r.get_topological_sort();
        assert!(is_valid_order(&r, &order));
        for v in 0..n {
            let adj = r.get_adj_in(v);
            if let Some(first) = adj.first() {
                let t = r.get(*first, v).unwrap();
                assert_ne!(t, RelationType::Base);
                for a in adj.iter() {
                    assert_eq!(r.get(*a, v), Some(t));
                }
            }
            assert_eq!(r.get(v, v), None);
        }
    }
}

#[test]
fn generate_keeps_existing_relations() {
    let mut r = chain_of_three();
    r.generate();
    assert!(r.get(0, 1).is_some());
    assert!(r.get(0, 2).is_some());
    assert!(r.get(1, 2).is_some());
    assert!(is_valid_order(&r, &r.get_topological_sort()));
}

#[test]
fn a_single_entity_gets_no_relation() {
    let mut r = Relations::new(1);
    r.generate();
    assert_eq!(r.get(0, 0), None);
    assert_eq!(r.get_roots(), vec![0]);
}

#[test]
fn roots_are_the_entities_without_incoming_relations() {
    for n in 1..20 {
        let mut r = Relations::new(n);
        r.generate();
        let roots = r.get_roots();
        let expected: Vec<usize> = (0..n).filter(|v| r.get_adj_in(*v).is_empty()).collect();
        assert_eq!(roots, expected);
        assert!(!roots.is_empty());
    }
}

#[test]
fn incoming_lists_match_the_matrix() {
    let mut r = Relations::new(12);
    r.generate();
    for v in 0..12 {
        let expected: Vec<usize> = (0..12).filter(|i| r.get(*i, v).is_some()).collect();
        assert_eq!(r.get_adj_in(v), expected);
    }
}

#[test]
fn topological_sort_follows_the_depth_first_finishing_order() {
    // 2 -> 0, 0 -> 1, 3 -> 1: the search from 0 finishes 1 then 0, the
    // search from 2 finishes 2, the search from 3 finishes 3.
    let p = Some(RelationType::Parent);
    let data = vec![
        vec![None, p, None, None],
        vec![None, None, None, None],
        vec![p, None, None, None],
        vec![None, p, None, None],
    ];
    let r = Relations::from_rows(4, data).unwrap();
    let order = r.get_topological_sort();
    assert_eq!(order, vec![3, 2, 0, 1]);
    assert!(is_valid_order(&r, &order));
}

#[test]
fn in_and_out_neighbours_agree() {
    let r = chain_of_three();
    for i in 0..3 {
        for j in 0..3 {
            let linked = r.get(i, j).is_some();
            assert_eq!(r.adjacent_in(j).contains(&i), linked);
            assert_eq!(r.adjacent_out(i).contains(&j), linked);
        }
    }
    assert_eq!(r.adjacent_out(0), vec![1, 2]);
}

#[test]
fn candidates_for_a_new_base_relation() {
    let r = chain_of_three();
    // 0 -> 2 and 1 -> 2 exist: only 2 itself does not relate to 2
    assert_eq!(r.free_sources(2), vec![2]);
    assert_eq!(r.free_sources(0), vec![0, 1, 2]);
    // every entity reaches 2, so no relation from 2 passes the cycle check
    assert_eq!(r.passing_dests(2), Vec::<usize>::new());
    assert_eq!(r.passing_dests(0), vec![1, 2]);
    assert_eq!(random_mythos::relations::nth_other(2, 1), 1);
    assert_eq!(random_mythos::relations::nth_other(2, 2), 3);
    assert_eq!(random_mythos::relations::nth_other(0, 0), 1);
}

#[test]
fn a_target_that_reaches_an_entity_twice_fails_the_cycle_check() {
    // 0 -> 1, 0 -> 2, 1 -> 2, and a fourth entity 3 without relations:
    // 0 reaches 2 along two paths, so 3 may relate to 1, 2 but not to 0
    let p = Some(RelationType::Parent);
    let data = vec![
        vec![None, p, p, None],
        vec![None, None, p, None],
        vec![None, None, None, None],
        vec![None, None, None, None],
    ];
    let r = Relations::from_rows(4, data).unwrap();
    assert_eq!(r.passing_dests(3), vec![1, 2]);
}
