use random_mythos::description::get_descriptions;
use random_mythos::domains::{Domain, DomainType};
use random_mythos::dot::relations_to_dot;
use random_mythos::mythos::{Entity, Mythos};
use random_mythos::plains::Plain;
use random_mythos::relations::{RelationType, Relations};

fn entity(name: &str, level: i8, domain: Domain) -> Entity {
    Entity { name: name.to_string(), level, domain }
}

fn small_mythos() -> Mythos {
    let c = Some(RelationType::Creator);
    let i = Some(RelationType::Invoker);
    let data = vec![vec![None, c, i], vec![None, None, i], vec![None, None, None]];
    let fire_water = Domain::from_parts(10, 0, 200, 0, Some(DomainType::Fire), Some(DomainType::Water));
    Mythos {
        entites: vec![
            entity("ent00", 0, fire_water),
            entity("ent01", 1, Domain::new()),
            entity("ent02", -1, Domain::new()),
        ],
        relations: Relations::from_rows(3, data).unwrap(),
    }
}

#[test]
fn init_names_entities_with_two_digits() {
    let m = Mythos::init(101);
    assert_eq!(m.entites[0].name, "ent00");
    assert_eq!(m.entites[9].name, "ent09");
    assert_eq!(m.entites[10].name, "ent10");
    assert_eq!(m.entites[100].name, "ent100");
    assert!(m.entites.iter().all(|e| e.level == 0 && *e.domain.get_primary() == None));
    assert_eq!(m.relations.size(), 101);
}

#[test]
fn descriptions_of_unrelated_entities() {
    let m = Mythos::init(2);
    assert_eq!(get_descriptions(&m), "ent00 children of the Void.\nent01 children of the Void.");
}

#[test]
fn descriptions_of_related_entities() {
    let m = small_mythos();
    assert_eq!(
        get_descriptions(&m),
        "ent00, master of fire and water, children of the Void.\nent01 created by ent00.\nent02 invoked by ent00 and ent01."
    );
}

#[test]
fn descriptions_list_three_or_more_parents() {
    let p = Some(RelationType::Parent);
    let data = vec![
        vec![None, None, None, p],
        vec![None, None, None, p],
        vec![None, None, None, p],
        vec![None, None, None, None],
    ];
    let m = Mythos {
        entites: vec![
            entity("a", 0, Domain::new()),
            entity("b", 0, Domain::new()),
            entity("c", 0, Domain::new()),
            entity("d", 0, Domain::new()),
        ],
        relations: Relations::from_rows(4, data).unwrap(),
    };
    let text = get_descriptions(&m);
    assert_eq!(text.lines().last().unwrap(), "d children of a, b and c.");
}

#[test]
fn dot_of_a_single_entity() {
    let m = Mythos::init(1);
    assert_eq!(
        relations_to_dot(&m),
        "digraph G {\n\tgraph [bgcolor=\"#282936\"]\n\tnode [shape=record style=rounded]\n\n\tent00 [label=\"{ ent00 | 0 }\" color=\"#e9e9f4\" fontcolor=\"#e9e9f4\"]\n\n}"
    );
}

#[test]
fn dot_of_related_entities() {
    let m = small_mythos();
    let expected = "digraph G {\n\tgraph [bgcolor=\"#282936\"]\n\tnode [shape=record style=rounded]\n\n\
\tent00 [label=\"{ ent00 | 0 }\" color=\"#e9e9f4\" fontcolor=\"#e9e9f4\"]\n\
\tent01 [label=\"{ ent01 | 1 }\" color=\"#e9e9f4\" fontcolor=\"#e9e9f4\"]\n\
\tent02 [label=\"{ ent02 | -1 }\" color=\"#e9e9f4\" fontcolor=\"#e9e9f4\"]\n\n\
\tent00 -> ent01 [color=\"#00f769\"]\n\
\tent00 -> ent02 [color=\"#ea51b2\"]\n\
\tent01 -> ent02 [color=\"#ea51b2\"]\n}";
    assert_eq!(relations_to_dot(&m), expected);
}

#[test]
fn dot_levels_below_minus_one_hundred() {
    let mut m = Mythos::init(1);
    m.entites[0].level = -128;
    assert!(relations_to_dot(&m).contains("{ ent00 | -128 }"));
}

#[test]
fn plain_keeps_name_and_flag() {
    let p = Plain::new("Asgard".to_string(), true);
    let text = format!("{:?}", p);
    assert!(text.contains("Asgard"));
    assert!(text.contains("created: true"));
}
