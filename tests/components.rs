use score::{ComponentID, Components, SimError};

fn sample_tree() -> Components {
    let mut c = Components::new(0);
    let root = c.add("world", ComponentID::none()).unwrap();
    let a = c.add("alpha", root).unwrap();
    let b = c.add("beta", root).unwrap();
    c.add("gamma", a).unwrap();
    c.add("delta", b).unwrap();
    c.add("epsilon", a).unwrap();
    c
}

#[test]
fn ids_follow_insertion_order() {
    let c = sample_tree();
    assert_eq!(c.len(), 6);
    let mut it = c.iter();
    let mut names = Vec::new();
    while let Some((id, comp)) = it.next() {
        names.push((id.0, comp.name.clone()));
    }
    assert_eq!(names[0], (0, "world".to_string()));
    assert_eq!(names[5], (5, "epsilon".to_string()));
    assert_eq!(c.get(ComponentID(3)).parent, ComponentID(1));
    assert_eq!(c.get(ComponentID(1)).children, vec![ComponentID(3), ComponentID(5)]);
    let (root, comp) = c.get_root();
    assert_eq!(root, ComponentID(0));
    assert_eq!(comp.name, "world");
}

#[test]
fn full_paths_are_dotted() {
    let c = sample_tree();
    assert_eq!(c.full_path(ComponentID(0)), "world");
    assert_eq!(c.full_path(ComponentID(3)), "world.alpha.gamma");
    assert_eq!(c.full_path(ComponentID(4)), "world.beta.delta");
}

#[test]
fn bad_names_are_refused() {
    let mut c = Components::new(0);
    let root = c.add("world", ComponentID::none()).unwrap();
    for bad in ["", "1abc", "a.b", "a b", "a\"b", "it's", "tab\tbed"] {
        match c.add(bad, root) {
            Err(SimError::InvalidName { name }) => assert_eq!(name, bad),
            _ => panic!("{} should be refused", bad),
        }
    }
    assert_eq!(c.len(), 1);
    assert!(c.add("Ärger", root).is_ok());
}

#[test]
fn duplicate_siblings_are_refused() {
    let mut c = sample_tree();
    match c.add("alpha", ComponentID(0)) {
        Err(SimError::DuplicateSibling { name }) => assert_eq!(name, "alpha"),
        _ => panic!("expected a duplicate"),
    }
    assert!(c.add("alpha", ComponentID(2)).is_ok());
}

#[test]
fn display_path_pads_to_longest() {
    let c = sample_tree();
    let shown = c.display_path(ComponentID(0));
    assert_eq!(shown, format!("{:<19}", "world"));
    assert_eq!(c.display_path(ComponentID(5)), "world.alpha.epsilon");
    assert_eq!(c.display_path(ComponentID::none()), format!("{:<19}", "simulation"));
}

#[test]
fn display_path_truncates_from_the_left() {
    let mut c = Components::new(8);
    let root = c.add("world", ComponentID::none()).unwrap();
    let a = c.add("alpha", root).unwrap();
    assert_eq!(c.display_path(a), "…ld.alpha");
    assert_eq!(c.display_path(root), "world   ");
}

#[test]
fn top_is_the_child_of_the_root() {
    let c = sample_tree();
    let (top, comp) = c.get_top(ComponentID(3));
    assert_eq!(top, ComponentID(1));
    assert_eq!(comp.name, "alpha");
    assert_eq!(c.get_top(ComponentID(2)).0, ComponentID(2));
}

#[test]
fn find_parent_walks_up() {
    let c = sample_tree();
    let found = c.find_parent(ComponentID(3), |_, comp| comp.name == "world");
    assert_eq!(found.map(|(id, _)| id), Some(ComponentID(0)));
    let nearest = c.find_parent(ComponentID(3), |_, _| true);
    assert_eq!(nearest.map(|(id, _)| id), Some(ComponentID(1)));
    assert!(c.find_parent(ComponentID(3), |_, comp| comp.name == "beta").is_none());
}

#[test]
fn find_child_searches_descendants() {
    let c = sample_tree();
    let found = c.find_child(ComponentID(0), |_, comp| comp.name.ends_with("ta"));
    assert_eq!(found.map(|(id, _)| id), Some(ComponentID(2)));
    let deep = c.find_child(ComponentID(0), |_, comp| comp.name == "delta");
    assert_eq!(deep.map(|(id, _)| id), Some(ComponentID(4)));
    assert!(c.find_child(ComponentID(1), |_, comp| comp.name == "delta").is_none());
    assert!(c.find_child(ComponentID(3), |_, _| true).is_none());
}

#[test]
fn for_each_child_visits_matching_children() {
    let c = sample_tree();
    let seen = std::cell::RefCell::new(Vec::new());
    c.for_each_child(ComponentID(1), |_, comp| comp.name != "gamma", |id, _| seen.borrow_mut().push(id));
    assert_eq!(seen.into_inner(), vec![ComponentID(5)]);
}

#[test]
fn no_component_has_an_empty_path() {
    let c = sample_tree();
    assert_eq!(c.full_path(ComponentID::none()), "");
}
