use stellaris_tech_tree::data::{ResearchArea, Technology};
use stellaris_tech_tree::language::LanguageMap;
use stellaris_tech_tree::ordered_map::OrderedMap;
use stellaris_tech_tree::tech_tree::{Node, TechnologyTree};

fn technology(id: &str, prerequisites: &[&str], start_tech: bool) -> Technology {
    Technology {
        modid: "mod".to_string(),
        name: id.to_string(),
        id: id.to_string(),
        localisation: LanguageMap::new(),
        cost: 0,
        tier: None,
        category: None,
        weight: None,
        area: ResearchArea::Physics,
        prerequisites: prerequisites.iter().map(|p| p.to_string()).collect(),
        start_tech,
    }
}

fn map_of(technologies: Vec<Technology>) -> OrderedMap<Technology> {
    let mut map = OrderedMap::new();
    for technology in technologies {
        map.insert(technology.id.clone(), technology);
    }
    map
}

fn tree_of(technologies: Vec<Technology>) -> TechnologyTree {
    let mut tree = TechnologyTree::new();
    tree.insert_map(&map_of(technologies));
    tree
}

fn names(tree: &TechnologyTree, places: &Vec<usize>) -> Vec<String> {
    places.iter().map(|place| tree.node(*place).unwrap().name.clone()).collect()
}

#[test]
fn unknown_prerequisite_gets_a_dangling_node() {
    let tree = tree_of(vec![technology("b", &["a"], false)]);
    assert_eq!(tree.len(), 2);
    let a = tree.place_of("a").unwrap();
    let b = tree.place_of("b").unwrap();
    assert!(tree.node(a).unwrap().data.is_none());
    assert_eq!(names(&tree, tree.node(a).unwrap().successors()), vec!["b"]);
    assert!(tree.node(a).unwrap().predecessors().is_empty());
    assert!(tree.node(b).unwrap().data.is_some());
    assert_eq!(names(&tree, tree.node(b).unwrap().predecessors()), vec!["a"]);
    assert!(tree.node(b).unwrap().successors().is_empty());
    assert_eq!(names(&tree, tree.dangling_tech()), vec!["a"]);
    assert!(tree.start_tech().is_empty());
}

#[test]
fn known_prerequisites_are_linked_both_ways() {
    let tree = tree_of(vec![
        technology("c", &["a", "b"], false),
        technology("a", &[], true),
        technology("b", &["a"], false),
    ]);
    assert_eq!(tree.len(), 3);
    let place = |name: &str| tree.place_of(name).unwrap();
    assert_eq!((place("a"), place("b"), place("c")), (0, 1, 2));
    assert_eq!(names(&tree, tree.node(place("c")).unwrap().predecessors()), vec!["a", "b"]);
    assert_eq!(names(&tree, tree.node(place("a")).unwrap().successors()), vec!["b", "c"]);
    assert_eq!(names(&tree, tree.node(place("b")).unwrap().successors()), vec!["c"]);
    assert_eq!(names(&tree, tree.start_tech()), vec!["a"]);
    assert!(tree.dangling_tech().is_empty());
}

#[test]
fn dangling_nodes_come_after_the_technologies_in_the_order_of_first_mention() {
    let tree = tree_of(vec![
        technology("m", &["z", "y"], false),
        technology("n", &["y", "x", "z"], false),
    ]);
    let all: Vec<String> = (0..tree.len()).map(|place| tree.node(place).unwrap().name.clone()).collect();
    assert_eq!(all, vec!["m", "n", "z", "y", "x"]);
    assert_eq!(names(&tree, tree.dangling_tech()), vec!["z", "y", "x"]);
    assert_eq!(names(&tree, tree.node(tree.place_of("y").unwrap()).unwrap().successors()), vec!["m", "n"]);
}

#[test]
fn graph_does_not_depend_on_the_order_in_which_the_map_was_filled() {
    let forward = tree_of(vec![
        technology("a", &["q"], true),
        technology("b", &["a"], false),
        technology("c", &["b", "a", "r"], false),
    ]);
    let backward = tree_of(vec![
        technology("c", &["b", "a", "r"], false),
        technology("b", &["a"], false),
        technology("a", &["q"], true),
    ]);
    assert_eq!(forward.len(), backward.len());
    for place in 0..forward.len() {
        let one = forward.node(place).unwrap();
        let other = backward.node(place).unwrap();
        assert_eq!(one.name, other.name);
        assert_eq!(one.data.is_some(), other.data.is_some());
        assert_eq!(one.predecessors(), other.predecessors());
        assert_eq!(one.successors(), other.successors());
    }
    assert_eq!(forward.start_tech(), backward.start_tech());
    assert_eq!(forward.dangling_tech(), backward.dangling_tech());
}

#[test]
fn node_is_found_where_it_can_be_reached() {
    let tree = tree_of(vec![
        technology("a", &[], true),
        technology("b", &["a"], false),
        technology("c", &["b"], false),
        technology("d", &[], false),
    ]);
    let place = |name: &str| tree.place_of(name).unwrap();
    assert_eq!(tree.find_by_id(place("a"), "c"), Some(place("c")));
    assert_eq!(tree.find_by_id(place("a"), "a"), Some(place("a")));
    assert_eq!(tree.find_by_id(place("b"), "a"), None);
    assert_eq!(tree.find_by_id(place("a"), "d"), None);
    assert_eq!(tree.find_by_id(place("a"), "unknown"), None);
    assert_eq!(tree.find(place("a"), &technology("c", &[], false)), Some(place("c")));
    assert_eq!(tree.find(place("c"), &technology("a", &[], false)), None);
    assert_eq!(tree.reachable_from(place("b")), vec![false, true, true, false]);
}

#[test]
fn search_ends_on_a_cycle() {
    let tree = tree_of(vec![
        technology("a", &["c"], false),
        technology("b", &["a"], false),
        technology("c", &["b"], false),
        technology("self", &["self"], false),
    ]);
    let place = |name: &str| tree.place_of(name).unwrap();
    assert_eq!(tree.find_by_id(place("a"), "c"), Some(place("c")));
    assert_eq!(tree.find_by_id(place("a"), "self"), None);
    assert_eq!(tree.find_by_id(place("self"), "self"), Some(place("self")));
    assert_eq!(tree.find_by_id(place("a"), "missing"), None);
    assert_eq!(names(&tree, tree.node(place("self")).unwrap().successors()), vec!["self"]);
    assert_eq!(names(&tree, tree.node(place("self")).unwrap().predecessors()), vec!["self"]);
}

#[test]
fn dangling_technology_is_not_found_by_its_record() {
    let tree = tree_of(vec![technology("b", &["a"], false)]);
    let a = tree.place_of("a").unwrap();
    assert_eq!(tree.find(a, &technology("a", &[], false)), None);
    assert_eq!(tree.find(a, &technology("b", &[], false)), tree.place_of("b"));
    assert_eq!(tree.find_by_id(a, "a"), Some(a));
}

#[test]
fn node_can_be_linked_again() {
    let mut tree = tree_of(vec![technology("b", &["a"], false)]);
    let b = tree.place_of("b").unwrap();
    let a = tree.place_of("a").unwrap();
    tree.insert_node(a);
    assert_eq!(tree.len(), 2);
    assert_eq!(tree.node(b).unwrap().predecessors().len(), 1);
    tree.insert_node(b);
    assert_eq!(tree.len(), 2);
    assert_eq!(tree.node(b).unwrap().predecessors(), &vec![a, a]);
    assert_eq!(tree.node(a).unwrap().successors(), &vec![b, b]);
}

#[test]
fn place_outside_the_graph_holds_nothing() {
    let mut tree = tree_of(vec![technology("b", &["a"], false)]);
    assert!(tree.node(2).is_none());
    assert_eq!(tree.reachable_from(2), vec![false, false]);
    assert_eq!(tree.find_by_id(2, "a"), None);
    assert_eq!(tree.find(7, &technology("b", &[], false)), None);
    tree.insert_node(2);
    assert_eq!(tree.len(), 2);
    assert_eq!(tree.node(1).unwrap().successors(), &vec![0]);
}

#[test]
fn empty_graph_has_no_nodes() {
    let tree = TechnologyTree::default();
    assert_eq!(tree.len(), 0);
    assert_eq!(tree.place_of("a"), None);
    assert!(tree.node(0).is_none());
    let node = Node::from_name("x".to_string());
    assert_eq!(node.name, "x");
    assert!(node.data.is_none());
    assert!(node.predecessors().is_empty() && node.successors().is_empty());
}

#[test]
fn technologies_are_the_same_where_their_identifiers_are() {
    assert!(technology("a", &[], false) == technology("a", &["b"], true));
    assert!(technology("a", &[], false) != technology("b", &[], false));
}
