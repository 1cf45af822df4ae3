use stellaris_tech_tree::collection::{
    parse_mod_id, resolve_load_order, stellaris_collections, IronyModCollection,
};
use stellaris_tech_tree::ordered_map::OrderedMap;

fn collection(game: &str, name: &str, ids: &[&str]) -> IronyModCollection {
    IronyModCollection {
        game: game.to_string(),
        name: name.to_string(),
        is_selected: false,
        mod_registry_ids: ids.iter().map(|id| id.to_string()).collect(),
    }
}

#[test]
fn workshop_numbers_are_read_from_registry_identifiers() {
    let c = collection(
        "Stellaris",
        "mine",
        &["mod/ugc_123.mod", "mod/local_thing.mod", "mod/ugc_456.mod", "789", "mod/ugc_.mod"],
    );
    assert_eq!(c.get_mod_ids(), vec![123, 456, 789]);
    assert_eq!(collection("Stellaris", "none", &[]).get_mod_ids(), Vec::<u64>::new());
    assert_eq!(c.label(), "mine");
}

#[test]
fn registry_identifier_names_one_number_at_most() {
    assert_eq!(parse_mod_id("mod/ugc_1.mod"), Some(1));
    assert_eq!(parse_mod_id("mod/ugc_mod/ugc_2.mod.mod"), Some(2));
    assert_eq!(parse_mod_id("mod/ugc_+3.mod"), Some(3));
    assert_eq!(parse_mod_id("mod/ugc_18446744073709551615.mod"), Some(u64::MAX));
    assert_eq!(parse_mod_id("mod/ugc_18446744073709551616.mod"), None);
    assert_eq!(parse_mod_id("mod/ugc_-3.mod"), None);
    assert_eq!(parse_mod_id("mod/ugc_ 3.mod"), None);
    assert_eq!(parse_mod_id(""), None);
}

#[test]
fn only_collections_of_stellaris_are_kept() {
    let kept = stellaris_collections(vec![
        collection("Stellaris", "a", &[]),
        collection("HeartsOfIronIV", "b", &[]),
        collection("Stellaris", "c", &[]),
        collection("stellaris", "d", &[]),
    ]);
    let names: Vec<&str> = kept.iter().map(|c| c.name.as_str()).collect();
    assert_eq!(names, vec!["a", "c"]);
}

#[test]
fn load_order_gives_the_directories_that_the_registry_knows() {
    let mut registry = OrderedMap::new();
    registry.insert("id1".to_string(), "/mods/one".to_string());
    registry.insert("id2".to_string(), "/mods/two".to_string());
    let order = vec!["id2".to_string(), "gone".to_string(), "id1".to_string(), "id2".to_string()];
    assert_eq!(resolve_load_order(&order, &registry), vec!["/mods/two", "/mods/one", "/mods/two"]);
}
