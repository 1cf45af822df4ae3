use stellaris_tech_tree::fold::{fold_localisation_map, stem, unquoted, Text};
use stellaris_tech_tree::ordered_map::OrderedMap;

fn map_of(entries: &[(&str, &str)]) -> OrderedMap<String> {
    let mut map = OrderedMap::new();
    for (key, value) in entries {
        map.insert(key.to_string(), value.to_string());
    }
    map
}

#[test]
fn stem_with_value_name_and_description_gives_one_record() {
    let folded = fold_localisation_map(&map_of(&[
        ("a_name", "\"N\""),
        ("a_desc", "\"D\""),
        ("a", "\"V\""),
    ]));
    assert_eq!(folded.len(), 1);
    assert_eq!(
        folded.get("a"),
        Some(&Text {
            value: "V".to_string(),
            name: Some("N".to_string()),
            description: Some("D".to_string()),
        })
    );
}

#[test]
fn name_alone_is_also_the_value() {
    let folded = fold_localisation_map(&map_of(&[("b_name", "\"N\"")]));
    assert_eq!(folded.len(), 1);
    assert_eq!(
        folded.get("b"),
        Some(&Text { value: "N".to_string(), name: Some("N".to_string()), description: None })
    );
}

#[test]
fn description_alone_is_also_the_value() {
    let folded = fold_localisation_map(&map_of(&[("c.desc", "D")]));
    assert_eq!(
        folded.get("c"),
        Some(&Text { value: "D".to_string(), name: None, description: Some("D".to_string()) })
    );
}

#[test]
fn underscore_form_comes_before_dot_form() {
    let folded = fold_localisation_map(&map_of(&[("d.name", "dot"), ("d_name", "underscore")]));
    assert_eq!(folded.get("d").unwrap().name, Some("underscore".to_string()));
}

#[test]
fn stem_without_any_text_has_no_record() {
    let folded = fold_localisation_map(&map_of(&[("e:", "x")]));
    assert_eq!(folded.len(), 0);
    assert_eq!(fold_localisation_map(&map_of(&[])).len(), 0);
}

#[test]
fn stems_are_derived_from_keys() {
    assert_eq!(stem("tech_name"), "tech");
    assert_eq!(stem("tech.desc"), "tech");
    assert_eq!(stem("tech_namename"), "tech");
    assert_eq!(stem("tech_descname"), "tech");
    assert_eq!(stem("tech_namedesc"), "tech_name");
    assert_eq!(stem("tech:_."), "tech");
    assert_eq!(stem("name"), "");
    assert_eq!(stem("plain"), "plain");
}

#[test]
fn one_layer_of_quotes_is_taken_off() {
    assert_eq!(unquoted("\"V\""), "V");
    assert_eq!(unquoted("\"\"V\"\""), "\"V\"");
    assert_eq!(unquoted("\"V"), "V");
    assert_eq!(unquoted("V\""), "V");
    assert_eq!(unquoted("\""), "");
    assert_eq!(unquoted(""), "");
    assert_eq!(unquoted("V"), "V");
}
