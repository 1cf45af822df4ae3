use stellaris_tech_tree::ordered_map::OrderedMap;
use stellaris_tech_tree::variables::{
    find_references, merge_variables, replace_variables, replace_variables_in, substitute,
};

fn map_of(entries: &[(&str, &str)]) -> OrderedMap<String> {
    let mut map = OrderedMap::new();
    for (key, value) in entries {
        map.insert(key.to_string(), value.to_string());
    }
    map
}

#[test]
fn later_package_overrides_earlier_one() {
    let merged = merge_variables(&vec![map_of(&[("x", "1")]), map_of(&[("x", "2")])]);
    assert_eq!(merged.len(), 1);
    assert_eq!(merged.get("x"), Some(&"2".to_string()));
}

#[test]
fn merge_keeps_what_only_one_package_defines() {
    let merged = merge_variables(&vec![
        map_of(&[("a", "1"), ("b", "1")]),
        map_of(&[("b", "2"), ("c", "2")]),
        map_of(&[]),
    ]);
    assert_eq!(merged.len(), 3);
    assert_eq!(merged.get("a"), Some(&"1".to_string()));
    assert_eq!(merged.get("b"), Some(&"2".to_string()));
    assert_eq!(merged.get("c"), Some(&"2".to_string()));
    assert_eq!(merge_variables(&vec![]).len(), 0);
}

#[test]
fn reference_is_replaced_by_the_value() {
    assert_eq!(replace_variables("cost is $x$", &map_of(&[("x", "10")])), "cost is 10");
}

#[test]
fn reference_without_variable_stays() {
    assert_eq!(replace_variables("cost is $x$", &map_of(&[])), "cost is $x$");
}

#[test]
fn every_reference_is_replaced_once() {
    let variables = map_of(&[("a", "1"), ("b", "2")]);
    assert_eq!(replace_variables("$a$+$b$=$a$$c$", &variables), "1+2=1$c$");
    assert_eq!(replace_variables("no reference, $ alone", &variables), "no reference, $ alone");
}

#[test]
fn what_a_value_brings_in_is_not_resolved_again() {
    let variables = map_of(&[("a", "$b$"), ("b", "X")]);
    assert_eq!(replace_variables("$a$ $b$", &variables), "$b$ X");
}

#[test]
fn references_are_found_by_the_pattern() {
    assert_eq!(
        find_references("§Y$matter_decompressor_4$§! and $x$, not $ y$"),
        Some(vec!["$matter_decompressor_4$".to_string(), "$x$".to_string()])
    );
    assert_eq!(find_references("nothing"), Some(vec![]));
}

#[test]
fn given_references_are_replaced_where_they_stand() {
    let variables = map_of(&[("x", "1")]);
    let references = vec!["$x$".to_string(), "$missing$".to_string(), "$x$".to_string()];
    assert_eq!(substitute("a $x$ b $x$ c $x$", &references, &variables), "a 1 b 1 c $x$");
    assert_eq!(substitute("a $x$", &vec!["x".to_string()], &variables), "a $x$");
    assert_eq!(substitute("a $x$", &vec![String::new()], &variables), "a $x$");
}

#[test]
fn every_text_of_a_map_is_resolved() {
    let resolved = replace_variables_in(
        &map_of(&[("k1", "$v$!"), ("k2", "plain"), ("k3", "$w$")]),
        &map_of(&[("v", "value")]),
    );
    assert_eq!(resolved.len(), 3);
    assert_eq!(resolved.get("k1"), Some(&"value!".to_string()));
    assert_eq!(resolved.get("k2"), Some(&"plain".to_string()));
    assert_eq!(resolved.get("k3"), Some(&"$w$".to_string()));
}
