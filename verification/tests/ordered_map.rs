use stellaris_tech_tree::ordered_map::OrderedMap;

#[test]
fn insert_keeps_keys_in_order_and_last_value() {
    let mut m: OrderedMap<String> = OrderedMap::new();
    m.insert("b".to_string(), "1".to_string());
    m.insert("a".to_string(), "2".to_string());
    m.insert("b".to_string(), "3".to_string());
    assert_eq!(m.len(), 2);
    assert_eq!(m.entry(0).unwrap().0, "a");
    assert_eq!(m.entry(1).unwrap().0, "b");
    assert_eq!(m.get("b"), Some(&"3".to_string()));
    assert_eq!(m.get("c"), None);
}
