use stellaris_tech_tree::ordered_map::OrderedMap;
use stellaris_tech_tree::text::{
    chars_of, copy_optional, copy_strings, matches_at, str_eq, str_less, string_of,
};

#[test]
fn strings_and_characters_convert_both_ways() {
    for s in ["", "abc", "größe 扭曲 🚀"] {
        let chars = chars_of(s);
        assert_eq!(chars, s.chars().collect::<Vec<char>>());
        assert_eq!(string_of(&chars), s);
    }
}

#[test]
fn strings_are_ordered_as_str_orders_them() {
    let samples = ["", "a", "ab", "b", "B", "é", "z", "扭", "\u{10000}", "\u{ffff}", "a\u{0}"];
    for a in samples {
        for b in samples {
            assert_eq!(str_less(a, b), a < b);
            assert_eq!(str_eq(a, b), a == b);
        }
    }
}

#[test]
fn pattern_is_found_where_it_stands() {
    let s = chars_of("ababXcdcd");
    assert!(matches_at(&s, 4, &chars_of("Xcd")));
    assert!(!matches_at(&s, 7, &chars_of("cdc")));
    assert!(matches_at(&s, 9, &[]));
    assert!(!matches_at(&s, 10, &[]));
}

#[test]
fn copies_hold_the_same_strings() {
    let list = vec!["a".to_string(), "".to_string(), "b".to_string()];
    assert_eq!(copy_strings(&list), list);
    assert_eq!(copy_optional(&Some("x".to_string())), Some("x".to_string()));
    assert_eq!(copy_optional(&None), None);
}

#[test]
fn map_is_built_from_entries_in_their_order() {
    let map = OrderedMap::from_entries(vec![
        ("b".to_string(), "1".to_string()),
        ("a".to_string(), "2".to_string()),
        ("b".to_string(), "3".to_string()),
    ]);
    assert_eq!(map.len(), 2);
    assert_eq!((map.entry(0).unwrap().0.as_str(), map.entry(0).unwrap().1.as_str()), ("a", "2"));
    assert_eq!((map.entry(1).unwrap().0.as_str(), map.entry(1).unwrap().1.as_str()), ("b", "3"));
    assert!(map.contains_key("a") && !map.contains_key("c"));
    let copy = map.duplicate();
    assert_eq!(copy, map);
    let mut extended = OrderedMap::new();
    extended.insert("c".to_string(), "0".to_string());
    extended.insert("a".to_string(), "0".to_string());
    extended.extend_from(&map);
    assert_eq!(extended.len(), 3);
    let keys: Vec<&str> = (0..3).map(|i| extended.entry(i).unwrap().0.as_str()).collect();
    assert_eq!(keys, vec!["a", "b", "c"]);
    assert_eq!(extended.get("b"), Some(&"3".to_string()));
    assert!(extended.entry(3).is_none());
    let mut interleaved = OrderedMap::from_entries(
        ["b", "d", "f", "h"].iter().map(|k| (k.to_string(), "old".to_string())).collect(),
    );
    interleaved.extend_from(&OrderedMap::from_entries(
        ["a", "d", "e", "h", "i", "j"].iter().map(|k| (k.to_string(), "new".to_string())).collect(),
    ));
    let all: Vec<(&str, &str)> = (0..interleaved.len())
        .map(|i| interleaved.entry(i).unwrap())
        .map(|(k, v)| (k.as_str(), v.as_str()))
        .collect();
    assert_eq!(
        all,
        vec![
            ("a", "new"),
            ("b", "old"),
            ("d", "new"),
            ("e", "new"),
            ("f", "old"),
            ("h", "new"),
            ("i", "new"),
            ("j", "new"),
        ]
    );
    interleaved.extend_from(&OrderedMap::new());
    assert_eq!(interleaved.len(), 8);
    assert_eq!(extended.get("a"), Some(&"2".to_string()));
    assert_eq!(extended.get("c"), Some(&"0".to_string()));
}
