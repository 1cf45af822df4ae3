use stellaris_tech_tree::language::Languages;
use stellaris_tech_tree::localisation::parse_localisation_text;
use stellaris_tech_tree::ordered_map::OrderedMap;
use stellaris_tech_tree::writer::{is_valid_key, serialize_localisation};

fn map_of(entries: &[(&str, &str)]) -> OrderedMap<String> {
    let mut map = OrderedMap::new();
    for (key, value) in entries {
        map.insert(key.to_string(), value.to_string());
    }
    map
}

#[test]
fn file_is_written_line_by_line() {
    let entries = map_of(&[("b", "two\nlines"), ("a", "say \"hi\"")]);
    assert_eq!(
        serialize_localisation(Languages::English, &entries),
        Some("l_english:\n a: \"say \\\"hi\\\"\"\n b: \"two\\nlines\"".to_string())
    );
    assert_eq!(
        serialize_localisation(Languages::SimplifiedChinese, &map_of(&[])),
        Some("l_simp_chinese:".to_string())
    );
}

#[test]
fn written_file_is_read_back() {
    let entries = map_of(&[
        ("tech_x", "X"),
        ("tech_x_desc", "a \\ b # c : d \" e \t f \r\n g"),
        ("ключ.name", "扭曲 §Y$v$§!"),
        ("empty", ""),
    ]);
    for language in Languages::all() {
        let text = serialize_localisation(language, &entries).unwrap();
        let read = parse_localisation_text(&text).unwrap();
        assert_eq!(read.language, language);
        assert_eq!(read.entries, entries);
        assert!(read.replaced.is_empty());
    }
}

#[test]
fn key_that_cannot_be_written_is_refused() {
    for key in ["", "a b", "a:b", "a\"b", "a#b", "a\tb", "a\nb"] {
        assert!(!is_valid_key(key));
        assert_eq!(serialize_localisation(Languages::English, &map_of(&[("ok", "v"), (key, "v")])), None);
    }
    for key in ["a", "tech_x.name", "ключ", "a/b\\c"] {
        assert!(is_valid_key(key));
    }
}
