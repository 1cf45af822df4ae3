use stellaris_tech_tree::escape::{parse_string, serialize_string};

#[test]
fn string_is_written_with_escapes() {
    assert_eq!(serialize_string("a\"b\\c\nd\te\rf\u{8}g\u{c}h/"), "\"a\\\"b\\\\c\\nd\\te\\rf\\bg\\fh/\"");
    assert_eq!(serialize_string(""), "\"\"");
}

#[test]
fn written_string_is_read_back() {
    for s in ["", "plain", "a\"b\\c\nd\te\rf\u{8}g\u{c}h/", "\\\\\"\"", "größe 扭曲"] {
        assert_eq!(parse_string(&serialize_string(s)), Some(s.to_string()));
    }
}

#[test]
fn quoted_string_is_read() {
    assert_eq!(parse_string("\"a\\u00e9\\/\""), Some("a\u{e9}/".to_string()));
    assert_eq!(parse_string("\"\\uDFFF\""), Some("\u{fffd}".to_string()));
}

#[test]
fn what_is_no_quoted_string_is_refused() {
    assert_eq!(parse_string(""), None);
    assert_eq!(parse_string("abc"), None);
    assert_eq!(parse_string("\"abc"), None);
    assert_eq!(parse_string("\"abc\" "), None);
    assert_eq!(parse_string("\"a\"b\""), None);
    assert_eq!(parse_string("\"\\q\""), None);
    assert_eq!(parse_string("\"\\u00g0\""), None);
    assert_eq!(parse_string("\"\\"), None);
}
