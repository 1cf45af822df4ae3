use stellaris_tech_tree::language::Languages;
use stellaris_tech_tree::localisation::{
    parse_localisation, parse_localisation_text, scan_line, LineRead, ParseError,
};

fn chars(s: &str) -> Vec<char> {
    s.chars().collect()
}

#[test]
fn header_names_the_language_and_entries_follow() {
    let file = parse_localisation(b"l_english:\nkey:\"v\"").unwrap();
    assert_eq!(file.language, Languages::English);
    assert_eq!(file.entries.len(), 1);
    assert_eq!(file.entries.get("key"), Some(&"v".to_string()));
    assert!(file.replaced.is_empty());
}

#[test]
fn a_key_on_two_lines_keeps_the_second_value() {
    let file = parse_localisation_text("l_english:\nkey:\"first\"\nkey:\"second\"").unwrap();
    assert_eq!(file.entries.len(), 1);
    assert_eq!(file.entries.get("key"), Some(&"second".to_string()));
}

#[test]
fn byte_order_mark_is_skipped() {
    let file = parse_localisation("\u{feff}l_french:\n a:0 \"x\"\n".as_bytes()).unwrap();
    assert_eq!(file.language, Languages::French);
    assert_eq!(file.entries.get("a"), Some(&"x".to_string()));
}

#[test]
fn unknown_language_is_default() {
    let file = parse_localisation_text("l_klingon:\n").unwrap();
    assert_eq!(file.language, Languages::Default);
    assert_eq!(file.entries.len(), 0);
}

#[test]
fn comments_and_blank_lines_are_passed_over() {
    let text = "# leading comment\n\n  \t\r\nl_german: # the header\n# between\n key: \"v\" # after\r\n\n";
    let file = parse_localisation_text(text).unwrap();
    assert_eq!(file.language, Languages::German);
    assert_eq!(file.entries.len(), 1);
    assert_eq!(file.entries.get("key"), Some(&"v".to_string()));
}

#[test]
fn hash_inside_a_string_is_text() {
    let file = parse_localisation_text("l_english:\nk:\"a # b\"").unwrap();
    assert_eq!(file.entries.get("k"), Some(&"a # b".to_string()));
}

#[test]
fn key_and_string_may_be_separated_by_space() {
    let file = parse_localisation_text("l_english:\nkey \"v\"").unwrap();
    assert_eq!(file.entries.get("key"), Some(&"v".to_string()));
}

#[test]
fn a_second_header_is_passed_over() {
    let file = parse_localisation_text("l_english:\nl_french:\na:\"b\"").unwrap();
    assert_eq!(file.language, Languages::English);
    assert_eq!(file.entries.len(), 1);
}

#[test]
fn escapes_are_resolved() {
    let text = "l_english:\nk:\"a\\\\b\\/c\\\"d\\be\\ff\\ng\\rh\\ti\\u0041\"";
    let file = parse_localisation_text(text).unwrap();
    assert_eq!(
        file.entries.get("k"),
        Some(&"a\\b/c\"d\u{8}e\u{c}f\ng\rh\ti\u{41}".to_string())
    );
    assert!(file.replaced.is_empty());
}

#[test]
fn escape_that_names_no_scalar_is_replaced_and_reported() {
    let text = "l_english:\nfine:\"x\"\nk:\"a\\ud800b\"";
    let file = parse_localisation_text(text).unwrap();
    assert_eq!(file.entries.get("k"), Some(&"a\u{fffd}b".to_string()));
    assert_eq!(file.replaced, vec![2]);
}

#[test]
fn file_without_header_is_refused() {
    assert_eq!(parse_localisation_text("key:\"v\"").unwrap_err(), ParseError::MissingHeader);
    assert_eq!(parse_localisation_text("").unwrap_err(), ParseError::MissingHeader);
    assert_eq!(parse_localisation_text("# only\n\n").unwrap_err(), ParseError::MissingHeader);
}

#[test]
fn malformed_line_is_reported_by_its_number() {
    assert_eq!(
        parse_localisation_text("l_english:\na:\"b\"\nbroken\nc:\"d\"").unwrap_err(),
        ParseError::MalformedLine(2)
    );
    assert_eq!(
        parse_localisation_text("l_english:\nk:\"open").unwrap_err(),
        ParseError::MalformedLine(1)
    );
    assert_eq!(
        parse_localisation_text("l_english:\nk:\"bad \\x escape\"").unwrap_err(),
        ParseError::MalformedLine(1)
    );
    assert_eq!(
        parse_localisation_text("l_english:\nk:\"v\" trailing").unwrap_err(),
        ParseError::MalformedLine(1)
    );
    assert_eq!(
        parse_localisation_text("\"no key\"\nl_english:").unwrap_err(),
        ParseError::MalformedLine(0)
    );
    assert_eq!(
        parse_localisation_text("l_english:\nk:\"\\u12\"").unwrap_err(),
        ParseError::MalformedLine(1)
    );
}

#[test]
fn bytes_that_are_not_utf8_are_refused() {
    assert_eq!(parse_localisation(&[0x6c, 0xff, 0xfe]).unwrap_err(), ParseError::InvalidUtf8);
}

#[test]
fn lines_are_read_one_by_one() {
    assert_eq!(scan_line(&chars("   ")), LineRead::Blank);
    assert_eq!(scan_line(&chars(" # c")), LineRead::Blank);
    assert_eq!(scan_line(&chars("l_simp_chinese:")), LineRead::Header("simp_chinese".to_string()));
    assert_eq!(
        scan_line(&chars(" tech_x:12   \"X\"  ")),
        LineRead::Entry { key: "tech_x".to_string(), value: "X".to_string(), replaced: false }
    );
    assert_eq!(scan_line(&chars("key:")), LineRead::Malformed);
    assert_eq!(scan_line(&chars("l_english:0")), LineRead::Malformed);
    assert_eq!(scan_line(&chars(":\"v\"")), LineRead::Malformed);
}
