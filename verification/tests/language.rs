use stellaris_tech_tree::language::{LanguageMap, Languages, UnknownLanguage};

#[test]
fn every_language_has_its_identifier() {
    let all = [
        (Languages::Portuguese, "braz_por"),
        (Languages::English, "english"),
        (Languages::French, "french"),
        (Languages::German, "german"),
        (Languages::Polish, "polish"),
        (Languages::Russian, "russian"),
        (Languages::Spanish, "spanish"),
        (Languages::SimplifiedChinese, "simp_chinese"),
    ];
    for (language, tag) in all {
        assert_eq!(language.name(), tag);
        assert_eq!(Languages::from_tag(tag), language);
    }
    assert_eq!(Languages::Default.name(), "default");
    assert_eq!(Languages::from_tag("default"), Languages::Default);
    assert_eq!(Languages::from_tag("English"), Languages::Default);
    assert_eq!(Languages::from_tag(""), Languages::Default);
    assert_eq!(Languages::default(), Languages::Default);
}

#[test]
fn identifier_of_no_language_is_an_error() {
    assert_eq!(Languages::from_str("french"), Ok(Languages::French));
    assert_eq!(Languages::from_str("default"), Ok(Languages::Default));
    assert_eq!(Languages::from_str("klingon"), Err(UnknownLanguage));
    assert_eq!(Languages::from_str(""), Err(UnknownLanguage));
}

#[test]
fn all_languages_stand_at_their_places() {
    let all = Languages::all();
    assert_eq!(all.len(), 9);
    for (place, language) in all.iter().enumerate() {
        assert_eq!(language.index(), place);
    }
}

#[test]
fn language_map_holds_one_value_for_a_language() {
    let mut map: LanguageMap<String> = LanguageMap::new();
    assert_eq!(map.get(Languages::English), None);
    map.insert(Languages::English, "a".to_string());
    map.insert(Languages::Default, "d".to_string());
    map.insert(Languages::English, "b".to_string());
    assert_eq!(map.get(Languages::English), Some(&"b".to_string()));
    assert_eq!(map.get(Languages::Default), Some(&"d".to_string()));
    assert_eq!(map.get(Languages::German), None);
}
