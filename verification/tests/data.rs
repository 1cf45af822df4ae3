use stellaris_tech_tree::data::{
    localisation_for, resolve_technology, Modifier, ModifierKey, ModifierValue, ResearchArea,
    StringOrStruct, TechnologyData, WrongKind,
};
use stellaris_tech_tree::fold::Text;
use stellaris_tech_tree::language::{LanguageMap, Languages};
use stellaris_tech_tree::ordered_map::OrderedMap;

#[test]
fn research_area_is_read_from_its_name() {
    assert_eq!(ResearchArea::from_str("society"), Ok(ResearchArea::Society));
    assert_eq!(ResearchArea::from_str("physics"), Ok(ResearchArea::Physics));
    assert_eq!(ResearchArea::from_str("engineering"), Ok(ResearchArea::Engineering));
    assert_eq!(ResearchArea::from_str("anomaly"), Ok(ResearchArea::Anomaly));
    assert_eq!(ResearchArea::from_str("psionics"), Ok(ResearchArea::Other("psionics".to_string())));
    assert_eq!(ResearchArea::from_str("Society"), Ok(ResearchArea::Other("Society".to_string())));
}

#[test]
fn research_area_is_written_by_its_name() {
    for name in ["society", "physics", "engineering", "anomaly", "psionics", ""] {
        let area = ResearchArea::from_str(name).unwrap();
        assert_eq!(area.as_ref(), name);
        assert_eq!(area.to_string(), name);
        assert_eq!(area.duplicate(), area);
    }
    assert_eq!(ResearchArea::default(), ResearchArea::Other("unknown".to_string()));
}

#[test]
fn string_is_read_as_the_string_kind() {
    let read: Result<StringOrStruct<TechnologyData>, ()> = StringOrStruct::from_str("@alias");
    assert_eq!(read, Ok(StringOrStruct::Str("@alias".to_string())));
}

fn variables() -> OrderedMap<String> {
    let mut map = OrderedMap::new();
    map.insert("c".to_string(), "250".to_string());
    map.insert("t".to_string(), "3".to_string());
    map
}

#[test]
fn technology_is_resolved_from_what_the_package_says() {
    let data = TechnologyData {
        cost: Some("$c$".to_string()),
        tier: Some("tier $t$".to_string()),
        category: vec![],
        weight: vec![],
        area: ResearchArea::Other("psionics".to_string()),
        prerequisites: vec!["p".to_string(), "q".to_string()],
        start_tech: true,
    };
    let technology =
        resolve_technology("mod1", "tech_x", &data, &variables(), &LanguageMap::new());
    assert_eq!(technology.modid, "mod1");
    assert_eq!(technology.name, "tech_x");
    assert_eq!(technology.id, "tech_x");
    assert_eq!(technology.cost, 250);
    assert_eq!(technology.tier, Some("tier 3".to_string()));
    assert_eq!(technology.category, None);
    assert_eq!(technology.weight, None);
    assert_eq!(technology.area, ResearchArea::Other("psionics".to_string()));
    assert_eq!(technology.prerequisites, vec!["p", "q"]);
    assert!(technology.start_tech);
    let copy = technology.duplicate();
    assert_eq!(copy.cost, 250);
    assert_eq!(copy.prerequisites, technology.prerequisites);
}

#[test]
fn cost_that_spells_no_number_is_zero() {
    for cost in [None, Some("$unknown$"), Some("1.5"), Some(""), Some("-4")] {
        let data = TechnologyData { cost: cost.map(|c| c.to_string()), ..TechnologyData::default() };
        let technology = resolve_technology("m", "t", &data, &variables(), &LanguageMap::new());
        assert_eq!(technology.cost, 0);
    }
    let data = TechnologyData { cost: Some("12".to_string()), ..TechnologyData::default() };
    assert_eq!(resolve_technology("m", "t", &data, &variables(), &LanguageMap::new()).cost, 12);
}

#[test]
fn texts_of_a_technology_are_collected_from_every_language() {
    let text = |value: &str| Text { value: value.to_string(), name: None, description: None };
    let mut english = OrderedMap::new();
    english.insert("t".to_string(), text("T"));
    english.insert("u".to_string(), text("U"));
    let mut russian = OrderedMap::new();
    russian.insert("u".to_string(), text("У"));
    let mut all = LanguageMap::new();
    all.insert(Languages::English, english);
    all.insert(Languages::Russian, russian);
    let for_t = localisation_for(&all, "t");
    assert_eq!(for_t.get(Languages::English), Some(&text("T")));
    assert_eq!(for_t.get(Languages::Russian), None);
    let for_u = localisation_for(&all, "u");
    assert_eq!(for_u.get(Languages::English), Some(&text("U")));
    assert_eq!(for_u.get(Languages::Russian), Some(&text("У")));
}

#[test]
fn modifier_keeps_each_value_at_its_place() {
    let mut modifier = Modifier::new();
    assert_eq!(modifier.set("factor", ModifierValue::Text("2".to_string())), Ok(()));
    assert_eq!(modifier.set("has_trait", ModifierValue::Text("yes".to_string())), Ok(()));
    assert_eq!(modifier.set("area", ModifierValue::List(vec![])), Ok(()));
    let mut inner = Modifier::new();
    assert_eq!(inner.set("is_ai", ModifierValue::Text("no".to_string())), Ok(()));
    assert_eq!(modifier.set("NOT", ModifierValue::List(vec![Box::new(inner)])), Ok(()));
    assert_eq!(modifier.set("OR", ModifierValue::List(vec![])), Ok(()));
    assert_eq!(modifier.set("AND", ModifierValue::List(vec![])), Ok(()));
    assert_eq!(modifier.set("NAND", ModifierValue::List(vec![])), Ok(()));
    assert_eq!(modifier.factor, Some("2".to_string()));
    assert_eq!(modifier.modifiers.len(), 1);
    assert_eq!(modifier.modifiers.get("has_trait"), Some(&"yes".to_string()));
    assert_eq!(modifier.not.as_ref().unwrap().len(), 1);
    assert_eq!(
        modifier.not.as_ref().unwrap()[0].modifiers.get("is_ai"),
        Some(&"no".to_string())
    );
    assert_eq!(modifier.or, Some(vec![]));
    assert_eq!(modifier.and, Some(vec![]));
    assert_eq!(modifier.nand, Some(vec![]));
}

#[test]
fn modifier_refuses_the_wrong_kind_of_value() {
    let mut modifier = Modifier::new();
    assert_eq!(
        modifier.set("factor", ModifierValue::List(vec![])),
        Err(WrongKind { key: ModifierKey::Factor })
    );
    for (key, kind) in [
        ("OR", ModifierKey::Or),
        ("AND", ModifierKey::And),
        ("NAND", ModifierKey::Nand),
        ("NOT", ModifierKey::Not),
    ] {
        assert_eq!(Modifier::key_of(key), kind);
        assert_eq!(
            modifier.set(key, ModifierValue::Text("x".to_string())),
            Err(WrongKind { key: kind })
        );
    }
    assert_eq!(Modifier::key_of("factor"), ModifierKey::Factor);
    assert_eq!(Modifier::key_of("or"), ModifierKey::Other);
    assert_eq!(modifier, Modifier::new());
}
