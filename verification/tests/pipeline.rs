use stellaris_tech_tree::data::{ResearchArea, StringOrStruct, TechnologyData};
use stellaris_tech_tree::language::Languages;
use stellaris_tech_tree::localisation::ParseError;
use stellaris_tech_tree::ordered_map::OrderedMap;
use stellaris_tech_tree::pipeline::{
    fold_localisations, index_technologies, merge_localisations, process, read_localisations,
    read_technologies, read_variables, technology_nodes, Mod, ModDescriptor, SourceFile,
    TechnologyEntries,
};

fn source(path: &str, text: &str) -> SourceFile {
    SourceFile { path: path.to_string(), bytes: text.as_bytes().to_vec() }
}

fn descriptor(id: &str) -> ModDescriptor {
    ModDescriptor {
        name: id.to_string(),
        tags: vec![],
        version: None,
        dependencies: None,
        picture: None,
        supported_version: None,
        remote_file_id: id.to_string(),
    }
}

fn data(cost: Option<&str>, prerequisites: &[&str]) -> TechnologyData {
    TechnologyData {
        cost: cost.map(|c| c.to_string()),
        tier: Some("$tier$".to_string()),
        category: vec!["computing".to_string(), "other".to_string()],
        weight: vec!["$w$".to_string(), "9".to_string()],
        area: ResearchArea::Physics,
        prerequisites: prerequisites.iter().map(|p| p.to_string()).collect(),
        start_tech: prerequisites.is_empty(),
    }
}

fn package(
    id: &str,
    variables: &[(&str, &str)],
    technologies: Vec<(&str, TechnologyData)>,
    files: &[&str],
) -> Mod {
    let mut scripted = OrderedMap::new();
    for (key, value) in variables {
        scripted.insert(key.to_string(), value.to_string());
    }
    let entries = technologies
        .into_iter()
        .map(|(key, data)| (key.to_string(), StringOrStruct::Object(data)))
        .collect();
    let sources: Vec<SourceFile> = files.iter().map(|text| source("f.yml", text)).collect();
    let localisations = read_localisations(&sources);
    assert!(localisations.failures.is_empty());
    Mod::new(
        format!("/mods/{}", id),
        descriptor(id),
        scripted,
        read_technologies(entries),
        localisations.files,
    )
}

#[test]
fn malformed_file_is_reported_and_the_others_are_read() {
    let sources = vec![
        source("one.yml", "l_english:\na:\"1\"\nshared:\"one\""),
        source("bad.yml", "l_english:\nthis line is broken"),
        source("three.yml", "l_english:\nb:\"3\"\nshared:\"three\""),
    ];
    let read = read_localisations(&sources);
    assert_eq!(read.files.len(), 2);
    assert_eq!(read.failures.len(), 1);
    assert_eq!(read.failures[0].index, 1);
    assert_eq!(read.failures[0].path, "bad.yml");
    assert_eq!(read.failures[0].error, ParseError::MalformedLine(1));
    let merged = merge_localisations(&read.files);
    let english = merged.get(Languages::English).unwrap();
    assert_eq!(english.len(), 3);
    assert_eq!(english.get("a"), Some(&"1".to_string()));
    assert_eq!(english.get("b"), Some(&"3".to_string()));
    assert_eq!(english.get("shared"), Some(&"three".to_string()));
}

#[test]
fn every_kind_of_failure_is_reported_with_its_path() {
    let mut sources = vec![source("ok.yml", "l_french:\n"), source("empty.yml", "")];
    sources.push(SourceFile { path: "binary.yml".to_string(), bytes: vec![0xff] });
    let read = read_localisations(&sources);
    assert_eq!(read.files.len(), 1);
    let failures: Vec<(usize, &str, ParseError)> =
        read.failures.iter().map(|f| (f.index, f.path.as_str(), f.error)).collect();
    assert_eq!(
        failures,
        vec![(1, "empty.yml", ParseError::MissingHeader), (2, "binary.yml", ParseError::InvalidUtf8)]
    );
    let nothing = read_localisations(&vec![]);
    assert!(nothing.files.is_empty() && nothing.failures.is_empty());
}

#[test]
fn localisations_are_merged_language_by_language() {
    let read = read_localisations(&vec![
        source("a", "l_english:\nk:\"en1\"\nonly_en:\"x\""),
        source("b", "l_german:\nk:\"de1\""),
        source("c", "l_english:\nk:\"en2\""),
    ]);
    let merged = merge_localisations(&read.files);
    assert_eq!(merged.get(Languages::English).unwrap().get("k"), Some(&"en2".to_string()));
    assert_eq!(merged.get(Languages::English).unwrap().get("only_en"), Some(&"x".to_string()));
    assert_eq!(merged.get(Languages::German).unwrap().len(), 1);
    assert_eq!(merged.get(Languages::German).unwrap().get("k"), Some(&"de1".to_string()));
    assert!(merged.get(Languages::French).is_none());
}

#[test]
fn scripted_variables_are_read_and_merged_in_file_order() {
    let read = read_variables(&vec![
        source("a.txt", "@cost = 100\n@tier = 1\n"),
        source("broken.txt", "@cost = { unclosed"),
        source("b.txt", "@cost = 200\n@name = \"quoted text\"\n"),
    ]);
    assert_eq!(read.failures, vec![1]);
    assert_eq!(read.variables.len(), 3);
    assert_eq!(read.variables.get("@cost"), Some(&"200".to_string()));
    assert_eq!(read.variables.get("@tier"), Some(&"1".to_string()));
    assert_eq!(read.variables.get("@name"), Some(&"quoted text".to_string()));
}

#[test]
fn string_entries_of_a_technology_file_become_variables() {
    let TechnologyEntries { variables, technologies } = read_technologies(vec![
        ("tech_a".to_string(), StringOrStruct::Object(data(Some("1"), &[]))),
        ("@alias".to_string(), StringOrStruct::Str("first".to_string())),
        ("tech_b".to_string(), StringOrStruct::Object(data(Some("2"), &["tech_a"]))),
        ("@alias".to_string(), StringOrStruct::Str("second".to_string())),
        ("tech_a".to_string(), StringOrStruct::Object(data(Some("3"), &[]))),
    ]);
    assert_eq!(variables.len(), 1);
    assert_eq!(variables.get("@alias"), Some(&"second".to_string()));
    assert_eq!(technologies.len(), 2);
    assert_eq!(technologies.get("tech_a").unwrap().cost, Some("3".to_string()));
    assert_eq!(technologies.get("tech_b").unwrap().prerequisites, vec!["tech_a"]);
}

#[test]
fn variables_of_technology_files_override_scripted_ones() {
    let mut scripted = OrderedMap::new();
    scripted.insert("x".to_string(), "scripted".to_string());
    scripted.insert("y".to_string(), "kept".to_string());
    let entries = read_technologies(vec![(
        "x".to_string(),
        StringOrStruct::<TechnologyData>::Str("redirected".to_string()),
    )]);
    let package = Mod::new("/p".to_string(), descriptor("p"), scripted, entries, vec![]);
    assert_eq!(package.variables.get("x"), Some(&"redirected".to_string()));
    assert_eq!(package.variables.get("y"), Some(&"kept".to_string()));
    assert_eq!(package.path, "/p");
}

#[test]
fn texts_are_resolved_and_folded_for_each_language() {
    let read = read_localisations(&vec![source(
        "a",
        "l_english:\ntech_x:\"X costs $c$\"\ntech_x_desc:\"about $unknown$\"",
    )]);
    let mut variables = OrderedMap::new();
    variables.insert("c".to_string(), "5".to_string());
    let folded = fold_localisations(&merge_localisations(&read.files), &variables);
    let text = folded.get(Languages::English).unwrap().get("tech_x").unwrap();
    assert_eq!(text.value, "X costs 5");
    assert_eq!(text.name, None);
    assert_eq!(text.description, Some("about $unknown$".to_string()));
    assert!(folded.get(Languages::German).is_none());
}

#[test]
fn packages_are_processed_together() {
    let base = package(
        "base",
        &[("base_cost", "100"), ("tier", "1"), ("w", "10")],
        vec![("tech_a", data(Some("$base_cost$"), &[])), ("tech_b", data(Some("50"), &["tech_a"]))],
        &["l_english:\ntech_a:\"Alpha\"\ntech_a_desc:\"First, tier $tier$\"\ntech_b:\"Beta\""],
    );
    let addon = package(
        "addon",
        &[("base_cost", "150"), ("tier", "2")],
        vec![("tech_b", data(Some("not a number"), &["tech_a", "tech_missing"]))],
        &["l_english:\ntech_b:\"Beta two\"", "l_german:\ntech_a:\"Alfa\""],
    );
    let output = process(&vec![base, addon]);

    let english = output.localisation.get(Languages::English).unwrap();
    assert_eq!(english.get("tech_a").unwrap().value, "Alpha");
    assert_eq!(english.get("tech_a").unwrap().description, Some("First, tier 2".to_string()));
    assert_eq!(english.get("tech_b").unwrap().value, "Beta two");

    let ids: Vec<(&str, &str, u64)> = output
        .technologies
        .iter()
        .map(|t| (t.modid.as_str(), t.id.as_str(), t.cost))
        .collect();
    assert_eq!(ids, vec![("base", "tech_a", 150), ("base", "tech_b", 50), ("addon", "tech_b", 0)]);
    let first = &output.technologies[0];
    assert_eq!(first.name, "tech_a");
    assert_eq!(first.tier, Some("2".to_string()));
    assert_eq!(first.category, Some("computing".to_string()));
    assert_eq!(first.weight, Some("10".to_string()));
    assert_eq!(first.area, ResearchArea::Physics);
    assert!(first.start_tech);
    assert_eq!(first.localisation.get(Languages::English).unwrap().value, "Alpha");
    assert_eq!(first.localisation.get(Languages::German).unwrap().value, "Alfa");
    assert!(first.localisation.get(Languages::French).is_none());

    assert_eq!(output.technologies_map.len(), 2);
    let node = output.technologies_map.get("tech_b").unwrap();
    assert_eq!(node.id, "tech_b");
    assert_eq!(node.data.modid, "addon");
    let known: Vec<&str> = node.prerequisites.iter().map(|t| t.id.as_str()).collect();
    assert_eq!(known, vec!["tech_a"]);

    assert_eq!(output.tree.len(), 3);
    let missing = output.tree.place_of("tech_missing").unwrap();
    assert!(output.tree.node(missing).unwrap().data.is_none());
    assert_eq!(output.tree.dangling_tech(), &vec![missing]);
    assert_eq!(output.tree.start_tech(), &vec![output.tree.place_of("tech_a").unwrap()]);
    assert_eq!(
        output.tree.find_by_id(output.tree.place_of("tech_a").unwrap(), "tech_b"),
        output.tree.place_of("tech_b")
    );
}

#[test]
fn later_technology_with_the_same_identifier_takes_the_place() {
    let base = package("one", &[], vec![("t", data(Some("1"), &[]))], &[]);
    let other = package("two", &[], vec![("t", data(Some("2"), &[]))], &[]);
    let output = process(&vec![base, other]);
    assert_eq!(output.technologies.len(), 2);
    let map = index_technologies(&output.technologies);
    assert_eq!(map.len(), 1);
    assert_eq!(map.get("t").unwrap().modid, "two");
    assert_eq!(map.get("t").unwrap().cost, 2);
    assert_eq!(technology_nodes(&map).get("t").unwrap().prerequisites.len(), 0);
}
