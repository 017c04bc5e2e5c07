//! Schema generations, migration, and the document round trip through
//! real TOML text.

use batl::batlrc::{AnyBatlRc, Api0_2_1, BatlRc0_3_0};
use batl::config::{Condition, Config, Requirement};
use batl::error::BatlError;
use batl::name::Name;
use batl::tomldoc::{parse_doc_text, render_doc_text, TomlDoc, TomlItem, TomlSection};
use batl::version::Version;

fn text_item(key: &str, value: &str) -> (String, TomlItem) {
    (key.to_string(), TomlItem::Text(value.to_string()))
}

fn table(items: Vec<(String, TomlItem)>) -> TomlSection {
    TomlSection::Table(items)
}

fn doc(sections: Vec<(String, TomlSection)>) -> TomlDoc {
    TomlDoc { sections }
}

fn minimal_doc(marker: &str) -> TomlDoc {
    doc(vec![
        (
            "environment".to_string(),
            table(vec![text_item("version", marker)]),
        ),
        (
            "repository".to_string(),
            table(vec![text_item("name", "a"), text_item("version", "0.1.0")]),
        ),
    ])
}

#[test]
fn minimal_oldest_document_gets_empty_maps() {
    let config = Config::from_doc(&minimal_doc("0.2.0")).expect("the oldest generation accepts");
    assert!(config.dependencies.is_empty());
    assert!(config.scripts.is_empty());
    assert!(config.links.is_empty());
    assert!(config.restrict.is_empty());
    assert_eq!(config.name.to_text(), "a");
    assert_eq!(config.version.render(), "0.1.0");
}

#[test]
fn free_text_versions_default_on_migration() {
    let mut d = minimal_doc("0.2.2");
    d.sections.push((
        "dependencies".to_string(),
        table(vec![text_item("b", "not-a-version"), text_item("c", "2.0.0")]),
    ));
    let config = Config::from_doc(&d).expect("the restriction generation accepts");
    assert_eq!(config.dependencies.len(), 2);
    assert_eq!(config.dependencies[0].0.to_text(), "b");
    assert_eq!(config.dependencies[0].1.render(), "0.0.0");
    assert_eq!(config.dependencies[1].1.render(), "2.0.0");
}

#[test]
fn newest_generation_reads_links_and_restrictions() {
    let mut d = minimal_doc("0.3.0");
    d.sections.push((
        "dependencies".to_string(),
        table(vec![text_item("b", "1.0.0")]),
    ));
    d.sections.push((
        "links".to_string(),
        table(vec![text_item("b", "libs/b")]),
    ));
    let config = Config::from_doc(&d).expect("the newest generation accepts");
    let b = Name::new("b").unwrap();
    assert_eq!(config.dependency_version(&b).expect("declared").render(), "1.0.0");
    assert_eq!(config.link_path(&b).expect("linked"), "libs/b");
}

#[test]
fn newest_generation_requires_parsed_versions() {
    let mut d = minimal_doc("0.3.0");
    d.sections.push((
        "dependencies".to_string(),
        table(vec![text_item("b", "not-a-version")]),
    ));
    assert!(matches!(Config::from_doc(&d), Err(BatlError::ConfigInvalid)));
}

#[test]
fn unknown_marker_is_rejected() {
    assert!(matches!(
        Config::from_doc(&minimal_doc("0.1.0")),
        Err(BatlError::ConfigInvalid)
    ));
}

#[test]
fn missing_repository_section_is_rejected() {
    let d = doc(vec![(
        "environment".to_string(),
        table(vec![text_item("version", "0.3.0")]),
    )]);
    assert!(matches!(Config::from_doc(&d), Err(BatlError::ConfigInvalid)));
}

#[test]
fn document_round_trip_through_toml_text() {
    let source = "\
[environment]\nversion = \"0.3.0\"\n\n[repository]\nname = \"tools.alpha\"\nversion = \"1.4.0\"\n\n\
[repository.git]\nurl = \"https://example.invalid/alpha.git\"\npath = \"git\"\n\n\
[scripts]\nbuild = \"make\"\n\n[dependencies]\n\"tools.beta\" = \"2.0.0\"\n\n\
[links]\n\"tools.beta\" = \"libs/beta\"\n";
    let parsed = parse_doc_text(source).expect("toml text should parse");
    let config = Config::from_doc(&parsed).expect("document should be accepted");
    assert_eq!(config.name.to_text(), "tools.alpha");
    assert_eq!(config.version.render(), "1.4.0");
    assert_eq!(config.git.as_ref().expect("git is configured").path, "git");

    let rendered = render_doc_text(&config.to_doc());
    let reparsed = parse_doc_text(&rendered).expect("rendered text should parse");
    let config2 = Config::from_doc(&reparsed).expect("rendered document should be accepted");
    assert_eq!(config2.name.to_text(), "tools.alpha");
    assert_eq!(config2.version.render(), "1.4.0");
    assert_eq!(config2.dependencies.len(), 1);
    assert_eq!(config2.dependencies[0].0.to_text(), "tools.beta");
    assert_eq!(config2.dependencies[0].1.render(), "2.0.0");
    assert_eq!(config2.links.len(), 1);
    assert_eq!(config2.links[0].1, "libs/beta");
    assert_eq!(config2.git.as_ref().expect("git survives").url, "https://example.invalid/alpha.git");
}

#[test]
fn restrictions_round_trip() {
    let source = "\
[environment]\nversion = \"0.3.0\"\n\n[repository]\nname = \"a\"\nversion = \"0.1.0\"\n\n\
[restrict.unix]\ninclude = \"require\"\n";
    let parsed = parse_doc_text(source).expect("toml text should parse");
    let config = Config::from_doc(&parsed).expect("document should be accepted");
    assert_eq!(config.restrict.len(), 1);
    assert!(matches!(config.restrict[0].0, Condition::Unix));
    assert!(matches!(config.restrict[0].1.inclusion, Some(Requirement::Require)));

    let rendered = render_doc_text(&config.to_doc());
    let config2 = Config::from_doc(&parse_doc_text(&rendered).unwrap()).unwrap();
    assert_eq!(config2.restrict.len(), 1);
    assert!(matches!(config2.restrict[0].1.inclusion, Some(Requirement::Require)));
}

#[test]
fn malformed_toml_text_is_refused() {
    assert!(parse_doc_text("not = [valid").is_none());
}

#[test]
fn root_marker_reads_newest_first() {
    let newer = doc(vec![
        ("version".to_string(), TomlSection::Text("0.3.0".to_string())),
        (
            "api".to_string(),
            table(vec![text_item("credentials", "SECRET-REDACTED")]),
        ),
    ]);
    match AnyBatlRc::read_doc(&newer).expect("newer marker accepted") {
        AnyBatlRc::V0_3_0(rc) => assert_eq!(rc.api.credentials, "SECRET-REDACTED"),
        AnyBatlRc::V0_2_1(_) => panic!("the newer generation must win"),
    }

    let older = doc(vec![(
        "api".to_string(),
        table(vec![text_item("credentials", "SECRET-REDACTED")]),
    )]);
    match AnyBatlRc::read_doc(&older).expect("older marker accepted") {
        AnyBatlRc::V0_2_1(rc) => {
            let latest = AnyBatlRc::V0_2_1(rc).to_latest();
            assert_eq!(latest.api.credentials, "SECRET-REDACTED");
        },
        AnyBatlRc::V0_3_0(_) => panic!("an unmarked document is the older generation"),
    }

    let empty = doc(vec![]);
    assert!(matches!(AnyBatlRc::read_doc(&empty), Err(BatlError::ConfigInvalid)));
}

#[test]
fn root_marker_document_round_trip() {
    let rc = BatlRc0_3_0 { api: Api0_2_1::default() };
    assert_eq!(rc.api.credentials, "YOUR-KEY-GOES-HERE");
    let rendered = render_doc_text(&rc.to_doc());
    let parsed = parse_doc_text(&rendered).expect("marker text parses");
    match AnyBatlRc::read_doc(&parsed).expect("marker accepted") {
        AnyBatlRc::V0_3_0(back) => assert_eq!(back.api.credentials, "YOUR-KEY-GOES-HERE"),
        AnyBatlRc::V0_2_1(_) => panic!("the written marker carries its version"),
    }
}

#[test]
fn version_defaults_on_dependency_parse_use_zero() {
    let v = Version::new(0, 0, 0);
    assert_eq!(v.render(), "0.0.0");
}
