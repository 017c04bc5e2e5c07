//! The name codec: parsing, rendering, and every path encoding.

use batl::error::BatlError;
use batl::name::Name;
use batl::version::Version;

fn name(text: &str) -> Name {
    Name::new(text).expect("name should parse")
}

fn segs(n: &Name) -> Vec<String> {
    n.segments().clone()
}

#[test]
fn parses_segments_and_version() {
    let n = name("a.b@1.2.3");
    assert_eq!(segs(&n), vec!["a".to_string(), "b".to_string()]);
    let v = n.version().as_ref().expect("version should be present");
    assert_eq!(v.major, 1);
    assert_eq!(v.minor, 2);
    assert_eq!(v.patch, 3);
    assert_eq!(v.pre, "");
    assert_eq!(v.build, "");
}

#[test]
fn rejects_leading_underscore() {
    assert!(matches!(Name::new("_a.b"), Err(BatlError::InvalidName)));
}

#[test]
fn rejects_empty_segment() {
    assert!(matches!(Name::new("a..b"), Err(BatlError::InvalidName)));
}

#[test]
fn rejects_bad_version_suffix() {
    assert!(matches!(Name::new("a.b@not-a-version"), Err(BatlError::InvalidName)));
}

#[test]
fn rejects_characters_outside_the_grammar() {
    assert!(Name::new("caf\u{e9}.x").is_err(), "the grammar is ASCII only");
}

#[test]
fn rejects_other_malformed_names() {
    assert!(Name::new("").is_err());
    assert!(Name::new("a.").is_err());
    assert!(Name::new(".a").is_err());
    assert!(Name::new("a/b").is_err());
    assert!(Name::new("a b").is_err());
    assert!(Name::new("a.b@1.2").is_err());
}

#[test]
fn empty_version_suffix_means_floating() {
    let n = name("a.b@");
    assert!(n.version().is_none());
    assert_eq!(segs(&n), vec!["a".to_string(), "b".to_string()]);
}

#[test]
fn text_round_trip_floating() {
    let n = name("foo.bar-baz");
    let text = n.to_text();
    assert_eq!(text, "foo.bar-baz");
    let again = name(&text);
    assert_eq!(segs(&again), segs(&n));
    assert!(again.version().is_none());
}

#[test]
fn text_round_trip_with_prerelease_and_build() {
    let n = name("foo.bar@1.2.3-rc.1+build.5");
    let text = n.to_text();
    assert_eq!(text, "foo.bar@1.2.3-rc.1+build.5");
    let again = name(&text);
    assert!(again.same_as(&n));
}

#[test]
fn repository_path_pinned() {
    let n = name("a.b@1.2.3+x");
    let comps = n.path_segments_as_repository_name();
    assert_eq!(comps, vec!["_a".to_string(), "__b".to_string(), "1.2.3__x".to_string()]);
}

#[test]
fn repository_path_floating() {
    let n = name("a.b");
    let comps = n.path_segments_as_repository_name();
    assert_eq!(comps, vec!["_a".to_string(), "b".to_string()]);
}

#[test]
fn version_folder_path() {
    let n = name("a.b");
    let comps = n.path_segments_as_version_folder();
    assert_eq!(comps, vec!["_a".to_string(), "__b".to_string()]);
}

#[test]
fn folder_name_is_for_floating_names_only() {
    let n = name("a.b");
    assert_eq!(
        n.path_segments_as_folder_name().expect("floating names have a folder form"),
        vec!["_a".to_string(), "_b".to_string()]
    );
    let pinned = name("a.b@1.0.0");
    assert!(matches!(pinned.path_segments_as_folder_name(), Err(BatlError::InvalidName)));
}

#[test]
fn repository_path_decodes_back() {
    let n = name("a.b@1.2.3+x");
    let comps = n.path_segments_as_repository_name();
    let decoded = Name::from_path_components(&comps).expect("the encoding must decode");
    assert!(decoded.same_as(&n));

    let floating = name("a.b");
    let comps = floating.path_segments_as_repository_name();
    let decoded = Name::from_path_components(&comps).expect("the encoding must decode");
    assert!(decoded.same_as(&floating));
}

#[test]
fn path_decode_rejects_stray_components() {
    assert!(Name::from_path_components(&vec!["__b".to_string()]).is_err());
    assert!(Name::from_path_components(&vec!["x".to_string(), "y".to_string()]).is_err());
    assert!(Name::from_path_components(&Vec::new()).is_err());
    assert!(
        Name::from_path_components(
            &vec!["__b".to_string(), "1.0.0".to_string(), "extra".to_string()]
        )
        .is_err()
    );
}

#[test]
fn url_path_forms() {
    let n = name("a.b@1.0.0+m");
    assert_eq!(n.url_path_segments(), "a/b/_v1.0.0__m");
    let floating = name("a.b");
    assert_eq!(floating.url_path_segments(), "a/b");
}

#[test]
fn version_text_round_trip() {
    let v = Version::parse("1.2.3-alpha.1+001").expect("version should parse");
    assert_eq!(v.render(), "1.2.3-alpha.1+001");
    assert_eq!(v.major, 1);
    assert_eq!(v.pre, "alpha.1");
    assert_eq!(v.build, "001");
}

#[test]
fn version_rejects_malformed_texts() {
    assert!(Version::parse("1.2").is_err());
    assert!(Version::parse("01.2.3").is_err());
    assert!(Version::parse("1.2.3-").is_err());
    assert!(Version::parse("1.2.3+").is_err());
    assert!(Version::parse("1.2.3-a..b").is_err());
    assert!(Version::parse("1.2.3-01").is_err());
    assert!(Version::parse("").is_err());
}

#[test]
fn precedence_follows_the_semantic_rules() {
    let v = |t: &str| Version::parse(t).unwrap();
    assert!(v("1.0.0").precedes(&v("1.0.1")));
    assert!(v("1.0.0-alpha").precedes(&v("1.0.0")));
    assert!(!v("1.0.0").precedes(&v("1.0.0-alpha")));
    assert!(v("1.0.0-2").precedes(&v("1.0.0-10")));
    assert!(v("1.0.0-alpha").precedes(&v("1.0.0-alpha.1")));
    assert!(v("1.0.0-1").precedes(&v("1.0.0-a")));
    // build metadata never participates in precedence
    assert!(!v("1.0.0+a").precedes(&v("1.0.0+b")));
    assert!(!v("1.0.0+b").precedes(&v("1.0.0+a")));
}

#[test]
fn with_and_without_version() {
    let n = name("a.b");
    let pinned = n.with_version(Version::new(2, 1, 0));
    assert_eq!(pinned.to_text(), "a.b@2.1.0");
    let floating = pinned.without_version();
    assert_eq!(floating.to_text(), "a.b");
}
