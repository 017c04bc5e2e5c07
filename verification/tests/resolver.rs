//! The resolver's precedence order, driven question by question.

use batl::config::Config;
use batl::error::BatlError;
use batl::name::Name;
use batl::resolve::{Event, Outcome, Probe, Resolver, Root, Step};
use batl::version::Version;

fn comps(items: &[&str]) -> Vec<String> {
    items.iter().map(|s| s.to_string()).collect()
}

fn cfg(name: &str, version: (u64, u64, u64)) -> Config {
    Config {
        name: Name::new(name).unwrap(),
        version: Version::new(version.0, version.1, version.2),
        git: None,
        scripts: Vec::new(),
        dependencies: Vec::new(),
        links: Vec::new(),
        restrict: Vec::new(),
    }
}

fn expect_dir(step: Step, root: Root, path: &[&str]) {
    match step {
        Step::Ask(Probe::Dir(r, p)) => {
            assert_eq!(r, root);
            assert_eq!(p, comps(path));
        },
        _ => panic!("expected a directory probe"),
    }
}

fn expect_load(step: Step, root: Root, path: &[&str]) {
    match step {
        Step::Ask(Probe::Load(r, p)) => {
            assert_eq!(r, root);
            assert_eq!(p, comps(path));
        },
        _ => panic!("expected a load probe"),
    }
}

#[test]
fn pinned_resolution_prefers_the_local_root() {
    let name = Name::new("a.b@1.0.0").unwrap();
    let (mut resolver, step) = Resolver::start(name);
    expect_dir(step, Root::Local, &["_a", "__b", "1.0.0"]);
    let step = resolver.next(Event::Dir(true));
    expect_load(step, Root::Local, &["_a", "__b", "1.0.0"]);
    match resolver.next(Event::Load(Some(cfg("a.b", (1, 0, 0))))) {
        Step::Done(Outcome::Found(Root::Local, p, c)) => {
            assert_eq!(p, comps(&["_a", "__b", "1.0.0"]));
            assert_eq!(c.version.render(), "1.0.0");
        },
        _ => panic!("the local pinned copy wins"),
    }
}

#[test]
fn pinned_resolution_falls_back_to_the_fetched_root() {
    let name = Name::new("a.b@1.0.0").unwrap();
    let (mut resolver, step) = Resolver::start(name);
    expect_dir(step, Root::Local, &["_a", "__b", "1.0.0"]);
    let step = resolver.next(Event::Dir(false));
    expect_dir(step, Root::Fetched, &["_a", "__b", "1.0.0"]);
    let step = resolver.next(Event::Dir(true));
    expect_load(step, Root::Fetched, &["_a", "__b", "1.0.0"]);
    match resolver.next(Event::Load(Some(cfg("a.b", (1, 0, 0))))) {
        Step::Done(Outcome::Found(Root::Fetched, p, _)) => {
            assert_eq!(p, comps(&["_a", "__b", "1.0.0"]));
        },
        _ => panic!("the fetched copy satisfies a pinned request"),
    }
}

#[test]
fn pinned_resolution_accepts_a_matching_floating_copy_only() {
    let name = Name::new("a.b@1.0.0").unwrap();
    let (mut resolver, step) = Resolver::start(name);
    expect_dir(step, Root::Local, &["_a", "__b", "1.0.0"]);
    let step = resolver.next(Event::Dir(false));
    expect_dir(step, Root::Fetched, &["_a", "__b", "1.0.0"]);
    let step = resolver.next(Event::Dir(false));
    expect_dir(step, Root::Local, &["_a", "b"]);
    let step = resolver.next(Event::Dir(true));
    expect_load(step, Root::Local, &["_a", "b"]);
    // a floating copy of another version does not satisfy the pin
    match resolver.next(Event::Load(Some(cfg("a.b", (2, 0, 0))))) {
        Step::Done(Outcome::Absent) => {},
        _ => panic!("a mismatched floating copy is absence, not a hit"),
    }
}

#[test]
fn pinned_resolution_accepts_the_matching_floating_copy() {
    let name = Name::new("a.b@1.0.0").unwrap();
    let (mut resolver, _) = Resolver::start(name);
    resolver.next(Event::Dir(false));
    resolver.next(Event::Dir(false));
    resolver.next(Event::Dir(true));
    match resolver.next(Event::Load(Some(cfg("a.b", (1, 0, 0))))) {
        Step::Done(Outcome::Found(Root::Local, p, _)) => {
            assert_eq!(p, comps(&["_a", "b"]));
        },
        _ => panic!("a matching floating copy satisfies the pin"),
    }
}

#[test]
fn floating_resolution_honours_the_enclosing_pin_first() {
    let name = Name::new("a.b").unwrap();
    let (mut resolver, step) = Resolver::start(name);
    assert!(matches!(step, Step::Ask(Probe::CwdDependency)));
    let step = resolver.next(Event::CwdDependency(Some(Version::new(1, 0, 0))));
    expect_dir(step, Root::Local, &["_a", "__b", "1.0.0"]);
}

#[test]
fn floating_resolution_picks_the_newest_stored_version() {
    let name = Name::new("a.b").unwrap();
    let (mut resolver, _) = Resolver::start(name);
    let step = resolver.next(Event::CwdDependency(None));
    expect_dir(step, Root::Local, &["_a", "b"]);
    let step = resolver.next(Event::Dir(false));
    expect_dir(step, Root::Local, &["_a", "__b"]);
    let step = resolver.next(Event::Dir(true));
    match step {
        Step::Ask(Probe::ListVersions(Root::Local, p)) => {
            assert_eq!(p, comps(&["_a", "__b"]));
        },
        _ => panic!("a present version folder is enumerated"),
    }
    let listing = comps(&["1.0.0", "2.0.0-rc.1", "2.0.0", "1.9.9"]);
    let step = resolver.next(Event::Listing(listing));
    expect_dir(step, Root::Local, &["_a", "__b", "2.0.0"]);
}

#[test]
fn floating_resolution_falls_back_to_fetched_versions() {
    let name = Name::new("a.b").unwrap();
    let (mut resolver, _) = Resolver::start(name);
    resolver.next(Event::CwdDependency(None));
    resolver.next(Event::Dir(false));
    let step = resolver.next(Event::Dir(false));
    expect_dir(step, Root::Fetched, &["_a", "__b"]);
    let step = resolver.next(Event::Dir(true));
    assert!(matches!(step, Step::Ask(Probe::ListVersions(Root::Fetched, _))));
    let step = resolver.next(Event::Listing(comps(&["0.3.0"])));
    expect_dir(step, Root::Local, &["_a", "__b", "0.3.0"]);
}

#[test]
fn absence_is_an_outcome_not_an_error() {
    let name = Name::new("a.b").unwrap();
    let (mut resolver, _) = Resolver::start(name);
    resolver.next(Event::CwdDependency(None));
    resolver.next(Event::Dir(false));
    resolver.next(Event::Dir(false));
    match resolver.next(Event::Dir(false)) {
        Step::Done(Outcome::Absent) => {},
        _ => panic!("nothing anywhere means absence"),
    }
}

#[test]
fn an_unreadable_configuration_is_an_error() {
    let name = Name::new("a.b@1.0.0").unwrap();
    let (mut resolver, _) = Resolver::start(name);
    resolver.next(Event::Dir(true));
    match resolver.next(Event::Load(None)) {
        Step::Done(Outcome::Failed(BatlError::ConfigInvalid)) => {},
        _ => panic!("a present but unreadable repository is an error"),
    }
}

#[test]
fn a_malformed_version_folder_entry_is_an_error() {
    let name = Name::new("a.b").unwrap();
    let (mut resolver, _) = Resolver::start(name);
    resolver.next(Event::CwdDependency(None));
    resolver.next(Event::Dir(false));
    resolver.next(Event::Dir(true));
    match resolver.next(Event::Listing(comps(&["1.0.0", "junk"]))) {
        Step::Done(Outcome::Failed(BatlError::InvalidName)) => {},
        _ => panic!("a child that is no version fails the enumeration"),
    }
}

#[test]
fn escaped_build_metadata_in_version_folders_is_decoded() {
    let name = Name::new("a.b").unwrap();
    let (mut resolver, _) = Resolver::start(name);
    resolver.next(Event::CwdDependency(None));
    resolver.next(Event::Dir(false));
    resolver.next(Event::Dir(true));
    let step = resolver.next(Event::Listing(comps(&["1.0.0__m"])));
    expect_dir(step, Root::Local, &["_a", "__b", "1.0.0__m"]);
}
