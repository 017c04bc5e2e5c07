//! The link manager, the ignore-file region, and the transitive walk.

use batl::config::{Condition, Config};
use batl::deps::{DepWalk, WalkStep};
use batl::error::BatlError;
use batl::ignorefile::{add_line, remove_line};
use batl::name::Name;
use batl::repository::{CreateRepositoryOptions, Repository};
use batl::version::Version;

const BEGIN: &str = "# batl.gitignore begin DO NOT MODIFY";
const END: &str = "# batl.gitignore end DO NOT MODIFY";

fn lines(items: &[&str]) -> Vec<String> {
    items.iter().map(|s| s.to_string()).collect()
}

fn new_repo(text: &str) -> Repository {
    let root = lines(&["home", "battalion", "repositories"]);
    Repository::create(
        &root,
        Name::new(text).unwrap(),
        CreateRepositoryOptions::default(),
        Condition::Unix,
        false,
    )
    .expect("creation succeeds on a fresh path")
}

fn plain_config(name: &str, version: (u64, u64, u64)) -> Config {
    Config {
        name: Name::new(name).unwrap(),
        version: Version::new(version.0, version.1, version.2),
        git: None,
        scripts: Vec::new(),
        dependencies: Vec::new(),
        links: Vec::new(),
        restrict: Vec::new(),
    }
}

#[test]
fn ignore_region_is_created_then_left_empty() {
    let mut file = lines(&["target/"]);
    add_line(&mut file, "libs/b".to_string());
    assert_eq!(file, lines(&["target/", BEGIN, "libs/b", END]));
    remove_line(&mut file, "libs/b");
    assert_eq!(file, lines(&["target/", BEGIN, END]));
}

#[test]
fn ignore_region_round_trip_restores_the_file() {
    let before = lines(&["target/", BEGIN, "libs/a", END, "notes.txt"]);
    let mut file = before.clone();
    add_line(&mut file, "libs/b".to_string());
    assert_eq!(file, lines(&["target/", BEGIN, "libs/b", "libs/a", END, "notes.txt"]));
    remove_line(&mut file, "libs/b");
    assert_eq!(file, before);
}

#[test]
fn ignore_removal_stops_at_the_closing_sentinel() {
    let before = lines(&[BEGIN, END, "libs/x"]);
    let mut file = before.clone();
    remove_line(&mut file, "libs/x");
    assert_eq!(file, before, "content outside the region is never touched");
}

#[test]
fn ignore_removal_without_a_region_changes_nothing() {
    let before = lines(&["libs/x"]);
    let mut file = before.clone();
    remove_line(&mut file, "libs/x");
    assert_eq!(file, before);
}

#[test]
fn fresh_repository_has_the_default_shape() {
    let repo = new_repo("tools.alpha");
    assert_eq!(repo.name().to_text(), "tools.alpha");
    assert_eq!(repo.config().version.render(), "0.1.0");
    assert_eq!(
        repo.script("build").expect("a build script exists"),
        "echo \"No build targets\" && exit 1"
    );
    assert!(repo.script("missing").is_none());
    let path: &Vec<String> = repo.path();
    assert_eq!(
        path.clone(),
        lines(&["home", "battalion", "repositories", "_tools", "alpha"])
    );
}

#[test]
fn creation_refuses_an_existing_path() {
    let root = lines(&["home", "battalion", "repositories"]);
    let r = Repository::create(
        &root,
        Name::new("a").unwrap(),
        CreateRepositoryOptions::default(),
        Condition::Unix,
        true,
    );
    assert!(matches!(r, Err(BatlError::AlreadyExists)));
}

#[test]
fn linking_needs_a_declared_dependency() {
    let mut repo = new_repo("a");
    let b = Name::new("b").unwrap();
    let mut ignore: Vec<String> = Vec::new();
    let r = repo.add_link(&b, "libs/b".to_string(), false, &mut ignore);
    assert!(matches!(r, Err(BatlError::MissingDependency)));
    assert!(ignore.is_empty());
}

#[test]
fn linking_refuses_an_existing_target() {
    let mut repo = new_repo("a");
    let b = Name::new("b").unwrap();
    repo.add_dependency(&b, &Version::new(1, 0, 0));
    let mut ignore: Vec<String> = Vec::new();
    let r = repo.add_link(&b, "libs/b".to_string(), true, &mut ignore);
    assert!(matches!(r, Err(BatlError::AlreadyExists)));
}

#[test]
fn removing_a_linked_dependency_is_impossible_and_mutates_nothing() {
    let mut repo = new_repo("a");
    let b = Name::new("b").unwrap();
    repo.add_dependency(&b, &Version::new(1, 0, 0));
    let mut ignore = lines(&["target/"]);
    repo.add_link(&b, "libs/b".to_string(), false, &mut ignore)
        .expect("link succeeds");
    let persisted_before = repo.save_text();
    let r = repo.remove_dependency(&b);
    assert!(matches!(r, Err(BatlError::ActionImpossible)));
    assert_eq!(repo.save_text(), persisted_before, "a refused removal changes nothing");

    let recorded = repo.remove_link(&b, &mut ignore).expect("link removal succeeds");
    assert_eq!(recorded, "libs/b");
    assert_eq!(ignore, lines(&["target/", BEGIN, END]));
    repo.remove_dependency(&b).expect("unlinked dependencies can be removed");
    assert!(repo.config().dependency_version(&b).is_none());
}

#[test]
fn linking_refuses_a_sentinel_path() {
    let mut repo = new_repo("a");
    let b = Name::new("b").unwrap();
    repo.add_dependency(&b, &Version::new(1, 0, 0));
    let mut ignore: Vec<String> = Vec::new();
    let r = repo.add_link(&b, BEGIN.to_string(), false, &mut ignore);
    assert!(matches!(r, Err(BatlError::ActionImpossible)));
    let r = repo.add_link(&b, END.to_string(), false, &mut ignore);
    assert!(matches!(r, Err(BatlError::ActionImpossible)));
    assert!(ignore.is_empty(), "a refused link never touches the ignore file");
}

#[test]
fn links_stay_declared_and_checkable() {
    let mut repo = new_repo("a");
    let b = Name::new("b").unwrap();
    assert!(repo.config().links_are_declared());
    repo.add_dependency(&b, &Version::new(1, 0, 0));
    let mut ignore: Vec<String> = Vec::new();
    repo.add_link(&b, "libs/b".to_string(), false, &mut ignore).unwrap();
    assert!(repo.config().links_are_declared());

    let mut detached = plain_config("x", (1, 0, 0));
    detached.links.push((Name::new("y").unwrap(), "libs/y".to_string()));
    assert!(!detached.links_are_declared(), "a link without its dependency is detectable");
}

#[test]
fn removing_an_unrecorded_link_fails() {
    let mut repo = new_repo("a");
    let b = Name::new("b").unwrap();
    let mut ignore: Vec<String> = Vec::new();
    assert!(matches!(repo.remove_link(&b, &mut ignore), Err(BatlError::MissingLink)));
}

#[test]
fn transitive_closure_of_a_two_step_chain() {
    let mut repo_a = new_repo("a");
    repo_a.add_dependency(&Name::new("b").unwrap(), &Version::new(1, 0, 0));

    let mut cfg_b = plain_config("b", (1, 0, 0));
    cfg_b
        .dependencies
        .push((Name::new("c").unwrap(), Version::new(2, 0, 0)));
    let cfg_c = plain_config("c", (2, 0, 0));

    let mut walk = DepWalk::start(&repo_a);
    let mut served: Vec<String> = Vec::new();
    let set = loop {
        match walk.advance() {
            WalkStep::Need(n) => {
                let text = n.to_text();
                served.push(text.clone());
                if text == "b@1.0.0" {
                    walk.supply(Some(cfg_b.duplicate()));
                } else if text == "c@2.0.0" {
                    walk.supply(Some(cfg_c.duplicate()));
                } else {
                    panic!("unexpected resolution request: {text}");
                }
            },
            WalkStep::Done(r) => break r.expect("the walk finishes"),
        }
    };
    let mut texts: Vec<String> = set
        .entries()
        .iter()
        .map(|(n, v)| format!("{}@{}", n.to_text(), v.render()))
        .collect();
    assert_eq!(texts, vec!["c@2.0.0".to_string(), "b@1.0.0".to_string()], "post-order");
    texts.sort();
    assert_eq!(texts, vec!["b@1.0.0".to_string(), "c@2.0.0".to_string()]);
    assert_eq!(served, vec!["b@1.0.0".to_string(), "c@2.0.0".to_string()]);
}

#[test]
fn diamond_dependencies_collapse_to_one_visit() {
    let mut repo_a = new_repo("a");
    repo_a.add_dependency(&Name::new("b").unwrap(), &Version::new(1, 0, 0));
    repo_a.add_dependency(&Name::new("c").unwrap(), &Version::new(1, 0, 0));

    let mut cfg_b = plain_config("b", (1, 0, 0));
    cfg_b
        .dependencies
        .push((Name::new("d").unwrap(), Version::new(3, 0, 0)));
    let mut cfg_c = plain_config("c", (1, 0, 0));
    cfg_c
        .dependencies
        .push((Name::new("d").unwrap(), Version::new(3, 0, 0)));
    let cfg_d = plain_config("d", (3, 0, 0));

    let mut walk = DepWalk::start(&repo_a);
    let set = loop {
        match walk.advance() {
            WalkStep::Need(n) => {
                let text = n.to_text();
                if text == "b@1.0.0" {
                    walk.supply(Some(cfg_b.duplicate()));
                } else if text == "c@1.0.0" {
                    walk.supply(Some(cfg_c.duplicate()));
                } else if text == "d@3.0.0" {
                    walk.supply(Some(cfg_d.duplicate()));
                } else {
                    panic!("unexpected resolution request: {text}");
                }
            },
            WalkStep::Done(r) => break r.expect("the walk finishes"),
        }
    };
    assert_eq!(set.entries().len(), 3, "the shared node is visited once");
}

#[test]
fn a_cycle_fails_cleanly() {
    let mut repo_a = new_repo("a");
    repo_a.add_dependency(&Name::new("b").unwrap(), &Version::new(1, 0, 0));
    let mut cfg_b = plain_config("b", (1, 0, 0));
    cfg_b
        .dependencies
        .push((Name::new("b").unwrap(), Version::new(1, 0, 0)));

    let mut walk = DepWalk::start(&repo_a);
    let outcome = loop {
        match walk.advance() {
            WalkStep::Need(_) => walk.supply(Some(cfg_b.duplicate())),
            WalkStep::Done(r) => break r,
        }
    };
    assert!(matches!(outcome, Err(BatlError::CyclicDependency)));
}

#[test]
fn removing_an_absent_dependency_is_a_no_op() {
    let mut repo = new_repo("a");
    let b = Name::new("b").unwrap();
    repo.remove_dependency(&b).expect("removing an absent key succeeds");
    assert!(repo.config().dependency_version(&b).is_none());
}

#[test]
fn supplying_out_of_turn_fails_the_walk() {
    let repo = new_repo("a");
    let mut walk = DepWalk::start(&repo);
    walk.supply(Some(plain_config("b", (1, 0, 0))));
    match walk.advance() {
        WalkStep::Done(r) => assert!(matches!(r, Err(BatlError::IoFailure))),
        WalkStep::Need(_) => panic!("an answer out of turn commits the walk to a failure"),
    }
}

#[test]
fn an_unresolvable_dependency_fails_with_not_found() {
    let mut repo_a = new_repo("a");
    repo_a.add_dependency(&Name::new("b").unwrap(), &Version::new(1, 0, 0));
    let mut walk = DepWalk::start(&repo_a);
    let outcome = loop {
        match walk.advance() {
            WalkStep::Need(_) => walk.supply(None),
            WalkStep::Done(r) => break r,
        }
    };
    assert!(matches!(outcome, Err(BatlError::NotFound)));
}
