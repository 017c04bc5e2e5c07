//! Storage roots, archive plans, and error messages.

use batl::config::{Condition, GitConfig};
use batl::error::BatlError;
use batl::name::Name;
use batl::repository::{CreateRepositoryOptions, Repository};
use batl::system::System;

fn comps(items: &[&str]) -> Vec<String> {
    items.iter().map(|s| s.to_string()).collect()
}

#[test]
fn storage_roots_hang_off_the_battalion_root() {
    let sys = System::new(comps(&["home", "battalion"]));
    assert_eq!(sys.workspace_root(), comps(&["home", "battalion", "workspaces"]));
    assert_eq!(sys.repository_root(), comps(&["home", "battalion", "repositories"]));
    assert_eq!(
        sys.fetched_repository_root(),
        comps(&["home", "battalion", "gen", "fetched"])
    );
    assert_eq!(sys.archive_root(), comps(&["home", "battalion", "gen", "archives"]));
    assert_eq!(sys.batlrc_path(), comps(&["home", "battalion", ".batlrc"]));
}

#[test]
fn archive_paths_replace_dots_with_separators() {
    let root = comps(&["home", "battalion", "repositories"]);
    let repo = Repository::create(
        &root,
        Name::new("tools.alpha").unwrap(),
        CreateRepositoryOptions::default(),
        Condition::Unix,
        false,
    )
    .unwrap();
    let archive_root = comps(&["home", "battalion", "gen", "archives"]);
    let plan = repo.archive_plan(&archive_root);
    assert_eq!(plan.walk_root, repo.path().clone());
    assert!(plan.extra_ignore.is_none());
    assert_eq!(plan.custom_ignore_name, "batl.ignore");
    assert_eq!(
        plan.archive_path,
        comps(&["home", "battalion", "gen", "archives", "repositories", "tools", "alpha.tar"])
    );
}

#[test]
fn a_git_origin_adds_its_subdirectory_to_the_exclusions() {
    let root = comps(&["home", "battalion", "repositories"]);
    let repo = Repository::create(
        &root,
        Name::new("a").unwrap(),
        CreateRepositoryOptions::git(GitConfig {
            url: "https://example.invalid/a.git".to_string(),
            path: "git".to_string(),
        }),
        Condition::Unix,
        false,
    )
    .unwrap();
    let plan = repo.archive_plan(&comps(&["gen", "archives"]));
    assert_eq!(plan.extra_ignore.as_deref(), Some("git"));
}

#[test]
fn every_failure_kind_has_a_message() {
    let kinds = [
        BatlError::InvalidName,
        BatlError::ConfigInvalid,
        BatlError::NotFound,
        BatlError::AlreadyExists,
        BatlError::MissingDependency,
        BatlError::MissingLink,
        BatlError::ActionImpossible,
        BatlError::CyclicDependency,
        BatlError::NetworkFailure,
        BatlError::IoFailure,
    ];
    for kind in kinds {
        assert!(!kind.message().is_empty());
    }
}

#[test]
fn created_repositories_persist_as_the_newest_generation() {
    let root = comps(&["home", "battalion", "repositories"]);
    let repo = Repository::create(
        &root,
        Name::new("a").unwrap(),
        CreateRepositoryOptions::default(),
        Condition::Windows,
        false,
    )
    .unwrap();
    let text = repo.save_text();
    assert!(text.contains("0.3.0"));
    assert!(text.contains("windows"));
    let parsed = batl::tomldoc::parse_doc_text(&text).expect("the saved text parses");
    let config = batl::config::Config::from_doc(&parsed).expect("the saved text is accepted");
    assert_eq!(config.name.to_text(), "a");
    assert_eq!(config.version.render(), "0.1.0");
    assert_eq!(config.scripts.len(), 1);
}
