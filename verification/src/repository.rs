//! A loaded repository and the operations that mutate it: dependency
//! declarations and symbolic-link bindings.
//!
//! A repository couples an absolute path, its canonical configuration and
//! the name it was resolved under. Every mutating operation describes the
//! exact new configuration and the exact new ignore-file content; the
//! caller persists both and performs the filesystem side.

use vstd::prelude::*;

use crate::config::{
    canonical_of_doc, distinct_keys, doc_of_config, links_declared, Condition, Config,
    ConfigView, GitConfig, Requirement, Settings, SettingsView, lemma_canonical_wf,
};
use crate::error::BatlError;
use crate::ignorefile::{add_ignore_line, remove_ignore_line, add_line, remove_line};
use crate::name::{name_of_components, Name, NameView};
use crate::text::{str_eq, str_views};
use crate::tomldoc::{assoc_get, render_doc_text, TomlDoc};
use crate::version::{Version, VersionView};

verus! {

/// The mathematical shape of a loaded repository.
#[verifier::ext_equal]
pub ghost struct RepositoryView {
    pub path: Seq<Seq<char>>,
    pub config: ConfigView,
    pub name: NameView,
}

/// A resolved, loaded repository: its absolute path as components, its
/// canonical configuration, and the name it was resolved under.
pub struct Repository {
    path: Vec<String>,
    config: Config,
    name: Name,
}

impl View for Repository {
    type V = RepositoryView;

    closed spec fn view(&self) -> RepositoryView {
        RepositoryView { path: str_views(self.path@), config: self.config@, name: self.name@ }
    }
}

/// Options for creating a repository.
pub struct CreateRepositoryOptions {
    pub git: Option<GitConfig>,
}

impl CreateRepositoryOptions {
    /// Options that record a git origin.
    pub fn git(git: GitConfig) -> (r: CreateRepositoryOptions)
        ensures
            r.git == Some(git),
    {
        CreateRepositoryOptions { git: Some(git) }
    }
}

impl Default for CreateRepositoryOptions {
    /// Options with nothing set.
    fn default() -> (r: CreateRepositoryOptions)
        ensures
            r.git is None,
    {
        CreateRepositoryOptions { git: None }
    }
}

/// The configuration a freshly created repository starts with: version
/// `0.1.0`, one build script that fails loudly, and one restriction entry
/// requiring inclusion on the creating platform.
pub open spec fn default_config(n: NameView, git: Option<crate::config::GitView>, platform: Condition) -> ConfigView {
    ConfigView {
        name: n,
        version: VersionView {
            major: 0,
            minor: 1,
            patch: 0,
            pre: Seq::<char>::empty(),
            build: Seq::<char>::empty(),
        },
        git,
        scripts: seq![("build"@, "echo \"No build targets\" && exit 1"@)],
        dependencies: Seq::empty(),
        links: Seq::empty(),
        restrict: seq![
            (
                platform,
                SettingsView { inclusion: Some(Requirement::Require), dependencies: None },
            ),
        ],
    }
}

impl Repository {
    /// A well-formed repository: its name and configuration are.
    pub open spec fn wf(&self) -> bool {
        self@.config.wf() && self@.name.wf()
    }

    /// The canonical configuration.
    pub fn config(&self) -> (r: &Config)
        ensures
            r@ == self@.config,
    {
        &self.config
    }

    /// The name the repository was resolved under.
    pub fn name(&self) -> (r: &Name)
        ensures
            r@ == self@.name,
    {
        &self.name
    }

    /// The absolute path, as components.
    pub fn path(&self) -> (r: &Vec<String>)
        ensures
            str_views(r@) == self@.path,
    {
        &self.path
    }

    /// Builds a repository from its path, its name, and its persisted
    /// document, migrating the document to the canonical shape; fails
    /// with `ConfigInvalid` exactly when no schema generation accepts the
    /// document.
    pub fn assemble(path: Vec<String>, name: Name, doc: &TomlDoc) -> (r: Result<
        Repository,
        BatlError,
    >)
        requires
            name@.wf(),
        ensures
            match r {
                Ok(rep) => canonical_of_doc(doc@) == Some(rep@.config) && rep@.name == name@
                    && rep@.path == str_views(path@) && rep.wf(),
                Err(e) => e == BatlError::ConfigInvalid && canonical_of_doc(doc@) is None,
            },
    {
        let config = match Config::from_doc(doc) {
            Ok(c) => c,
            Err(e) => {
                return Err(e);
            },
        };
        proof {
            lemma_canonical_wf(doc@);
        }
        Ok(Repository { path, config, name })
    }

    /// Builds a repository from an absolute path whose components below
    /// the storage root encode its name, together with its persisted
    /// document.
    pub fn from_path(path: Vec<String>, rel: &Vec<String>, doc: &TomlDoc) -> (r: Result<
        Repository,
        BatlError,
    >)
        ensures
            match r {
                Ok(rep) => name_of_components(str_views(rel@)) == Some(rep@.name)
                    && canonical_of_doc(doc@) == Some(rep@.config) && rep@.path == str_views(path@)
                    && rep.wf(),
                Err(e) => (e == BatlError::InvalidName && name_of_components(
                    str_views(rel@),
                ) is None) || (e == BatlError::ConfigInvalid && canonical_of_doc(doc@) is None),
            },
    {
        let name = match Name::from_path_components(rel) {
            Ok(n) => n,
            Err(e) => {
                return Err(e);
            },
        };
        Repository::assemble(path, name, doc)
    }

    /// The document the repository persists as.
    pub fn save_doc(&self) -> (r: TomlDoc)
        requires
            self.wf(),
        ensures
            r@ == doc_of_config(self@.config),
    {
        self.config.to_doc()
    }

    /// The file text the repository persists as; the caller writes it to
    /// the repository's `batl.toml`.
    pub fn save_text(&self) -> (r: String)
        requires
            self.wf(),
    {
        let doc = self.save_doc();
        render_doc_text(&doc)
    }

    /// The scripts map.
    pub fn scripts(&self) -> (r: &Vec<(String, String)>)
        ensures
            r@.map_values(|p: (String, String)| (p.0@, p.1@)) == self@.config.scripts,
    {
        &self.config.scripts
    }

    /// The command of one script.
    #[verifier::loop_isolation(false)]
    pub fn script(&self, name: &str) -> (r: Option<String>)
        ensures
            match r {
                Some(cmd) => assoc_get(self@.config.scripts, name@) == Some(cmd@),
                None => assoc_get(self@.config.scripts, name@) is None,
            },
    {
        let ghost t = self@.config.scripts;
        let mut i: usize = 0;
        while i < self.config.scripts.len()
            invariant
                i <= self.config.scripts@.len(),
                forall|j: int| 0 <= j < i ==> (#[trigger] t[j]).0 != name@,
            decreases self.config.scripts@.len() - i,
        {
            if str_eq(self.config.scripts[i].0.as_str(), name) {
                proof {
                    crate::tomldoc::lemma_assoc_get_at(t, name@, i as int);
                }
                return Some(self.config.scripts[i].1.clone());
            }
            i = i + 1;
        }
        proof {
            crate::tomldoc::lemma_assoc_get_absent(t, name@);
        }
        None
    }

    /// Creates the in-memory shape of a new repository at its computed
    /// path under the storage root; fails with `AlreadyExists` when the
    /// caller found the path already present.
    pub fn create(
        root: &Vec<String>,
        name: Name,
        options: CreateRepositoryOptions,
        platform: Condition,
        target_exists: bool,
    ) -> (r: Result<Repository, BatlError>)
        requires
            name@.wf(),
        ensures
            match r {
                Ok(rep) => !target_exists && rep@.name == name@ && rep@.config == default_config(
                    name@,
                    match options.git {
                        Some(g) => Some(g@),
                        None => None,
                    },
                    platform,
                ) && rep@.path == str_views(root@) + crate::name::repository_components(name@)
                    && rep.wf(),
                Err(e) => e == BatlError::AlreadyExists && target_exists,
            },
    {
        if target_exists {
            return Err(BatlError::AlreadyExists);
        }
        let mut path: Vec<String> = Vec::new();
        let mut i: usize = 0;
        while i < root.len()
            invariant
                i <= root@.len(),
                path@.len() == i,
                forall|j: int| 0 <= j < i ==> #[trigger] path@[j]@ == root@[j]@,
            decreases root@.len() - i,
        {
            path.push(root[i].clone());
            i = i + 1;
        }
        let mut rel = name.path_segments_as_repository_name();
        let ghost rel0 = str_views(rel@);
        let mut k: usize = 0;
        while k < rel.len()
            invariant
                k <= rel@.len(),
                str_views(rel@) == rel0,
                path@.len() == root@.len() + k,
                forall|j: int| 0 <= j < root@.len() ==> #[trigger] path@[j]@ == root@[j]@,
                forall|j: int|
                    root@.len() <= j < path@.len() ==> #[trigger] path@[j]@ == rel0[j
                        - root@.len()],
            decreases rel@.len() - k,
        {
            path.push(rel[k].clone());
            k = k + 1;
        }
        let mut scripts: Vec<(String, String)> = Vec::new();
        scripts.push(("build".to_owned(), "echo \"No build targets\" && exit 1".to_owned()));
        let mut restrict: Vec<(Condition, Settings)> = Vec::new();
        restrict.push((platform, Settings { inclusion: Some(Requirement::Require), dependencies: None }));
        let config = Config {
            name: name.duplicate(),
            version: Version::new(0, 1, 0),
            git: options.git,
            scripts,
            dependencies: Vec::new(),
            links: Vec::new(),
            restrict,
        };
        let rep = Repository { path, config, name };
        proof {
            assert(str_views(rep.path@) =~= str_views(root@)
                + crate::name::repository_components(name@));
            assert(rep@.config =~= default_config(
                name@,
                match options.git {
                    Some(g) => Some(g@),
                    None => None,
                },
                platform,
            ));
        }
        Ok(rep)
    }

    /// Declares or re-pins a dependency. The caller resolves the version
    /// first where none was given, and persists the repository afterward.
    pub fn add_dependency(&mut self, name: &Name, version: &Version)
        requires
            old(self).wf(),
            name@.wf(),
            version@.wf(),
        ensures
            final(self)@.name == old(self)@.name,
            final(self)@.path == old(self)@.path,
            final(self)@.config == (ConfigView {
                dependencies: final(self)@.config.dependencies,
                ..old(self)@.config
            }),
            assoc_get(final(self)@.config.dependencies, name@) == Some(version@),
            forall|k: NameView|
                k != name@ ==> #[trigger] assoc_get(final(self)@.config.dependencies, k)
                    == assoc_get(old(self)@.config.dependencies, k),
            links_declared(old(self)@.config) ==> links_declared(final(self)@.config),
            distinct_keys(old(self)@.config.dependencies) ==> distinct_keys(
                final(self)@.config.dependencies,
            ),
            final(self).wf(),
    {
        self.config.set_dependency(name, version.duplicate());
    }

    /// Removes a dependency declaration; fails with `ActionImpossible`,
    /// changing nothing, while a link still references the name.
    pub fn remove_dependency(&mut self, name: &Name) -> (r: Result<(), BatlError>)
        requires
            old(self).wf(),
        ensures
            match r {
                Ok(()) => {
                    &&& assoc_get(old(self)@.config.links, name@) is None
                    &&& final(self)@.name == old(self)@.name
                    &&& final(self)@.path == old(self)@.path
                    &&& final(self)@.config == (ConfigView {
                        dependencies: final(self)@.config.dependencies,
                        ..old(self)@.config
                    })
                    &&& assoc_get(final(self)@.config.dependencies, name@) is None
                    &&& (forall|k: NameView|
                        k != name@ ==> #[trigger] assoc_get(final(self)@.config.dependencies, k)
                            == assoc_get(old(self)@.config.dependencies, k))
                    &&& (links_declared(old(self)@.config) ==> links_declared(
                        final(self)@.config,
                    ))
                    &&& (distinct_keys(old(self)@.config.dependencies) ==> distinct_keys(
                        final(self)@.config.dependencies,
                    ))
                    &&& final(self).wf()
                },
                Err(e) => {
                    &&& e == BatlError::ActionImpossible
                    &&& assoc_get(old(self)@.config.links, name@) is Some
                    &&& final(self)@ == old(self)@
                },
            },
    {
        match self.config.find_link(name) {
            Some(_) => Err(BatlError::ActionImpossible),
            None => {
                self.config.remove_dependency_entry(name);
                Ok(())
            },
        }
    }

    /// Binds a dependency's tree into this repository's working tree: the
    /// target path is recorded in the managed ignore region and in the
    /// link map. Fails with `AlreadyExists` when the target path already
    /// exists, with `MissingDependency` when the name is not a declared
    /// dependency, and with `ActionImpossible` when the path spells one
    /// of the managed region's sentinel lines, which the region could not
    /// hold as an entry and give back; a failure changes nothing. The
    /// caller creates the directory symlink and persists the new ignore
    /// file and the repository.
    pub fn add_link(
        &mut self,
        name: &Name,
        target_path: String,
        target_exists: bool,
        ignore: &mut Vec<String>,
    ) -> (r: Result<(), BatlError>)
        requires
            old(self).wf(),
            name@.wf(),
        ensures
            match r {
                Ok(()) => {
                    &&& !target_exists
                    &&& assoc_get(old(self)@.config.dependencies, name@) is Some
                    &&& target_path@ != crate::ignorefile::begin_marker()
                    &&& target_path@ != crate::ignorefile::end_marker()
                    &&& str_views(final(ignore)@) == add_ignore_line(
                        str_views(old(ignore)@),
                        target_path@,
                    )
                    &&& final(self)@.name == old(self)@.name
                    &&& final(self)@.path == old(self)@.path
                    &&& final(self)@.config == (ConfigView {
                        links: final(self)@.config.links,
                        ..old(self)@.config
                    })
                    &&& assoc_get(final(self)@.config.links, name@) == Some(target_path@)
                    &&& (forall|k: NameView|
                        k != name@ ==> #[trigger] assoc_get(final(self)@.config.links, k)
                            == assoc_get(old(self)@.config.links, k))
                    &&& (links_declared(old(self)@.config) ==> links_declared(
                        final(self)@.config,
                    ))
                    &&& (distinct_keys(old(self)@.config.links) ==> distinct_keys(
                        final(self)@.config.links,
                    ))
                    &&& final(self).wf()
                },
                Err(e) => {
                    &&& final(self)@ == old(self)@
                    &&& final(ignore)@ == old(ignore)@
                    &&& (e == BatlError::AlreadyExists || e == BatlError::MissingDependency
                        || e == BatlError::ActionImpossible)
                    &&& (e == BatlError::AlreadyExists <==> target_exists)
                    &&& (e == BatlError::MissingDependency <==> !target_exists && assoc_get(
                        old(self)@.config.dependencies,
                        name@,
                    ) is None)
                    &&& (e == BatlError::ActionImpossible <==> !target_exists && assoc_get(
                        old(self)@.config.dependencies,
                        name@,
                    ) is Some && (target_path@ == crate::ignorefile::begin_marker()
                        || target_path@ == crate::ignorefile::end_marker()))
                },
            },
    {
        if target_exists {
            return Err(BatlError::AlreadyExists);
        }
        if self.config.find_dependency(name).is_none() {
            return Err(BatlError::MissingDependency);
        }
        if crate::ignorefile::is_sentinel_line(target_path.as_str()) {
            return Err(BatlError::ActionImpossible);
        }
        add_line(ignore, target_path.clone());
        self.config.set_link(name, target_path);
        Ok(())
    }

    /// Unbinds a link: the recorded target path is removed from the
    /// managed ignore region and from the link map, and is returned so
    /// the caller can delete the symlink if it still exists. Fails with
    /// `MissingLink`, changing nothing, when no link is recorded under
    /// the name.
    pub fn remove_link(&mut self, name: &Name, ignore: &mut Vec<String>) -> (r: Result<
        String,
        BatlError,
    >)
        requires
            old(self).wf(),
        ensures
            match r {
                Ok(p) => {
                    &&& assoc_get(old(self)@.config.links, name@) == Some(p@)
                    &&& str_views(final(ignore)@) == remove_ignore_line(
                        str_views(old(ignore)@),
                        p@,
                    )
                    &&& final(self)@.name == old(self)@.name
                    &&& final(self)@.path == old(self)@.path
                    &&& final(self)@.config == (ConfigView {
                        links: final(self)@.config.links,
                        ..old(self)@.config
                    })
                    &&& assoc_get(final(self)@.config.links, name@) is None
                    &&& (forall|k: NameView|
                        k != name@ ==> #[trigger] assoc_get(final(self)@.config.links, k)
                            == assoc_get(old(self)@.config.links, k))
                    &&& (links_declared(old(self)@.config) ==> links_declared(
                        final(self)@.config,
                    ))
                    &&& (distinct_keys(old(self)@.config.links) ==> distinct_keys(
                        final(self)@.config.links,
                    ))
                    &&& final(self).wf()
                },
                Err(e) => e == BatlError::MissingLink && assoc_get(
                    old(self)@.config.links,
                    name@,
                ) is None && final(self)@ == old(self)@ && final(ignore)@ == old(ignore)@,
            },
    {
        let recorded = match self.config.link_path(name) {
            Some(p) => p,
            None => {
                return Err(BatlError::MissingLink);
            },
        };
        remove_line(ignore, recorded.as_str());
        self.config.remove_link_entry(name);
        Ok(recorded)
    }
}

} // verus!
