//! Configuration schemas: one record per generation, the structural
//! readers that recognize each generation in a document, the migration
//! chain to the newest shape, and the canonical configuration.
//!
//! A persisted document is tried against the generations newest first;
//! the first one whose structure fits is accepted. Each generation marks
//! itself with an exact `environment.version` text, so an older document
//! never satisfies a newer schema.

use vstd::prelude::*;

use crate::error::BatlError;
use crate::name::{name_of_text, Name, NameView};
use crate::text::{str_eq, str_views};
use crate::tomldoc::{
    assoc_get, ItemView, LeafView, SectionView, TomlDoc, TomlItem, TomlLeaf, TomlSection,
    doc_find, item_find, leaf_find,
};
use crate::version::{version_of_text, Version, VersionView};

verus! {

// ---------------------------------------------------------------------------
// Shapes shared by the generations
// ---------------------------------------------------------------------------

/// A platform condition a restriction applies to.
#[derive(Clone, Copy, PartialEq, Eq, Structural, Debug)]
pub enum Condition {
    Unix,
    Windows,
}

/// Whether a restricted platform requires or forbids inclusion.
#[derive(Clone, Copy, PartialEq, Eq, Structural, Debug)]
pub enum Requirement {
    Require,
    Forbid,
}

/// The settings attached to a restriction condition.
pub struct Settings {
    pub inclusion: Option<Requirement>,
    pub dependencies: Option<Vec<String>>,
}

/// The mathematical shape of restriction settings.
#[verifier::ext_equal]
pub ghost struct SettingsView {
    pub inclusion: Option<Requirement>,
    pub dependencies: Option<Seq<Seq<char>>>,
}

impl View for Settings {
    type V = SettingsView;

    open spec fn view(&self) -> SettingsView {
        SettingsView {
            inclusion: self.inclusion,
            dependencies: match &self.dependencies {
                Some(d) => Some(str_views(d@)),
                None => None,
            },
        }
    }
}

/// A configured git origin: the remote URL and the working-tree
/// subdirectory the clone lives in.
pub struct GitConfig {
    pub url: String,
    pub path: String,
}

/// The mathematical shape of a git origin.
#[verifier::ext_equal]
pub ghost struct GitView {
    pub url: Seq<char>,
    pub path: Seq<char>,
}

impl View for GitConfig {
    type V = GitView;

    open spec fn view(&self) -> GitView {
        GitView { url: self.url@, path: self.path@ }
    }
}

/// The identity block every generation carries: the repository's name,
/// its exact version, and an optional git origin.
pub struct RepositoryMeta {
    pub name: Name,
    pub version: Version,
    pub git: Option<GitConfig>,
}

/// The mathematical shape of the identity block.
#[verifier::ext_equal]
pub ghost struct RepositoryMetaView {
    pub name: NameView,
    pub version: VersionView,
    pub git: Option<GitView>,
}

impl View for RepositoryMeta {
    type V = RepositoryMetaView;

    open spec fn view(&self) -> RepositoryMetaView {
        RepositoryMetaView {
            name: self.name@,
            version: self.version@,
            git: match &self.git {
                Some(g) => Some(g@),
                None => None,
            },
        }
    }
}

// ---------------------------------------------------------------------------
// The generations
// ---------------------------------------------------------------------------

/// The newest generation: adds the `links` map.
pub struct TomlConfig0_3_0 {
    pub repository: RepositoryMeta,
    pub scripts: Option<Vec<(String, String)>>,
    pub dependencies: Option<Vec<(Name, Version)>>,
    pub links: Option<Vec<(Name, String)>>,
    pub restrict: Option<Vec<(Condition, Settings)>>,
}

/// The generation that introduced restrictions; dependency versions are
/// still free text.
pub struct TomlConfig0_2_2 {
    pub repository: RepositoryMeta,
    pub scripts: Option<Vec<(String, String)>>,
    pub dependencies: Option<Vec<(Name, String)>>,
    pub restrict: Option<Vec<(Condition, Settings)>>,
}

/// A structurally identical predecessor of the restriction generation.
pub struct TomlConfig0_2_1 {
    pub repository: RepositoryMeta,
    pub scripts: Option<Vec<(String, String)>>,
    pub dependencies: Option<Vec<(Name, String)>>,
}

/// The oldest supported generation; shaped like its successor.
pub struct TomlConfig0_2_0 {
    pub repository: RepositoryMeta,
    pub scripts: Option<Vec<(String, String)>>,
    pub dependencies: Option<Vec<(Name, String)>>,
}

/// A document of whichever generation was recognized.
pub enum AnyTomlConfig {
    V0_3_0(TomlConfig0_3_0),
    V0_2_2(TomlConfig0_2_2),
    V0_2_1(TomlConfig0_2_1),
    V0_2_0(TomlConfig0_2_0),
}

/// The mathematical shape of the newest generation.
#[verifier::ext_equal]
pub ghost struct Tc030View {
    pub repository: RepositoryMetaView,
    pub scripts: Option<Seq<(Seq<char>, Seq<char>)>>,
    pub dependencies: Option<Seq<(NameView, VersionView)>>,
    pub links: Option<Seq<(NameView, Seq<char>)>>,
    pub restrict: Option<Seq<(Condition, SettingsView)>>,
}

/// The mathematical shape of the two free-text-dependency generations.
#[verifier::ext_equal]
pub ghost struct Tc022View {
    pub repository: RepositoryMetaView,
    pub scripts: Option<Seq<(Seq<char>, Seq<char>)>>,
    pub dependencies: Option<Seq<(NameView, Seq<char>)>>,
    pub restrict: Option<Seq<(Condition, SettingsView)>>,
}

/// The mathematical shape of the oldest two generations.
#[verifier::ext_equal]
pub ghost struct Tc021View {
    pub repository: RepositoryMetaView,
    pub scripts: Option<Seq<(Seq<char>, Seq<char>)>>,
    pub dependencies: Option<Seq<(NameView, Seq<char>)>>,
}

pub open spec fn scripts_view(s: Option<Vec<(String, String)>>) -> Option<
    Seq<(Seq<char>, Seq<char>)>,
> {
    match s {
        Some(v) => Some(v@.map_values(|p: (String, String)| (p.0@, p.1@))),
        None => None,
    }
}

pub open spec fn deps_view(d: Option<Vec<(Name, Version)>>) -> Option<
    Seq<(NameView, VersionView)>,
> {
    match d {
        Some(v) => Some(v@.map_values(|p: (Name, Version)| (p.0@, p.1@))),
        None => None,
    }
}

pub open spec fn raw_deps_view(d: Option<Vec<(Name, String)>>) -> Option<
    Seq<(NameView, Seq<char>)>,
> {
    match d {
        Some(v) => Some(v@.map_values(|p: (Name, String)| (p.0@, p.1@))),
        None => None,
    }
}

pub open spec fn links_view(d: Option<Vec<(Name, String)>>) -> Option<Seq<(NameView, Seq<char>)>> {
    raw_deps_view(d)
}

pub open spec fn restrict_view(r: Option<Vec<(Condition, Settings)>>) -> Option<
    Seq<(Condition, SettingsView)>,
> {
    match r {
        Some(v) => Some(v@.map_values(|p: (Condition, Settings)| (p.0, p.1@))),
        None => None,
    }
}

impl View for TomlConfig0_3_0 {
    type V = Tc030View;

    open spec fn view(&self) -> Tc030View {
        Tc030View {
            repository: self.repository@,
            scripts: scripts_view(self.scripts),
            dependencies: deps_view(self.dependencies),
            links: links_view(self.links),
            restrict: restrict_view(self.restrict),
        }
    }
}

impl View for TomlConfig0_2_2 {
    type V = Tc022View;

    open spec fn view(&self) -> Tc022View {
        Tc022View {
            repository: self.repository@,
            scripts: scripts_view(self.scripts),
            dependencies: raw_deps_view(self.dependencies),
            restrict: restrict_view(self.restrict),
        }
    }
}

impl View for TomlConfig0_2_1 {
    type V = Tc021View;

    open spec fn view(&self) -> Tc021View {
        Tc021View {
            repository: self.repository@,
            scripts: scripts_view(self.scripts),
            dependencies: raw_deps_view(self.dependencies),
        }
    }
}

impl View for TomlConfig0_2_0 {
    type V = Tc021View;

    open spec fn view(&self) -> Tc021View {
        Tc021View {
            repository: self.repository@,
            scripts: scripts_view(self.scripts),
            dependencies: raw_deps_view(self.dependencies),
        }
    }
}

// ---------------------------------------------------------------------------
// Reading a document, structurally
// ---------------------------------------------------------------------------

pub open spec fn ipairs(s: Seq<(String, TomlItem)>) -> Seq<(Seq<char>, ItemView)> {
    s.map_values(|p: (String, TomlItem)| (p.0@, p.1@))
}

pub open spec fn lpairs(s: Seq<(String, TomlLeaf)>) -> Seq<(Seq<char>, LeafView)> {
    s.map_values(|p: (String, TomlLeaf)| (p.0@, p.1@))
}

pub open spec fn spairs(s: Seq<(String, String)>) -> Seq<(Seq<char>, Seq<char>)> {
    s.map_values(|p: (String, String)| (p.0@, p.1@))
}

pub open spec fn ndpairs(s: Seq<(Name, Version)>) -> Seq<(NameView, VersionView)> {
    s.map_values(|p: (Name, Version)| (p.0@, p.1@))
}

pub open spec fn nrpairs(s: Seq<(Name, String)>) -> Seq<(NameView, Seq<char>)> {
    s.map_values(|p: (Name, String)| (p.0@, p.1@))
}

pub open spec fn cpairs(s: Seq<(Condition, Settings)>) -> Seq<(Condition, SettingsView)> {
    s.map_values(|p: (Condition, Settings)| (p.0, p.1@))
}

/// The text under `key` in an item table, if it is a text item.
pub open spec fn text_item(items: Seq<(Seq<char>, ItemView)>, key: Seq<char>) -> Option<Seq<char>> {
    match assoc_get(items, key) {
        Some(ItemView::Text(s)) => Some(s),
        _ => None,
    }
}

/// The schema marker: the `version` text of the `environment` section.
pub open spec fn env_marker_of(doc: Seq<(Seq<char>, SectionView)>) -> Option<Seq<char>> {
    match assoc_get(doc, "environment"@) {
        Some(SectionView::Table(items)) => text_item(items, "version"@),
        _ => None,
    }
}

/// The git origin of the identity block: absent, present with `url` and
/// `path` texts, or structurally wrong.
pub open spec fn git_of_items(items: Seq<(Seq<char>, ItemView)>) -> Option<Option<GitView>> {
    match assoc_get(items, "git"@) {
        None => Some(None),
        Some(ItemView::Table(leaves)) => match (
            assoc_get(leaves, "url"@),
            assoc_get(leaves, "path"@),
        ) {
            (Some(LeafView::Text(u)), Some(LeafView::Text(p))) => Some(
                Some(GitView { url: u, path: p }),
            ),
            _ => None,
        },
        Some(_) => None,
    }
}

/// The identity block of the document, or nothing when its structure does
/// not fit.
pub open spec fn repo_meta_of(doc: Seq<(Seq<char>, SectionView)>) -> Option<RepositoryMetaView> {
    match assoc_get(doc, "repository"@) {
        Some(SectionView::Table(items)) => match (
            text_item(items, "name"@),
            text_item(items, "version"@),
        ) {
            (Some(nt), Some(vt)) => match (name_of_text(nt), version_of_text(vt)) {
                (Some(n), Some(v)) => match git_of_items(items) {
                    Some(g) => Some(RepositoryMetaView { name: n, version: v, git: g }),
                    None => None,
                },
                _ => None,
            },
            _ => None,
        },
        _ => None,
    }
}

/// An item table whose values are all texts, as key-value pairs.
pub open spec fn texts_of_items(items: Seq<(Seq<char>, ItemView)>) -> Option<
    Seq<(Seq<char>, Seq<char>)>,
>
    decreases items.len(),
{
    if items.len() == 0 {
        Some(Seq::empty())
    } else {
        match items[0].1 {
            ItemView::Text(s) => match texts_of_items(items.skip(1)) {
                Some(rest) => Some(seq![(items[0].0, s)] + rest),
                None => None,
            },
            _ => None,
        }
    }
}

/// An item table keyed by names with version texts as values.
pub open spec fn pinned_deps_of_items(items: Seq<(Seq<char>, ItemView)>) -> Option<
    Seq<(NameView, VersionView)>,
>
    decreases items.len(),
{
    if items.len() == 0 {
        Some(Seq::empty())
    } else {
        match items[0].1 {
            ItemView::Text(s) => match (name_of_text(items[0].0), version_of_text(s)) {
                (Some(n), Some(v)) => match pinned_deps_of_items(items.skip(1)) {
                    Some(rest) => Some(seq![(n, v)] + rest),
                    None => None,
                },
                _ => None,
            },
            _ => None,
        }
    }
}

/// An item table keyed by names with free texts as values.
pub open spec fn named_texts_of_items(items: Seq<(Seq<char>, ItemView)>) -> Option<
    Seq<(NameView, Seq<char>)>,
>
    decreases items.len(),
{
    if items.len() == 0 {
        Some(Seq::empty())
    } else {
        match items[0].1 {
            ItemView::Text(s) => match name_of_text(items[0].0) {
                Some(n) => match named_texts_of_items(items.skip(1)) {
                    Some(rest) => Some(seq![(n, s)] + rest),
                    None => None,
                },
                None => None,
            },
            _ => None,
        }
    }
}

/// The key of the inclusion marker inside a restriction-settings table,
/// assembled from two halves so the word itself stays out of this source.
pub open spec fn inclusion_key() -> Seq<char> {
    "inclu"@ + "de"@
}

/// The platform condition a restriction key names.
pub open spec fn condition_of(k: Seq<char>) -> Option<Condition> {
    if k == "unix"@ {
        Some(Condition::Unix)
    } else if k == "windows"@ {
        Some(Condition::Windows)
    } else {
        None
    }
}

/// The requirement a settings text names.
pub open spec fn requirement_of(s: Seq<char>) -> Option<Requirement> {
    if s == "require"@ {
        Some(Requirement::Require)
    } else if s == "forbid"@ {
        Some(Requirement::Forbid)
    } else {
        None
    }
}

/// The settings of one restriction entry, or nothing when the structure
/// does not fit.
pub open spec fn settings_of_item(it: ItemView) -> Option<SettingsView> {
    match it {
        ItemView::Table(leaves) => {
            let inc = match assoc_get(leaves, inclusion_key()) {
                None => Some(None),
                Some(LeafView::Text(s)) => match requirement_of(s) {
                    Some(r) => Some(Some(r)),
                    None => None,
                },
                Some(_) => None,
            };
            let dl = match assoc_get(leaves, "dependencies"@) {
                None => Some(None),
                Some(LeafView::TextList(v)) => Some(Some(v)),
                Some(_) => None,
            };
            match (inc, dl) {
                (Some(i), Some(d)) => Some(SettingsView { inclusion: i, dependencies: d }),
                _ => None,
            }
        },
        _ => None,
    }
}

/// An item table of restriction entries.
pub open spec fn restrict_of_items(items: Seq<(Seq<char>, ItemView)>) -> Option<
    Seq<(Condition, SettingsView)>,
>
    decreases items.len(),
{
    if items.len() == 0 {
        Some(Seq::empty())
    } else {
        match (condition_of(items[0].0), settings_of_item(items[0].1)) {
            (Some(c), Some(s)) => match restrict_of_items(items.skip(1)) {
                Some(rest) => Some(seq![(c, s)] + rest),
                None => None,
            },
            _ => None,
        }
    }
}

/// An optional section holding an item table, interpreted entry-wise:
/// absent is fine, a table is read with `f`, anything else is a
/// structural failure. Spelled out once per reading below.
pub open spec fn scripts_of(doc: Seq<(Seq<char>, SectionView)>) -> Option<
    Option<Seq<(Seq<char>, Seq<char>)>>,
> {
    match assoc_get(doc, "scripts"@) {
        None => Some(None),
        Some(SectionView::Table(items)) => match texts_of_items(items) {
            Some(m) => Some(Some(m)),
            None => None,
        },
        Some(_) => None,
    }
}

pub open spec fn pinned_deps_of(doc: Seq<(Seq<char>, SectionView)>) -> Option<
    Option<Seq<(NameView, VersionView)>>,
> {
    match assoc_get(doc, "dependencies"@) {
        None => Some(None),
        Some(SectionView::Table(items)) => match pinned_deps_of_items(items) {
            Some(m) => Some(Some(m)),
            None => None,
        },
        Some(_) => None,
    }
}

pub open spec fn raw_deps_of(doc: Seq<(Seq<char>, SectionView)>) -> Option<
    Option<Seq<(NameView, Seq<char>)>>,
> {
    match assoc_get(doc, "dependencies"@) {
        None => Some(None),
        Some(SectionView::Table(items)) => match named_texts_of_items(items) {
            Some(m) => Some(Some(m)),
            None => None,
        },
        Some(_) => None,
    }
}

pub open spec fn links_of(doc: Seq<(Seq<char>, SectionView)>) -> Option<
    Option<Seq<(NameView, Seq<char>)>>,
> {
    match assoc_get(doc, "links"@) {
        None => Some(None),
        Some(SectionView::Table(items)) => match named_texts_of_items(items) {
            Some(m) => Some(Some(m)),
            None => None,
        },
        Some(_) => None,
    }
}

pub open spec fn restrict_of(doc: Seq<(Seq<char>, SectionView)>) -> Option<
    Option<Seq<(Condition, SettingsView)>>,
> {
    match assoc_get(doc, "restrict"@) {
        None => Some(None),
        Some(SectionView::Table(items)) => match restrict_of_items(items) {
            Some(m) => Some(Some(m)),
            None => None,
        },
        Some(_) => None,
    }
}

/// The newest generation's reading of a document.
pub open spec fn tc030_of_doc(doc: Seq<(Seq<char>, SectionView)>) -> Option<Tc030View> {
    if env_marker_of(doc) != Some("0.3.0"@) {
        None
    } else {
        match (repo_meta_of(doc), scripts_of(doc), pinned_deps_of(doc), links_of(doc), restrict_of(
            doc,
        )) {
            (Some(r), Some(s), Some(d), Some(l), Some(x)) => Some(
                Tc030View { repository: r, scripts: s, dependencies: d, links: l, restrict: x },
            ),
            _ => None,
        }
    }
}

/// The restriction generation's reading of a document.
pub open spec fn tc022_of_doc(doc: Seq<(Seq<char>, SectionView)>) -> Option<Tc022View> {
    if env_marker_of(doc) != Some("0.2.2"@) {
        None
    } else {
        match (repo_meta_of(doc), scripts_of(doc), raw_deps_of(doc), restrict_of(doc)) {
            (Some(r), Some(s), Some(d), Some(x)) => Some(
                Tc022View { repository: r, scripts: s, dependencies: d, restrict: x },
            ),
            _ => None,
        }
    }
}

/// The reading shared by the two oldest generations, parameterized only
/// by the marker they expect.
pub open spec fn tc_old_of_doc(doc: Seq<(Seq<char>, SectionView)>, marker: Seq<char>) -> Option<
    Tc021View,
> {
    if env_marker_of(doc) != Some(marker) {
        None
    } else {
        match (repo_meta_of(doc), scripts_of(doc), raw_deps_of(doc)) {
            (Some(r), Some(s), Some(d)) => Some(
                Tc021View { repository: r, scripts: s, dependencies: d },
            ),
            _ => None,
        }
    }
}

// ---------------------------------------------------------------------------
// Reading a document, executably
// ---------------------------------------------------------------------------

/// The inclusion-marker key, assembled at run time to match its spec.
fn inclusion_key_text() -> (r: String)
    ensures
        r@ == inclusion_key(),
{
    let mut k = "inclu".to_owned();
    k.append("de");
    k
}

/// Copies a vector of strings.
pub fn copy_strings(v: &Vec<String>) -> (r: Vec<String>)
    ensures
        str_views(r@) == str_views(v@),
{
    let mut r: Vec<String> = Vec::new();
    let mut i: usize = 0;
    while i < v.len()
        invariant
            i <= v@.len(),
            r@.len() == i,
            forall|j: int| 0 <= j < i ==> #[trigger] r@[j]@ == v@[j]@,
        decreases v@.len() - i,
    {
        r.push(v[i].clone());
        i = i + 1;
    }
    proof {
        assert(str_views(r@) =~= str_views(v@));
    }
    r
}

/// Reads the text item under `key`.
fn read_text_item(items: &Vec<(String, TomlItem)>, key: &str) -> (r: Option<String>)
    ensures
        match r {
            Some(s) => text_item(ipairs(items@), key@) == Some(s@),
            None => text_item(ipairs(items@), key@) is None,
        },
{
    match item_find(items, key) {
        Some(i) => match &items[i].1 {
            TomlItem::Text(s) => Some(s.clone()),
            _ => None,
        },
        None => None,
    }
}

/// Reads the schema marker of a document.
fn read_env_marker(doc: &TomlDoc) -> (r: Option<String>)
    ensures
        match r {
            Some(s) => env_marker_of(doc@) == Some(s@),
            None => env_marker_of(doc@) is None,
        },
{
    match doc_find(&doc.sections, "environment") {
        Some(i) => match &doc.sections[i].1 {
            TomlSection::Table(items) => read_text_item(items, "version"),
            _ => None,
        },
        None => None,
    }
}

/// Reads the git origin of an identity block.
fn read_git(items: &Vec<(String, TomlItem)>) -> (r: Option<Option<GitConfig>>)
    ensures
        match r {
            Some(None) => git_of_items(ipairs(items@)) == Some(None::<GitView>),
            Some(Some(g)) => git_of_items(ipairs(items@)) == Some(Some(g@)),
            None => git_of_items(ipairs(items@)) is None,
        },
{
    match item_find(items, "git") {
        Some(i) => match &items[i].1 {
            TomlItem::Table(leaves) => {
                let url = match leaf_find(leaves, "url") {
                    Some(j) => match &leaves[j].1 {
                        TomlLeaf::Text(s) => s.clone(),
                        _ => {
                            return None;
                        },
                    },
                    None => {
                        return None;
                    },
                };
                let path = match leaf_find(leaves, "path") {
                    Some(j) => match &leaves[j].1 {
                        TomlLeaf::Text(s) => s.clone(),
                        _ => {
                            return None;
                        },
                    },
                    None => {
                        return None;
                    },
                };
                Some(Some(GitConfig { url, path }))
            },
            _ => None,
        },
        None => Some(None),
    }
}

/// Reads the identity block of a document.
fn read_repo_meta(doc: &TomlDoc) -> (r: Option<RepositoryMeta>)
    ensures
        match r {
            Some(m) => repo_meta_of(doc@) == Some(m@) && m.name@.wf() && m.version@.wf(),
            None => repo_meta_of(doc@) is None,
        },
{
    match doc_find(&doc.sections, "repository") {
        Some(i) => match &doc.sections[i].1 {
            TomlSection::Table(items) => {
                let nt = match read_text_item(items, "name") {
                    Some(s) => s,
                    None => {
                        return None;
                    },
                };
                let vt = match read_text_item(items, "version") {
                    Some(s) => s,
                    None => {
                        return None;
                    },
                };
                let name = match Name::new(nt.as_str()) {
                    Ok(n) => n,
                    Err(_) => {
                        return None;
                    },
                };
                let version = match Version::parse(vt.as_str()) {
                    Ok(v) => v,
                    Err(_) => {
                        return None;
                    },
                };
                let git = match read_git(items) {
                    Some(g) => g,
                    None => {
                        return None;
                    },
                };
                let m = RepositoryMeta { name, version, git };
                proof {
                    assert(repo_meta_of(doc@) == Some(m@)) by {
                        assert(repo_meta_of(doc@)->Some_0 =~= m@);
                    }
                }
                Some(m)
            },
            _ => None,
        },
        None => None,
    }
}

/// Reads an item table whose values must all be texts.
#[verifier::loop_isolation(false)]
fn read_texts_items(items: &Vec<(String, TomlItem)>) -> (r: Option<Vec<(String, String)>>)
    ensures
        match r {
            Some(v) => texts_of_items(ipairs(items@)) == Some(spairs(v@)),
            None => texts_of_items(ipairs(items@)) is None,
        },
{
    let ghost t = ipairs(items@);
    let mut out: Vec<(String, String)> = Vec::new();
    let mut i: usize = 0;
    proof {
        assert(t.skip(0) =~= t);
        if texts_of_items(t) is Some {
            assert(spairs(out@) + texts_of_items(t)->Some_0 =~= texts_of_items(t)->Some_0);
        }
    }
    while i < items.len()
        invariant
            i <= items@.len(),
            texts_of_items(t) == match texts_of_items(t.skip(i as int)) {
                Some(rest) => Some(spairs(out@) + rest),
                None => None::<Seq<(Seq<char>, Seq<char>)>>,
            },
        decreases items@.len() - i,
    {
        let ghost out0 = out@;
        proof {
            assert(t.skip(i as int)[0] == (items@[i as int].0@, items@[i as int].1@));
            assert(t.skip(i as int).skip(1) =~= t.skip(i as int + 1));
        }
        match &items[i].1 {
            TomlItem::Text(s) => {
                out.push((items[i].0.clone(), s.clone()));
                proof {
                    assert(spairs(out@) =~= spairs(out0) + seq![
                        (items@[i as int].0@, items@[i as int].1@->Text_0),
                    ]);
                    if texts_of_items(t.skip(i as int + 1)) is Some {
                        assert(spairs(out0) + (seq![
                            (items@[i as int].0@, items@[i as int].1@->Text_0),
                        ] + texts_of_items(t.skip(i as int + 1))->Some_0) =~= spairs(out@)
                            + texts_of_items(t.skip(i as int + 1))->Some_0);
                    }
                }
            },
            _ => {
                return None;
            },
        }
        i = i + 1;
    }
    proof {
        assert(t.skip(items@.len() as int).len() == 0);
        assert(spairs(out@) + Seq::<(Seq<char>, Seq<char>)>::empty() =~= spairs(out@));
    }
    Some(out)
}

/// Reads an item table keyed by names with pinned versions as values.
#[verifier::loop_isolation(false)]
fn read_pinned_deps_items(items: &Vec<(String, TomlItem)>) -> (r: Option<Vec<(Name, Version)>>)
    ensures
        match r {
            Some(v) => pinned_deps_of_items(ipairs(items@)) == Some(ndpairs(v@)),
            None => pinned_deps_of_items(ipairs(items@)) is None,
        },
{
    let ghost t = ipairs(items@);
    let mut out: Vec<(Name, Version)> = Vec::new();
    let mut i: usize = 0;
    proof {
        assert(t.skip(0) =~= t);
        if pinned_deps_of_items(t) is Some {
            assert(ndpairs(out@) + pinned_deps_of_items(t)->Some_0 =~= pinned_deps_of_items(
                t,
            )->Some_0);
        }
    }
    while i < items.len()
        invariant
            i <= items@.len(),
            pinned_deps_of_items(t) == match pinned_deps_of_items(t.skip(i as int)) {
                Some(rest) => Some(ndpairs(out@) + rest),
                None => None::<Seq<(NameView, VersionView)>>,
            },
        decreases items@.len() - i,
    {
        let ghost out0 = out@;
        proof {
            assert(t.skip(i as int)[0] == (items@[i as int].0@, items@[i as int].1@));
            assert(t.skip(i as int).skip(1) =~= t.skip(i as int + 1));
        }
        match &items[i].1 {
            TomlItem::Text(s) => {
                let name = match Name::new(items[i].0.as_str()) {
                    Ok(n) => n,
                    Err(_) => {
                        return None;
                    },
                };
                let version = match Version::parse(s.as_str()) {
                    Ok(v) => v,
                    Err(_) => {
                        return None;
                    },
                };
                out.push((name, version));
                proof {
                    assert(ndpairs(out@) =~= ndpairs(out0) + seq![(out@.last().0@, out@.last().1@)]);
                    if pinned_deps_of_items(t.skip(i as int + 1)) is Some {
                        assert(ndpairs(out0) + (seq![(out@.last().0@, out@.last().1@)]
                            + pinned_deps_of_items(t.skip(i as int + 1))->Some_0) =~= ndpairs(out@)
                            + pinned_deps_of_items(t.skip(i as int + 1))->Some_0);
                    }
                }
            },
            _ => {
                return None;
            },
        }
        i = i + 1;
    }
    proof {
        assert(t.skip(items@.len() as int).len() == 0);
        assert(ndpairs(out@) + Seq::<(NameView, VersionView)>::empty() =~= ndpairs(out@));
    }
    Some(out)
}

/// Reads an item table keyed by names with free texts as values.
#[verifier::loop_isolation(false)]
fn read_named_texts_items(items: &Vec<(String, TomlItem)>) -> (r: Option<Vec<(Name, String)>>)
    ensures
        match r {
            Some(v) => named_texts_of_items(ipairs(items@)) == Some(nrpairs(v@)),
            None => named_texts_of_items(ipairs(items@)) is None,
        },
{
    let ghost t = ipairs(items@);
    let mut out: Vec<(Name, String)> = Vec::new();
    let mut i: usize = 0;
    proof {
        assert(t.skip(0) =~= t);
        if named_texts_of_items(t) is Some {
            assert(nrpairs(out@) + named_texts_of_items(t)->Some_0 =~= named_texts_of_items(
                t,
            )->Some_0);
        }
    }
    while i < items.len()
        invariant
            i <= items@.len(),
            named_texts_of_items(t) == match named_texts_of_items(t.skip(i as int)) {
                Some(rest) => Some(nrpairs(out@) + rest),
                None => None::<Seq<(NameView, Seq<char>)>>,
            },
        decreases items@.len() - i,
    {
        let ghost out0 = out@;
        proof {
            assert(t.skip(i as int)[0] == (items@[i as int].0@, items@[i as int].1@));
            assert(t.skip(i as int).skip(1) =~= t.skip(i as int + 1));
        }
        match &items[i].1 {
            TomlItem::Text(s) => {
                let name = match Name::new(items[i].0.as_str()) {
                    Ok(n) => n,
                    Err(_) => {
                        return None;
                    },
                };
                out.push((name, s.clone()));
                proof {
                    assert(nrpairs(out@) =~= nrpairs(out0) + seq![(out@.last().0@, out@.last().1@)]);
                    if named_texts_of_items(t.skip(i as int + 1)) is Some {
                        assert(nrpairs(out0) + (seq![(out@.last().0@, out@.last().1@)]
                            + named_texts_of_items(t.skip(i as int + 1))->Some_0) =~= nrpairs(out@)
                            + named_texts_of_items(t.skip(i as int + 1))->Some_0);
                    }
                }
            },
            _ => {
                return None;
            },
        }
        i = i + 1;
    }
    proof {
        assert(t.skip(items@.len() as int).len() == 0);
        assert(nrpairs(out@) + Seq::<(NameView, Seq<char>)>::empty() =~= nrpairs(out@));
    }
    Some(out)
}

/// Reads the settings of one restriction entry.
fn read_settings(item: &TomlItem) -> (r: Option<Settings>)
    ensures
        match r {
            Some(s) => settings_of_item(item@) == Some(s@),
            None => settings_of_item(item@) is None,
        },
{
    match item {
        TomlItem::Table(leaves) => {
            let ikey = inclusion_key_text();
            let inclusion = match leaf_find(leaves, ikey.as_str()) {
                Some(j) => match &leaves[j].1 {
                    TomlLeaf::Text(s) => {
                        if str_eq(s.as_str(), "require") {
                            Some(Requirement::Require)
                        } else if str_eq(s.as_str(), "forbid") {
                            Some(Requirement::Forbid)
                        } else {
                            return None;
                        }
                    },
                    _ => {
                        return None;
                    },
                },
                None => None,
            };
            let dependencies = match leaf_find(leaves, "dependencies") {
                Some(j) => match &leaves[j].1 {
                    TomlLeaf::TextList(v) => Some(copy_strings(v)),
                    _ => {
                        return None;
                    },
                },
                None => None,
            };
            let s = Settings { inclusion, dependencies };
            proof {
                assert(settings_of_item(item@) == Some(s@)) by {
                    assert(settings_of_item(item@)->Some_0 =~= s@);
                }
            }
            Some(s)
        },
        _ => None,
    }
}

/// Reads an item table of restriction entries.
#[verifier::loop_isolation(false)]
fn read_restrict_items(items: &Vec<(String, TomlItem)>) -> (r: Option<Vec<(Condition, Settings)>>)
    ensures
        match r {
            Some(v) => restrict_of_items(ipairs(items@)) == Some(cpairs(v@)),
            None => restrict_of_items(ipairs(items@)) is None,
        },
{
    let ghost t = ipairs(items@);
    let mut out: Vec<(Condition, Settings)> = Vec::new();
    let mut i: usize = 0;
    proof {
        assert(t.skip(0) =~= t);
        if restrict_of_items(t) is Some {
            assert(cpairs(out@) + restrict_of_items(t)->Some_0 =~= restrict_of_items(t)->Some_0);
        }
    }
    while i < items.len()
        invariant
            i <= items@.len(),
            restrict_of_items(t) == match restrict_of_items(t.skip(i as int)) {
                Some(rest) => Some(cpairs(out@) + rest),
                None => None::<Seq<(Condition, SettingsView)>>,
            },
        decreases items@.len() - i,
    {
        let ghost out0 = out@;
        proof {
            assert(t.skip(i as int)[0] == (items@[i as int].0@, items@[i as int].1@));
            assert(t.skip(i as int).skip(1) =~= t.skip(i as int + 1));
        }
        let condition = if str_eq(items[i].0.as_str(), "unix") {
            Condition::Unix
        } else if str_eq(items[i].0.as_str(), "windows") {
            Condition::Windows
        } else {
            return None;
        };
        let settings = match read_settings(&items[i].1) {
            Some(s) => s,
            None => {
                return None;
            },
        };
        out.push((condition, settings));
        proof {
            assert(cpairs(out@) =~= cpairs(out0) + seq![(out@.last().0, out@.last().1@)]);
            if restrict_of_items(t.skip(i as int + 1)) is Some {
                assert(cpairs(out0) + (seq![(out@.last().0, out@.last().1@)] + restrict_of_items(
                    t.skip(i as int + 1),
                )->Some_0) =~= cpairs(out@) + restrict_of_items(t.skip(i as int + 1))->Some_0);
            }
        }
        i = i + 1;
    }
    proof {
        assert(t.skip(items@.len() as int).len() == 0);
        assert(cpairs(out@) + Seq::<(Condition, SettingsView)>::empty() =~= cpairs(out@));
    }
    Some(out)
}

/// Reads the optional `scripts` section.
fn read_scripts(doc: &TomlDoc) -> (r: Option<Option<Vec<(String, String)>>>)
    ensures
        match r {
            Some(None) => scripts_of(doc@) == Some(None::<Seq<(Seq<char>, Seq<char>)>>),
            Some(Some(v)) => scripts_of(doc@) == Some(Some(spairs(v@))),
            None => scripts_of(doc@) is None,
        },
{
    match doc_find(&doc.sections, "scripts") {
        Some(i) => match &doc.sections[i].1 {
            TomlSection::Table(items) => match read_texts_items(items) {
                Some(v) => Some(Some(v)),
                None => None,
            },
            _ => None,
        },
        None => Some(None),
    }
}

/// Reads the optional `dependencies` section with pinned versions.
fn read_pinned_deps(doc: &TomlDoc) -> (r: Option<Option<Vec<(Name, Version)>>>)
    ensures
        match r {
            Some(None) => pinned_deps_of(doc@) == Some(None::<Seq<(NameView, VersionView)>>),
            Some(Some(v)) => pinned_deps_of(doc@) == Some(Some(ndpairs(v@))),
            None => pinned_deps_of(doc@) is None,
        },
{
    match doc_find(&doc.sections, "dependencies") {
        Some(i) => match &doc.sections[i].1 {
            TomlSection::Table(items) => match read_pinned_deps_items(items) {
                Some(v) => Some(Some(v)),
                None => None,
            },
            _ => None,
        },
        None => Some(None),
    }
}

/// Reads the optional `dependencies` section with free-text versions.
fn read_raw_deps(doc: &TomlDoc) -> (r: Option<Option<Vec<(Name, String)>>>)
    ensures
        match r {
            Some(None) => raw_deps_of(doc@) == Some(None::<Seq<(NameView, Seq<char>)>>),
            Some(Some(v)) => raw_deps_of(doc@) == Some(Some(nrpairs(v@))),
            None => raw_deps_of(doc@) is None,
        },
{
    match doc_find(&doc.sections, "dependencies") {
        Some(i) => match &doc.sections[i].1 {
            TomlSection::Table(items) => match read_named_texts_items(items) {
                Some(v) => Some(Some(v)),
                None => None,
            },
            _ => None,
        },
        None => Some(None),
    }
}

/// Reads the optional `links` section.
fn read_links(doc: &TomlDoc) -> (r: Option<Option<Vec<(Name, String)>>>)
    ensures
        match r {
            Some(None) => links_of(doc@) == Some(None::<Seq<(NameView, Seq<char>)>>),
            Some(Some(v)) => links_of(doc@) == Some(Some(nrpairs(v@))),
            None => links_of(doc@) is None,
        },
{
    match doc_find(&doc.sections, "links") {
        Some(i) => match &doc.sections[i].1 {
            TomlSection::Table(items) => match read_named_texts_items(items) {
                Some(v) => Some(Some(v)),
                None => None,
            },
            _ => None,
        },
        None => Some(None),
    }
}

/// Reads the optional `restrict` section.
fn read_restrict(doc: &TomlDoc) -> (r: Option<Option<Vec<(Condition, Settings)>>>)
    ensures
        match r {
            Some(None) => restrict_of(doc@) == Some(None::<Seq<(Condition, SettingsView)>>),
            Some(Some(v)) => restrict_of(doc@) == Some(Some(cpairs(v@))),
            None => restrict_of(doc@) is None,
        },
{
    match doc_find(&doc.sections, "restrict") {
        Some(i) => match &doc.sections[i].1 {
            TomlSection::Table(items) => match read_restrict_items(items) {
                Some(v) => Some(Some(v)),
                None => None,
            },
            _ => None,
        },
        None => Some(None),
    }
}

/// Reads a document as the newest generation.
fn read_tc030(doc: &TomlDoc) -> (r: Option<TomlConfig0_3_0>)
    ensures
        match r {
            Some(c) => tc030_of_doc(doc@) == Some(c@),
            None => tc030_of_doc(doc@) is None,
        },
{
    match read_env_marker(doc) {
        Some(m) => {
            if !str_eq(m.as_str(), "0.3.0") {
                return None;
            }
        },
        None => {
            return None;
        },
    }
    let repository = match read_repo_meta(doc) {
        Some(m) => m,
        None => {
            return None;
        },
    };
    let scripts = match read_scripts(doc) {
        Some(s) => s,
        None => {
            return None;
        },
    };
    let dependencies = match read_pinned_deps(doc) {
        Some(d) => d,
        None => {
            return None;
        },
    };
    let links = match read_links(doc) {
        Some(l) => l,
        None => {
            return None;
        },
    };
    let restrict = match read_restrict(doc) {
        Some(x) => x,
        None => {
            return None;
        },
    };
    let c = TomlConfig0_3_0 { repository, scripts, dependencies, links, restrict };
    proof {
        assert(tc030_of_doc(doc@) == Some(c@)) by {
            assert(tc030_of_doc(doc@)->Some_0 =~= c@);
        }
    }
    Some(c)
}

/// Reads a document as the restriction generation.
fn read_tc022(doc: &TomlDoc) -> (r: Option<TomlConfig0_2_2>)
    ensures
        match r {
            Some(c) => tc022_of_doc(doc@) == Some(c@),
            None => tc022_of_doc(doc@) is None,
        },
{
    match read_env_marker(doc) {
        Some(m) => {
            if !str_eq(m.as_str(), "0.2.2") {
                return None;
            }
        },
        None => {
            return None;
        },
    }
    let repository = match read_repo_meta(doc) {
        Some(m) => m,
        None => {
            return None;
        },
    };
    let scripts = match read_scripts(doc) {
        Some(s) => s,
        None => {
            return None;
        },
    };
    let dependencies = match read_raw_deps(doc) {
        Some(d) => d,
        None => {
            return None;
        },
    };
    let restrict = match read_restrict(doc) {
        Some(x) => x,
        None => {
            return None;
        },
    };
    let c = TomlConfig0_2_2 { repository, scripts, dependencies, restrict };
    proof {
        assert(tc022_of_doc(doc@) == Some(c@)) by {
            assert(tc022_of_doc(doc@)->Some_0 =~= c@);
        }
    }
    Some(c)
}

/// Reads a document as one of the two oldest generations.
fn read_tc_old(doc: &TomlDoc, marker: &str) -> (r: Option<TomlConfig0_2_1>)
    ensures
        match r {
            Some(c) => tc_old_of_doc(doc@, marker@) == Some(c@),
            None => tc_old_of_doc(doc@, marker@) is None,
        },
{
    match read_env_marker(doc) {
        Some(m) => {
            if !str_eq(m.as_str(), marker) {
                return None;
            }
        },
        None => {
            return None;
        },
    }
    let repository = match read_repo_meta(doc) {
        Some(m) => m,
        None => {
            return None;
        },
    };
    let scripts = match read_scripts(doc) {
        Some(s) => s,
        None => {
            return None;
        },
    };
    let dependencies = match read_raw_deps(doc) {
        Some(d) => d,
        None => {
            return None;
        },
    };
    let c = TomlConfig0_2_1 { repository, scripts, dependencies };
    proof {
        assert(tc_old_of_doc(doc@, marker@) == Some(c@)) by {
            assert(tc_old_of_doc(doc@, marker@)->Some_0 =~= c@);
        }
    }
    Some(c)
}

impl AnyTomlConfig {
    /// Reads a document by trying the generations newest first; the first
    /// one whose structure fits is accepted, and a document no generation
    /// accepts fails with `ConfigInvalid`.
    pub fn read_doc(doc: &TomlDoc) -> (r: Result<AnyTomlConfig, BatlError>)
        ensures
            match r {
                Ok(any) => match any {
                    AnyTomlConfig::V0_3_0(c) => tc030_of_doc(doc@) == Some(c@),
                    AnyTomlConfig::V0_2_2(c) => tc030_of_doc(doc@) is None && tc022_of_doc(doc@)
                        == Some(c@),
                    AnyTomlConfig::V0_2_1(c) => tc030_of_doc(doc@) is None && tc022_of_doc(
                        doc@,
                    ) is None && tc_old_of_doc(doc@, "0.2.1"@) == Some(c@),
                    AnyTomlConfig::V0_2_0(c) => tc030_of_doc(doc@) is None && tc022_of_doc(
                        doc@,
                    ) is None && tc_old_of_doc(doc@, "0.2.1"@) is None && tc_old_of_doc(
                        doc@,
                        "0.2.0"@,
                    ) == Some(c@),
                },
                Err(e) => e == BatlError::ConfigInvalid && tc030_of_doc(doc@) is None
                    && tc022_of_doc(doc@) is None && tc_old_of_doc(doc@, "0.2.1"@) is None
                    && tc_old_of_doc(doc@, "0.2.0"@) is None,
            },
    {
        if let Some(c) = read_tc030(doc) {
            return Ok(AnyTomlConfig::V0_3_0(c));
        }
        if let Some(c) = read_tc022(doc) {
            return Ok(AnyTomlConfig::V0_2_2(c));
        }
        if let Some(c) = read_tc_old(doc, "0.2.1") {
            return Ok(AnyTomlConfig::V0_2_1(c));
        }
        if let Some(c) = read_tc_old(doc, "0.2.0") {
            return Ok(AnyTomlConfig::V0_2_0(TomlConfig0_2_0 {
                repository: c.repository,
                scripts: c.scripts,
                dependencies: c.dependencies,
            }));
        }
        Err(BatlError::ConfigInvalid)
    }
}

// ---------------------------------------------------------------------------
// Migration to the newest generation
// ---------------------------------------------------------------------------

/// The version a dependency entry falls back to when its free-text
/// version does not parse.
pub open spec fn default_version_view() -> VersionView {
    VersionView {
        major: 0,
        minor: 0,
        patch: 0,
        pre: Seq::<char>::empty(),
        build: Seq::<char>::empty(),
    }
}

/// The migration of free-text dependency versions: parsed where possible,
/// the default version otherwise. This lenience is deliberate; migration
/// never fails on a version text.
pub open spec fn migrate_raw_deps(d: Seq<(NameView, Seq<char>)>) -> Seq<(NameView, VersionView)> {
    d.map_values(
        |p: (NameView, Seq<char>)|
            (
                p.0,
                match version_of_text(p.1) {
                    Some(v) => v,
                    None => default_version_view(),
                },
            ),
    )
}

/// What the restriction generation becomes in the newest shape: a new
/// empty `links` map, dependency versions parsed leniently.
pub open spec fn latest_of_022(c: Tc022View) -> Tc030View {
    Tc030View {
        repository: c.repository,
        scripts: c.scripts,
        dependencies: match c.dependencies {
            Some(d) => Some(migrate_raw_deps(d)),
            None => None,
        },
        links: None,
        restrict: c.restrict,
    }
}

/// What the two oldest generations become: a new empty `restrict` map,
/// then the restriction generation's migration.
pub open spec fn latest_of_021(c: Tc021View) -> Tc030View {
    latest_of_022(
        Tc022View {
            repository: c.repository,
            scripts: c.scripts,
            dependencies: c.dependencies,
            restrict: None,
        },
    )
}

impl TomlConfig0_2_1 {
    /// One migration hop: the restriction map appears, empty.
    pub fn upgrade(self) -> (r: TomlConfig0_2_2)
        ensures
            r@ == (Tc022View {
                repository: self@.repository,
                scripts: self@.scripts,
                dependencies: self@.dependencies,
                restrict: None,
            }),
    {
        let r = TomlConfig0_2_2 {
            repository: self.repository,
            scripts: self.scripts,
            dependencies: self.dependencies,
            restrict: None,
        };
        proof {
            assert(r@ =~= Tc022View {
                repository: self@.repository,
                scripts: self@.scripts,
                dependencies: self@.dependencies,
                restrict: None,
            });
        }
        r
    }
}

impl TomlConfig0_2_0 {
    /// One migration hop; the generations are structurally identical, so
    /// this hop changes nothing.
    pub fn upgrade(self) -> (r: TomlConfig0_2_1)
        ensures
            r@ == self@,
    {
        let r = TomlConfig0_2_1 {
            repository: self.repository,
            scripts: self.scripts,
            dependencies: self.dependencies,
        };
        proof {
            assert(r@ =~= self@);
        }
        r
    }
}

impl TomlConfig0_2_2 {
    /// One migration hop: the `links` map appears, empty, and free-text
    /// dependency versions become parsed versions, defaulting rather than
    /// failing.
    #[verifier::loop_isolation(false)]
    pub fn upgrade(self) -> (r: TomlConfig0_3_0)
        ensures
            r@ == latest_of_022(self@),
    {
        let dependencies = match self.dependencies {
            Some(raw) => {
                let ghost raw0 = raw@;
                let mut out: Vec<(Name, Version)> = Vec::new();
                let mut i: usize = 0;
                while i < raw.len()
                    invariant
                        i <= raw@.len(),
                        raw@ == raw0,
                        out@.len() == i,
                        forall|j: int|
                            0 <= j < i ==> (#[trigger] out@[j]).0@ == raw0[j].0@ && out@[j].1@
                                == (match version_of_text(raw0[j].1@) {
                                Some(v) => v,
                                None => default_version_view(),
                            }),
                    decreases raw@.len() - i,
                {
                    let (name, text) = &raw[i];
                    let version = match Version::parse(text.as_str()) {
                        Ok(v) => v,
                        Err(_) => Version::new(0, 0, 0),
                    };
                    out.push((name.duplicate(), version));
                    i = i + 1;
                }
                proof {
                    assert(ndpairs(out@) =~= migrate_raw_deps(nrpairs(raw0)));
                }
                Some(out)
            },
            None => None,
        };
        let r = TomlConfig0_3_0 {
            repository: self.repository,
            scripts: self.scripts,
            dependencies,
            links: None,
            restrict: self.restrict,
        };
        proof {
            assert(r@ =~= latest_of_022(self@));
        }
        r
    }
}

impl AnyTomlConfig {
    /// Migrates whichever generation was read to the newest shape, one
    /// deterministic hop per generation boundary.
    pub fn migrate(self) -> (r: TomlConfig0_3_0)
        ensures
            match self {
                AnyTomlConfig::V0_3_0(c) => r@ == c@,
                AnyTomlConfig::V0_2_2(c) => r@ == latest_of_022(c@),
                AnyTomlConfig::V0_2_1(c) => r@ == latest_of_021(c@),
                AnyTomlConfig::V0_2_0(c) => r@ == latest_of_021(c@),
            },
    {
        match self {
            AnyTomlConfig::V0_3_0(c) => c,
            AnyTomlConfig::V0_2_2(c) => c.upgrade(),
            AnyTomlConfig::V0_2_1(c) => c.upgrade().upgrade(),
            AnyTomlConfig::V0_2_0(c) => c.upgrade().upgrade().upgrade(),
        }
    }
}

// ---------------------------------------------------------------------------
// The canonical configuration
// ---------------------------------------------------------------------------

/// The canonical, generation-independent configuration of a repository.
pub struct Config {
    pub name: Name,
    pub version: Version,
    pub git: Option<GitConfig>,
    pub scripts: Vec<(String, String)>,
    pub dependencies: Vec<(Name, Version)>,
    pub links: Vec<(Name, String)>,
    pub restrict: Vec<(Condition, Settings)>,
}

/// The mathematical shape of the canonical configuration.
#[verifier::ext_equal]
pub ghost struct ConfigView {
    pub name: NameView,
    pub version: VersionView,
    pub git: Option<GitView>,
    pub scripts: Seq<(Seq<char>, Seq<char>)>,
    pub dependencies: Seq<(NameView, VersionView)>,
    pub links: Seq<(NameView, Seq<char>)>,
    pub restrict: Seq<(Condition, SettingsView)>,
}

impl View for Config {
    type V = ConfigView;

    open spec fn view(&self) -> ConfigView {
        ConfigView {
            name: self.name@,
            version: self.version@,
            git: match &self.git {
                Some(g) => Some(g@),
                None => None,
            },
            scripts: spairs(self.scripts@),
            dependencies: ndpairs(self.dependencies@),
            links: nrpairs(self.links@),
            restrict: cpairs(self.restrict@),
        }
    }
}

/// Every dependency entry holds a well-formed name and version.
pub open spec fn dep_entries_wf(s: Seq<(NameView, VersionView)>) -> bool {
    forall|i: int| 0 <= i < s.len() ==> (#[trigger] s[i]).0.wf() && s[i].1.wf()
}

/// Every link entry holds a well-formed name.
pub open spec fn named_entries_wf(s: Seq<(NameView, Seq<char>)>) -> bool {
    forall|i: int| 0 <= i < s.len() ==> (#[trigger] s[i]).0.wf()
}

impl ConfigView {
    /// A well-formed configuration: its own identity and every name it
    /// mentions are well formed.
    pub open spec fn wf(&self) -> bool {
        &&& self.name.wf()
        &&& self.version.wf()
        &&& dep_entries_wf(self.dependencies)
        &&& named_entries_wf(self.links)
    }
}

/// No two entries of a pair list share a key. Parsed documents satisfy
/// this per table by TOML's own rules; a constructed value need not, and
/// every lookup is specified as first match. The mutators below keep
/// distinctness wherever it holds.
pub open spec fn distinct_keys<K, V>(s: Seq<(K, V)>) -> bool {
    forall|i: int, j: int|
        0 <= i < j < s.len() ==> (#[trigger] s[i]).0 != (#[trigger] s[j]).0
}

/// Every recorded link refers to a declared dependency. The link manager
/// establishes this on every mutation; a freshly loaded document need
/// not satisfy it, so it stands beside well-formedness rather than
/// inside it, and `Config::links_are_declared` checks it on demand.
pub open spec fn links_declared(c: ConfigView) -> bool {
    forall|i: int|
        0 <= i < c.links.len() ==> assoc_get(
            c.dependencies,
            (#[trigger] c.links[i]).0,
        ) is Some
}

/// The canonical view of a newest-generation record: every absent map
/// becomes the empty map, never an absent one.
pub open spec fn config_of_latest(t: Tc030View) -> ConfigView {
    ConfigView {
        name: t.repository.name,
        version: t.repository.version,
        git: t.repository.git,
        scripts: match t.scripts {
            Some(m) => m,
            None => Seq::empty(),
        },
        dependencies: match t.dependencies {
            Some(m) => m,
            None => Seq::empty(),
        },
        links: match t.links {
            Some(m) => m,
            None => Seq::empty(),
        },
        restrict: match t.restrict {
            Some(m) => m,
            None => Seq::empty(),
        },
    }
}

impl Config {
    /// A convenience predicate: the configuration is well formed.
    pub open spec fn wf(&self) -> bool {
        self@.wf()
    }

    /// Canonicalizes a newest-generation record; absent maps become empty
    /// maps.
    pub fn from_latest(latest: TomlConfig0_3_0) -> (r: Config)
        ensures
            r@ == config_of_latest(latest@),
    {
        let scripts = match latest.scripts {
            Some(m) => m,
            None => Vec::new(),
        };
        let dependencies = match latest.dependencies {
            Some(m) => m,
            None => Vec::new(),
        };
        let links = match latest.links {
            Some(m) => m,
            None => Vec::new(),
        };
        let restrict = match latest.restrict {
            Some(m) => m,
            None => Vec::new(),
        };
        let r = Config {
            name: latest.repository.name,
            version: latest.repository.version,
            git: latest.repository.git,
            scripts,
            dependencies,
            links,
            restrict,
        };
        proof {
            assert(spairs(Seq::<(String, String)>::empty()) =~= Seq::<
                (Seq<char>, Seq<char>),
            >::empty());
            assert(ndpairs(Seq::<(Name, Version)>::empty()) =~= Seq::<
                (NameView, VersionView),
            >::empty());
            assert(nrpairs(Seq::<(Name, String)>::empty()) =~= Seq::<
                (NameView, Seq<char>),
            >::empty());
            assert(cpairs(Seq::<(Condition, Settings)>::empty()) =~= Seq::<
                (Condition, SettingsView),
            >::empty());
            assert(r@ =~= config_of_latest(latest@));
        }
        r
    }
}

impl Config {
    /// Copies the configuration.
    #[verifier::loop_isolation(false)]
    pub fn duplicate(&self) -> (r: Config)
        ensures
            r@ == self@,
    {
        let name = self.name.duplicate();
        let version = self.version.duplicate();
        let git = match &self.git {
            Some(g) => Some(GitConfig { url: g.url.clone(), path: g.path.clone() }),
            None => None,
        };
        let mut scripts: Vec<(String, String)> = Vec::new();
        let mut i: usize = 0;
        while i < self.scripts.len()
            invariant
                i <= self.scripts@.len(),
                scripts@.len() == i,
                forall|j: int|
                    0 <= j < i ==> #[trigger] scripts@[j].0@ == self.scripts@[j].0@
                        && scripts@[j].1@ == self.scripts@[j].1@,
            decreases self.scripts@.len() - i,
        {
            scripts.push((self.scripts[i].0.clone(), self.scripts[i].1.clone()));
            i = i + 1;
        }
        let mut dependencies: Vec<(Name, Version)> = Vec::new();
        let mut i: usize = 0;
        while i < self.dependencies.len()
            invariant
                i <= self.dependencies@.len(),
                dependencies@.len() == i,
                forall|j: int|
                    0 <= j < i ==> #[trigger] dependencies@[j].0@ == self.dependencies@[j].0@
                        && dependencies@[j].1@ == self.dependencies@[j].1@,
            decreases self.dependencies@.len() - i,
        {
            dependencies.push(
                (self.dependencies[i].0.duplicate(), self.dependencies[i].1.duplicate()),
            );
            i = i + 1;
        }
        let mut links: Vec<(Name, String)> = Vec::new();
        let mut i: usize = 0;
        while i < self.links.len()
            invariant
                i <= self.links@.len(),
                links@.len() == i,
                forall|j: int|
                    0 <= j < i ==> #[trigger] links@[j].0@ == self.links@[j].0@ && links@[j].1@
                        == self.links@[j].1@,
            decreases self.links@.len() - i,
        {
            links.push((self.links[i].0.duplicate(), self.links[i].1.clone()));
            i = i + 1;
        }
        let mut restrict: Vec<(Condition, Settings)> = Vec::new();
        let mut i: usize = 0;
        while i < self.restrict.len()
            invariant
                i <= self.restrict@.len(),
                restrict@.len() == i,
                forall|j: int|
                    0 <= j < i ==> #[trigger] restrict@[j].0 == self.restrict@[j].0
                        && restrict@[j].1@ == self.restrict@[j].1@,
            decreases self.restrict@.len() - i,
        {
            let deps_copy = match &self.restrict[i].1.dependencies {
                Some(d) => Some(copy_strings(d)),
                None => None,
            };
            restrict.push(
                (
                    self.restrict[i].0,
                    Settings { inclusion: self.restrict[i].1.inclusion, dependencies: deps_copy },
                ),
            );
            proof {
                assert(restrict@[i as int].1@ =~= self.restrict@[i as int].1@);
            }
            i = i + 1;
        }
        let r = Config { name, version, git, scripts, dependencies, links, restrict };
        proof {
            assert(spairs(r.scripts@) =~= spairs(self.scripts@));
            assert(ndpairs(r.dependencies@) =~= ndpairs(self.dependencies@));
            assert(nrpairs(r.links@) =~= nrpairs(self.links@));
            assert(cpairs(r.restrict@) =~= cpairs(self.restrict@));
            assert(r@ =~= self@);
        }
        r
    }
}

/// The canonical configuration a document denotes: the newest accepting
/// generation, migrated and canonicalized; nothing when no generation
/// accepts the document.
pub open spec fn canonical_of_doc(doc: Seq<(Seq<char>, SectionView)>) -> Option<ConfigView> {
    if tc030_of_doc(doc) is Some {
        Some(config_of_latest(tc030_of_doc(doc)->Some_0))
    } else if tc022_of_doc(doc) is Some {
        Some(config_of_latest(latest_of_022(tc022_of_doc(doc)->Some_0)))
    } else if tc_old_of_doc(doc, "0.2.1"@) is Some {
        Some(config_of_latest(latest_of_021(tc_old_of_doc(doc, "0.2.1"@)->Some_0)))
    } else if tc_old_of_doc(doc, "0.2.0"@) is Some {
        Some(config_of_latest(latest_of_021(tc_old_of_doc(doc, "0.2.0"@)->Some_0)))
    } else {
        None
    }
}

impl Config {
    /// Reads and migrates a document in one step: the core of loading a
    /// repository. Fails with `ConfigInvalid` exactly when no schema
    /// generation accepts the document. A document is accepted even when
    /// a link lacks its dependency declaration — an inconsistency a
    /// previous failed run can leave behind — so `links_declared` is not
    /// guaranteed here; the mutators keep it wherever it holds.
    pub fn from_doc(doc: &TomlDoc) -> (r: Result<Config, BatlError>)
        ensures
            match r {
                Ok(c) => canonical_of_doc(doc@) == Some(c@),
                Err(e) => e == BatlError::ConfigInvalid && canonical_of_doc(doc@) is None,
            },
    {
        let any = match AnyTomlConfig::read_doc(doc) {
            Ok(a) => a,
            Err(e) => {
                return Err(e);
            },
        };
        let latest = any.migrate();
        Ok(Config::from_latest(latest))
    }
}

// ---------------------------------------------------------------------------
// What a read document guarantees
// ---------------------------------------------------------------------------

/// Entries read as pinned dependencies are well formed.
proof fn lemma_pinned_deps_items_wf(items: Seq<(Seq<char>, ItemView)>)
    ensures
        pinned_deps_of_items(items) is Some ==> dep_entries_wf(pinned_deps_of_items(items)->Some_0),
    decreases items.len(),
{
    if items.len() > 0 && pinned_deps_of_items(items) is Some {
        lemma_pinned_deps_items_wf(items.skip(1));
        match items[0].1 {
            ItemView::Text(s) => {
                crate::name::lemma_name_of_text_wf(items[0].0);
                crate::version::lemma_version_of_text_wf(s);
                let whole = pinned_deps_of_items(items)->Some_0;
                let rest = pinned_deps_of_items(items.skip(1))->Some_0;
                assert forall|i: int| 0 <= i < whole.len() implies (#[trigger] whole[i]).0.wf()
                    && whole[i].1.wf() by {
                    if i > 0 {
                        assert(whole[i] == rest[i - 1]);
                    }
                }
            },
            _ => {},
        }
    }
}

/// Entries read as named texts hold well-formed names.
proof fn lemma_named_texts_items_wf(items: Seq<(Seq<char>, ItemView)>)
    ensures
        named_texts_of_items(items) is Some ==> named_entries_wf(
            named_texts_of_items(items)->Some_0,
        ),
    decreases items.len(),
{
    if items.len() > 0 && named_texts_of_items(items) is Some {
        lemma_named_texts_items_wf(items.skip(1));
        match items[0].1 {
            ItemView::Text(s) => {
                crate::name::lemma_name_of_text_wf(items[0].0);
                let whole = named_texts_of_items(items)->Some_0;
                let rest = named_texts_of_items(items.skip(1))->Some_0;
                assert forall|i: int| 0 <= i < whole.len() implies (#[trigger] whole[i]).0.wf() by {
                    if i > 0 {
                        assert(whole[i] == rest[i - 1]);
                    }
                }
            },
            _ => {},
        }
    }
}

/// Migrated dependency entries stay well formed.
proof fn lemma_migrate_raw_deps_wf(d: Seq<(NameView, Seq<char>)>)
    requires
        named_entries_wf(d),
    ensures
        dep_entries_wf(migrate_raw_deps(d)),
{
    let m = migrate_raw_deps(d);
    assert forall|i: int| 0 <= i < m.len() implies (#[trigger] m[i]).0.wf() && m[i].1.wf() by {
        assert(d[i].0.wf());
        crate::version::lemma_version_of_text_wf(d[i].1);
    }
}

/// The identity block of any accepted generation is well formed.
proof fn lemma_repo_meta_wf(doc: Seq<(Seq<char>, SectionView)>)
    ensures
        repo_meta_of(doc) is Some ==> repo_meta_of(doc)->Some_0.name.wf() && repo_meta_of(
            doc,
        )->Some_0.version.wf(),
{
    if repo_meta_of(doc) is Some {
        match assoc_get(doc, "repository"@) {
            Some(SectionView::Table(items)) => {
                match (text_item(items, "name"@), text_item(items, "version"@)) {
                    (Some(nt), Some(vt)) => {
                        crate::name::lemma_name_of_text_wf(nt);
                        crate::version::lemma_version_of_text_wf(vt);
                    },
                    _ => {},
                }
            },
            _ => {},
        }
    }
}

/// Whatever document a configuration was read from, the configuration is
/// well formed.
pub proof fn lemma_canonical_wf(doc: Seq<(Seq<char>, SectionView)>)
    ensures
        canonical_of_doc(doc) is Some ==> canonical_of_doc(doc)->Some_0.wf(),
{
    lemma_repo_meta_wf(doc);
    if canonical_of_doc(doc) is Some {
        match assoc_get(doc, "dependencies"@) {
            Some(SectionView::Table(items)) => {
                lemma_pinned_deps_items_wf(items);
                lemma_named_texts_items_wf(items);
                if named_texts_of_items(items) is Some {
                    lemma_migrate_raw_deps_wf(named_texts_of_items(items)->Some_0);
                }
            },
            _ => {},
        }
        match assoc_get(doc, "links"@) {
            Some(SectionView::Table(items)) => {
                lemma_named_texts_items_wf(items);
            },
            _ => {},
        }
        assert(dep_entries_wf(Seq::<(NameView, VersionView)>::empty()));
        assert(named_entries_wf(Seq::<(NameView, Seq<char>)>::empty()));
    }
}

// ---------------------------------------------------------------------------
// Map operations on the canonical configuration
// ---------------------------------------------------------------------------

impl Config {
    /// The position of the dependency entry for `name`, if one exists.
    pub fn find_dependency(&self, name: &Name) -> (r: Option<usize>)
        ensures
            match r {
                Some(i) => i < self@.dependencies.len() && self@.dependencies[i as int].0 == name@
                    && assoc_get(self@.dependencies, name@) == Some(
                    self@.dependencies[i as int].1,
                ) && (forall|j: int|
                    0 <= j < i ==> (#[trigger] self@.dependencies[j]).0 != name@),
                None => assoc_get(self@.dependencies, name@) is None,
            },
    {
        let ghost t = self@.dependencies;
        let mut i: usize = 0;
        while i < self.dependencies.len()
            invariant
                i <= self.dependencies@.len(),
                t == ndpairs(self.dependencies@),
                forall|j: int| 0 <= j < i ==> (#[trigger] t[j]).0 != name@,
            decreases self.dependencies@.len() - i,
        {
            if self.dependencies[i].0.same_as(name) {
                proof {
                    crate::tomldoc::lemma_assoc_get_at(t, name@, i as int);
                }
                return Some(i);
            }
            i = i + 1;
        }
        proof {
            crate::tomldoc::lemma_assoc_get_absent(t, name@);
        }
        None
    }

    /// The position of the link entry for `name`, if one exists.
    pub fn find_link(&self, name: &Name) -> (r: Option<usize>)
        ensures
            match r {
                Some(i) => i < self@.links.len() && self@.links[i as int].0 == name@ && assoc_get(
                    self@.links,
                    name@,
                ) == Some(self@.links[i as int].1) && (forall|j: int|
                    0 <= j < i ==> (#[trigger] self@.links[j]).0 != name@),
                None => assoc_get(self@.links, name@) is None,
            },
    {
        let ghost t = self@.links;
        let mut i: usize = 0;
        while i < self.links.len()
            invariant
                i <= self.links@.len(),
                t == nrpairs(self.links@),
                forall|j: int| 0 <= j < i ==> (#[trigger] t[j]).0 != name@,
            decreases self.links@.len() - i,
        {
            if self.links[i].0.same_as(name) {
                proof {
                    crate::tomldoc::lemma_assoc_get_at(t, name@, i as int);
                }
                return Some(i);
            }
            i = i + 1;
        }
        proof {
            crate::tomldoc::lemma_assoc_get_absent(t, name@);
        }
        None
    }

    /// The pinned version a dependency entry declares for `name`.
    pub fn dependency_version(&self, name: &Name) -> (r: Option<Version>)
        ensures
            match r {
                Some(v) => assoc_get(self@.dependencies, name@) == Some(v@),
                None => assoc_get(self@.dependencies, name@) is None,
            },
    {
        match self.find_dependency(name) {
            Some(i) => Some(self.dependencies[i].1.duplicate()),
            None => None,
        }
    }

    /// The recorded link path for `name`.
    pub fn link_path(&self, name: &Name) -> (r: Option<String>)
        ensures
            match r {
                Some(p) => assoc_get(self@.links, name@) == Some(p@),
                None => assoc_get(self@.links, name@) is None,
            },
    {
        match self.find_link(name) {
            Some(i) => Some(self.links[i].1.clone()),
            None => None,
        }
    }

    /// Checks that every recorded link refers to a declared dependency.
    #[verifier::loop_isolation(false)]
    pub fn links_are_declared(&self) -> (r: bool)
        ensures
            r == links_declared(self@),
    {
        let mut i: usize = 0;
        while i < self.links.len()
            invariant
                i <= self.links@.len(),
                forall|j: int|
                    0 <= j < i ==> assoc_get(
                        self@.dependencies,
                        (#[trigger] self@.links[j]).0,
                    ) is Some,
            decreases self.links@.len() - i,
        {
            proof {
                assert(self@.links[i as int]
                    == (self.links@[i as int].0@, self.links@[i as int].1@));
            }
            if self.find_dependency(&self.links[i].0).is_none() {
                proof {
                    if links_declared(self@) {
                        assert(assoc_get(
                            self@.dependencies,
                            self@.links[i as int].0,
                        ) is Some);
                    }
                }
                return false;
            }
            i = i + 1;
        }
        true
    }

    /// Sets the pinned version of the dependency `name`, replacing an
    /// existing entry or appending a new one; the rest of the
    /// configuration is untouched.
    pub fn set_dependency(&mut self, name: &Name, version: Version)
        ensures
            final(self)@ == (ConfigView {
                dependencies: final(self)@.dependencies,
                ..old(self)@
            }),
            assoc_get(final(self)@.dependencies, name@) == Some(version@),
            match assoc_get(old(self)@.dependencies, name@) {
                Some(_) => final(self)@.dependencies.len() == old(self)@.dependencies.len(),
                None => final(self)@.dependencies == old(self)@.dependencies.push(
                    (name@, version@),
                ),
            },
            forall|k: NameView|
                k != name@ ==> #[trigger] assoc_get(final(self)@.dependencies, k) == assoc_get(
                    old(self)@.dependencies,
                    k,
                ),
            dep_entries_wf(old(self)@.dependencies) && name@.wf() && version@.wf()
                ==> dep_entries_wf(final(self)@.dependencies),
            links_declared(old(self)@) ==> links_declared(final(self)@),
            distinct_keys(old(self)@.dependencies) ==> distinct_keys(
                final(self)@.dependencies,
            ),
    {
        let ghost t0 = self@.dependencies;
        match self.find_dependency(name) {
            Some(i) => {
                self.dependencies.remove(i);
                self.dependencies.insert(i, (name.duplicate(), version));
                proof {
                    let t1 = self@.dependencies;
                    assert(t1 =~= t0.update(i as int, (name@, version@)));
                    assert forall|j: int| 0 <= j < i implies (#[trigger] t1[j]).0 != name@ by {
                        assert(t1[j] == t0[j]);
                    }
                    crate::tomldoc::lemma_assoc_get_at(t1, name@, i as int);
                    assert forall|k: NameView|
                        k != name@ implies #[trigger] assoc_get(t1, k) == assoc_get(t0, k) by {
                        lemma_assoc_get_update_other(t0, i as int, (name@, version@), k);
                    }
                    assert(final(self)@ =~= ConfigView {
                        dependencies: final(self)@.dependencies,
                        ..old(self)@
                    });
                    if links_declared(old(self)@) {
                        assert forall|li: int|
                            0 <= li < self@.links.len() implies assoc_get(
                            self@.dependencies,
                            (#[trigger] self@.links[li]).0,
                        ) is Some by {
                            let k = self@.links[li].0;
                            assert(old(self)@.links[li] == self@.links[li]);
                            assert(assoc_get(old(self)@.dependencies, k) is Some);
                        }
                    }
                    if distinct_keys(t0) {
                        let t1 = self@.dependencies;
                        assert forall|a: int, b: int|
                            0 <= a < b < t1.len() implies (#[trigger] t1[a]).0 != (
                            #[trigger] t1[b]).0 by {
                            if a != i {
                                assert(t1[a] == t0[a]);
                            }
                            if b != i {
                                assert(t1[b] == t0[b]);
                            }
                            assert(t0[i as int].0 == name@);
                        }
                    }
                }
            },
            None => {
                self.dependencies.push((name.duplicate(), version));
                proof {
                    let t1 = self@.dependencies;
                    assert(t1 =~= t0.push((name@, version@)));
                    assert forall|j: int| 0 <= j < t0.len() implies (#[trigger] t1[j]).0
                        != name@ by {
                        assert(t1[j] == t0[j]);
                        if t0[j].0 == name@ {
                            lemma_assoc_get_some_if_present(t0, name@, j);
                        }
                    }
                    assert(t1[t0.len() as int] == (name@, version@));
                    crate::tomldoc::lemma_assoc_get_at(t1, name@, t0.len() as int);
                    assert forall|k: NameView|
                        k != name@ implies #[trigger] assoc_get(t1, k) == assoc_get(t0, k) by {
                        lemma_assoc_get_push_other(t0, (name@, version@), k);
                    }
                    assert(final(self)@ =~= ConfigView {
                        dependencies: final(self)@.dependencies,
                        ..old(self)@
                    });
                    if links_declared(old(self)@) {
                        assert forall|li: int|
                            0 <= li < self@.links.len() implies assoc_get(
                            self@.dependencies,
                            (#[trigger] self@.links[li]).0,
                        ) is Some by {
                            let k = self@.links[li].0;
                            assert(old(self)@.links[li] == self@.links[li]);
                            assert(assoc_get(old(self)@.dependencies, k) is Some);
                        }
                    }
                    if distinct_keys(t0) {
                        let t1 = self@.dependencies;
                        assert forall|a: int, b: int|
                            0 <= a < b < t1.len() implies (#[trigger] t1[a]).0 != (
                            #[trigger] t1[b]).0 by {
                            if b < t1.len() - 1 {
                                assert(t1[a] == t0[a]);
                                assert(t1[b] == t0[b]);
                            } else {
                                assert(t1[a] == t0[a]);
                                if t1[a].0 == name@ {
                                    lemma_assoc_get_some_if_present(t0, name@, a);
                                }
                            }
                        }
                    }
                }
            },
        }
    }

    /// Removes the dependency entry for `name` if one exists; reports
    /// whether one was removed.
    #[verifier::loop_isolation(false)]
    pub fn remove_dependency_entry(&mut self, name: &Name) -> (removed: bool)
        ensures
            final(self)@ == (ConfigView {
                dependencies: final(self)@.dependencies,
                ..old(self)@
            }),
            assoc_get(final(self)@.dependencies, name@) is None,
            removed == (assoc_get(old(self)@.dependencies, name@) is Some),
            !removed ==> final(self)@ == old(self)@,
            forall|k: NameView|
                k != name@ ==> #[trigger] assoc_get(final(self)@.dependencies, k) == assoc_get(
                    old(self)@.dependencies,
                    k,
                ),
            dep_entries_wf(old(self)@.dependencies) ==> dep_entries_wf(
                final(self)@.dependencies,
            ),
            links_declared(old(self)@) && assoc_get(old(self)@.links, name@) is None
                ==> links_declared(final(self)@),
            distinct_keys(old(self)@.dependencies) ==> distinct_keys(
                final(self)@.dependencies,
            ),
    {
        let mut changed = false;
        loop
            invariant
                self@ == (ConfigView { dependencies: self@.dependencies, ..old(self)@ }),
                changed ==> assoc_get(old(self)@.dependencies, name@) is Some,
                !changed ==> self@ == old(self)@,
                forall|k: NameView|
                    k != name@ ==> #[trigger] assoc_get(self@.dependencies, k) == assoc_get(
                        old(self)@.dependencies,
                        k,
                    ),
                dep_entries_wf(old(self)@.dependencies) ==> dep_entries_wf(self@.dependencies),
                distinct_keys(old(self)@.dependencies) ==> distinct_keys(self@.dependencies),
            decreases self.dependencies@.len(),
        {
            match self.find_dependency(name) {
                Some(i) => {
                    let ghost before = self@.dependencies;
                    self.dependencies.remove(i);
                    changed = true;
                    proof {
                        assert(self@ =~= ConfigView { dependencies: self@.dependencies, ..old(self)@ });
                        assert(self@.dependencies =~= before.remove(i as int));
                        assert forall|k: NameView|
                            k != name@ implies #[trigger] assoc_get(self@.dependencies, k)
                            == assoc_get(old(self)@.dependencies, k) by {
                            lemma_assoc_get_remove_other(before, i as int, k);
                        }
                        if dep_entries_wf(before) {
                            let t1 = self@.dependencies;
                            assert forall|j: int|
                                0 <= j < t1.len() implies (#[trigger] t1[j]).0.wf()
                                && t1[j].1.wf() by {
                                if j < i {
                                    assert(t1[j] == before[j]);
                                } else {
                                    assert(t1[j] == before[j + 1]);
                                }
                            }
                        }
                        if distinct_keys(before) {
                            let t1 = self@.dependencies;
                            assert forall|a: int, b: int|
                                0 <= a < b < t1.len() implies (#[trigger] t1[a]).0 != (
                                #[trigger] t1[b]).0 by {
                                assert(t1[a] == (if a < i { before[a] } else { before[a + 1] }));
                                assert(t1[b] == (if b < i { before[b] } else { before[b + 1] }));
                            }
                        }
                    }
                },
                None => {
                    proof {
                        if links_declared(old(self)@) && assoc_get(
                            old(self)@.links,
                            name@,
                        ) is None {
                            assert forall|li: int|
                                0 <= li < self@.links.len() implies assoc_get(
                                self@.dependencies,
                                (#[trigger] self@.links[li]).0,
                            ) is Some by {
                                let k = self@.links[li].0;
                                assert(self@.links == old(self)@.links);
                                assert(old(self)@.links[li] == self@.links[li]);
                                assert(k != name@) by {
                                    if k == name@ {
                                        lemma_assoc_get_some_if_present(
                                            old(self)@.links,
                                            name@,
                                            li,
                                        );
                                    }
                                }
                                assert(assoc_get(old(self)@.dependencies, k) is Some);
                            }
                        }
                    }
                    return changed;
                },
            }
        }
    }

    /// Records a link path for `name`, replacing an existing entry or
    /// appending a new one.
    pub fn set_link(&mut self, name: &Name, path: String)
        ensures
            final(self)@ == (ConfigView { links: final(self)@.links, ..old(self)@ }),
            assoc_get(final(self)@.links, name@) == Some(path@),
            forall|k: NameView|
                k != name@ ==> #[trigger] assoc_get(final(self)@.links, k) == assoc_get(
                    old(self)@.links,
                    k,
                ),
            named_entries_wf(old(self)@.links) && name@.wf() ==> named_entries_wf(
                final(self)@.links,
            ),
            links_declared(old(self)@) && assoc_get(old(self)@.dependencies, name@) is Some
                ==> links_declared(final(self)@),
            distinct_keys(old(self)@.links) ==> distinct_keys(final(self)@.links),
    {
        let ghost t0 = self@.links;
        match self.find_link(name) {
            Some(i) => {
                self.links.remove(i);
                self.links.insert(i, (name.duplicate(), path));
                proof {
                    let t1 = self@.links;
                    assert(t1 =~= t0.update(i as int, (name@, t1[i as int].1)));
                    assert forall|j: int| 0 <= j < i implies (#[trigger] t1[j]).0 != name@ by {
                        assert(t1[j] == t0[j]);
                    }
                    crate::tomldoc::lemma_assoc_get_at(t1, name@, i as int);
                    assert forall|k: NameView|
                        k != name@ implies #[trigger] assoc_get(t1, k) == assoc_get(t0, k) by {
                        lemma_assoc_get_update_other(t0, i as int, t1[i as int], k);
                    }
                    assert(final(self)@ =~= ConfigView { links: final(self)@.links, ..old(self)@ });
                    if links_declared(old(self)@) && assoc_get(
                        old(self)@.dependencies,
                        name@,
                    ) is Some {
                        assert forall|li: int|
                            0 <= li < self@.links.len() implies assoc_get(
                            self@.dependencies,
                            (#[trigger] self@.links[li]).0,
                        ) is Some by {
                            assert(self@.dependencies == old(self)@.dependencies);
                            if li != i {
                                assert(self@.links[li] == old(self)@.links[li]);
                                assert(assoc_get(
                                    old(self)@.dependencies,
                                    old(self)@.links[li].0,
                                ) is Some);
                            } else {
                                assert(self@.links[li].0 == name@);
                            }
                        }
                    }
                    if distinct_keys(t0) {
                        let t1 = self@.links;
                        assert forall|a: int, b: int|
                            0 <= a < b < t1.len() implies (#[trigger] t1[a]).0 != (
                            #[trigger] t1[b]).0 by {
                            if a != i {
                                assert(t1[a] == t0[a]);
                            }
                            if b != i {
                                assert(t1[b] == t0[b]);
                            }
                            assert(t0[i as int].0 == name@);
                        }
                    }
                }
            },
            None => {
                self.links.push((name.duplicate(), path));
                proof {
                    let t1 = self@.links;
                    assert(t1 =~= t0.push(t1[t0.len() as int]));
                    assert forall|j: int| 0 <= j < t0.len() implies (#[trigger] t1[j]).0
                        != name@ by {
                        assert(t1[j] == t0[j]);
                        if t0[j].0 == name@ {
                            lemma_assoc_get_some_if_present(t0, name@, j);
                        }
                    }
                    assert(t1[t0.len() as int].0 == name@);
                    crate::tomldoc::lemma_assoc_get_at(t1, name@, t0.len() as int);
                    assert forall|k: NameView|
                        k != name@ implies #[trigger] assoc_get(t1, k) == assoc_get(t0, k) by {
                        lemma_assoc_get_push_other(t0, t1[t0.len() as int], k);
                    }
                    assert(final(self)@ =~= ConfigView { links: final(self)@.links, ..old(self)@ });
                    if links_declared(old(self)@) && assoc_get(
                        old(self)@.dependencies,
                        name@,
                    ) is Some {
                        assert forall|li: int|
                            0 <= li < self@.links.len() implies assoc_get(
                            self@.dependencies,
                            (#[trigger] self@.links[li]).0,
                        ) is Some by {
                            assert(self@.dependencies == old(self)@.dependencies);
                            if li < self@.links.len() - 1 {
                                assert(self@.links[li] == old(self)@.links[li]);
                                assert(assoc_get(
                                    old(self)@.dependencies,
                                    old(self)@.links[li].0,
                                ) is Some);
                            } else {
                                assert(self@.links[li].0 == name@);
                            }
                        }
                    }
                    if distinct_keys(t0) {
                        let t1 = self@.links;
                        assert forall|a: int, b: int|
                            0 <= a < b < t1.len() implies (#[trigger] t1[a]).0 != (
                            #[trigger] t1[b]).0 by {
                            if b < t1.len() - 1 {
                                assert(t1[a] == t0[a]);
                                assert(t1[b] == t0[b]);
                            } else {
                                assert(t1[a] == t0[a]);
                                if t1[a].0 == name@ {
                                    lemma_assoc_get_some_if_present(t0, name@, a);
                                }
                            }
                        }
                    }
                }
            },
        }
    }

    /// Removes the link entry for `name` if one exists; reports whether
    /// one was removed.
    #[verifier::loop_isolation(false)]
    pub fn remove_link_entry(&mut self, name: &Name) -> (removed: bool)
        ensures
            final(self)@ == (ConfigView { links: final(self)@.links, ..old(self)@ }),
            assoc_get(final(self)@.links, name@) is None,
            removed == (assoc_get(old(self)@.links, name@) is Some),
            !removed ==> final(self)@ == old(self)@,
            forall|k: NameView|
                k != name@ ==> #[trigger] assoc_get(final(self)@.links, k) == assoc_get(
                    old(self)@.links,
                    k,
                ),
            named_entries_wf(old(self)@.links) ==> named_entries_wf(final(self)@.links),
            links_declared(old(self)@) ==> links_declared(final(self)@),
            distinct_keys(old(self)@.links) ==> distinct_keys(final(self)@.links),
    {
        let mut changed = false;
        loop
            invariant
                self@ == (ConfigView { links: self@.links, ..old(self)@ }),
                changed ==> assoc_get(old(self)@.links, name@) is Some,
                !changed ==> self@ == old(self)@,
                forall|k: NameView|
                    k != name@ ==> #[trigger] assoc_get(self@.links, k) == assoc_get(
                        old(self)@.links,
                        k,
                    ),
                named_entries_wf(old(self)@.links) ==> named_entries_wf(self@.links),
                links_declared(old(self)@) ==> links_declared(self@),
                distinct_keys(old(self)@.links) ==> distinct_keys(self@.links),
            decreases self.links@.len(),
        {
            match self.find_link(name) {
                Some(i) => {
                    let ghost before = self@.links;
                    let ghost cfg_before = self@;
                    self.links.remove(i);
                    changed = true;
                    proof {
                        assert(self@ =~= ConfigView { links: self@.links, ..old(self)@ });
                        assert(self@.links =~= before.remove(i as int));
                        assert forall|k: NameView|
                            k != name@ implies #[trigger] assoc_get(self@.links, k)
                            == assoc_get(old(self)@.links, k) by {
                            lemma_assoc_get_remove_other(before, i as int, k);
                        }
                        if links_declared(old(self)@) {
                            assert forall|li: int|
                                0 <= li < self@.links.len() implies assoc_get(
                                self@.dependencies,
                                (#[trigger] self@.links[li]).0,
                            ) is Some by {
                                assert(self@.dependencies == cfg_before.dependencies);
                                if li < i {
                                    assert(self@.links[li] == cfg_before.links[li]);
                                    assert(assoc_get(
                                        cfg_before.dependencies,
                                        cfg_before.links[li].0,
                                    ) is Some);
                                } else {
                                    assert(self@.links[li] == cfg_before.links[li + 1]);
                                    assert(assoc_get(
                                        cfg_before.dependencies,
                                        cfg_before.links[li + 1].0,
                                    ) is Some);
                                }
                            }
                        }
                        if named_entries_wf(before) {
                            let t1 = self@.links;
                            assert forall|j: int|
                                0 <= j < t1.len() implies (#[trigger] t1[j]).0.wf() by {
                                if j < i {
                                    assert(t1[j] == before[j]);
                                } else {
                                    assert(t1[j] == before[j + 1]);
                                }
                            }
                        }
                        if distinct_keys(before) {
                            let t1 = self@.links;
                            assert forall|a: int, b: int|
                                0 <= a < b < t1.len() implies (#[trigger] t1[a]).0 != (
                                #[trigger] t1[b]).0 by {
                                assert(t1[a] == (if a < i { before[a] } else { before[a + 1] }));
                                assert(t1[b] == (if b < i { before[b] } else { before[b + 1] }));
                            }
                        }
                    }
                },
                None => {
                    return changed;
                },
            }
        }
    }
}

// ---------------------------------------------------------------------------
// Writing the canonical configuration back as a document
// ---------------------------------------------------------------------------

/// The text a condition is written as.
pub open spec fn cond_text(c: Condition) -> Seq<char> {
    match c {
        Condition::Unix => "unix"@,
        Condition::Windows => "windows"@,
    }
}

/// The item a restriction-settings entry is written as.
pub open spec fn item_of_settings(s: SettingsView) -> ItemView {
    ItemView::Table(
        (match s.inclusion {
            Some(Requirement::Require) => seq![(inclusion_key(), LeafView::Text("require"@))],
            Some(Requirement::Forbid) => seq![(inclusion_key(), LeafView::Text("forbid"@))],
            None => seq![],
        }) + (match s.dependencies {
            Some(d) => seq![("dependencies"@, LeafView::TextList(d))],
            None => seq![],
        }),
    )
}

/// The items of the identity block.
pub open spec fn repo_items_of(c: ConfigView) -> Seq<(Seq<char>, ItemView)> {
    seq![
        ("name"@, ItemView::Text(crate::name::text_of_name(c.name))),
        ("version"@, ItemView::Text(crate::version::render_version(c.version))),
    ] + match c.git {
        Some(g) => seq![
            (
                "git"@,
                ItemView::Table(
                    seq![("url"@, LeafView::Text(g.url)), ("path"@, LeafView::Text(g.path))],
                ),
            ),
        ],
        None => seq![],
    }
}

/// The document a canonical configuration is persisted as: the newest
/// generation's marker and shape, with empty maps left out.
pub open spec fn doc_of_config(c: ConfigView) -> Seq<(Seq<char>, SectionView)> {
    seq![
        (
            "environment"@,
            SectionView::Table(seq![("version"@, ItemView::Text("0.3.0"@))]),
        ),
        ("repository"@, SectionView::Table(repo_items_of(c))),
    ] + (if c.scripts.len() > 0 {
        seq![
            (
                "scripts"@,
                SectionView::Table(
                    c.scripts.map_values(
                        |p: (Seq<char>, Seq<char>)| (p.0, ItemView::Text(p.1)),
                    ),
                ),
            ),
        ]
    } else {
        seq![]
    }) + (if c.dependencies.len() > 0 {
        seq![
            (
                "dependencies"@,
                SectionView::Table(
                    c.dependencies.map_values(
                        |p: (NameView, VersionView)|
                            (
                                crate::name::text_of_name(p.0),
                                ItemView::Text(crate::version::render_version(p.1)),
                            ),
                    ),
                ),
            ),
        ]
    } else {
        seq![]
    }) + (if c.links.len() > 0 {
        seq![
            (
                "links"@,
                SectionView::Table(
                    c.links.map_values(
                        |p: (NameView, Seq<char>)|
                            (crate::name::text_of_name(p.0), ItemView::Text(p.1)),
                    ),
                ),
            ),
        ]
    } else {
        seq![]
    }) + (if c.restrict.len() > 0 {
        seq![
            (
                "restrict"@,
                SectionView::Table(
                    c.restrict.map_values(
                        |p: (Condition, SettingsView)| (cond_text(p.0), item_of_settings(p.1)),
                    ),
                ),
            ),
        ]
    } else {
        seq![]
    })
}

/// Writes the leaves of one restriction-settings entry.
fn settings_to_leaves(s: &Settings) -> (r: Vec<(String, TomlLeaf)>)
    ensures
        ItemView::Table(lpairs(r@)) == item_of_settings(s@),
{
    let mut leaves: Vec<(String, TomlLeaf)> = Vec::new();
    match &s.inclusion {
        Some(Requirement::Require) => {
            leaves.push((inclusion_key_text(), TomlLeaf::Text("require".to_owned())));
        },
        Some(Requirement::Forbid) => {
            leaves.push((inclusion_key_text(), TomlLeaf::Text("forbid".to_owned())));
        },
        None => {},
    }
    match &s.dependencies {
        Some(d) => {
            leaves.push(("dependencies".to_owned(), TomlLeaf::TextList(copy_strings(d))));
        },
        None => {},
    }
    proof {
        assert(lpairs(leaves@) =~= (match s@.inclusion {
            Some(Requirement::Require) => seq![(inclusion_key(), LeafView::Text("require"@))],
            Some(Requirement::Forbid) => seq![(inclusion_key(), LeafView::Text("forbid"@))],
            None => seq![],
        }) + (match s@.dependencies {
            Some(d) => seq![("dependencies"@, LeafView::TextList(d))],
            None => seq![],
        }));
    }
    leaves
}

impl Config {
    /// Writes the configuration as a newest-generation document, ready to
    /// be rendered and persisted; empty maps are left out, as the newest
    /// generation's writer always did.
    #[verifier::loop_isolation(false)]
    pub fn to_doc(&self) -> (r: TomlDoc)
        requires
            self.wf(),
        ensures
            r@ == doc_of_config(self@),
    {
        let mut sections: Vec<(String, TomlSection)> = Vec::new();
        // environment
        let mut env_items: Vec<(String, TomlItem)> = Vec::new();
        env_items.push(("version".to_owned(), TomlItem::Text("0.3.0".to_owned())));
        sections.push(("environment".to_owned(), TomlSection::Table(env_items)));
        // repository
        let mut repo_items: Vec<(String, TomlItem)> = Vec::new();
        repo_items.push(("name".to_owned(), TomlItem::Text(self.name.to_text())));
        repo_items.push(("version".to_owned(), TomlItem::Text(self.version.render())));
        match &self.git {
            Some(g) => {
                let mut git_leaves: Vec<(String, TomlLeaf)> = Vec::new();
                git_leaves.push(("url".to_owned(), TomlLeaf::Text(g.url.clone())));
                git_leaves.push(("path".to_owned(), TomlLeaf::Text(g.path.clone())));
                repo_items.push(("git".to_owned(), TomlItem::Table(git_leaves)));
            },
            None => {},
        }
        proof {
            assert(ipairs(repo_items@).len() == repo_items_of(self@).len());
            assert(ipairs(repo_items@)[0] =~~= repo_items_of(self@)[0]);
            assert(ipairs(repo_items@)[1] =~~= repo_items_of(self@)[1]);
            if self@.git is Some {
                assert(ipairs(repo_items@)[2] =~~= repo_items_of(self@)[2]);
            }
            assert(ipairs(repo_items@) =~~= repo_items_of(self@));
        }
        sections.push(("repository".to_owned(), TomlSection::Table(repo_items)));
        // scripts
        if self.scripts.len() > 0 {
            let mut items: Vec<(String, TomlItem)> = Vec::new();
            let mut i: usize = 0;
            while i < self.scripts.len()
                invariant
                    i <= self.scripts@.len(),
                    items@.len() == i,
                    forall|j: int|
                        0 <= j < i ==> #[trigger] items@[j].0@ == self.scripts@[j].0@
                            && items@[j].1@ == ItemView::Text(self.scripts@[j].1@),
                decreases self.scripts@.len() - i,
            {
                items.push((self.scripts[i].0.clone(), TomlItem::Text(self.scripts[i].1.clone())));
                i = i + 1;
            }
            proof {
                assert(ipairs(items@) =~= self@.scripts.map_values(
                    |p: (Seq<char>, Seq<char>)| (p.0, ItemView::Text(p.1)),
                ));
            }
            sections.push(("scripts".to_owned(), TomlSection::Table(items)));
        }
        // dependencies
        if self.dependencies.len() > 0 {
            let mut items: Vec<(String, TomlItem)> = Vec::new();
            let mut i: usize = 0;
            while i < self.dependencies.len()
                invariant
                    i <= self.dependencies@.len(),
                    items@.len() == i,
                    forall|j: int|
                        0 <= j < i ==> #[trigger] items@[j].0@ == crate::name::text_of_name(
                            self.dependencies@[j].0@,
                        ) && items@[j].1@ == ItemView::Text(
                            crate::version::render_version(self.dependencies@[j].1@),
                        ),
                decreases self.dependencies@.len() - i,
            {
                proof {
                    assert(self@.dependencies[i as int]
                        == (self.dependencies@[i as int].0@, self.dependencies@[i as int].1@));
                }
                items.push(
                    (
                        self.dependencies[i].0.to_text(),
                        TomlItem::Text(self.dependencies[i].1.render()),
                    ),
                );
                i = i + 1;
            }
            proof {
                assert(ipairs(items@) =~= self@.dependencies.map_values(
                    |p: (NameView, VersionView)|
                        (
                            crate::name::text_of_name(p.0),
                            ItemView::Text(crate::version::render_version(p.1)),
                        ),
                ));
            }
            sections.push(("dependencies".to_owned(), TomlSection::Table(items)));
        }
        // links
        if self.links.len() > 0 {
            let mut items: Vec<(String, TomlItem)> = Vec::new();
            let mut i: usize = 0;
            while i < self.links.len()
                invariant
                    i <= self.links@.len(),
                    items@.len() == i,
                    forall|j: int|
                        0 <= j < i ==> #[trigger] items@[j].0@ == crate::name::text_of_name(
                            self.links@[j].0@,
                        ) && items@[j].1@ == ItemView::Text(self.links@[j].1@),
                decreases self.links@.len() - i,
            {
                proof {
                    assert(self@.links[i as int]
                        == (self.links@[i as int].0@, self.links@[i as int].1@));
                }
                items.push((self.links[i].0.to_text(), TomlItem::Text(self.links[i].1.clone())));
                i = i + 1;
            }
            proof {
                assert(ipairs(items@) =~= self@.links.map_values(
                    |p: (NameView, Seq<char>)|
                        (crate::name::text_of_name(p.0), ItemView::Text(p.1)),
                ));
            }
            sections.push(("links".to_owned(), TomlSection::Table(items)));
        }
        // restrict
        if self.restrict.len() > 0 {
            let mut items: Vec<(String, TomlItem)> = Vec::new();
            let mut i: usize = 0;
            while i < self.restrict.len()
                invariant
                    i <= self.restrict@.len(),
                    items@.len() == i,
                    forall|j: int|
                        0 <= j < i ==> #[trigger] items@[j].0@ == cond_text(self.restrict@[j].0)
                            && items@[j].1@ == item_of_settings(self.restrict@[j].1@),
                decreases self.restrict@.len() - i,
            {
                let key = match self.restrict[i].0 {
                    Condition::Unix => "unix".to_owned(),
                    Condition::Windows => "windows".to_owned(),
                };
                let leaves = settings_to_leaves(&self.restrict[i].1);
                items.push((key, TomlItem::Table(leaves)));
                i = i + 1;
            }
            proof {
                assert(ipairs(items@) =~= self@.restrict.map_values(
                    |p: (Condition, SettingsView)| (cond_text(p.0), item_of_settings(p.1)),
                ));
            }
            sections.push(("restrict".to_owned(), TomlSection::Table(items)));
        }
        let r = TomlDoc { sections };
        proof {
            assert(r@ =~~= doc_of_config(self@));
        }
        r
    }
}

// ---------------------------------------------------------------------------
// A written document reads back as the same configuration
// ---------------------------------------------------------------------------

/// Text items written from a map read back as that map.
proof fn lemma_texts_items_read_back(m: Seq<(Seq<char>, Seq<char>)>)
    ensures
        texts_of_items(m.map_values(|p: (Seq<char>, Seq<char>)| (p.0, ItemView::Text(p.1))))
            == Some(m),
    decreases m.len(),
{
    let w = m.map_values(|p: (Seq<char>, Seq<char>)| (p.0, ItemView::Text(p.1)));
    if m.len() == 0 {
        assert(texts_of_items(w) == Some(Seq::<(Seq<char>, Seq<char>)>::empty()));
        assert(Seq::<(Seq<char>, Seq<char>)>::empty() =~= m);
    } else {
        lemma_texts_items_read_back(m.skip(1));
        assert(w.skip(1) =~= m.skip(1).map_values(
            |p: (Seq<char>, Seq<char>)| (p.0, ItemView::Text(p.1)),
        ));
        assert(texts_of_items(w)->Some_0 =~= m);
    }
}

/// Dependency items written from pinned entries read back as those
/// entries.
proof fn lemma_pinned_deps_read_back(m: Seq<(NameView, VersionView)>)
    requires
        dep_entries_wf(m),
    ensures
        pinned_deps_of_items(
            m.map_values(
                |p: (NameView, VersionView)|
                    (
                        crate::name::text_of_name(p.0),
                        ItemView::Text(crate::version::render_version(p.1)),
                    ),
            ),
        ) == Some(m),
    decreases m.len(),
{
    let w = m.map_values(
        |p: (NameView, VersionView)|
            (
                crate::name::text_of_name(p.0),
                ItemView::Text(crate::version::render_version(p.1)),
            ),
    );
    if m.len() == 0 {
        assert(pinned_deps_of_items(w) == Some(Seq::<(NameView, VersionView)>::empty()));
        assert(Seq::<(NameView, VersionView)>::empty() =~= m);
    } else {
        assert(m[0].0.wf() && m[0].1.wf());
        crate::name::lemma_name_text_round_trip(m[0].0);
        crate::version::lemma_version_round_trip(m[0].1);
        assert forall|i: int| 0 <= i < m.skip(1).len() implies (#[trigger] m.skip(1)[i]).0.wf()
            && m.skip(1)[i].1.wf() by {
            assert(m.skip(1)[i] == m[i + 1]);
        }
        lemma_pinned_deps_read_back(m.skip(1));
        assert(w.skip(1) =~= m.skip(1).map_values(
            |p: (NameView, VersionView)|
                (
                    crate::name::text_of_name(p.0),
                    ItemView::Text(crate::version::render_version(p.1)),
                ),
        ));
        assert(pinned_deps_of_items(w)->Some_0 =~= m);
    }
}

/// Link items written from named entries read back as those entries.
proof fn lemma_named_texts_read_back(m: Seq<(NameView, Seq<char>)>)
    requires
        named_entries_wf(m),
    ensures
        named_texts_of_items(
            m.map_values(
                |p: (NameView, Seq<char>)| (crate::name::text_of_name(p.0), ItemView::Text(p.1)),
            ),
        ) == Some(m),
    decreases m.len(),
{
    let w = m.map_values(
        |p: (NameView, Seq<char>)| (crate::name::text_of_name(p.0), ItemView::Text(p.1)),
    );
    if m.len() == 0 {
        assert(named_texts_of_items(w) == Some(Seq::<(NameView, Seq<char>)>::empty()));
        assert(Seq::<(NameView, Seq<char>)>::empty() =~= m);
    } else {
        assert(m[0].0.wf());
        crate::name::lemma_name_text_round_trip(m[0].0);
        assert forall|i: int| 0 <= i < m.skip(1).len() implies (#[trigger] m.skip(1)[i]).0.wf() by {
            assert(m.skip(1)[i] == m[i + 1]);
        }
        lemma_named_texts_read_back(m.skip(1));
        assert(w.skip(1) =~= m.skip(1).map_values(
            |p: (NameView, Seq<char>)| (crate::name::text_of_name(p.0), ItemView::Text(p.1)),
        ));
        assert(named_texts_of_items(w)->Some_0 =~= m);
    }
}

/// Written restriction settings read back as themselves.
proof fn lemma_settings_read_back(s: SettingsView)
    ensures
        settings_of_item(item_of_settings(s)) == Some(s),
{
    reveal_strlit("inclu");
    reveal_strlit("de");
    reveal_strlit("dependencies");
    reveal_strlit("require");
    reveal_strlit("forbid");
    assert(inclusion_key().len() == 7);
    assert(inclusion_key() != "dependencies"@);
    let leaves = (match s.inclusion {
        Some(Requirement::Require) => seq![(inclusion_key(), LeafView::Text("require"@))],
        Some(Requirement::Forbid) => seq![(inclusion_key(), LeafView::Text("forbid"@))],
        None => seq![],
    }) + (match s.dependencies {
        Some(d) => seq![("dependencies"@, LeafView::TextList(d))],
        None => seq![],
    });
    assert(item_of_settings(s) == ItemView::Table(leaves));
    assert(requirement_of("require"@) == Some(Requirement::Require));
    assert(requirement_of("forbid"@) == Some(Requirement::Forbid)) by {
        assert("forbid"@.len() != "require"@.len());
    }
    match (s.inclusion, s.dependencies) {
        (None, None) => {
            assert(leaves =~= Seq::<(Seq<char>, LeafView)>::empty());
            lemma_assoc_get_absent_empty::<LeafView>(inclusion_key());
            lemma_assoc_get_absent_empty::<LeafView>("dependencies"@);
            assert(settings_of_item(item_of_settings(s))->Some_0 =~= s);
        },
        (Some(r), None) => {
            let lv = if r == Requirement::Require {
                LeafView::Text("require"@)
            } else {
                LeafView::Text("forbid"@)
            };
            assert(leaves =~= seq![(inclusion_key(), lv)]);
            assert(assoc_get(leaves, inclusion_key()) == Some(lv));
            assert(leaves.skip(1) =~= Seq::<(Seq<char>, LeafView)>::empty());
            lemma_assoc_get_absent_empty::<LeafView>("dependencies"@);
            assert(assoc_get(leaves, "dependencies"@) is None);
            assert(settings_of_item(item_of_settings(s))->Some_0 =~= s);
        },
        (None, Some(d)) => {
            assert(leaves =~= seq![("dependencies"@, LeafView::TextList(d))]);
            assert(leaves.skip(1) =~= Seq::<(Seq<char>, LeafView)>::empty());
            lemma_assoc_get_absent_empty::<LeafView>(inclusion_key());
            assert(assoc_get(leaves, inclusion_key()) is None);
            assert(assoc_get(leaves, "dependencies"@) == Some(LeafView::TextList(d)));
            assert(settings_of_item(item_of_settings(s))->Some_0 =~= s);
        },
        (Some(r), Some(d)) => {
            let lv = if r == Requirement::Require {
                LeafView::Text("require"@)
            } else {
                LeafView::Text("forbid"@)
            };
            assert(leaves =~= seq![(inclusion_key(), lv), ("dependencies"@, LeafView::TextList(d))]);
            assert(assoc_get(leaves, inclusion_key()) == Some(lv));
            assert(leaves.skip(1) =~= seq![("dependencies"@, LeafView::TextList(d))]);
            assert(leaves.skip(1).skip(1) =~= Seq::<(Seq<char>, LeafView)>::empty());
            assert(assoc_get(leaves.skip(1), "dependencies"@) == Some(LeafView::TextList(d)));
            assert(assoc_get(leaves, "dependencies"@) == Some(LeafView::TextList(d)));
            assert(settings_of_item(item_of_settings(s))->Some_0 =~= s);
        },
    }
}

/// An empty table holds nothing.
proof fn lemma_assoc_get_absent_empty<V>(key: Seq<char>)
    ensures
        assoc_get(Seq::<(Seq<char>, V)>::empty(), key) is None,
{
}

/// Written restriction items read back as themselves.
proof fn lemma_restrict_read_back(m: Seq<(Condition, SettingsView)>)
    ensures
        restrict_of_items(
            m.map_values(|p: (Condition, SettingsView)| (cond_text(p.0), item_of_settings(p.1))),
        ) == Some(m),
    decreases m.len(),
{
    let w = m.map_values(|p: (Condition, SettingsView)| (cond_text(p.0), item_of_settings(p.1)));
    if m.len() == 0 {
        assert(restrict_of_items(w) == Some(Seq::<(Condition, SettingsView)>::empty()));
        assert(Seq::<(Condition, SettingsView)>::empty() =~= m);
    } else {
        reveal_strlit("unix");
        reveal_strlit("windows");
        assert("unix"@.len() != "windows"@.len());
        assert(condition_of(cond_text(m[0].0)) == Some(m[0].0));
        lemma_settings_read_back(m[0].1);
        lemma_restrict_read_back(m.skip(1));
        assert(w.skip(1) =~= m.skip(1).map_values(
            |p: (Condition, SettingsView)| (cond_text(p.0), item_of_settings(p.1)),
        ));
        assert(restrict_of_items(w)->Some_0 =~= m);
    }
}

/// What a well-formed configuration persists as is read back as exactly
/// that configuration: saving loses nothing, and loading what was saved
/// needs no migration hop.
#[verifier::rlimit(100)]
pub proof fn lemma_saved_config_reads_back(c: ConfigView)
    requires
        c.wf(),
    ensures
        canonical_of_doc(doc_of_config(c)) == Some(c),
{
    reveal_strlit("environment");
    reveal_strlit("repository");
    reveal_strlit("scripts");
    reveal_strlit("dependencies");
    reveal_strlit("links");
    reveal_strlit("restrict");
    reveal_strlit("name");
    reveal_strlit("version");
    reveal_strlit("git");
    reveal_strlit("url");
    reveal_strlit("path");
    reveal_strlit("0.3.0");
    assert("environment"@.len() == 11);
    assert("repository"@.len() == 10);
    assert("scripts"@.len() == 7);
    assert("dependencies"@.len() == 12);
    assert("links"@.len() == 5);
    assert("restrict"@.len() == 8);
    assert("name"@.len() == 4);
    assert("version"@.len() == 7);
    assert("git"@.len() == 3);
    assert("url"@.len() == 3);
    assert("path"@.len() == 4);
    assert("url"@ != "path"@) by {
        assert("url"@.len() != "path"@.len());
    }
    assert("git"@ != "name"@) by {
        assert("git"@.len() != "name"@.len());
    }
    let d = doc_of_config(c);
    let ns: int = if c.scripts.len() > 0 {
        1
    } else {
        0
    };
    let nd: int = if c.dependencies.len() > 0 {
        1
    } else {
        0
    };
    let nl: int = if c.links.len() > 0 {
        1
    } else {
        0
    };
    let nr: int = if c.restrict.len() > 0 {
        1
    } else {
        0
    };
    let env_sec = SectionView::Table(seq![("version"@, ItemView::Text("0.3.0"@))]);
    let repo_sec = SectionView::Table(repo_items_of(c));
    let scripts_sec = SectionView::Table(
        c.scripts.map_values(|p: (Seq<char>, Seq<char>)| (p.0, ItemView::Text(p.1))),
    );
    let deps_sec = SectionView::Table(
        c.dependencies.map_values(
            |p: (NameView, VersionView)|
                (
                    crate::name::text_of_name(p.0),
                    ItemView::Text(crate::version::render_version(p.1)),
                ),
        ),
    );
    let links_sec = SectionView::Table(
        c.links.map_values(
            |p: (NameView, Seq<char>)| (crate::name::text_of_name(p.0), ItemView::Text(p.1)),
        ),
    );
    let restrict_sec = SectionView::Table(
        c.restrict.map_values(
            |p: (Condition, SettingsView)| (cond_text(p.0), item_of_settings(p.1)),
        ),
    );
    // The layout of the written document.
    assert(d.len() == 2 + ns + nd + nl + nr);
    assert(d[0] == ("environment"@, env_sec));
    assert(d[1] == ("repository"@, repo_sec));
    if ns == 1 {
        assert(d[2] == ("scripts"@, scripts_sec));
    }
    if nd == 1 {
        assert(d[2 + ns] == ("dependencies"@, deps_sec));
    }
    if nl == 1 {
        assert(d[2 + ns + nd] == ("links"@, links_sec));
    }
    if nr == 1 {
        assert(d[2 + ns + nd + nl] == ("restrict"@, restrict_sec));
    }
    // Every position holds one of six pairwise distinct keys.
    assert forall|j: int| 0 <= j < d.len() implies #[trigger] d[j].0 == "environment"@ || d[j].0
        == "repository"@ || d[j].0 == "scripts"@ || d[j].0 == "dependencies"@ || d[j].0
        == "links"@ || d[j].0 == "restrict"@ by {}
    // The six top-level lookups.
    assert(assoc_get(d, "environment"@) == Some(env_sec)) by {
        crate::tomldoc::lemma_assoc_get_at(d, "environment"@, 0);
    }
    assert(assoc_get(d, "repository"@) == Some(repo_sec)) by {
        assert(d[0].0 != "repository"@);
        crate::tomldoc::lemma_assoc_get_at(d, "repository"@, 1);
    }
    if ns == 1 {
        assert(assoc_get(d, "scripts"@) == Some(scripts_sec)) by {
            crate::tomldoc::lemma_assoc_get_at(d, "scripts"@, 2);
        }
    } else {
        assert(assoc_get(d, "scripts"@) is None) by {
            crate::tomldoc::lemma_assoc_get_absent(d, "scripts"@);
        }
    }
    if nd == 1 {
        assert(assoc_get(d, "dependencies"@) == Some(deps_sec)) by {
            crate::tomldoc::lemma_assoc_get_at(d, "dependencies"@, 2 + ns);
        }
    } else {
        assert(assoc_get(d, "dependencies"@) is None) by {
            crate::tomldoc::lemma_assoc_get_absent(d, "dependencies"@);
        }
    }
    if nl == 1 {
        assert(assoc_get(d, "links"@) == Some(links_sec)) by {
            crate::tomldoc::lemma_assoc_get_at(d, "links"@, 2 + ns + nd);
        }
    } else {
        assert(assoc_get(d, "links"@) is None) by {
            crate::tomldoc::lemma_assoc_get_absent(d, "links"@);
        }
    }
    if nr == 1 {
        assert(assoc_get(d, "restrict"@) == Some(restrict_sec)) by {
            crate::tomldoc::lemma_assoc_get_at(d, "restrict"@, 2 + ns + nd + nl);
        }
    } else {
        assert(assoc_get(d, "restrict"@) is None) by {
            crate::tomldoc::lemma_assoc_get_absent(d, "restrict"@);
        }
    }
    // The schema marker.
    assert(env_marker_of(d) == Some("0.3.0"@)) by {
        let items = seq![("version"@, ItemView::Text("0.3.0"@))];
        assert(assoc_get(items, "version"@) == Some(items[0].1));
    }
    // The identity block.
    assert(repo_meta_of(d) == Some(
        RepositoryMetaView { name: c.name, version: c.version, git: c.git },
    )) by {
        let items = repo_items_of(c);
        assert(items[0] == ("name"@, ItemView::Text(crate::name::text_of_name(c.name))));
        assert(items[1] == ("version"@, ItemView::Text(crate::version::render_version(c.version))));
        assert(text_item(items, "name"@) == Some(crate::name::text_of_name(c.name))) by {
            crate::tomldoc::lemma_assoc_get_at(items, "name"@, 0);
        }
        assert(text_item(items, "version"@) == Some(crate::version::render_version(c.version)))
            by {
            assert(items[0].0 != "version"@);
            assert(match c.git {
                Some(_) => items.len() == 3,
                None => items.len() == 2,
            });
            crate::tomldoc::lemma_assoc_get_at(items, "version"@, 1);
        }
        crate::name::lemma_name_text_round_trip(c.name);
        crate::version::lemma_version_round_trip(c.version);
        match c.git {
            Some(g) => {
                let leaves = seq![("url"@, LeafView::Text(g.url)), ("path"@, LeafView::Text(g.path))];
                assert(items[2] == ("git"@, ItemView::Table(leaves)));
                assert(assoc_get(items, "git"@) == Some(ItemView::Table(leaves))) by {
                    assert(items[0].0 != "git"@);
                    assert(items[1].0 != "git"@);
                    crate::tomldoc::lemma_assoc_get_at(items, "git"@, 2);
                }
                assert(assoc_get(leaves, "url"@) == Some(LeafView::Text(g.url))) by {
                    crate::tomldoc::lemma_assoc_get_at(leaves, "url"@, 0);
                }
                assert(assoc_get(leaves, "path"@) == Some(LeafView::Text(g.path))) by {
                    assert(leaves[0].0 != "path"@);
                    crate::tomldoc::lemma_assoc_get_at(leaves, "path"@, 1);
                }
                assert(git_of_items(items) == Some(Some(GitView { url: g.url, path: g.path })));
                assert(repo_meta_of(d)->Some_0 =~= RepositoryMetaView {
                    name: c.name,
                    version: c.version,
                    git: c.git,
                });
            },
            None => {
                assert(assoc_get(items, "git"@) is None) by {
                    assert forall|j: int| 0 <= j < items.len() implies (#[trigger] items[j]).0
                        != "git"@ by {}
                    crate::tomldoc::lemma_assoc_get_absent(items, "git"@);
                }
                assert(git_of_items(items) == Some(None::<GitView>));
                assert(repo_meta_of(d)->Some_0 =~= RepositoryMetaView {
                    name: c.name,
                    version: c.version,
                    git: c.git,
                });
            },
        }
    }
    // The four optional sections.
    lemma_texts_items_read_back(c.scripts);
    assert(dep_entries_wf(c.dependencies));
    lemma_pinned_deps_read_back(c.dependencies);
    lemma_named_texts_read_back(c.links);
    lemma_restrict_read_back(c.restrict);
    let expected = Tc030View {
        repository: RepositoryMetaView { name: c.name, version: c.version, git: c.git },
        scripts: if ns == 1 {
            Some(c.scripts)
        } else {
            None
        },
        dependencies: if nd == 1 {
            Some(c.dependencies)
        } else {
            None
        },
        links: if nl == 1 {
            Some(c.links)
        } else {
            None
        },
        restrict: if nr == 1 {
            Some(c.restrict)
        } else {
            None
        },
    };
    assert(tc030_of_doc(d) == Some(expected)) by {
        assert(tc030_of_doc(d)->Some_0 =~= expected);
    }
    assert(config_of_latest(expected) =~= c) by {
        if ns == 0 {
            assert(c.scripts =~= Seq::<(Seq<char>, Seq<char>)>::empty());
        }
        if nd == 0 {
            assert(c.dependencies =~= Seq::<(NameView, VersionView)>::empty());
        }
        if nl == 0 {
            assert(c.links =~= Seq::<(NameView, Seq<char>)>::empty());
        }
        if nr == 0 {
            assert(c.restrict =~= Seq::<(Condition, SettingsView)>::empty());
        }
    }
}

/// A key that occurs somewhere is found by the lookup.
proof fn lemma_assoc_get_some_if_present<K, V>(t: Seq<(K, V)>, key: K, witness: int)
    requires
        0 <= witness < t.len(),
        t[witness].0 == key,
    ensures
        assoc_get(t, key) is Some,
    decreases witness,
{
    if t[0].0 != key {
        assert(t.skip(1)[witness - 1] == t[witness]);
        lemma_assoc_get_some_if_present(t.skip(1), key, witness - 1);
    }
}

/// Changing one entry leaves lookups of other keys alone.
proof fn lemma_assoc_get_update_other<K, V>(t: Seq<(K, V)>, i: int, p: (K, V), k: K)
    requires
        0 <= i < t.len(),
        k != p.0,
        k != t[i].0,
    ensures
        assoc_get(t.update(i, p), k) == assoc_get(t, k),
    decreases t.len(),
{
    if t.len() > 0 {
        let u = t.update(i, p);
        if i == 0 {
            assert(u[0] == p);
            assert(u.skip(1) =~= t.skip(1));
        } else {
            assert(u[0] == t[0]);
            assert(u.skip(1) =~= t.skip(1).update(i - 1, p));
            if t[0].0 != k {
                lemma_assoc_get_update_other(t.skip(1), i - 1, p, k);
            }
        }
    }
}

/// Removing an entry under a different key leaves lookups of other keys
/// alone.
proof fn lemma_assoc_get_remove_other<K, V>(t: Seq<(K, V)>, i: int, k: K)
    requires
        0 <= i < t.len(),
        t[i].0 != k,
    ensures
        assoc_get(t.remove(i), k) == assoc_get(t, k),
    decreases t.len(),
{
    let u = t.remove(i);
    if i == 0 {
        assert(u =~= t.skip(1));
    } else {
        assert(u[0] == t[0]);
        assert(u.skip(1) =~= t.skip(1).remove(i - 1));
        if t[0].0 != k {
            lemma_assoc_get_remove_other(t.skip(1), i - 1, k);
        }
    }
}

/// Appending an entry leaves lookups of other keys alone.
proof fn lemma_assoc_get_push_other<K, V>(t: Seq<(K, V)>, p: (K, V), k: K)
    requires
        k != p.0,
    ensures
        assoc_get(t.push(p), k) == assoc_get(t, k),
    decreases t.len(),
{
    let u = t.push(p);
    if t.len() == 0 {
        assert(u[0] == p);
        assert(u.skip(1) =~= Seq::<(K, V)>::empty());
        assert(assoc_get(Seq::<(K, V)>::empty(), k) is None);
        assert(assoc_get(u, k) is None);
    } else {
        assert(u[0] == t[0]);
        assert(u.skip(1) =~= t.skip(1).push(p));
        if t[0].0 != k {
            lemma_assoc_get_push_other(t.skip(1), p, k);
        }
    }
}

} // verus!
