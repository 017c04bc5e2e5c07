//! The storage layout under the battalion root.
//!
//! Discovery of the root itself (environment, ancestor search, home
//! fallback) is the caller's business; once found, the root is threaded
//! in as a value and every derived location is computed here.

use vstd::prelude::*;

use crate::text::str_views;

verus! {

/// The battalion root, as absolute path components, with every storage
/// location derived from it.
pub struct System {
    root: Vec<String>,
}

impl View for System {
    type V = Seq<Seq<char>>;

    closed spec fn view(&self) -> Seq<Seq<char>> {
        str_views(self.root@)
    }
}

/// A root extended by one child component.
pub open spec fn child_of(root: Seq<Seq<char>>, c: Seq<char>) -> Seq<Seq<char>> {
    root.push(c)
}

/// A root extended by two child components.
pub open spec fn grandchild_of(root: Seq<Seq<char>>, c: Seq<char>, d: Seq<char>) -> Seq<
    Seq<char>,
> {
    root.push(c).push(d)
}

impl System {
    /// Adopts a discovered battalion root.
    pub fn new(root: Vec<String>) -> (r: System)
        ensures
            r@ == str_views(root@),
    {
        System { root }
    }

    /// Copies the root with one extra component.
    fn with_child(&self, c: &str) -> (r: Vec<String>)
        ensures
            str_views(r@) == child_of(self@, c@),
    {
        let mut r = crate::config::copy_strings(&self.root);
        r.push(c.to_owned());
        proof {
            assert(str_views(r@) =~= child_of(self@, c@));
        }
        r
    }

    /// The workspaces root.
    pub fn workspace_root(&self) -> (r: Vec<String>)
        ensures
            str_views(r@) == child_of(self@, "workspaces"@),
    {
        self.with_child("workspaces")
    }

    /// The root of locally authored repository copies.
    pub fn repository_root(&self) -> (r: Vec<String>)
        ensures
            str_views(r@) == child_of(self@, "repositories"@),
    {
        self.with_child("repositories")
    }

    /// The root of remotely fetched repository copies, kept apart from
    /// the authored ones under the generated-data folder.
    pub fn fetched_repository_root(&self) -> (r: Vec<String>)
        ensures
            str_views(r@) == grandchild_of(self@, "gen"@, "fetched"@),
    {
        let mut r = self.with_child("gen");
        r.push("fetched".to_owned());
        proof {
            assert(str_views(r@) =~= grandchild_of(self@, "gen"@, "fetched"@));
        }
        r
    }

    /// The root of generated archives.
    pub fn archive_root(&self) -> (r: Vec<String>)
        ensures
            str_views(r@) == grandchild_of(self@, "gen"@, "archives"@),
    {
        let mut r = self.with_child("gen");
        r.push("archives".to_owned());
        proof {
            assert(str_views(r@) =~= grandchild_of(self@, "gen"@, "archives"@));
        }
        r
    }

    /// The root marker file.
    pub fn batlrc_path(&self) -> (r: Vec<String>)
        ensures
            str_views(r@) == child_of(self@, ".batlrc"@),
    {
        self.with_child(".batlrc")
    }
}

} // verus!
