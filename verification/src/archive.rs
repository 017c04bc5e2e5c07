//! The archive packager's plan: everything the snapshot walk needs,
//! computed from the repository alone.
//!
//! The walk itself — ignore-file semantics, tar writing — is the
//! caller's: it walks `walk_root` honouring the standard ignore files
//! plus `custom_ignore_name`, additionally excluding `extra_ignore` when
//! a git origin is configured, and appends every regular file under its
//! path relative to the repository root to a tar stream materialized at
//! `archive_path`.

use vstd::prelude::*;

use crate::name::{text_of_name, NameView};
use crate::repository::Repository;
use crate::text::{split_on, split_str, str_views};

verus! {

/// The filesystem components of a name's archive below the archive
/// root's `repositories` folder: the dotted text split at every dot,
/// with `.tar` appended to the last component.
pub open spec fn archive_components(n: NameView) -> Seq<Seq<char>> {
    let parts = split_on(text_of_name(n), '.');
    parts.take(parts.len() - 1).push(parts.last() + ".tar"@)
}

/// The plan for one reproducible snapshot.
pub struct ArchivePlan {
    /// The tree to walk: the repository's path.
    pub walk_root: Vec<String>,
    /// An extra exclusion: the git working subdirectory, when a git
    /// origin is configured.
    pub extra_ignore: Option<String>,
    /// The name of the packager's own ignore file.
    pub custom_ignore_name: String,
    /// Where the tar stream is materialized, below the archive root.
    pub archive_path: Vec<String>,
}

impl Repository {
    /// Computes the snapshot plan of this repository under the given
    /// archive root.
    #[verifier::loop_isolation(false)]
    pub fn archive_plan(&self, archive_root: &Vec<String>) -> (r: ArchivePlan)
        requires
            self.wf(),
        ensures
            str_views(r.walk_root@) == self@.path,
            match (r.extra_ignore, self@.config.git) {
                (Some(p), Some(g)) => p@ == g.path,
                (None, None) => true,
                _ => false,
            },
            r.custom_ignore_name@ == "batl.ignore"@,
            str_views(r.archive_path@) == str_views(archive_root@) + seq!["repositories"@]
                + archive_components(self@.name),
    {
        let walk_root = crate::config::copy_strings(self.path());
        let extra_ignore = match &self.config().git {
            Some(g) => Some(g.path.clone()),
            None => None,
        };
        let mut archive_path = crate::config::copy_strings(archive_root);
        archive_path.push("repositories".to_owned());
        let ghost prefix = str_views(archive_path@);
        let ghost np = prefix.len() as int;
        let text = self.name().to_text();
        let parts = split_str(text.as_str(), '.');
        let ghost parts0 = str_views(parts@);
        let nparts = parts.len();
        let mut k: usize = 0;
        while k < nparts - 1
            invariant
                k < nparts,
                nparts == parts@.len(),
                str_views(parts@) == parts0,
                archive_path@.len() == np + k,
                forall|j: int| 0 <= j < np ==> #[trigger] archive_path@[j]@ == prefix[j],
                forall|j: int| np <= j < np + k ==> #[trigger] archive_path@[j]@ == parts0[j - np],
            decreases nparts - k,
        {
            archive_path.push(parts[k].clone());
            k = k + 1;
        }
        let mut last = parts[k].clone();
        last.append(".tar");
        archive_path.push(last);
        proof {
            reveal_strlit(".tar");
            assert(parts0.last() == parts0[k as int]);
            assert(archive_path@[np + k]@ == parts0.last() + ".tar"@);
            assert(str_views(archive_path@) =~= prefix + parts0.take(k as int).push(
                parts0.last() + ".tar"@,
            ));
            assert(prefix + parts0.take(k as int).push(parts0.last() + ".tar"@) =~= str_views(
                archive_root@,
            ) + seq!["repositories"@] + archive_components(self@.name));
        }
        ArchivePlan {
            walk_root,
            extra_ignore,
            custom_ignore_name: "batl.ignore".to_owned(),
            archive_path,
        }
    }
}

} // verus!
