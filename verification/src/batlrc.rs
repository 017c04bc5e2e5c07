//! The root marker file: the installed schema version and the API
//! credentials used as a bearer token.
//!
//! Two generations exist: the newer one marks itself with an exact
//! top-level version text, the older one carries only the credentials
//! block and accepts any document that has one, so the newer reading is
//! tried first.

use vstd::prelude::*;

use crate::error::BatlError;
use crate::tomldoc::{
    assoc_get, ItemView, SectionView, TomlDoc, TomlItem, TomlSection, doc_find, item_find,
};
use crate::text::str_eq;

verus! {

/// The credentials block.
pub struct Api0_2_1 {
    pub credentials: String,
}

impl Default for Api0_2_1 {
    /// A placeholder token the user replaces after setup.
    fn default() -> (r: Api0_2_1)
        ensures
            r.credentials@ == "YOUR-KEY-GOES-HERE"@,
    {
        Api0_2_1 { credentials: "YOUR-KEY-GOES-HERE".to_owned() }
    }
}

/// The newer root marker: version-marked, with credentials.
pub struct BatlRc0_3_0 {
    pub api: Api0_2_1,
}

/// The older root marker: credentials only.
pub struct BatlRc0_2_1 {
    pub api: Api0_2_1,
}

/// The newest root-marker shape.
pub type BatlRcLatest = BatlRc0_3_0;

/// A root marker of whichever generation was recognized.
pub enum AnyBatlRc {
    V0_3_0(BatlRc0_3_0),
    V0_2_1(BatlRc0_2_1),
}

/// The credentials text of a document's `api` section.
pub open spec fn rc_credentials_of(doc: Seq<(Seq<char>, SectionView)>) -> Option<Seq<char>> {
    match assoc_get(doc, "api"@) {
        Some(SectionView::Table(items)) => match assoc_get(items, "credentials"@) {
            Some(ItemView::Text(s)) => Some(s),
            _ => None,
        },
        _ => None,
    }
}

/// The newer generation's reading: an exact top-level version text plus
/// credentials.
pub open spec fn rc030_of_doc(doc: Seq<(Seq<char>, SectionView)>) -> Option<Seq<char>> {
    if assoc_get(doc, "version"@) == Some(SectionView::Text("0.3.0"@)) {
        rc_credentials_of(doc)
    } else {
        None
    }
}

/// The older generation's reading: credentials alone suffice.
pub open spec fn rc021_of_doc(doc: Seq<(Seq<char>, SectionView)>) -> Option<Seq<char>> {
    rc_credentials_of(doc)
}

/// Reads the credentials of a document.
fn read_rc_credentials(doc: &TomlDoc) -> (r: Option<String>)
    ensures
        match r {
            Some(s) => rc_credentials_of(doc@) == Some(s@),
            None => rc_credentials_of(doc@) is None,
        },
{
    match doc_find(&doc.sections, "api") {
        Some(i) => match &doc.sections[i].1 {
            TomlSection::Table(items) => match item_find(items, "credentials") {
                Some(j) => match &items[j].1 {
                    TomlItem::Text(s) => Some(s.clone()),
                    _ => None,
                },
                None => None,
            },
            _ => None,
        },
        None => None,
    }
}

impl AnyBatlRc {
    /// Reads a root-marker document, newest generation first; a document
    /// neither generation accepts fails with `ConfigInvalid`.
    pub fn read_doc(doc: &TomlDoc) -> (r: Result<AnyBatlRc, BatlError>)
        ensures
            match r {
                Ok(any) => match any {
                    AnyBatlRc::V0_3_0(c) => rc030_of_doc(doc@) == Some(c.api.credentials@),
                    AnyBatlRc::V0_2_1(c) => rc030_of_doc(doc@) is None && rc021_of_doc(doc@)
                        == Some(c.api.credentials@),
                },
                Err(e) => e == BatlError::ConfigInvalid && rc030_of_doc(doc@) is None
                    && rc021_of_doc(doc@) is None,
            },
    {
        let marker_ok = match doc_find(&doc.sections, "version") {
            Some(i) => match &doc.sections[i].1 {
                TomlSection::Text(s) => str_eq(s.as_str(), "0.3.0"),
                _ => false,
            },
            None => false,
        };
        let credentials = read_rc_credentials(doc);
        match credentials {
            Some(c) => {
                if marker_ok {
                    Ok(AnyBatlRc::V0_3_0(BatlRc0_3_0 { api: Api0_2_1 { credentials: c } }))
                } else {
                    Ok(AnyBatlRc::V0_2_1(BatlRc0_2_1 { api: Api0_2_1 { credentials: c } }))
                }
            },
            None => Err(BatlError::ConfigInvalid),
        }
    }

    /// Migrates whichever generation was read to the newest shape; the
    /// credentials carry over unchanged.
    pub fn to_latest(self) -> (r: BatlRcLatest)
        ensures
            match self {
                AnyBatlRc::V0_3_0(c) => r.api.credentials@ == c.api.credentials@,
                AnyBatlRc::V0_2_1(c) => r.api.credentials@ == c.api.credentials@,
            },
    {
        match self {
            AnyBatlRc::V0_3_0(c) => c,
            AnyBatlRc::V0_2_1(c) => BatlRc0_3_0 { api: c.api },
        }
    }
}

impl BatlRc0_3_0 {
    /// The document the root marker persists as.
    pub fn to_doc(&self) -> (r: TomlDoc)
        ensures
            rc030_of_doc(r@) == Some(self.api.credentials@),
    {
        let mut sections: Vec<(String, TomlSection)> = Vec::new();
        sections.push(("version".to_owned(), TomlSection::Text("0.3.0".to_owned())));
        let mut api_items: Vec<(String, TomlItem)> = Vec::new();
        api_items.push(("credentials".to_owned(), TomlItem::Text(self.api.credentials.clone())));
        sections.push(("api".to_owned(), TomlSection::Table(api_items)));
        let r = TomlDoc { sections };
        proof {
            let d = r@;
            assert(d[0] == ("version"@, SectionView::Text("0.3.0"@)));
            assert(d[1].0 == "api"@);
            reveal_strlit("version");
            reveal_strlit("api");
            assert("version"@.len() != "api"@.len());
            assert(assoc_get(d, "version"@) == Some(d[0].1));
            assert(d.skip(1)[0] == d[1]);
            assert(assoc_get(d, "api"@) == Some(d[1].1)) by {
                crate::tomldoc::lemma_assoc_get_at(d, "api"@, 1);
            }
            match d[1].1 {
                SectionView::Table(items) => {
                    assert(items[0] == ("credentials"@, ItemView::Text(self.api.credentials@)));
                    assert(assoc_get(items, "credentials"@) == Some(items[0].1));
                },
                _ => {
                    assert(false);
                },
            }
        }
        r
    }
}

} // verus!
