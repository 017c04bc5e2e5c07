//! The document model for persisted configuration files.
//!
//! A configuration document is a table of sections, each section a text,
//! a table of items, or something the schemas do not use. The model is as
//! deep as the schemas need; anything deeper or of another kind is kept as
//! `Other`, which no schema generation accepts in a constrained position.
//! The `toml` crate turns file text into this model and back; every
//! decision about the document happens on the model, in verified code.

use vstd::prelude::*;

use crate::text::{str_views, str_eq};

verus! {

/// A leaf value: a text, a list of texts, or something else.
pub enum TomlLeaf {
    Text(String),
    TextList(Vec<String>),
    Other,
}

/// An item inside a section: a text, a table of leaves, or something else.
pub enum TomlItem {
    Text(String),
    Table(Vec<(String, TomlLeaf)>),
    Other,
}

/// A section of the document: a text, a table of items, or something else.
pub enum TomlSection {
    Text(String),
    Table(Vec<(String, TomlItem)>),
    Other,
}

/// A whole document: its top-level sections in order.
pub struct TomlDoc {
    pub sections: Vec<(String, TomlSection)>,
}

/// The mathematical shape of a leaf.
#[verifier::ext_equal]
pub ghost enum LeafView {
    Text(Seq<char>),
    TextList(Seq<Seq<char>>),
    Other,
}

/// The mathematical shape of an item.
#[verifier::ext_equal]
pub ghost enum ItemView {
    Text(Seq<char>),
    Table(Seq<(Seq<char>, LeafView)>),
    Other,
}

/// The mathematical shape of a section.
#[verifier::ext_equal]
pub ghost enum SectionView {
    Text(Seq<char>),
    Table(Seq<(Seq<char>, ItemView)>),
    Other,
}

impl View for TomlLeaf {
    type V = LeafView;

    open spec fn view(&self) -> LeafView {
        match self {
            TomlLeaf::Text(s) => LeafView::Text(s@),
            TomlLeaf::TextList(v) => LeafView::TextList(str_views(v@)),
            TomlLeaf::Other => LeafView::Other,
        }
    }
}

impl View for TomlItem {
    type V = ItemView;

    open spec fn view(&self) -> ItemView {
        match self {
            TomlItem::Text(s) => ItemView::Text(s@),
            TomlItem::Table(t) => ItemView::Table(
                t@.map_values(|p: (String, TomlLeaf)| (p.0@, p.1@)),
            ),
            TomlItem::Other => ItemView::Other,
        }
    }
}

impl View for TomlSection {
    type V = SectionView;

    open spec fn view(&self) -> SectionView {
        match self {
            TomlSection::Text(s) => SectionView::Text(s@),
            TomlSection::Table(t) => SectionView::Table(
                t@.map_values(|p: (String, TomlItem)| (p.0@, p.1@)),
            ),
            TomlSection::Other => SectionView::Other,
        }
    }
}

impl View for TomlDoc {
    type V = Seq<(Seq<char>, SectionView)>;

    open spec fn view(&self) -> Seq<(Seq<char>, SectionView)> {
        self.sections@.map_values(|p: (String, TomlSection)| (p.0@, p.1@))
    }
}

// ---------------------------------------------------------------------------
// Association lookup
// ---------------------------------------------------------------------------

/// The value under the first occurrence of `key`, if any.
pub open spec fn assoc_get<K, V>(t: Seq<(K, V)>, key: K) -> Option<V>
    decreases t.len(),
{
    if t.len() == 0 {
        None
    } else if t[0].0 == key {
        Some(t[0].1)
    } else {
        assoc_get(t.skip(1), key)
    }
}

/// The lookup finds the first matching position.
pub proof fn lemma_assoc_get_at<K, V>(t: Seq<(K, V)>, key: K, i: int)
    requires
        0 <= i < t.len(),
        t[i].0 == key,
        forall|j: int| 0 <= j < i ==> (#[trigger] t[j]).0 != key,
    ensures
        assoc_get(t, key) == Some(t[i].1),
    decreases i,
{
    if i > 0 {
        assert forall|j: int| 0 <= j < i - 1 implies (#[trigger] t.skip(1)[j]).0 != key by {
            assert(t.skip(1)[j] == t[j + 1]);
        }
        assert(t.skip(1)[i - 1] == t[i]);
        lemma_assoc_get_at(t.skip(1), key, i - 1);
    }
}

/// Without a matching key the lookup finds nothing.
pub proof fn lemma_assoc_get_absent<K, V>(t: Seq<(K, V)>, key: K)
    requires
        forall|j: int| 0 <= j < t.len() ==> (#[trigger] t[j]).0 != key,
    ensures
        assoc_get(t, key) is None,
    decreases t.len(),
{
    if t.len() > 0 {
        assert forall|j: int| 0 <= j < t.skip(1).len() implies (#[trigger] t.skip(1)[j]).0
            != key by {
            assert(t.skip(1)[j] == t[j + 1]);
        }
        lemma_assoc_get_absent(t.skip(1), key);
    }
}

/// Finds the first section under `key`.
#[verifier::loop_isolation(false)]
pub fn doc_find(sections: &Vec<(String, TomlSection)>, key: &str) -> (r: Option<usize>)
    ensures
        match r {
            Some(i) => {
                let t = sections@.map_values(|p: (String, TomlSection)| (p.0@, p.1@));
                i < sections@.len() && t[i as int].0 == key@ && assoc_get(t, key@) == Some(
                    t[i as int].1,
                )
            },
            None => assoc_get(
                sections@.map_values(|p: (String, TomlSection)| (p.0@, p.1@)),
                key@,
            ) is None,
        },
{
    let ghost t = sections@.map_values(|p: (String, TomlSection)| (p.0@, p.1@));
    let mut i: usize = 0;
    while i < sections.len()
        invariant
            i <= sections@.len(),
            forall|j: int| 0 <= j < i ==> (#[trigger] t[j]).0 != key@,
        decreases sections@.len() - i,
    {
        if str_eq(sections[i].0.as_str(), key) {
            proof {
                lemma_assoc_get_at(t, key@, i as int);
            }
            return Some(i);
        }
        i = i + 1;
    }
    proof {
        lemma_assoc_get_absent(t, key@);
    }
    None
}

/// Finds the first item under `key` in a section table.
#[verifier::loop_isolation(false)]
pub fn item_find(items: &Vec<(String, TomlItem)>, key: &str) -> (r: Option<usize>)
    ensures
        match r {
            Some(i) => {
                let t = items@.map_values(|p: (String, TomlItem)| (p.0@, p.1@));
                i < items@.len() && t[i as int].0 == key@ && assoc_get(t, key@) == Some(
                    t[i as int].1,
                )
            },
            None => assoc_get(
                items@.map_values(|p: (String, TomlItem)| (p.0@, p.1@)),
                key@,
            ) is None,
        },
{
    let ghost t = items@.map_values(|p: (String, TomlItem)| (p.0@, p.1@));
    let mut i: usize = 0;
    while i < items.len()
        invariant
            i <= items@.len(),
            forall|j: int| 0 <= j < i ==> (#[trigger] t[j]).0 != key@,
        decreases items@.len() - i,
    {
        if str_eq(items[i].0.as_str(), key) {
            proof {
                lemma_assoc_get_at(t, key@, i as int);
            }
            return Some(i);
        }
        i = i + 1;
    }
    proof {
        lemma_assoc_get_absent(t, key@);
    }
    None
}

/// Finds the first leaf under `key` in an item table.
#[verifier::loop_isolation(false)]
pub fn leaf_find(leaves: &Vec<(String, TomlLeaf)>, key: &str) -> (r: Option<usize>)
    ensures
        match r {
            Some(i) => {
                let t = leaves@.map_values(|p: (String, TomlLeaf)| (p.0@, p.1@));
                i < leaves@.len() && t[i as int].0 == key@ && assoc_get(t, key@) == Some(
                    t[i as int].1,
                )
            },
            None => assoc_get(
                leaves@.map_values(|p: (String, TomlLeaf)| (p.0@, p.1@)),
                key@,
            ) is None,
        },
{
    let ghost t = leaves@.map_values(|p: (String, TomlLeaf)| (p.0@, p.1@));
    let mut i: usize = 0;
    while i < leaves.len()
        invariant
            i <= leaves@.len(),
            forall|j: int| 0 <= j < i ==> (#[trigger] t[j]).0 != key@,
        decreases leaves@.len() - i,
    {
        if str_eq(leaves[i].0.as_str(), key) {
            proof {
                lemma_assoc_get_at(t, key@, i as int);
            }
            return Some(i);
        }
        i = i + 1;
    }
    proof {
        lemma_assoc_get_absent(t, key@);
    }
    None
}

// ---------------------------------------------------------------------------
// The toml crate, behind trusted declarations
// ---------------------------------------------------------------------------

#[verifier::external_type_specification]
#[verifier::external_body]
pub struct ExTomlValue(toml::Value);

/// Relies on `toml::from_str`: parses TOML text into a generic value, or
/// fails on malformed text. Nothing is assumed about the result; every
/// decision about its content is made on the converted document model.
#[verifier::external_body]
fn toml_parse_text(s: &str) -> Option<toml::Value> {
    toml::from_str::<toml::Value>(s).ok()
}

/// Relies on `toml::Value::as_str`: the text of a string value, nothing
/// for the other kinds.
#[verifier::external_body]
fn toml_as_text(v: &toml::Value) -> Option<String> {
    v.as_str().map(|s| s.to_owned())
}

/// Relies on `toml::Value::as_table` and `toml::map::Map::iter`: the
/// key-value pairs of a table value, nothing for the other kinds. The
/// table is a map, so iteration yields every key exactly once.
#[verifier::external_body]
fn toml_as_pairs(v: &toml::Value) -> (r: Option<Vec<(String, toml::Value)>>)
    ensures
        match r {
            Some(pairs) => forall|i: int, j: int|
                0 <= i < j < pairs@.len() ==> (#[trigger] pairs@[i]).0@ != (
                #[trigger] pairs@[j]).0@,
            None => true,
        },
{
    v.as_table().map(|t| t.iter().map(|(k, x)| (k.clone(), x.clone())).collect())
}

/// Relies on `toml::Value::as_array`: the elements of an array value,
/// nothing for the other kinds.
#[verifier::external_body]
fn toml_as_list(v: &toml::Value) -> Option<Vec<toml::Value>> {
    v.as_array().cloned()
}

/// Relies on `toml::Value::String`: wraps a text as a TOML string value.
#[verifier::external_body]
fn toml_text_value(s: String) -> toml::Value {
    toml::Value::String(s)
}

/// Relies on `toml::Value::Array`: wraps elements as a TOML array value.
#[verifier::external_body]
fn toml_list_value(items: Vec<toml::Value>) -> toml::Value {
    toml::Value::Array(items)
}

/// Relies on `toml::Value::Table` and `toml::map::Map`'s `FromIterator`:
/// wraps key-value pairs as a TOML table value.
#[verifier::external_body]
fn toml_table_value(pairs: Vec<(String, toml::Value)>) -> toml::Value {
    toml::Value::Table(pairs.into_iter().collect())
}

/// Relies on `toml::to_string`: renders a TOML value as document text, or
/// fails for values TOML cannot represent at the top level.
#[verifier::external_body]
fn toml_render_value(v: &toml::Value) -> Option<String> {
    toml::to_string(v).ok()
}

// ---------------------------------------------------------------------------
// Between the toml crate's values and the document model
// ---------------------------------------------------------------------------

/// Reads a leaf from a TOML value.
fn leaf_from_value(v: &toml::Value) -> TomlLeaf {
    match toml_as_text(v) {
        Some(s) => TomlLeaf::Text(s),
        None => {
            match toml_as_list(v) {
                Some(items) => {
                    let mut texts: Vec<String> = Vec::new();
                    let mut i: usize = 0;
                    let mut all_text = true;
                    while i < items.len()
                        invariant
                            i <= items@.len(),
                        decreases items@.len() - i,
                    {
                        match toml_as_text(&items[i]) {
                            Some(s) => texts.push(s),
                            None => {
                                all_text = false;
                            },
                        }
                        i = i + 1;
                    }
                    if all_text {
                        TomlLeaf::TextList(texts)
                    } else {
                        TomlLeaf::Other
                    }
                },
                None => TomlLeaf::Other,
            }
        },
    }
}

/// Reads an item from a TOML value.
fn item_from_value(v: &toml::Value) -> TomlItem {
    match toml_as_text(v) {
        Some(s) => TomlItem::Text(s),
        None => {
            match toml_as_pairs(v) {
                Some(pairs) => {
                    let mut out: Vec<(String, TomlLeaf)> = Vec::new();
                    let mut i: usize = 0;
                    while i < pairs.len()
                        invariant
                            i <= pairs@.len(),
                        decreases pairs@.len() - i,
                    {
                        let leaf = leaf_from_value(&pairs[i].1);
                        out.push((pairs[i].0.clone(), leaf));
                        i = i + 1;
                    }
                    TomlItem::Table(out)
                },
                None => TomlItem::Other,
            }
        },
    }
}

/// Reads a section from a TOML value.
fn section_from_value(v: &toml::Value) -> TomlSection {
    match toml_as_text(v) {
        Some(s) => TomlSection::Text(s),
        None => {
            match toml_as_pairs(v) {
                Some(pairs) => {
                    let mut out: Vec<(String, TomlItem)> = Vec::new();
                    let mut i: usize = 0;
                    while i < pairs.len()
                        invariant
                            i <= pairs@.len(),
                        decreases pairs@.len() - i,
                    {
                        let item = item_from_value(&pairs[i].1);
                        out.push((pairs[i].0.clone(), item));
                        i = i + 1;
                    }
                    TomlSection::Table(out)
                },
                None => TomlSection::Other,
            }
        },
    }
}

/// Parses TOML document text into the document model; fails exactly when
/// the toml crate rejects the text or its top level is not a table.
pub fn parse_doc_text(s: &str) -> (r: Option<TomlDoc>) {
    let value = match toml_parse_text(s) {
        Some(v) => v,
        None => {
            return None;
        },
    };
    let pairs = match toml_as_pairs(&value) {
        Some(p) => p,
        None => {
            return None;
        },
    };
    let mut sections: Vec<(String, TomlSection)> = Vec::new();
    let mut i: usize = 0;
    while i < pairs.len()
        invariant
            i <= pairs@.len(),
        decreases pairs@.len() - i,
    {
        let sec = section_from_value(&pairs[i].1);
        sections.push((pairs[i].0.clone(), sec));
        i = i + 1;
    }
    Some(TomlDoc { sections })
}

/// Builds the TOML value of a leaf; a leaf of another kind becomes an
/// empty text, which no schema writes.
fn leaf_to_value(leaf: &TomlLeaf) -> toml::Value {
    match leaf {
        TomlLeaf::Text(s) => toml_text_value(s.clone()),
        TomlLeaf::TextList(items) => {
            let mut vals: Vec<toml::Value> = Vec::new();
            let mut i: usize = 0;
            while i < items.len()
                invariant
                    i <= items@.len(),
                decreases items@.len() - i,
            {
                vals.push(toml_text_value(items[i].clone()));
                i = i + 1;
            }
            toml_list_value(vals)
        },
        TomlLeaf::Other => toml_text_value(String::new()),
    }
}

/// Builds the TOML value of an item.
fn item_to_value(item: &TomlItem) -> toml::Value {
    match item {
        TomlItem::Text(s) => toml_text_value(s.clone()),
        TomlItem::Table(t) => {
            let mut pairs: Vec<(String, toml::Value)> = Vec::new();
            let mut i: usize = 0;
            while i < t.len()
                invariant
                    i <= t@.len(),
                decreases t@.len() - i,
            {
                pairs.push((t[i].0.clone(), leaf_to_value(&t[i].1)));
                i = i + 1;
            }
            toml_table_value(pairs)
        },
        TomlItem::Other => toml_text_value(String::new()),
    }
}

/// Builds the TOML value of a section.
fn section_to_value(section: &TomlSection) -> toml::Value {
    match section {
        TomlSection::Text(s) => toml_text_value(s.clone()),
        TomlSection::Table(t) => {
            let mut pairs: Vec<(String, toml::Value)> = Vec::new();
            let mut i: usize = 0;
            while i < t.len()
                invariant
                    i <= t@.len(),
                decreases t@.len() - i,
            {
                pairs.push((t[i].0.clone(), item_to_value(&t[i].1)));
                i = i + 1;
            }
            toml_table_value(pairs)
        },
        TomlSection::Other => toml_text_value(String::new()),
    }
}

/// Renders the document model as TOML file text.
pub fn render_doc_text(doc: &TomlDoc) -> (r: String) {
    let mut pairs: Vec<(String, toml::Value)> = Vec::new();
    let mut i: usize = 0;
    while i < doc.sections.len()
        invariant
            i <= doc.sections@.len(),
        decreases doc.sections@.len() - i,
    {
        pairs.push((doc.sections[i].0.clone(), section_to_value(&doc.sections[i].1)));
        i = i + 1;
    }
    let value = toml_table_value(pairs);
    match toml_render_value(&value) {
        Some(s) => s,
        None => String::new(),
    }
}

} // verus!
