//! Resource names: the dotted identifier grammar and every path and URL
//! encoding the storage layout uses.
//!
//! A name is a non-empty sequence of segments plus an optional version.
//! Rendering to text, to the folder encoding, to the repository path and
//! to the URL path are all defined here, together with the decoding that
//! reads a repository path back; encoding then decoding is proved exact.

use vstd::prelude::*;

use crate::error::BatlError;
use crate::text::{
    esc_plus, find_char, is_segment_char, join_with, lacks_char, split_on, str_views, unesc_plus,
    lemma_find_char, lemma_find_char_absent, lemma_find_char_concat, lemma_split_join,
    lemma_unesc_esc, escape_plus, find_char_in, join_strs, split_str, str_eq, unescape_plus,
};
use crate::version::{
    render_version, version_of_text, Version, VersionView, lemma_version_round_trip,
    lemma_version_text_ascii, lemma_render_version_chars,
};

verus! {

/// The mathematical shape of a name: segment character sequences and an
/// optional version.
#[verifier::ext_equal]
pub ghost struct NameView {
    pub segments: Seq<Seq<char>>,
    pub version: Option<VersionView>,
}

/// A battalion resource name: dotted segments and an optional pinned
/// version.
pub struct Name {
    segments: Vec<String>,
    version: Option<Version>,
}

impl View for Name {
    type V = NameView;

    closed spec fn view(&self) -> NameView {
        NameView {
            segments: str_views(self.segments@),
            version: match self.version {
                Some(v) => Some(v@),
                None => None,
            },
        }
    }
}

// ---------------------------------------------------------------------------
// Validity
// ---------------------------------------------------------------------------

/// A name segment: non-empty, letters, digits, hyphens and underscores,
/// not starting with an underscore.
pub open spec fn valid_segment(s: Seq<char>) -> bool {
    &&& s.len() > 0
    &&& (forall|j: int| 0 <= j < s.len() ==> is_segment_char(#[trigger] s[j]))
    &&& s[0] != '_'
}

impl NameView {
    /// A well-formed name: at least one valid segment, and a well-formed
    /// version where one is present.
    pub open spec fn wf(&self) -> bool {
        &&& self.segments.len() > 0
        &&& (forall|i: int|
            0 <= i < self.segments.len() ==> valid_segment(#[trigger] self.segments[i]))
        &&& match self.version {
            Some(v) => v.wf(),
            None => true,
        }
    }

    /// The same name without its version.
    pub open spec fn floating(&self) -> NameView {
        NameView { segments: self.segments, version: None }
    }
}

// ---------------------------------------------------------------------------
// The dotted text form
// ---------------------------------------------------------------------------

/// The canonical dotted text of a name: segments joined with `.`, then
/// `@` and the version when one is present.
pub open spec fn text_of_name(n: NameView) -> Seq<char> {
    join_with(n.segments, '.') + match n.version {
        Some(v) => seq!['@'] + render_version(v),
        None => seq![],
    }
}

/// The name denoted by a piece of text, or nothing when the grammar
/// rejects it. The text before the first `@` splits on dots into the
/// segments; what follows the `@` is the version, and an empty version
/// suffix counts as no version.
pub open spec fn name_of_text(s: Seq<char>) -> Option<NameView> {
    let ia = find_char(s, '@') as int;
    let base = s.take(ia);
    let vtext = if ia < s.len() {
        s.skip(ia + 1)
    } else {
        seq![]
    };
    let parts = split_on(base, '.');
    if !(forall|i: int| 0 <= i < parts.len() ==> valid_segment(#[trigger] parts[i])) {
        None
    } else if vtext.len() == 0 {
        Some(NameView { segments: parts, version: None })
    } else {
        match version_of_text(vtext) {
            Some(v) => Some(NameView { segments: parts, version: Some(v) }),
            None => None,
        }
    }
}

/// Checks a name segment.
fn check_segment(s: &str) -> (r: bool)
    ensures
        r == valid_segment(s@),
{
    let n = s.unicode_len();
    if n == 0 {
        return false;
    }
    if s.get_char(0) == '_' {
        return false;
    }
    let mut i: usize = 0;
    while i < n
        invariant
            i <= n,
            n == s@.len(),
            forall|j: int| 0 <= j < i ==> is_segment_char(#[trigger] s@[j]),
        decreases n - i,
    {
        let c = s.get_char(i);
        let u = c as u32;
        let ok = (48 <= u && u <= 57) || (65 <= u && u <= 90) || (97 <= u && u <= 122) || c == '-'
            || c == '_';
        if !ok {
            return false;
        }
        i = i + 1;
    }
    true
}

impl Name {
    /// A convenience predicate: the name is well formed.
    pub open spec fn wf(&self) -> bool {
        self@.wf()
    }

    /// The path components of the name.
    pub fn segments(&self) -> (r: &Vec<String>)
        ensures
            str_views(r@) == self@.segments,
    {
        &self.segments
    }

    /// The pinned version, if any.
    pub fn version(&self) -> (r: &Option<Version>)
        ensures
            match r {
                Some(v) => self@.version == Some(v@),
                None => self@.version is None,
            },
    {
        &self.version
    }

    /// The same name pinned to `version`.
    pub fn with_version(self, version: Version) -> (r: Name)
        ensures
            r@ == (NameView { segments: self@.segments, version: Some(version@) }),
    {
        let r = Name { segments: self.segments, version: Some(version) };
        proof {
            assert(r@ =~= NameView { segments: self@.segments, version: Some(version@) });
        }
        r
    }

    /// The same name with no version.
    pub fn without_version(self) -> (r: Name)
        ensures
            r@ == self@.floating(),
    {
        let r = Name { segments: self.segments, version: None };
        proof {
            assert(r@ =~= self@.floating());
        }
        r
    }

    /// Copies the name.
    pub fn duplicate(&self) -> (r: Name)
        ensures
            r@ == self@,
    {
        let mut segments: Vec<String> = Vec::new();
        let mut i: usize = 0;
        while i < self.segments.len()
            invariant
                i <= self.segments@.len(),
                segments@.len() == i,
                forall|j: int| 0 <= j < i ==> #[trigger] segments@[j]@ == self.segments@[j]@,
            decreases self.segments@.len() - i,
        {
            segments.push(self.segments[i].clone());
            i = i + 1;
        }
        let version = match &self.version {
            Some(v) => Some(v.duplicate()),
            None => None,
        };
        let r = Name { segments, version };
        proof {
            assert(str_views(r.segments@) =~= str_views(self.segments@));
            assert(r@ =~= self@);
        }
        r
    }

    /// Parses the dotted text form; fails with `InvalidName` exactly on
    /// the texts the grammar rejects.
    #[verifier::loop_isolation(false)]
    pub fn new(text: &str) -> (r: Result<Name, BatlError>)
        ensures
            match r {
                Ok(n) => name_of_text(text@) == Some(n@) && n.wf(),
                Err(e) => e == BatlError::InvalidName && name_of_text(text@) is None,
            },
    {
        let n = text.unicode_len();
        let ia = find_char_in(text, '@');
        proof {
            lemma_find_char(text@, '@');
        }
        let base = text.substring_char(0, ia);
        let vtext = if ia < n {
            text.substring_char(ia + 1, n)
        } else {
            ""
        };
        proof {
            assert(base@ =~= text@.take(ia as int));
            if ia < n {
                assert(vtext@ =~= text@.skip(ia as int + 1));
            } else {
                reveal_strlit("");
                assert(vtext@ =~= Seq::<char>::empty());
            }
        }
        let parts = split_str(base, '.');
        let mut k: usize = 0;
        while k < parts.len()
            invariant
                k <= parts@.len(),
                str_views(parts@) == split_on(base@, '.'),
                forall|i: int| 0 <= i < k ==> valid_segment(#[trigger] split_on(base@, '.')[i]),
            decreases parts@.len() - k,
        {
            proof {
                assert(str_views(parts@)[k as int] == parts@[k as int]@);
            }
            if !check_segment(parts[k].as_str()) {
                proof {
                    let parts_spec = split_on(base@, '.');
                    assert(!valid_segment(parts_spec[k as int]));
                    assert(name_of_text(text@) is None) by {
                        if forall|i: int|
                            0 <= i < parts_spec.len() ==> valid_segment(
                                #[trigger] parts_spec[i],
                            ) {
                            assert(valid_segment(parts_spec[k as int]));
                        }
                    }
                }
                return Err(BatlError::InvalidName);
            }
            k = k + 1;
        }
        if vtext.unicode_len() == 0 {
            let r = Name { segments: parts, version: None };
            proof {
                assert(name_of_text(text@) == Some(r@)) by {
                    assert(name_of_text(text@)->Some_0 =~= r@);
                }
            }
            Ok(r)
        } else {
            match Version::parse(vtext) {
                Ok(v) => {
                    let r = Name { segments: parts, version: Some(v) };
                    proof {
                        assert(name_of_text(text@) == Some(r@)) by {
                            assert(name_of_text(text@)->Some_0 =~= r@);
                        }
                    }
                    Ok(r)
                },
                Err(_) => Err(BatlError::InvalidName),
            }
        }
    }

    /// Renders the canonical dotted text of the name.
    pub fn to_text(&self) -> (r: String)
        requires
            self.wf(),
        ensures
            r@ == text_of_name(self@),
    {
        let dot = ".";
        proof {
            reveal_strlit(".");
            assert(dot@ =~= seq!['.']);
        }
        let mut r = join_strs(&self.segments, dot);
        match &self.version {
            Some(v) => {
                let at = "@";
                proof {
                    reveal_strlit("@");
                    assert(at@ =~= seq!['@']);
                }
                r.append(at);
                let vt = v.render();
                r.append(vt.as_str());
            },
            None => {},
        }
        proof {
            assert(r@ =~= text_of_name(self@));
        }
        r
    }
}

/// A text the name grammar accepts always denotes a well-formed name.
pub proof fn lemma_name_of_text_wf(t: Seq<char>)
    ensures
        name_of_text(t) is Some ==> name_of_text(t)->Some_0.wf(),
{
    if name_of_text(t) is Some {
        let ia = find_char(t, '@') as int;
        let base = t.take(ia);
        crate::text::lemma_split_on_len(base, '.');
        let vtext = if ia < t.len() {
            t.skip(ia + 1)
        } else {
            Seq::<char>::empty()
        };
        if vtext.len() > 0 {
            crate::version::lemma_version_of_text_wf(vtext);
        }
    }
}

impl Name {
    /// Checks that the name is well formed.
    #[verifier::loop_isolation(false)]
    pub fn is_wf(&self) -> (r: bool)
        ensures
            r == self@.wf(),
    {
        if self.segments.len() == 0 {
            return false;
        }
        let mut i: usize = 0;
        while i < self.segments.len()
            invariant
                i <= self.segments@.len(),
                forall|j: int| 0 <= j < i ==> valid_segment(#[trigger] self@.segments[j]),
            decreases self.segments@.len() - i,
        {
            proof {
                assert(self@.segments[i as int] == self.segments@[i as int]@);
            }
            if !check_segment(self.segments[i].as_str()) {
                return false;
            }
            i = i + 1;
        }
        match &self.version {
            Some(v) => v.is_wf(),
            None => true,
        }
    }

    /// Compares two names ignoring their versions.
    pub fn same_floating(&self, other: &Name) -> (r: bool)
        ensures
            r == (self@.floating() == other@.floating()),
    {
        if self.segments.len() != other.segments.len() {
            proof {
                assert(self@.floating().segments.len() != other@.floating().segments.len());
            }
            return false;
        }
        let mut i: usize = 0;
        while i < self.segments.len()
            invariant
                i <= self.segments@.len(),
                self.segments@.len() == other.segments@.len(),
                forall|j: int| 0 <= j < i ==> #[trigger] self.segments@[j]@ == other.segments@[j]@,
            decreases self.segments@.len() - i,
        {
            if !str_eq(self.segments[i].as_str(), other.segments[i].as_str()) {
                proof {
                    assert(self@.segments[i as int] != other@.segments[i as int]);
                }
                return false;
            }
            i = i + 1;
        }
        proof {
            assert(self@.segments =~= other@.segments);
            assert(self@.floating() =~= other@.floating());
        }
        true
    }

    /// Compares two names for equality, version included.
    pub fn same_as(&self, other: &Name) -> (r: bool)
        ensures
            r == (self@ == other@),
    {
        if self.segments.len() != other.segments.len() {
            proof {
                assert(self@.segments.len() != other@.segments.len());
            }
            return false;
        }
        let mut i: usize = 0;
        while i < self.segments.len()
            invariant
                i <= self.segments@.len(),
                self.segments@.len() == other.segments@.len(),
                forall|j: int| 0 <= j < i ==> #[trigger] self.segments@[j]@ == other.segments@[j]@,
            decreases self.segments@.len() - i,
        {
            if !str_eq(self.segments[i].as_str(), other.segments[i].as_str()) {
                proof {
                    assert(self@.segments[i as int] != other@.segments[i as int]);
                }
                return false;
            }
            i = i + 1;
        }
        proof {
            assert(self@.segments =~= other@.segments);
        }
        match (&self.version, &other.version) {
            (None, None) => {
                proof {
                    assert(self@ =~= other@);
                }
                true
            },
            (Some(a), Some(b)) => {
                let r = a.same_as(b);
                proof {
                    if a@ == b@ {
                        assert(self@ =~= other@);
                    }
                }
                r
            },
            _ => false,
        }
    }
}

// ---------------------------------------------------------------------------
// Path and URL encodings
// ---------------------------------------------------------------------------

/// The namespace-folder encoding of a floating name: every segment
/// prefixed with one underscore.
pub open spec fn folder_components(n: NameView) -> Seq<Seq<char>> {
    n.segments.map_values(|s: Seq<char>| seq!['_'] + s)
}

/// The version-folder encoding: every leading segment prefixed with one
/// underscore, the final segment with two.
pub open spec fn version_folder_components(n: NameView) -> Seq<Seq<char>> {
    n.segments.take(n.segments.len() - 1).map_values(|s: Seq<char>| seq!['_'] + s) + seq![
        seq!['_', '_'] + n.segments.last(),
    ]
}

/// The physical repository path: for a pinned name, the version folder
/// followed by the escaped version text; for a floating name, the leading
/// segments prefixed and the final segment bare.
pub open spec fn repository_components(n: NameView) -> Seq<Seq<char>> {
    match n.version {
        Some(v) => version_folder_components(n) + seq![esc_plus(render_version(v))],
        None => n.segments.take(n.segments.len() - 1).map_values(|s: Seq<char>| seq!['_'] + s)
            + seq![n.segments.last()],
    }
}

/// The URL path: segments joined with `/`, then `/_v` and the escaped
/// version when one is present.
pub open spec fn url_text(n: NameView) -> Seq<char> {
    join_with(n.segments, '/') + match n.version {
        Some(v) => seq!['/', '_', 'v'] + esc_plus(render_version(v)),
        None => seq![],
    }
}

/// The name a path under a storage root denotes, or nothing when the
/// components fit no encoding. A `__` component is a versioned leaf and
/// must be followed by exactly the version component; a `_` component is a
/// namespace segment; a bare component is a floating leaf and must come
/// last.
pub open spec fn name_of_components(comps: Seq<Seq<char>>) -> Option<NameView>
    decreases comps.len(),
{
    if comps.len() == 0 {
        None
    } else {
        let c = comps[0];
        if c.len() >= 2 && c[0] == '_' && c[1] == '_' {
            if comps.len() == 2 && valid_segment(c.skip(2)) {
                match version_of_text(unesc_plus(comps[1])) {
                    Some(v) => Some(NameView { segments: seq![c.skip(2)], version: Some(v) }),
                    None => None,
                }
            } else {
                None
            }
        } else if c.len() >= 1 && c[0] == '_' {
            if !valid_segment(c.skip(1)) {
                None
            } else if comps.len() == 1 {
                Some(NameView { segments: seq![c.skip(1)], version: None })
            } else {
                match name_of_components(comps.skip(1)) {
                    Some(rest) => Some(
                        NameView {
                            segments: seq![c.skip(1)] + rest.segments,
                            version: rest.version,
                        },
                    ),
                    None => None,
                }
            }
        } else {
            if comps.len() == 1 && valid_segment(c) {
                Some(NameView { segments: seq![c], version: None })
            } else {
                None
            }
        }
    }
}

/// Prefixes a segment with underscores.
fn prefixed(seg: &str, double: bool) -> (r: String)
    ensures
        double ==> r@ == seq!['_', '_'] + seg@,
        !double ==> r@ == seq!['_'] + seg@,
{
    let u = "_";
    proof {
        reveal_strlit("_");
        assert(u@ =~= seq!['_']);
    }
    let mut r = u.to_owned();
    if double {
        r.append(u);
    }
    r.append(seg);
    proof {
        if double {
            assert(r@ =~= seq!['_', '_'] + seg@);
        } else {
            assert(r@ =~= seq!['_'] + seg@);
        }
    }
    r
}

impl Name {
    /// The namespace-folder encoding; only floating names have one, a
    /// pinned name fails with `InvalidName`.
    #[verifier::loop_isolation(false)]
    pub fn path_segments_as_folder_name(&self) -> (r: Result<Vec<String>, BatlError>)
        requires
            self.wf(),
        ensures
            match r {
                Ok(comps) => self@.version is None && str_views(comps@) == folder_components(
                    self@,
                ),
                Err(e) => e == BatlError::InvalidName && self@.version is Some,
            },
    {
        if self.version.is_some() {
            return Err(BatlError::InvalidName);
        }
        let mut comps: Vec<String> = Vec::new();
        let mut i: usize = 0;
        while i < self.segments.len()
            invariant
                i <= self.segments@.len(),
                comps@.len() == i,
                forall|j: int|
                    0 <= j < i ==> #[trigger] comps@[j]@ == seq!['_'] + self.segments@[j]@,
            decreases self.segments@.len() - i,
        {
            comps.push(prefixed(self.segments[i].as_str(), false));
            i = i + 1;
        }
        proof {
            assert(str_views(comps@) =~= folder_components(self@));
        }
        Ok(comps)
    }

    /// The version-folder encoding, under which all stored versions of the
    /// name are enumerated.
    #[verifier::loop_isolation(false)]
    pub fn path_segments_as_version_folder(&self) -> (comps: Vec<String>)
        requires
            self.wf(),
        ensures
            str_views(comps@) == version_folder_components(self@),
    {
        let last = self.segments.len() - 1;
        let mut comps: Vec<String> = Vec::new();
        let mut i: usize = 0;
        while i < last
            invariant
                i <= last,
                comps@.len() == i,
                forall|j: int|
                    0 <= j < i ==> #[trigger] comps@[j]@ == seq!['_'] + self.segments@[j]@,
            decreases last - i,
        {
            comps.push(prefixed(self.segments[i].as_str(), false));
            i = i + 1;
        }
        comps.push(prefixed(self.segments[last].as_str(), true));
        proof {
            assert(str_views(comps@) =~= version_folder_components(self@));
        }
        comps
    }

    /// The physical repository path encoding.
    #[verifier::loop_isolation(false)]
    pub fn path_segments_as_repository_name(&self) -> (comps: Vec<String>)
        requires
            self.wf(),
        ensures
            str_views(comps@) == repository_components(self@),
    {
        match &self.version {
            Some(v) => {
                let mut comps = self.path_segments_as_version_folder();
                let vt = v.render();
                proof {
                    lemma_render_version_chars(v@);
                    lemma_ident_text_ascii(vt@);
                }
                let escaped = escape_plus(vt.as_str());
                comps.push(escaped);
                proof {
                    assert(str_views(comps@) =~= repository_components(self@));
                }
                comps
            },
            None => {
                let last = self.segments.len() - 1;
                let mut comps: Vec<String> = Vec::new();
                let mut i: usize = 0;
                while i < last
                    invariant
                        i <= last,
                        comps@.len() == i,
                        forall|j: int|
                            0 <= j < i ==> #[trigger] comps@[j]@ == seq!['_']
                                + self.segments@[j]@,
                    decreases last - i,
                {
                    comps.push(prefixed(self.segments[i].as_str(), false));
                    i = i + 1;
                }
                comps.push(self.segments[last].clone());
                proof {
                    assert(str_views(comps@) =~= repository_components(self@));
                }
                comps
            },
        }
    }

    /// The URL path of the name.
    pub fn url_path_segments(&self) -> (r: String)
        requires
            self.wf(),
        ensures
            r@ == url_text(self@),
    {
        let slash = "/";
        proof {
            reveal_strlit("/");
            assert(slash@ =~= seq!['/']);
        }
        let mut r = join_strs(&self.segments, slash);
        match &self.version {
            Some(v) => {
                let marker = "/_v";
                proof {
                    reveal_strlit("/_v");
                    assert(marker@ =~= seq!['/', '_', 'v']);
                }
                r.append(marker);
                let vt = v.render();
                proof {
                    lemma_render_version_chars(v@);
                    lemma_ident_text_ascii(vt@);
                }
                let escaped = escape_plus(vt.as_str());
                r.append(escaped.as_str());
            },
            None => {},
        }
        proof {
            assert(r@ =~= url_text(self@));
        }
        r
    }

    /// Decodes a path, given as its components below a storage root, back
    /// into a name; fails with `InvalidName` on components that fit no
    /// encoding.
    pub fn from_path_components(comps: &Vec<String>) -> (r: Result<Name, BatlError>)
        ensures
            match r {
                Ok(n) => name_of_components(str_views(comps@)) == Some(n@) && n.wf(),
                Err(e) => e == BatlError::InvalidName && name_of_components(
                    str_views(comps@),
                ) is None,
            },
    {
        let r = decode_from(comps, 0);
        proof {
            assert(str_views(comps@).skip(0) =~= str_views(comps@));
        }
        r
    }
}

/// Decodes the components from position `k` on.
#[verifier::loop_isolation(false)]
fn decode_from(comps: &Vec<String>, k: usize) -> (r: Result<Name, BatlError>)
    requires
        k <= comps@.len(),
    ensures
        match r {
            Ok(n) => name_of_components(str_views(comps@).skip(k as int)) == Some(n@) && n.wf(),
            Err(e) => e == BatlError::InvalidName && name_of_components(
                str_views(comps@).skip(k as int),
            ) is None,
        },
    decreases comps@.len() - k,
{
    let ghost suffix = str_views(comps@).skip(k as int);
    if k == comps.len() {
        return Err(BatlError::InvalidName);
    }
    proof {
        assert(suffix[0] == comps@[k as int]@);
    }
    let c = &comps[k];
    let n = c.unicode_len();
    if n >= 2 && c.as_str().get_char(0) == '_' && c.as_str().get_char(1) == '_' {
        let seg = c.as_str().substring_char(2, n);
        proof {
            assert(seg@ =~= comps@[k as int]@.skip(2));
        }
        if comps.len() - k != 2 {
            return Err(BatlError::InvalidName);
        }
        if !check_segment(seg) {
            return Err(BatlError::InvalidName);
        }
        let vcomp = &comps[k + 1];
        proof {
            assert(suffix[1] == comps@[k as int + 1]@);
        }
        if !vcomp.as_str().is_ascii() {
            proof {
                lemma_nonascii_version_comp(vcomp@);
            }
            return Err(BatlError::InvalidName);
        }
        let unescaped = unescape_plus(vcomp.as_str());
        match Version::parse(unescaped.as_str()) {
            Ok(v) => {
                let mut segments: Vec<String> = Vec::new();
                segments.push(seg.to_owned());
                let name = Name { segments, version: Some(v) };
                proof {
                    assert(name_of_components(suffix) == Some(name@)) by {
                        assert(name_of_components(suffix)->Some_0 =~= name@);
                    }
                }
                Ok(name)
            },
            Err(_) => Err(BatlError::InvalidName),
        }
    } else if n >= 1 && c.as_str().get_char(0) == '_' {
        let seg = c.as_str().substring_char(1, n);
        proof {
            assert(seg@ =~= comps@[k as int]@.skip(1));
        }
        if !check_segment(seg) {
            return Err(BatlError::InvalidName);
        }
        if comps.len() - k == 1 {
            let mut segments: Vec<String> = Vec::new();
            segments.push(seg.to_owned());
            let name = Name { segments, version: None };
            proof {
                assert(name_of_components(suffix) == Some(name@)) by {
                    assert(name_of_components(suffix)->Some_0 =~= name@);
                }
            }
            return Ok(name);
        }
        match decode_from(comps, k + 1) {
            Ok(rest) => {
                let mut segments: Vec<String> = Vec::new();
                segments.push(seg.to_owned());
                let mut i: usize = 0;
                while i < rest.segments.len()
                    invariant
                        i <= rest.segments@.len(),
                        segments@.len() == i + 1,
                        segments@[0]@ == comps@[k as int]@.skip(1),
                        forall|j: int|
                            1 <= j < i + 1 ==> #[trigger] segments@[j]@ == rest.segments@[j
                                - 1]@,
                    decreases rest.segments@.len() - i,
                {
                    segments.push(rest.segments[i].clone());
                    i = i + 1;
                }
                let name = Name { segments, version: rest.version };
                proof {
                    assert(suffix.skip(1) =~= str_views(comps@).skip(k as int + 1));
                    assert(str_views(name.segments@) =~= seq![comps@[k as int]@.skip(1)]
                        + rest@.segments);
                    assert(name@.version == rest@.version);
                    assert(name_of_components(suffix) == Some(name@)) by {
                        assert(name_of_components(suffix)->Some_0 =~= name@);
                    }
                }
                Ok(name)
            },
            Err(e) => {
                proof {
                    assert(suffix.skip(1) =~= str_views(comps@).skip(k as int + 1));
                }
                Err(e)
            },
        }
    } else {
        if comps.len() - k == 1 && check_segment(c.as_str()) {
            let mut segments: Vec<String> = Vec::new();
            segments.push(c.clone());
            let name = Name { segments, version: None };
            proof {
                assert(name_of_components(suffix) == Some(name@)) by {
                    assert(name_of_components(suffix)->Some_0 =~= name@);
                }
            }
            Ok(name)
        } else {
            Err(BatlError::InvalidName)
        }
    }
}

/// A character whose code is below 128 sits inside the ASCII range.
proof fn lemma_ascii_code_bound(c: char)
    requires
        (c as u32) < 128,
    ensures
        '\0' <= c <= '\u{7f}',
{
}

/// A codec character sits inside the ASCII range.
proof fn lemma_codec_char_bounds(c: char)
    requires
        is_segment_char(c) || c == '.' || c == '+',
    ensures
        '\0' <= c <= '\u{7f}',
{
}

/// Rendered versions and identifier text are ASCII.
proof fn lemma_ident_text_ascii(t: Seq<char>)
    requires
        forall|j: int|
            0 <= j < t.len() ==> is_segment_char(#[trigger] t[j]) || t[j] == '.' || t[j] == '+',
    ensures
        vstd::utf8::is_ascii_chars(t),
{
    assert forall|i: int| 0 <= i < t.len() implies '\0' <= #[trigger] t[i] <= '\u{7f}' by {
        lemma_codec_char_bounds(t[i]);
    }
}

/// A component with a character outside ASCII cannot unescape to a valid
/// version text.
pub proof fn lemma_nonascii_version_comp(s: Seq<char>)
    requires
        !vstd::utf8::is_ascii_chars(s),
    ensures
        version_of_text(unesc_plus(s)) is None,
{
    if version_of_text(unesc_plus(s)) is Some {
        lemma_version_text_ascii(unesc_plus(s));
        let i = choose|i: int| 0 <= i < s.len() && !('\0' <= #[trigger] s[i] <= '\u{7f}');
        crate::text::lemma_unesc_plus_chars(s);
        assert(s[i] == '_' || unesc_plus(s).contains(s[i]));
        assert(s[i] != '_');
        let j = choose|j: int| 0 <= j < unesc_plus(s).len() && unesc_plus(s)[j] == s[i];
        assert((unesc_plus(s)[j] as u32) < 128);
        assert((s[i] as u32) < 128);
        lemma_ascii_code_bound(s[i]);
        assert(false);
    }
}

// ---------------------------------------------------------------------------
// Repository paths are decoded back exactly
// ---------------------------------------------------------------------------

/// Decoding the repository path of a well-formed name yields the name
/// back, version and build metadata included: the underscore conventions
/// and the `+` escape lose nothing.
pub proof fn lemma_repository_path_round_trip(n: NameView)
    requires
        n.wf(),
    ensures
        name_of_components(repository_components(n)) == Some(n),
    decreases n.segments.len(),
{
    let comps = repository_components(n);
    let len = n.segments.len() as int;
    if len == 1 {
        match n.version {
            Some(v) => {
                let c0 = seq!['_', '_'] + n.segments[0];
                let vt = render_version(v);
                assert(version_folder_components(n) =~= seq![c0]);
                assert(comps =~= seq![c0, esc_plus(vt)]);
                assert(c0[0] == '_' && c0[1] == '_');
                assert(c0.skip(2) =~= n.segments[0]);
                lemma_render_version_chars(v);
                assert(crate::text::lacks_char(vt, '_')) by {
                    assert forall|j: int| 0 <= j < vt.len() implies #[trigger] vt[j] != '_' by {
                        assert(is_ident_char_or_sep(vt[j]));
                    }
                }
                lemma_unesc_esc(vt);
                lemma_version_round_trip(v);
                assert(name_of_components(comps) == Some(n)) by {
                    assert(name_of_components(comps)->Some_0 =~= n);
                }
            },
            None => {
                let c0 = n.segments[0];
                assert(comps =~= seq![c0]);
                assert(valid_segment(c0));
                assert(c0[0] != '_');
                assert(name_of_components(comps) == Some(n)) by {
                    assert(name_of_components(comps)->Some_0 =~= n);
                }
            },
        }
    } else {
        let rest = NameView { segments: n.segments.skip(1), version: n.version };
        assert(rest.wf()) by {
            assert forall|i: int| 0 <= i < rest.segments.len() implies valid_segment(
                #[trigger] rest.segments[i],
            ) by {
                assert(rest.segments[i] == n.segments[i + 1]);
            }
        }
        lemma_repository_path_round_trip(rest);
        let c0 = seq!['_'] + n.segments[0];
        assert(comps[0] == c0) by {
            match n.version {
                Some(v) => {
                    assert(n.segments.take(len - 1).map_values(
                        |s: Seq<char>| seq!['_'] + s,
                    )[0] == seq!['_'] + n.segments[0]);
                },
                None => {
                    assert(n.segments.take(len - 1).map_values(
                        |s: Seq<char>| seq!['_'] + s,
                    )[0] == seq!['_'] + n.segments[0]);
                },
            }
        }
        assert(comps.skip(1) =~= repository_components(rest)) by {
            match n.version {
                Some(v) => {
                    assert(version_folder_components(n).skip(1) =~= version_folder_components(
                        rest,
                    )) by {
                        lemma_prefixed_take_skip(n.segments, rest.segments);
                    }
                },
                None => {
                    lemma_prefixed_take_skip(n.segments, rest.segments);
                },
            }
        }
        assert(c0[0] == '_');
        assert(c0[1] == n.segments[0][0]);
        assert(c0[1] != '_');
        assert(c0.skip(1) =~= n.segments[0]);
        assert(valid_segment(c0.skip(1)));
        assert(comps.len() > 1);
        assert(name_of_components(comps) == Some(n)) by {
            assert(name_of_components(comps)->Some_0 =~= n);
        }
    }
}

/// Shifting the prefixed leading segments by one aligns the encodings of a
/// name and of its tail.
proof fn lemma_prefixed_take_skip(segs: Seq<Seq<char>>, tail: Seq<Seq<char>>)
    requires
        segs.len() > 1,
        tail == segs.skip(1),
    ensures
        segs.take(segs.len() - 1).map_values(|s: Seq<char>| seq!['_'] + s).skip(1) == tail.take(
            tail.len() - 1,
        ).map_values(|s: Seq<char>| seq!['_'] + s),
{
    let lhs = segs.take(segs.len() - 1).map_values(|s: Seq<char>| seq!['_'] + s).skip(1);
    let rhs = tail.take(tail.len() - 1).map_values(|s: Seq<char>| seq!['_'] + s);
    assert(lhs.len() == rhs.len());
    assert forall|i: int| 0 <= i < lhs.len() implies lhs[i] == rhs[i] by {
        assert(segs.take(segs.len() - 1)[i + 1] == segs[i + 1]);
        assert(tail.take(tail.len() - 1)[i] == tail[i]);
        assert(tail[i] == segs[i + 1]);
    }
    assert(lhs =~= rhs);
}

/// A character of an identifier chain, a dot, or a separator.
pub open spec fn is_ident_char_or_sep(c: char) -> bool {
    crate::text::is_ident_char(c) || c == '.' || c == '+'
}

// ---------------------------------------------------------------------------
// The text form is parsed back exactly
// ---------------------------------------------------------------------------

/// Parsing the canonical dotted text of a well-formed name yields the name
/// back; with no version this is exactly the statement that rendering the
/// segments loses nothing.
pub proof fn lemma_name_text_round_trip(n: NameView)
    requires
        n.wf(),
    ensures
        name_of_text(text_of_name(n)) == Some(n),
{
    let s = text_of_name(n);
    let base = join_with(n.segments, '.');
    assert forall|i: int| 0 <= i < n.segments.len() implies lacks_char(
        #[trigger] n.segments[i],
        '.',
    ) && lacks_char(n.segments[i], '@') by {
        assert(valid_segment(n.segments[i]));
    }
    lemma_join_segments_chars(n.segments);
    lemma_split_join(n.segments, '.');
    match n.version {
        Some(v) => {
            lemma_render_version_chars(v);
            assert(s =~= base + seq!['@'] + render_version(v));
            lemma_find_char_concat(base, render_version(v), '@');
            let ia = find_char(s, '@') as int;
            assert(ia == base.len());
            assert(s.take(ia) =~= base);
            assert(s.skip(ia + 1) =~= render_version(v));
            lemma_version_round_trip(v);
            if render_version(v).len() == 0 {
                assert(false);
            }
            assert(name_of_text(s) == Some(n)) by {
                assert(name_of_text(s)->Some_0 =~= n);
            }
        },
        None => {
            assert(s =~= base);
            lemma_find_char_absent(base, '@');
            assert(s.take(s.len() as int) =~= base);
            assert(name_of_text(s) == Some(n)) by {
                assert(name_of_text(s)->Some_0 =~= n);
            }
        },
    }
}

/// The URL path of a floating name splits back into exactly its
/// segments: the slash-joined rendering loses nothing.
pub proof fn lemma_url_segments_round_trip(n: NameView)
    requires
        n.wf(),
        n.version is None,
    ensures
        split_on(url_text(n), '/') == n.segments,
{
    assert forall|i: int| 0 <= i < n.segments.len() implies lacks_char(
        #[trigger] n.segments[i],
        '/',
    ) by {
        assert(valid_segment(n.segments[i]));
    }
    lemma_split_join(n.segments, '/');
    assert(url_text(n) =~= join_with(n.segments, '/'));
}

/// Joined segments contain no `@`, `/` or `_` beyond what the segments
/// themselves hold; in particular the join lacks `@` and `/`.
proof fn lemma_join_segments_chars(segments: Seq<Seq<char>>)
    requires
        forall|i: int| 0 <= i < segments.len() ==> valid_segment(#[trigger] segments[i]),
    ensures
        lacks_char(join_with(segments, '.'), '@'),
        lacks_char(join_with(segments, '/'), '@'),
        forall|j: int|
            0 <= j < join_with(segments, '/').len() ==> is_segment_char(
                #[trigger] join_with(segments, '/')[j],
            ) || join_with(segments, '/')[j] == '/',
    decreases segments.len(),
{
    if segments.len() == 0 {
    } else if segments.len() == 1 {
        assert(valid_segment(segments[0]));
        assert forall|j: int| 0 <= j < join_with(segments, '.').len() implies #[trigger] join_with(
            segments,
            '.',
        )[j] != '@' by {
            assert(is_segment_char(segments[0][j]));
        }
        assert forall|j: int| 0 <= j < join_with(segments, '/').len() implies #[trigger] join_with(
            segments,
            '/',
        )[j] != '@' by {
            assert(is_segment_char(segments[0][j]));
        }
    } else {
        lemma_join_segments_chars(segments.skip(1));
        let jd = join_with(segments, '.');
        let rd = join_with(segments.skip(1), '.');
        let l0 = segments[0].len() as int;
        assert forall|j: int| 0 <= j < jd.len() implies #[trigger] jd[j] != '@' by {
            if j < l0 {
                assert(jd[j] == segments[0][j]);
                assert(is_segment_char(segments[0][j]));
            } else if j == l0 {
                assert(jd[j] == '.');
            } else {
                assert(jd[j] == rd[j - l0 - 1]);
            }
        }
        let js = join_with(segments, '/');
        let rs = join_with(segments.skip(1), '/');
        assert forall|j: int| 0 <= j < js.len() implies #[trigger] js[j] != '@' && (is_segment_char(
            js[j],
        ) || js[j] == '/') by {
            if j < l0 {
                assert(js[j] == segments[0][j]);
                assert(is_segment_char(segments[0][j]));
            } else if j == l0 {
                assert(js[j] == '/');
            } else {
                assert(js[j] == rs[j - l0 - 1]);
            }
        }
    }
}

} // verus!
