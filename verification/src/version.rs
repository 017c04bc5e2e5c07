//! Semantic versions: the exact grammar, rendering, parsing and the
//! precedence order.
//!
//! A version is three decimal numbers plus an optional pre-release chain
//! and an optional build-metadata chain. Rendering and parsing are exact
//! inverses, which the path and URL codecs rely on.

use vstd::prelude::*;

use crate::error::BatlError;
use crate::text::{
    all_digits, dec_digits, find_char, is_digit, is_ident_char, join_with, lacks_char, num_val,
    split_on, str_views, valid_num, lemma_dec_digits_shape, lemma_find_char,
    lemma_find_char_absent, lemma_find_char_concat, lemma_num_val_dec_digits, lemma_split_join,
    find_char_in, parse_u64, split_str, u64_to_dec,
};

verus! {

/// The mathematical shape of a version: plain numbers and character
/// sequences for the two identifier chains (empty means absent).
#[verifier::ext_equal]
pub ghost struct VersionView {
    pub major: nat,
    pub minor: nat,
    pub patch: nat,
    pub pre: Seq<char>,
    pub build: Seq<char>,
}

/// A semantic version. `pre` and `build` hold the dot-separated identifier
/// chains without their leading `-` or `+`; an empty string means the chain
/// is absent.
pub struct Version {
    pub major: u64,
    pub minor: u64,
    pub patch: u64,
    pub pre: String,
    pub build: String,
}

impl View for Version {
    type V = VersionView;

    open spec fn view(&self) -> VersionView {
        VersionView {
            major: self.major as nat,
            minor: self.minor as nat,
            patch: self.patch as nat,
            pre: self.pre@,
            build: self.build@,
        }
    }
}

// ---------------------------------------------------------------------------
// Validity
// ---------------------------------------------------------------------------

/// A pre-release identifier: non-empty, letters, digits and hyphens, and a
/// purely numeric identifier has no leading zero.
pub open spec fn valid_pre_ident(s: Seq<char>) -> bool {
    &&& s.len() > 0
    &&& (forall|j: int| 0 <= j < s.len() ==> is_ident_char(#[trigger] s[j]))
    &&& (all_digits(s) && s.len() > 1 ==> s[0] != '0')
}

/// A build identifier: non-empty, letters, digits and hyphens.
pub open spec fn valid_build_ident(s: Seq<char>) -> bool {
    &&& s.len() > 0
    &&& (forall|j: int| 0 <= j < s.len() ==> is_ident_char(#[trigger] s[j]))
}

/// A non-empty dot-separated chain of pre-release identifiers.
pub open spec fn valid_pre_chain(s: Seq<char>) -> bool {
    &&& s.len() > 0
    &&& (forall|i: int|
        0 <= i < split_on(s, '.').len() ==> valid_pre_ident(#[trigger] split_on(s, '.')[i]))
}

/// A non-empty dot-separated chain of build identifiers.
pub open spec fn valid_build_chain(s: Seq<char>) -> bool {
    &&& s.len() > 0
    &&& (forall|i: int|
        0 <= i < split_on(s, '.').len() ==> valid_build_ident(#[trigger] split_on(s, '.')[i]))
}

impl VersionView {
    /// A well-formed version: numbers that fit the machine word, and valid
    /// identifier chains where present.
    pub open spec fn wf(&self) -> bool {
        &&& self.major <= u64::MAX
        &&& self.minor <= u64::MAX
        &&& self.patch <= u64::MAX
        &&& (self.pre.len() > 0 ==> valid_pre_chain(self.pre))
        &&& (self.build.len() > 0 ==> valid_build_chain(self.build))
    }
}

// ---------------------------------------------------------------------------
// Rendering
// ---------------------------------------------------------------------------

/// The canonical text of a version.
pub open spec fn render_version(v: VersionView) -> Seq<char> {
    dec_digits(v.major) + seq!['.'] + dec_digits(v.minor) + seq!['.'] + dec_digits(v.patch) + (
    if v.pre.len() > 0 {
        seq!['-'] + v.pre
    } else {
        seq![]
    }) + (if v.build.len() > 0 {
        seq!['+'] + v.build
    } else {
        seq![]
    })
}

// ---------------------------------------------------------------------------
// Parsing
// ---------------------------------------------------------------------------

/// The version denoted by `s`, or nothing if `s` is not a valid version
/// text. The text before the first `+` splits at its first `-` into the
/// three dotted numbers and the pre-release chain.
pub open spec fn version_of_text(s: Seq<char>) -> Option<VersionView> {
    let ib = find_char(s, '+') as int;
    let has_build = ib < s.len();
    let core = s.take(ib);
    let build = if has_build {
        s.skip(ib + 1)
    } else {
        seq![]
    };
    let ip = find_char(core, '-') as int;
    let has_pre = ip < core.len();
    let nums = core.take(ip);
    let pre = if has_pre {
        core.skip(ip + 1)
    } else {
        seq![]
    };
    let parts = split_on(nums, '.');
    if parts.len() == 3 && valid_num(parts[0]) && valid_num(parts[1]) && valid_num(parts[2]) && (
    has_pre ==> valid_pre_chain(pre)) && (has_build ==> valid_build_chain(build)) {
        Some(
            VersionView {
                major: num_val(parts[0]),
                minor: num_val(parts[1]),
                patch: num_val(parts[2]),
                pre,
                build,
            },
        )
    } else {
        None
    }
}

impl Version {
    /// A convenience view predicate: the version is well formed.
    pub open spec fn wf(&self) -> bool {
        self@.wf()
    }

    /// Builds a bare `major.minor.patch` version.
    pub fn new(major: u64, minor: u64, patch: u64) -> (r: Version)
        ensures
            r@ == (VersionView {
                major: major as nat,
                minor: minor as nat,
                patch: patch as nat,
                pre: Seq::<char>::empty(),
                build: Seq::<char>::empty(),
            }),
            r.wf(),
    {
        let r = Version { major, minor, patch, pre: String::new(), build: String::new() };
        proof {
            assert(r@ =~= VersionView {
                major: major as nat,
                minor: minor as nat,
                patch: patch as nat,
                pre: Seq::<char>::empty(),
                build: Seq::<char>::empty(),
            });
        }
        r
    }

    /// Copies the version.
    pub fn duplicate(&self) -> (r: Version)
        ensures
            r@ == self@,
    {
        Version {
            major: self.major,
            minor: self.minor,
            patch: self.patch,
            pre: self.pre.clone(),
            build: self.build.clone(),
        }
    }

    /// Renders the canonical text of the version.
    pub fn render(&self) -> (r: String)
        requires
            self.wf(),
        ensures
            r@ == render_version(self@),
    {
        let mut r = u64_to_dec(self.major);
        let dot = ".";
        let dash = "-";
        let plus = "+";
        proof {
            reveal_strlit(".");
            reveal_strlit("-");
            reveal_strlit("+");
            assert(dot@ =~= seq!['.']);
            assert(dash@ =~= seq!['-']);
            assert(plus@ =~= seq!['+']);
        }
        r.append(dot);
        let minor = u64_to_dec(self.minor);
        r.append(minor.as_str());
        r.append(dot);
        let patch = u64_to_dec(self.patch);
        r.append(patch.as_str());
        if self.pre.unicode_len() > 0 {
            r.append(dash);
            r.append(self.pre.as_str());
        }
        if self.build.unicode_len() > 0 {
            r.append(plus);
            r.append(self.build.as_str());
        }
        proof {
            assert(r@ =~= render_version(self@));
        }
        r
    }

    /// Parses a version text; fails with `InvalidName` exactly on texts the
    /// version grammar rejects.
    pub fn parse(text: &str) -> (r: Result<Version, BatlError>)
        ensures
            match r {
                Ok(v) => version_of_text(text@) == Some(v@) && v.wf(),
                Err(e) => e == BatlError::InvalidName && version_of_text(text@) is None,
            },
    {
        let n = text.unicode_len();
        let ib = find_char_in(text, '+');
        proof {
            lemma_find_char(text@, '+');
        }
        let has_build = ib < n;
        let core = text.substring_char(0, ib);
        let build = if has_build {
            text.substring_char(ib + 1, n).to_owned()
        } else {
            String::new()
        };
        let nc = core.unicode_len();
        let ip = find_char_in(core, '-');
        proof {
            lemma_find_char(core@, '-');
        }
        let has_pre = ip < nc;
        let nums = core.substring_char(0, ip);
        let pre = if has_pre {
            core.substring_char(ip + 1, nc).to_owned()
        } else {
            String::new()
        };
        proof {
            assert(core@ =~= text@.take(ib as int));
            assert(nums@ =~= core@.take(ip as int));
            if has_build {
                assert(build@ =~= text@.skip(ib as int + 1));
            }
            if has_pre {
                assert(pre@ =~= core@.skip(ip as int + 1));
            }
        }
        let parts = split_str(nums, '.');
        if parts.len() != 3 {
            return Err(BatlError::InvalidName);
        }
        let major = match parse_u64(parts[0].as_str()) {
            Some(x) => x,
            None => {
                return Err(BatlError::InvalidName);
            },
        };
        let minor = match parse_u64(parts[1].as_str()) {
            Some(x) => x,
            None => {
                return Err(BatlError::InvalidName);
            },
        };
        let patch = match parse_u64(parts[2].as_str()) {
            Some(x) => x,
            None => {
                return Err(BatlError::InvalidName);
            },
        };
        if has_pre && !check_pre_chain(pre.as_str()) {
            return Err(BatlError::InvalidName);
        }
        if has_build && !check_build_chain(build.as_str()) {
            return Err(BatlError::InvalidName);
        }
        let v = Version { major, minor, patch, pre, build };
        proof {
            let parts_spec = split_on(nums@, '.');
            assert(str_views(parts@)[0] == parts@[0]@);
            assert(str_views(parts@)[1] == parts@[1]@);
            assert(str_views(parts@)[2] == parts@[2]@);
            assert(version_of_text(text@) == Some(v@));
        }
        Ok(v)
    }
}

/// Checks a pre-release identifier.
fn check_pre_ident(s: &str) -> (r: bool)
    ensures
        r == valid_pre_ident(s@),
{
    let n = s.unicode_len();
    if n == 0 {
        return false;
    }
    let mut digits_only = true;
    let mut i: usize = 0;
    while i < n
        invariant
            i <= n,
            n == s@.len(),
            forall|j: int| 0 <= j < i ==> is_ident_char(#[trigger] s@[j]),
            digits_only == all_digits(s@.take(i as int)),
        decreases n - i,
    {
        let c = s.get_char(i);
        let u = c as u32;
        let ok = (48 <= u && u <= 57) || (65 <= u && u <= 90) || (97 <= u && u <= 122) || c == '-';
        if !ok {
            return false;
        }
        proof {
            let t0 = s@.take(i as int);
            let t1 = s@.take(i as int + 1);
            assert(t1[i as int] == s@[i as int]);
            if is_digit(s@[i as int]) {
                if all_digits(t0) {
                    assert forall|j: int| 0 <= j < t1.len() implies is_digit(
                        #[trigger] t1[j],
                    ) by {
                        if j < i {
                            assert(t1[j] == t0[j]);
                        }
                    }
                } else {
                    let j = choose|j: int| 0 <= j < t0.len() && !is_digit(#[trigger] t0[j]);
                    assert(t1[j] == t0[j]);
                    assert(!all_digits(t1));
                }
            } else {
                assert(!all_digits(t1));
            }
        }
        if !(48 <= u && u <= 57) {
            digits_only = false;
        }
        i = i + 1;
    }
    proof {
        assert(s@.take(n as int) =~= s@);
    }
    if digits_only && n > 1 && s.get_char(0) == '0' {
        return false;
    }
    true
}

/// Checks a build identifier.
fn check_build_ident(s: &str) -> (r: bool)
    ensures
        r == valid_build_ident(s@),
{
    let n = s.unicode_len();
    if n == 0 {
        return false;
    }
    let mut i: usize = 0;
    while i < n
        invariant
            i <= n,
            n == s@.len(),
            forall|j: int| 0 <= j < i ==> is_ident_char(#[trigger] s@[j]),
        decreases n - i,
    {
        let c = s.get_char(i);
        let u = c as u32;
        let ok = (48 <= u && u <= 57) || (65 <= u && u <= 90) || (97 <= u && u <= 122) || c == '-';
        if !ok {
            return false;
        }
        i = i + 1;
    }
    true
}

/// Checks a dot-separated pre-release chain.
pub fn check_pre_chain(s: &str) -> (r: bool)
    ensures
        r == valid_pre_chain(s@),
{
    if s.unicode_len() == 0 {
        return false;
    }
    let parts = split_str(s, '.');
    let mut k: usize = 0;
    while k < parts.len()
        invariant
            k <= parts@.len(),
            str_views(parts@) == split_on(s@, '.'),
            forall|i: int| 0 <= i < k ==> valid_pre_ident(#[trigger] split_on(s@, '.')[i]),
        decreases parts@.len() - k,
    {
        proof {
            assert(str_views(parts@)[k as int] == parts@[k as int]@);
        }
        if !check_pre_ident(parts[k].as_str()) {
            return false;
        }
        k = k + 1;
    }
    true
}

/// Checks a dot-separated build chain.
pub fn check_build_chain(s: &str) -> (r: bool)
    ensures
        r == valid_build_chain(s@),
{
    if s.unicode_len() == 0 {
        return false;
    }
    let parts = split_str(s, '.');
    let mut k: usize = 0;
    while k < parts.len()
        invariant
            k <= parts@.len(),
            str_views(parts@) == split_on(s@, '.'),
            forall|i: int| 0 <= i < k ==> valid_build_ident(#[trigger] split_on(s@, '.')[i]),
        decreases parts@.len() - k,
    {
        proof {
            assert(str_views(parts@)[k as int] == parts@[k as int]@);
        }
        if !check_build_ident(parts[k].as_str()) {
            return false;
        }
        k = k + 1;
    }
    true
}

/// A text the version grammar accepts always denotes a well-formed
/// version.
pub proof fn lemma_version_of_text_wf(t: Seq<char>)
    ensures
        version_of_text(t) is Some ==> version_of_text(t)->Some_0.wf(),
{
}

impl Version {
    /// Checks that the version is well formed.
    pub fn is_wf(&self) -> (r: bool)
        ensures
            r == self@.wf(),
    {
        let pre_ok = self.pre.unicode_len() == 0 || check_pre_chain(self.pre.as_str());
        let build_ok = self.build.unicode_len() == 0 || check_build_chain(self.build.as_str());
        pre_ok && build_ok
    }

    /// Compares two versions for equality, build metadata included.
    pub fn same_as(&self, other: &Version) -> (r: bool)
        ensures
            r == (self@ == other@),
    {
        if self.major != other.major || self.minor != other.minor || self.patch != other.patch {
            return false;
        }
        if !crate::text::str_eq(self.pre.as_str(), other.pre.as_str()) {
            return false;
        }
        if !crate::text::str_eq(self.build.as_str(), other.build.as_str()) {
            return false;
        }
        proof {
            assert(self@ =~= other@);
        }
        true
    }
}

// ---------------------------------------------------------------------------
// Precedence
// ---------------------------------------------------------------------------

/// Strict lexicographic order on character sequences, by character code,
/// with a proper prefix ordered first.
pub open spec fn lex_lt(a: Seq<char>, b: Seq<char>) -> bool
    decreases a.len(),
{
    if b.len() == 0 {
        false
    } else if a.len() == 0 {
        true
    } else if (a[0] as u32) < (b[0] as u32) {
        true
    } else if (a[0] as u32) > (b[0] as u32) {
        false
    } else {
        lex_lt(a.skip(1), b.skip(1))
    }
}

/// Numeric order on canonical numerals: fewer digits first, equal digit
/// counts by character order.
pub open spec fn numeral_lt(a: Seq<char>, b: Seq<char>) -> bool {
    a.len() < b.len() || (a.len() == b.len() && lex_lt(a, b))
}

/// Order on pre-release identifiers: numeric identifiers come first and
/// compare numerically, alphanumeric ones compare lexicographically.
pub open spec fn ident_lt(a: Seq<char>, b: Seq<char>) -> bool {
    if all_digits(a) && all_digits(b) {
        numeral_lt(a, b)
    } else if all_digits(a) {
        true
    } else if all_digits(b) {
        false
    } else {
        lex_lt(a, b)
    }
}

/// Order on pre-release chains: identifier by identifier, a proper prefix
/// first.
pub open spec fn pre_lt(xs: Seq<Seq<char>>, ys: Seq<Seq<char>>) -> bool
    decreases xs.len(),
{
    if ys.len() == 0 {
        false
    } else if xs.len() == 0 {
        true
    } else if ident_lt(xs[0], ys[0]) {
        true
    } else if ident_lt(ys[0], xs[0]) {
        false
    } else {
        pre_lt(xs.skip(1), ys.skip(1))
    }
}

/// Semantic-version precedence: numbers first, then a version with a
/// pre-release chain precedes the same numbers without one; build metadata
/// does not participate.
pub open spec fn version_lt(a: VersionView, b: VersionView) -> bool {
    if a.major != b.major {
        a.major < b.major
    } else if a.minor != b.minor {
        a.minor < b.minor
    } else if a.patch != b.patch {
        a.patch < b.patch
    } else if a.pre.len() > 0 && b.pre.len() == 0 {
        true
    } else if a.pre.len() == 0 {
        false
    } else if b.pre.len() == 0 {
        false
    } else {
        pre_lt(split_on(a.pre, '.'), split_on(b.pre, '.'))
    }
}

pub proof fn lemma_lex_lt_trans(a: Seq<char>, b: Seq<char>, c: Seq<char>)
    requires
        lex_lt(a, b),
        lex_lt(b, c),
    ensures
        lex_lt(a, c),
    decreases a.len(),
{
    if a.len() == 0 {
    } else {
        if (a[0] as u32) == (b[0] as u32) && (b[0] as u32) == (c[0] as u32) {
            lemma_lex_lt_trans(a.skip(1), b.skip(1), c.skip(1));
        }
    }
}

pub proof fn lemma_lex_lt_connex(a: Seq<char>, b: Seq<char>)
    requires
        !lex_lt(a, b),
        !lex_lt(b, a),
    ensures
        a == b,
    decreases a.len(),
{
    if b.len() == 0 {
        assert(a.len() == 0);
        assert(a =~= b);
    } else if a.len() == 0 {
    } else {
        assert((a[0] as u32) == (b[0] as u32));
        assert(a[0] == b[0]) by {
            vstd::utf8::char_u32_cast(a[0], a[0] as u32);
            vstd::utf8::char_u32_cast(b[0], b[0] as u32);
        }
        lemma_lex_lt_connex(a.skip(1), b.skip(1));
        assert(a.len() == b.len());
        assert forall|j: int| 0 <= j < a.len() implies a[j] == b[j] by {
            if j > 0 {
                assert(a.skip(1)[j - 1] == a[j]);
                assert(b.skip(1)[j - 1] == b[j]);
            }
        }
        assert(a =~= b);
    }
}

pub proof fn lemma_ident_lt_trans(a: Seq<char>, b: Seq<char>, c: Seq<char>)
    requires
        ident_lt(a, b),
        ident_lt(b, c),
    ensures
        ident_lt(a, c),
{
    if all_digits(a) && all_digits(b) && all_digits(c) {
        if a.len() == b.len() && b.len() == c.len() {
            lemma_lex_lt_trans(a, b, c);
        }
    } else if !all_digits(a) && !all_digits(b) && !all_digits(c) {
        lemma_lex_lt_trans(a, b, c);
    }
}

pub proof fn lemma_ident_lt_connex(a: Seq<char>, b: Seq<char>)
    requires
        !ident_lt(a, b),
        !ident_lt(b, a),
    ensures
        a == b,
{
    if all_digits(a) && all_digits(b) {
        lemma_lex_lt_connex(a, b);
    } else if !all_digits(a) && !all_digits(b) {
        lemma_lex_lt_connex(a, b);
    }
}

pub proof fn lemma_pre_lt_trans(xs: Seq<Seq<char>>, ys: Seq<Seq<char>>, zs: Seq<Seq<char>>)
    requires
        pre_lt(xs, ys),
        pre_lt(ys, zs),
    ensures
        pre_lt(xs, zs),
    decreases xs.len(),
{
    if xs.len() == 0 {
    } else {
        if ident_lt(xs[0], ys[0]) {
            if ident_lt(ys[0], zs[0]) {
                lemma_ident_lt_trans(xs[0], ys[0], zs[0]);
            } else {
                lemma_ident_lt_connex(ys[0], zs[0]);
            }
        } else {
            lemma_ident_lt_connex(xs[0], ys[0]);
            if !ident_lt(ys[0], zs[0]) {
                lemma_ident_lt_connex(ys[0], zs[0]);
                lemma_pre_lt_trans(xs.skip(1), ys.skip(1), zs.skip(1));
            }
        }
    }
}

pub proof fn lemma_lex_lt_irrefl(a: Seq<char>)
    ensures
        !lex_lt(a, a),
    decreases a.len(),
{
    if a.len() > 0 {
        lemma_lex_lt_irrefl(a.skip(1));
    }
}

pub proof fn lemma_ident_lt_irrefl(a: Seq<char>)
    ensures
        !ident_lt(a, a),
{
    lemma_lex_lt_irrefl(a);
}

pub proof fn lemma_pre_lt_irrefl(xs: Seq<Seq<char>>)
    ensures
        !pre_lt(xs, xs),
    decreases xs.len(),
{
    if xs.len() > 0 {
        lemma_ident_lt_irrefl(xs[0]);
        lemma_pre_lt_irrefl(xs.skip(1));
    }
}

/// No version precedes itself.
pub proof fn lemma_version_lt_irrefl(a: VersionView)
    ensures
        !version_lt(a, a),
{
    if a.pre.len() > 0 {
        lemma_pre_lt_irrefl(split_on(a.pre, '.'));
    }
}

/// The precedence order is transitive, so "latest" is well defined.
pub proof fn lemma_version_lt_trans(a: VersionView, b: VersionView, c: VersionView)
    requires
        version_lt(a, b),
        version_lt(b, c),
    ensures
        version_lt(a, c),
{
    if a.major == b.major && b.major == c.major && a.minor == b.minor && b.minor == c.minor
        && a.patch == b.patch && b.patch == c.patch {
        if a.pre.len() > 0 && b.pre.len() > 0 && c.pre.len() > 0 {
            lemma_pre_lt_trans(split_on(a.pre, '.'), split_on(b.pre, '.'), split_on(c.pre, '.'));
        }
    }
}

/// Checks strict lexicographic order.
fn lex_lt_check(a: &str, b: &str) -> (r: bool)
    ensures
        r == lex_lt(a@, b@),
{
    let na = a.unicode_len();
    let nb = b.unicode_len();
    let mut i: usize = 0;
    proof {
        assert(a@.skip(0) =~= a@);
        assert(b@.skip(0) =~= b@);
    }
    while i < na && i < nb
        invariant
            i <= na,
            i <= nb,
            na == a@.len(),
            nb == b@.len(),
            lex_lt(a@, b@) == lex_lt(a@.skip(i as int), b@.skip(i as int)),
        decreases na - i,
    {
        let ca = a.get_char(i);
        let cb = b.get_char(i);
        proof {
            assert(a@.skip(i as int)[0] == a@[i as int]);
            assert(b@.skip(i as int)[0] == b@[i as int]);
            assert(a@.skip(i as int).skip(1) =~= a@.skip(i as int + 1));
            assert(b@.skip(i as int).skip(1) =~= b@.skip(i as int + 1));
        }
        if (ca as u32) < (cb as u32) {
            return true;
        }
        if (ca as u32) > (cb as u32) {
            return false;
        }
        i = i + 1;
    }
    proof {
        if i >= nb {
            assert(b@.skip(i as int).len() == 0);
        } else {
            assert(a@.skip(i as int).len() == 0);
            assert(b@.skip(i as int).len() > 0);
        }
    }
    na < nb
}

/// Checks that every character is a digit.
fn digits_check(s: &str) -> (r: bool)
    ensures
        r == all_digits(s@),
{
    let n = s.unicode_len();
    let mut i: usize = 0;
    while i < n
        invariant
            i <= n,
            n == s@.len(),
            forall|j: int| 0 <= j < i ==> is_digit(#[trigger] s@[j]),
        decreases n - i,
    {
        let u = s.get_char(i) as u32;
        if u < 48 || u > 57 {
            return false;
        }
        i = i + 1;
    }
    true
}

/// Checks the pre-release identifier order.
fn ident_lt_check(a: &str, b: &str) -> (r: bool)
    ensures
        r == ident_lt(a@, b@),
{
    let da = digits_check(a);
    let db = digits_check(b);
    if da && db {
        let na = a.unicode_len();
        let nb = b.unicode_len();
        if na != nb {
            na < nb
        } else {
            lex_lt_check(a, b)
        }
    } else if da {
        true
    } else if db {
        false
    } else {
        lex_lt_check(a, b)
    }
}

/// Checks the pre-release chain order from position `k` on.
fn pre_lt_check_from(xs: &Vec<String>, ys: &Vec<String>, k: usize) -> (r: bool)
    requires
        k <= xs@.len(),
        k <= ys@.len(),
    ensures
        r == pre_lt(str_views(xs@).skip(k as int), str_views(ys@).skip(k as int)),
    decreases xs@.len() - k,
{
    if k == ys.len() {
        false
    } else if k == xs.len() {
        true
    } else {
        proof {
            assert(str_views(xs@).skip(k as int)[0] == xs@[k as int]@);
            assert(str_views(ys@).skip(k as int)[0] == ys@[k as int]@);
            assert(str_views(xs@).skip(k as int).skip(1) =~= str_views(xs@).skip(k as int + 1));
            assert(str_views(ys@).skip(k as int).skip(1) =~= str_views(ys@).skip(k as int + 1));
        }
        if ident_lt_check(xs[k].as_str(), ys[k].as_str()) {
            true
        } else if ident_lt_check(ys[k].as_str(), xs[k].as_str()) {
            false
        } else {
            pre_lt_check_from(xs, ys, k + 1)
        }
    }
}

impl Version {
    /// Checks whether `self` precedes `other` in semantic-version
    /// precedence.
    pub fn precedes(&self, other: &Version) -> (r: bool)
        ensures
            r == version_lt(self@, other@),
    {
        if self.major != other.major {
            return self.major < other.major;
        }
        if self.minor != other.minor {
            return self.minor < other.minor;
        }
        if self.patch != other.patch {
            return self.patch < other.patch;
        }
        let pa = self.pre.unicode_len();
        let pb = other.pre.unicode_len();
        if pa > 0 && pb == 0 {
            return true;
        }
        if pa == 0 {
            return false;
        }
        if pb == 0 {
            return false;
        }
        let xs = split_str(self.pre.as_str(), '.');
        let ys = split_str(other.pre.as_str(), '.');
        let r = pre_lt_check_from(&xs, &ys, 0);
        proof {
            assert(str_views(xs@).skip(0) =~= str_views(xs@));
            assert(str_views(ys@).skip(0) =~= str_views(ys@));
        }
        r
    }
}

// ---------------------------------------------------------------------------
// The rendering is parsed back exactly
// ---------------------------------------------------------------------------

/// Identifier chains contain only identifier characters and dots.
proof fn lemma_chain_char_class(s: Seq<char>)
    requires
        forall|i: int|
            0 <= i < split_on(s, '.').len() ==> valid_build_ident(#[trigger] split_on(s, '.')[i])
                || valid_pre_ident(split_on(s, '.')[i]),
    ensures
        forall|j: int| 0 <= j < s.len() ==> is_ident_char(#[trigger] s[j]) || s[j] == '.',
    decreases s.len(),
{
    lemma_find_char(s, '.');
    let i = find_char(s, '.') as int;
    if i >= s.len() {
        assert(split_on(s, '.')[0] == s);
        assert forall|j: int| 0 <= j < s.len() implies is_ident_char(#[trigger] s[j]) || s[j]
            == '.' by {
            assert(valid_build_ident(s) || valid_pre_ident(s));
        }
    } else {
        let head = s.take(i);
        let tail = s.skip(i + 1);
        assert(split_on(s, '.')[0] == head);
        assert forall|k: int|
            0 <= k < split_on(tail, '.').len() implies valid_build_ident(
            #[trigger] split_on(tail, '.')[k],
        ) || valid_pre_ident(split_on(tail, '.')[k]) by {
            assert(split_on(s, '.')[k + 1] == split_on(tail, '.')[k]);
        }
        lemma_chain_char_class(tail);
        assert forall|j: int| 0 <= j < s.len() implies is_ident_char(#[trigger] s[j]) || s[j]
            == '.' by {
            if j < i {
                assert(valid_build_ident(head) || valid_pre_ident(head));
                assert(head[j] == s[j]);
            } else if j == i {
            } else {
                assert(tail[j - i - 1] == s[j]);
            }
        }
    }
}

/// Numeral chains contain only digits and dots.
proof fn lemma_digit_chain_chars(s: Seq<char>)
    requires
        forall|i: int| 0 <= i < split_on(s, '.').len() ==> valid_num(#[trigger] split_on(s, '.')[i]),
    ensures
        forall|j: int| 0 <= j < s.len() ==> is_digit(#[trigger] s[j]) || s[j] == '.',
    decreases s.len(),
{
    lemma_find_char(s, '.');
    let i = find_char(s, '.') as int;
    if i >= s.len() {
        assert(split_on(s, '.')[0] == s);
        assert forall|j: int| 0 <= j < s.len() implies is_digit(#[trigger] s[j]) || s[j]
            == '.' by {
            assert(valid_num(s));
        }
    } else {
        let head = s.take(i);
        let tail = s.skip(i + 1);
        assert(split_on(s, '.')[0] == head);
        assert forall|k: int|
            0 <= k < split_on(tail, '.').len() implies valid_num(
            #[trigger] split_on(tail, '.')[k],
        ) by {
            assert(split_on(s, '.')[k + 1] == split_on(tail, '.')[k]);
        }
        lemma_digit_chain_chars(tail);
        assert forall|j: int| 0 <= j < s.len() implies is_digit(#[trigger] s[j]) || s[j]
            == '.' by {
            if j < i {
                assert(valid_num(head));
                assert(head[j] == s[j]);
            } else if j == i {
            } else {
                assert(tail[j - i - 1] == s[j]);
            }
        }
    }
}

/// Every character of a rendered well-formed version is an identifier
/// character, a dot, or a plus sign.
pub proof fn lemma_render_version_chars(v: VersionView)
    requires
        v.wf(),
    ensures
        forall|j: int|
            0 <= j < render_version(v).len() ==> is_ident_char(#[trigger] render_version(v)[j])
                || render_version(v)[j] == '.' || render_version(v)[j] == '+',
{
    let s = render_version(v);
    let a = dec_digits(v.major);
    let b = dec_digits(v.minor);
    let c = dec_digits(v.patch);
    lemma_dec_digits_shape(v.major);
    lemma_dec_digits_shape(v.minor);
    lemma_dec_digits_shape(v.patch);
    if v.pre.len() > 0 {
        lemma_chain_char_class(v.pre);
    }
    if v.build.len() > 0 {
        lemma_chain_char_class(v.build);
    }
    let la = a.len() as int;
    let lb = b.len() as int;
    let lc = c.len() as int;
    let ln = la + 1 + lb + 1 + lc;
    let lp: int = if v.pre.len() > 0 {
        (v.pre.len() + 1) as int
    } else {
        0
    };
    assert forall|j: int| 0 <= j < s.len() implies is_ident_char(#[trigger] s[j]) || s[j] == '.'
        || s[j] == '+' by {
        if j < la {
            assert(s[j] == a[j]);
        } else if j == la {
            assert(s[j] == '.');
        } else if j < la + 1 + lb {
            assert(s[j] == b[j - la - 1]);
        } else if j == la + 1 + lb {
            assert(s[j] == '.');
        } else if j < ln {
            assert(s[j] == c[j - la - lb - 2]);
        } else if lp > 0 && j == ln {
            assert(s[j] == '-');
        } else if lp > 0 && j < ln + lp {
            assert(s[j] == v.pre[j - ln - 1]);
        } else if j == ln + lp {
            assert(s[j] == '+');
        } else {
            assert(s[j] == v.build[j - ln - lp - 1]);
        }
    }
}

/// Every character of a text that parses as a version is ASCII.
pub proof fn lemma_version_text_ascii(t: Seq<char>)
    requires
        version_of_text(t) is Some,
    ensures
        forall|j: int| 0 <= j < t.len() ==> #[trigger] (t[j] as u32) < 128,
{
    lemma_find_char(t, '+');
    let ib = find_char(t, '+') as int;
    let has_build = ib < t.len();
    let core = t.take(ib);
    let build = if has_build {
        t.skip(ib + 1)
    } else {
        seq![]
    };
    lemma_find_char(core, '-');
    let ip = find_char(core, '-') as int;
    let has_pre = ip < core.len();
    let nums = core.take(ip);
    let pre = if has_pre {
        core.skip(ip + 1)
    } else {
        seq![]
    };
    lemma_digit_chain_chars(nums);
    if has_pre {
        lemma_chain_char_class(pre);
    }
    if has_build {
        lemma_chain_char_class(build);
    }
    assert forall|j: int| 0 <= j < t.len() implies #[trigger] (t[j] as u32) < 128 by {
        if j < ip {
            assert(t[j] == core[j]);
            assert(core[j] == nums[j]);
            assert(is_digit(nums[j]) || nums[j] == '.');
        } else if j < ib {
            assert(t[j] == core[j]);
            if j == ip {
                assert(core[j] == '-');
            } else {
                assert(core[j] == pre[j - ip - 1]);
                assert(is_ident_char(pre[j - ip - 1]) || pre[j - ip - 1] == '.');
            }
        } else if j == ib {
            assert(t[j] == '+');
        } else {
            assert(t[j] == build[j - ib - 1]);
            assert(is_ident_char(build[j - ib - 1]) || build[j - ib - 1] == '.');
        }
    }
}

/// Parsing the canonical text of a well-formed version yields the version
/// back: rendering loses nothing.
#[verifier::rlimit(60)]
pub proof fn lemma_version_round_trip(v: VersionView)
    requires
        v.wf(),
    ensures
        version_of_text(render_version(v)) == Some(v),
{
    let s = render_version(v);
    let nums = dec_digits(v.major) + seq!['.'] + dec_digits(v.minor) + seq!['.'] + dec_digits(
        v.patch,
    );
    let core = nums + (if v.pre.len() > 0 {
        seq!['-'] + v.pre
    } else {
        seq![]
    });
    lemma_dec_digits_shape(v.major);
    lemma_dec_digits_shape(v.minor);
    lemma_dec_digits_shape(v.patch);
    let a = dec_digits(v.major);
    let b = dec_digits(v.minor);
    let c = dec_digits(v.patch);
    // Character classes of the numeric part: digits and dots only.
    assert forall|j: int| 0 <= j < nums.len() implies is_digit(#[trigger] nums[j]) || nums[j]
        == '.' by {
        let la = a.len() as int;
        let lb = b.len() as int;
        if j < la {
            assert(nums[j] == a[j]);
        } else if j == la {
            assert(nums[j] == '.');
        } else if j < la + 1 + lb {
            assert(nums[j] == b[j - la - 1]);
        } else if j == la + 1 + lb {
            assert(nums[j] == '.');
        } else {
            assert(nums[j] == c[j - la - lb - 2]);
        }
    }
    assert(lacks_char(nums, '+'));
    assert(lacks_char(nums, '-'));
    // The pre-release chain has no '+'.
    if v.pre.len() > 0 {
        lemma_chain_char_class(v.pre);
    }
    assert forall|j: int| 0 <= j < core.len() implies #[trigger] core[j] != '+' by {
        let ln = nums.len() as int;
        if j < ln {
            assert(core[j] == nums[j]);
        } else if j == ln {
            assert(core[j] == '-');
        } else {
            assert(core[j] == v.pre[j - ln - 1]);
            assert(is_ident_char(v.pre[j - ln - 1]) || v.pre[j - ln - 1] == '.');
        }
    }
    assert(lacks_char(core, '+'));
    // Locate the build separator.
    let ib = find_char(s, '+') as int;
    if v.build.len() > 0 {
        assert(s =~= core + seq!['+'] + v.build);
        lemma_find_char_concat(core, v.build, '+');
        assert(ib == core.len());
        assert(s.take(ib) =~= core);
        assert(s.skip(ib + 1) =~= v.build);
    } else {
        assert(s =~= core);
        lemma_find_char_absent(core, '+');
        assert(ib == s.len());
        assert(s.take(ib) =~= core);
    }
    // Locate the pre-release separator inside the core.
    let ip = find_char(core, '-') as int;
    if v.pre.len() > 0 {
        assert(core =~= nums + seq!['-'] + v.pre);
        lemma_find_char_concat(nums, v.pre, '-');
        assert(ip == nums.len());
        assert(core.take(ip) =~= nums);
        assert(core.skip(ip + 1) =~= v.pre);
    } else {
        assert(core =~= nums);
        lemma_find_char_absent(nums, '-');
        assert(ip == core.len());
        assert(core.take(ip) =~= nums);
    }
    // The numeric part splits into the three numerals.
    let parts = seq![dec_digits(v.major), dec_digits(v.minor), dec_digits(v.patch)];
    assert forall|i: int| 0 <= i < parts.len() implies lacks_char(#[trigger] parts[i], '.') by {}
    assert(join_with(parts, '.') =~= nums) by {
        assert(parts.skip(1) =~= seq![b, c]);
        assert(seq![b, c].skip(1) =~= seq![c]);
        assert(join_with(seq![c], '.') =~= c);
        assert(join_with(seq![b, c], '.') =~= b + seq!['.'] + c);
    }
    lemma_split_join(parts, '.');
    lemma_num_val_dec_digits(v.major);
    lemma_num_val_dec_digits(v.minor);
    lemma_num_val_dec_digits(v.patch);
    assert(valid_num(dec_digits(v.major)));
    assert(valid_num(dec_digits(v.minor)));
    assert(valid_num(dec_digits(v.patch)));
    assert(version_of_text(s) == Some(v)) by {
        assert(version_of_text(s)->0 =~= v);
    }
}

} // verus!
