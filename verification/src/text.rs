//! Character-level text helpers shared by the name and version codecs.
//!
//! Everything the codecs need from strings is defined here: character
//! classes, locating a separator, splitting and joining on a separator,
//! decimal numerals, and the escape that keeps `+` out of path components.

use vstd::prelude::*;

verus! {

// ---------------------------------------------------------------------------
// Character classes
// ---------------------------------------------------------------------------

/// An ASCII decimal digit.
pub open spec fn is_digit(c: char) -> bool {
    48 <= c as u32 <= 57
}

/// An ASCII letter.
pub open spec fn is_alpha(c: char) -> bool {
    (65 <= c as u32 <= 90) || (97 <= c as u32 <= 122)
}

/// A character allowed in a semantic-version identifier: letters, digits
/// and hyphens.
pub open spec fn is_ident_char(c: char) -> bool {
    is_digit(c) || is_alpha(c) || c == '-'
}

/// A character allowed in a name segment: letters, digits, hyphens and
/// underscores.
pub open spec fn is_segment_char(c: char) -> bool {
    is_ident_char(c) || c == '_'
}

/// No character of `s` equals `c`.
pub open spec fn lacks_char(s: Seq<char>, c: char) -> bool {
    forall|j: int| 0 <= j < s.len() ==> s[j] != c
}

/// The views of a vector of strings.
pub open spec fn str_views(parts: Seq<String>) -> Seq<Seq<char>> {
    parts.map_values(|p: String| p@)
}

// ---------------------------------------------------------------------------
// Locating a separator
// ---------------------------------------------------------------------------

/// The index of the first occurrence of `c` in `s`, or `s.len()` if absent.
pub open spec fn find_char(s: Seq<char>, c: char) -> nat
    decreases s.len(),
{
    if s.len() == 0 {
        0
    } else if s[0] == c {
        0
    } else {
        1 + find_char(s.skip(1), c)
    }
}

pub proof fn lemma_find_char(s: Seq<char>, c: char)
    ensures
        find_char(s, c) <= s.len(),
        find_char(s, c) < s.len() ==> s[find_char(s, c) as int] == c,
        forall|j: int| 0 <= j < find_char(s, c) ==> s[j] != c,
    decreases s.len(),
{
    if s.len() == 0 {
    } else if s[0] == c {
    } else {
        lemma_find_char(s.skip(1), c);
        assert forall|j: int| 0 <= j < find_char(s, c) implies s[j] != c by {
            if j > 0 {
                assert(s.skip(1)[j - 1] == s[j]);
            }
        }
    }
}

/// In a string assembled as `a + [c] + b` where `a` avoids `c`, the first
/// occurrence of `c` is exactly at `a.len()`.
pub proof fn lemma_find_char_concat(a: Seq<char>, b: Seq<char>, c: char)
    requires
        lacks_char(a, c),
    ensures
        find_char(a + seq![c] + b, c) == a.len(),
    decreases a.len(),
{
    let s = a + seq![c] + b;
    if a.len() == 0 {
        assert(s[0] == c);
    } else {
        assert(s[0] == a[0]);
        lemma_find_char_concat(a.skip(1), b, c);
        assert(s.skip(1) =~= a.skip(1) + seq![c] + b);
    }
}

/// A string that avoids `c` has no first occurrence before its end.
pub proof fn lemma_find_char_absent(s: Seq<char>, c: char)
    requires
        lacks_char(s, c),
    ensures
        find_char(s, c) == s.len(),
{
    lemma_find_char(s, c);
    if find_char(s, c) < s.len() {
        assert(s[find_char(s, c) as int] == c);
    }
}

/// The first occurrence of `c` in `s`, or the character count of `s` when
/// `c` does not occur.
pub fn find_char_in(s: &str, c: char) -> (i: usize)
    ensures
        i as nat == find_char(s@, c),
{
    let n = s.unicode_len();
    let mut i: usize = 0;
    proof {
        lemma_find_char(s@, c);
    }
    while i < n
        invariant
            i <= n,
            n == s@.len(),
            forall|j: int| 0 <= j < i ==> s@[j] != c,
            find_char(s@, c) <= s@.len(),
            find_char(s@, c) < s@.len() ==> s@[find_char(s@, c) as int] == c,
            forall|j: int| 0 <= j < find_char(s@, c) ==> s@[j] != c,
        decreases n - i,
    {
        if s.get_char(i) == c {
            proof {
                if find_char(s@, c) < i {
                    assert(s@[find_char(s@, c) as int] != c);
                }
            }
            return i;
        }
        i = i + 1;
    }
    proof {
        if find_char(s@, c) < s@.len() {
            assert(s@[find_char(s@, c) as int] != c);
        }
    }
    n
}

// ---------------------------------------------------------------------------
// Splitting and joining
// ---------------------------------------------------------------------------

/// The parts of `s` between occurrences of `sep`; always at least one part.
pub open spec fn split_on(s: Seq<char>, sep: char) -> Seq<Seq<char>>
    decreases s.len(),
{
    let i = find_char(s, sep);
    if i >= s.len() {
        seq![s]
    } else {
        seq![s.take(i as int)] + split_on(s.skip(i as int + 1), sep)
    }
}

pub proof fn lemma_split_on_len(s: Seq<char>, sep: char)
    ensures
        split_on(s, sep).len() >= 1,
    decreases s.len(),
{
    let i = find_char(s, sep);
    if i < s.len() {
        lemma_split_on_len(s.skip(i as int + 1), sep);
    }
}

/// The parts interleaved with the separator.
pub open spec fn join_with(parts: Seq<Seq<char>>, sep: char) -> Seq<char>
    decreases parts.len(),
{
    if parts.len() == 0 {
        seq![]
    } else if parts.len() == 1 {
        parts[0]
    } else {
        parts[0] + seq![sep] + join_with(parts.skip(1), sep)
    }
}

/// Splitting a join recovers the parts, as long as no part contains the
/// separator.
pub proof fn lemma_split_join(parts: Seq<Seq<char>>, sep: char)
    requires
        parts.len() >= 1,
        forall|i: int| 0 <= i < parts.len() ==> lacks_char(#[trigger] parts[i], sep),
    ensures
        split_on(join_with(parts, sep), sep) == parts,
    decreases parts.len(),
{
    let s = join_with(parts, sep);
    if parts.len() == 1 {
        lemma_find_char_absent(s, sep);
        assert(split_on(s, sep) =~= parts);
    } else {
        let rest = join_with(parts.skip(1), sep);
        lemma_find_char_concat(parts[0], rest, sep);
        let i = parts[0].len() as int;
        assert(s.take(i) =~= parts[0]);
        assert(s.skip(i + 1) =~= rest);
        lemma_split_join(parts.skip(1), sep);
        assert(split_on(s, sep) =~= parts);
    }
}

/// Splits `s` at every occurrence of `sep`.
pub fn split_str(s: &str, sep: char) -> (parts: Vec<String>)
    ensures
        str_views(parts@) == split_on(s@, sep),
        parts@.len() >= 1,
    decreases s@.len(),
{
    let n = s.unicode_len();
    let i = find_char_in(s, sep);
    proof {
        lemma_find_char(s@, sep);
    }
    if i >= n {
        let mut parts: Vec<String> = Vec::new();
        parts.push(s.to_owned());
        proof {
            assert(str_views(parts@) =~= split_on(s@, sep));
        }
        parts
    } else {
        let head = s.substring_char(0, i);
        let tail = s.substring_char(i + 1, n);
        let rest = split_str(tail, sep);
        let mut parts: Vec<String> = Vec::new();
        parts.push(head.to_owned());
        let mut k: usize = 0;
        while k < rest.len()
            invariant
                k <= rest@.len(),
                parts@.len() == k + 1,
                parts@[0]@ == head@,
                forall|j: int| 1 <= j < k + 1 ==> #[trigger] parts@[j]@ == rest@[j - 1]@,
            decreases rest@.len() - k,
        {
            parts.push(rest[k].clone());
            k = k + 1;
        }
        proof {
            assert(head@ =~= s@.take(i as int));
            assert(tail@ =~= s@.skip(i as int + 1));
            assert(str_views(parts@) =~= seq![s@.take(i as int)] + str_views(rest@));
            assert(str_views(parts@) =~= split_on(s@, sep));
        }
        parts
    }
}

/// Joins `parts[k..]` with the one-character separator `sep`.
fn join_from(parts: &Vec<String>, k: usize, sep: &str) -> (r: String)
    requires
        k < parts@.len(),
        sep@.len() == 1,
    ensures
        r@ == join_with(str_views(parts@).skip(k as int), sep@[0]),
    decreases parts@.len() - k,
{
    if k == parts.len() - 1 {
        let r = parts[k].clone();
        proof {
            assert(str_views(parts@).skip(k as int) =~= seq![parts@[k as int]@]);
        }
        r
    } else {
        let mut r = parts[k].clone();
        r.append(sep);
        let rest = join_from(parts, k + 1, sep);
        r.append(rest.as_str());
        proof {
            let views = str_views(parts@);
            assert(views.skip(k as int).skip(1) =~= views.skip(k as int + 1));
            assert(views.skip(k as int)[0] == parts@[k as int]@);
            assert(sep@ =~= seq![sep@[0]]);
            assert(r@ =~= join_with(views.skip(k as int), sep@[0]));
        }
        r
    }
}

/// Joins the parts with the one-character separator `sep`.
pub fn join_strs(parts: &Vec<String>, sep: &str) -> (r: String)
    requires
        parts@.len() >= 1,
        sep@.len() == 1,
    ensures
        r@ == join_with(str_views(parts@), sep@[0]),
{
    let r = join_from(parts, 0, sep);
    proof {
        assert(str_views(parts@).skip(0) =~= str_views(parts@));
    }
    r
}

/// Character-for-character string comparison.
pub fn str_eq(a: &str, b: &str) -> (r: bool)
    ensures
        r == (a@ == b@),
{
    let na = a.unicode_len();
    let nb = b.unicode_len();
    if na != nb {
        return false;
    }
    let mut i: usize = 0;
    while i < na
        invariant
            i <= na,
            na == a@.len(),
            na == b@.len(),
            forall|j: int| 0 <= j < i ==> a@[j] == b@[j],
        decreases na - i,
    {
        if a.get_char(i) != b.get_char(i) {
            return false;
        }
        i = i + 1;
    }
    proof {
        assert(a@ =~= b@);
    }
    true
}

// ---------------------------------------------------------------------------
// Decimal numerals
// ---------------------------------------------------------------------------

/// The digit character for a value below ten.
pub open spec fn digit_char(d: int) -> char {
    ((48 + d) as u8) as char
}

/// The value of a digit character.
pub open spec fn char_digit(c: char) -> nat {
    if c as u32 >= 48 {
        (c as u32 - 48) as nat
    } else {
        0
    }
}

/// Every character of `s` is a decimal digit.
pub open spec fn all_digits(s: Seq<char>) -> bool {
    forall|j: int| 0 <= j < s.len() ==> is_digit(#[trigger] s[j])
}

/// The canonical decimal numeral of `n`.
pub open spec fn dec_digits(n: nat) -> Seq<char>
    decreases n,
{
    if n < 10 {
        seq![digit_char(n as int)]
    } else {
        dec_digits(n / 10) + seq![digit_char((n % 10) as int)]
    }
}

/// The value of a digit string, most significant digit first.
pub open spec fn num_val(s: Seq<char>) -> nat
    decreases s.len(),
{
    if s.len() == 0 {
        0
    } else {
        num_val(s.drop_last()) * 10 + char_digit(s.last())
    }
}

/// A canonical numeral: non-empty, all digits, no leading zero, and small
/// enough for a 64-bit value.
pub open spec fn valid_num(s: Seq<char>) -> bool {
    &&& s.len() > 0
    &&& all_digits(s)
    &&& (s.len() > 1 ==> s[0] != '0')
    &&& num_val(s) <= u64::MAX
}

pub proof fn lemma_dec_digits_shape(n: nat)
    ensures
        dec_digits(n).len() >= 1,
        all_digits(dec_digits(n)),
        n > 0 ==> dec_digits(n)[0] != '0',
        n < 10 ==> dec_digits(n).len() == 1,
        n >= 10 ==> dec_digits(n).len() >= 2,
    decreases n,
{
    if n < 10 {
        assert(is_digit(digit_char(n as int)));
        if n > 0 {
            assert(digit_char(n as int) != '0');
        }
    } else {
        lemma_dec_digits_shape(n / 10);
        let d = digit_char((n % 10) as int);
        assert(is_digit(d));
        assert(dec_digits(n)[0] == dec_digits(n / 10)[0]);
    }
}

pub proof fn lemma_num_val_dec_digits(n: nat)
    ensures
        num_val(dec_digits(n)) == n,
    decreases n,
{
    if n < 10 {
        let s = dec_digits(n);
        assert(num_val(Seq::<char>::empty()) == 0);
        assert(s.drop_last() =~= Seq::<char>::empty());
        assert(s.last() == digit_char(n as int));
        assert(char_digit(digit_char(n as int)) == n);
    } else {
        lemma_num_val_dec_digits(n / 10);
        let s = dec_digits(n);
        assert(s.drop_last() =~= dec_digits(n / 10));
        assert(s.last() == digit_char((n % 10) as int));
        assert(char_digit(digit_char((n % 10) as int)) == n % 10);
        assert(n / 10 * 10 + n % 10 == n) by {
            vstd::arithmetic::div_mod::lemma_fundamental_div_mod(n as int, 10);
        }
    }
}

/// The value of a digit string never shrinks as the string grows.
pub proof fn lemma_num_val_take_le(s: Seq<char>, i: int, j: int)
    requires
        0 <= i <= j <= s.len(),
    ensures
        num_val(s.take(i)) <= num_val(s.take(j)),
    decreases j - i,
{
    if i < j {
        lemma_num_val_take_le(s, i, j - 1);
        assert(s.take(j).drop_last() =~= s.take(j - 1));
        assert(num_val(s.take(j)) == num_val(s.take(j - 1)) * 10 + char_digit(s.take(j).last()));
    }
}

/// Renders `n` in decimal.
pub fn u64_to_dec(n: u64) -> (r: String)
    ensures
        r@ == dec_digits(n as nat),
    decreases n,
{
    if n < 10 {
        let mut bytes: Vec<u8> = Vec::new();
        bytes.push(48 + n as u8);
        let r = string_from_ascii(bytes);
        proof {
            assert(r@ =~= dec_digits(n as nat));
        }
        r
    } else {
        let mut r = u64_to_dec(n / 10);
        let mut bytes: Vec<u8> = Vec::new();
        bytes.push(48 + (n % 10) as u8);
        let d = string_from_ascii(bytes);
        r.append(d.as_str());
        proof {
            assert(d@ =~= seq![digit_char((n % 10) as int)]);
        }
        r
    }
}

/// Reads a canonical decimal numeral; rejects exactly the strings that are
/// not canonical numerals of a 64-bit value.
pub fn parse_u64(s: &str) -> (r: Option<u64>)
    ensures
        match r {
            Some(v) => valid_num(s@) && v as nat == num_val(s@),
            None => !valid_num(s@),
        },
{
    let n = s.unicode_len();
    if n == 0 {
        return None;
    }
    if n > 1 && s.get_char(0) == '0' {
        return None;
    }
    let mut acc: u64 = 0;
    let mut i: usize = 0;
    while i < n
        invariant
            i <= n,
            n == s@.len(),
            acc as nat == num_val(s@.take(i as int)),
            forall|j: int| 0 <= j < i ==> is_digit(#[trigger] s@[j]),
        decreases n - i,
    {
        let c = s.get_char(i);
        let u = c as u32;
        if u < 48 || u > 57 {
            return None;
        }
        let d = (u - 48) as u64;
        proof {
            assert(s@.take(i as int + 1).drop_last() =~= s@.take(i as int));
            assert(s@.take(i as int + 1).last() == s@[i as int]);
        }
        if acc > (u64::MAX - d) / 10 {
            proof {
                assert(num_val(s@.take(i as int + 1)) == acc as nat * 10 + d as nat);
                assert(acc as nat * 10 + d as nat > u64::MAX) by {
                    vstd::arithmetic::div_mod::lemma_fundamental_div_mod(
                        (u64::MAX - d) as int,
                        10,
                    );
                };
                lemma_num_val_take_le(s@, i as int + 1, s@.len() as int);
                assert(s@.take(s@.len() as int) =~= s@);
            }
            return None;
        }
        proof {
            assert(acc as nat * 10 + d as nat <= u64::MAX) by {
                vstd::arithmetic::div_mod::lemma_fundamental_div_mod((u64::MAX - d) as int, 10);
            };
        }
        acc = acc * 10 + d;
        i = i + 1;
    }
    proof {
        assert(s@.take(n as int) =~= s@);
    }
    Some(acc)
}

// ---------------------------------------------------------------------------
// The `+` escape for path components
// ---------------------------------------------------------------------------

/// Replaces every `+` with `__`, keeping other characters.
pub open spec fn esc_plus(s: Seq<char>) -> Seq<char>
    decreases s.len(),
{
    if s.len() == 0 {
        seq![]
    } else if s[0] == '+' {
        seq!['_', '_'] + esc_plus(s.skip(1))
    } else {
        seq![s[0]] + esc_plus(s.skip(1))
    }
}

/// Replaces every `__` pair back with `+`, keeping other characters.
pub open spec fn unesc_plus(s: Seq<char>) -> Seq<char>
    decreases s.len(),
{
    if s.len() >= 2 && s[0] == '_' && s[1] == '_' {
        seq!['+'] + unesc_plus(s.skip(2))
    } else if s.len() == 0 {
        seq![]
    } else {
        seq![s[0]] + unesc_plus(s.skip(1))
    }
}

/// On text without underscores the escape is reversible.
pub proof fn lemma_unesc_esc(s: Seq<char>)
    requires
        lacks_char(s, '_'),
    ensures
        unesc_plus(esc_plus(s)) == s,
    decreases s.len(),
{
    if s.len() == 0 {
        assert(unesc_plus(esc_plus(s)) =~= s);
    } else {
        assert(lacks_char(s.skip(1), '_')) by {
            assert(forall|j: int|
                0 <= j < s.skip(1).len() ==> #[trigger] s.skip(1)[j] == s[j + 1]);
        }
        lemma_unesc_esc(s.skip(1));
        let e = esc_plus(s);
        if s[0] == '+' {
            assert(e.skip(2) =~= esc_plus(s.skip(1)));
            assert(unesc_plus(e) =~= s);
        } else {
            assert(s[0] != '_');
            assert(e[0] == s[0]);
            assert(e.skip(1) =~= esc_plus(s.skip(1)));
            if e.len() >= 2 && e[0] == '_' && e[1] == '_' {
                assert(false);
            }
            assert(unesc_plus(e) =~= s);
        }
    }
}

/// The escape distributes over concatenation.
pub proof fn lemma_esc_plus_concat(a: Seq<char>, b: Seq<char>)
    ensures
        esc_plus(a + b) == esc_plus(a) + esc_plus(b),
    decreases a.len(),
{
    if a.len() == 0 {
        assert(a + b =~= b);
        assert(esc_plus(a) + esc_plus(b) =~= esc_plus(b));
    } else {
        lemma_esc_plus_concat(a.skip(1), b);
        assert((a + b).skip(1) =~= a.skip(1) + b);
        assert((a + b)[0] == a[0]);
        if a[0] == '+' {
            assert(esc_plus(a + b) =~= esc_plus(a) + esc_plus(b));
        } else {
            assert(esc_plus(a + b) =~= esc_plus(a) + esc_plus(b));
        }
    }
}

/// Replaces every `+` with `__`.
pub fn escape_plus(s: &str) -> (r: String)
    requires
        s.is_ascii(),
    ensures
        r@ == esc_plus(s@),
        forall|j: int| 0 <= j < r@.len() ==> #[trigger] (r@[j] as u32) < 128,
{
    let n = s.unicode_len();
    let mut bytes: Vec<u8> = Vec::new();
    let mut i: usize = 0;
    while i < n
        invariant
            i <= n,
            n == s@.len(),
            s.is_ascii(),
            bytes@.len() <= 2 * i,
            forall|j: int| 0 <= j < bytes@.len() ==> bytes@[j] < 128,
            bytes@.map_values(|b: u8| b as char) == esc_plus(s@.take(i as int)),
        decreases n - i,
    {
        let c = s.get_char(i);
        proof {
            assert(s@.take(i as int + 1) =~= s@.take(i as int) + seq![s@[i as int]]);
            lemma_esc_plus_concat(s@.take(i as int), seq![s@[i as int]]);
        }
        if c == '+' {
            bytes.push(95);
            bytes.push(95);
            proof {
                assert(esc_plus(Seq::<char>::empty()) =~= Seq::<char>::empty());
                assert(seq![s@[i as int]].skip(1) =~= Seq::<char>::empty());
                assert(esc_plus(seq![s@[i as int]]) =~= seq!['_', '_']);
                assert(bytes@.map_values(|b: u8| b as char) =~= esc_plus(
                    s@.take(i as int + 1),
                ));
            }
        } else {
            let u = c as u32;
            bytes.push(u as u8);
            proof {
                assert(esc_plus(Seq::<char>::empty()) =~= Seq::<char>::empty());
                assert(seq![s@[i as int]].skip(1) =~= Seq::<char>::empty());
                assert(esc_plus(seq![s@[i as int]]) =~= seq![s@[i as int]]);
                assert((u as u8) as char == s@[i as int]);
                assert(bytes@.map_values(|b: u8| b as char) =~= esc_plus(
                    s@.take(i as int + 1),
                ));
            }
        }
        i = i + 1;
    }
    let r = string_from_ascii(bytes);
    proof {
        assert(s@.take(n as int) =~= s@);
        assert(r@ =~= esc_plus(s@));
    }
    r
}

/// Replaces every `__` pair with `+`.
pub fn unescape_plus(s: &str) -> (r: String)
    requires
        s.is_ascii(),
    ensures
        r@ == unesc_plus(s@),
{
    let n = s.unicode_len();
    let mut bytes: Vec<u8> = Vec::new();
    let mut i: usize = 0;
    proof {
        assert(s@.skip(0) =~= s@);
        assert(bytes@.map_values(|b: u8| b as char) + unesc_plus(s@) =~= unesc_plus(s@));
    }
    while i < n
        invariant
            i <= n,
            n == s@.len(),
            s.is_ascii(),
            forall|j: int| 0 <= j < bytes@.len() ==> bytes@[j] < 128,
            unesc_plus(s@) == bytes@.map_values(|b: u8| b as char) + unesc_plus(
                s@.skip(i as int),
            ),
        decreases n - i,
    {
        let c = s.get_char(i);
        proof {
            assert(s@.skip(i as int)[0] == s@[i as int]);
        }
        if c == '_' && i + 1 < n && s.get_char(i + 1) == '_' {
            proof {
                assert(s@.skip(i as int)[1] == s@[i as int + 1]);
                assert(s@.skip(i as int).skip(2) =~= s@.skip(i as int + 2));
            }
            bytes.push(43);
            proof {
                assert((43u8) as char == '+');
                assert(unesc_plus(s@) =~= bytes@.map_values(|b: u8| b as char)
                    + unesc_plus(s@.skip(i as int + 2)));
            }
            i = i + 2;
        } else {
            let u = c as u32;
            proof {
                if s@.skip(i as int).len() >= 2 && s@.skip(i as int)[0] == '_'
                    && s@.skip(i as int)[1] == '_' {
                    assert(s@[i as int + 1] == '_');
                    assert(false);
                }
                assert(s@.skip(i as int).skip(1) =~= s@.skip(i as int + 1));
            }
            bytes.push(u as u8);
            proof {
                assert((u as u8) as char == s@[i as int]);
                assert(unesc_plus(s@) =~= bytes@.map_values(|b: u8| b as char)
                    + unesc_plus(s@.skip(i as int + 1)));
            }
            i = i + 1;
        }
    }
    let r = string_from_ascii(bytes);
    proof {
        assert(s@.skip(n as int) =~= Seq::<char>::empty());
        assert(r@ =~= unesc_plus(s@));
    }
    r
}

/// Every character of `s` other than `_` survives into the unescaped
/// text.
pub proof fn lemma_unesc_plus_chars(s: Seq<char>)
    ensures
        forall|j: int|
            0 <= j < s.len() ==> #[trigger] s[j] == '_' || unesc_plus(s).contains(s[j]),
    decreases s.len(),
{
    if s.len() >= 2 && s[0] == '_' && s[1] == '_' {
        lemma_unesc_plus_chars(s.skip(2));
        assert forall|j: int| 0 <= j < s.len() implies #[trigger] s[j] == '_' || unesc_plus(
            s,
        ).contains(s[j]) by {
            if j >= 2 && s[j] != '_' {
                assert(s.skip(2)[j - 2] == s[j]);
                lemma_contains_shift(seq!['+'], unesc_plus(s.skip(2)), s[j]);
            }
        }
    } else if s.len() == 0 {
    } else {
        lemma_unesc_plus_chars(s.skip(1));
        assert forall|j: int| 0 <= j < s.len() implies #[trigger] s[j] == '_' || unesc_plus(
            s,
        ).contains(s[j]) by {
            if j == 0 {
                assert(unesc_plus(s)[0] == s[0]);
            } else if s[j] != '_' {
                assert(s.skip(1)[j - 1] == s[j]);
                lemma_contains_shift(seq![s[0]], unesc_plus(s.skip(1)), s[j]);
            }
        }
    }
}

/// Membership in the right part of a concatenation carries over to the
/// whole.
pub proof fn lemma_contains_shift(a: Seq<char>, b: Seq<char>, x: char)
    requires
        b.contains(x),
    ensures
        (a + b).contains(x),
{
    let i = choose|i: int| 0 <= i < b.len() && b[i] == x;
    assert((a + b)[a.len() + i] == x);
}

// ---------------------------------------------------------------------------
// Building strings from ASCII bytes
// ---------------------------------------------------------------------------

/// Relies on `String::from_utf8`: a vector of bytes below 128 is valid
/// UTF-8 and decodes to exactly the characters with those codes.
#[verifier::external_body]
pub fn string_from_ascii(bytes: Vec<u8>) -> (r: String)
    requires
        forall|i: int| 0 <= i < bytes@.len() ==> bytes@[i] < 128,
    ensures
        r@.len() == bytes@.len(),
        forall|i: int| 0 <= i < bytes@.len() ==> r@[i] == bytes@[i] as char,
{
    String::from_utf8(bytes).expect("ascii bytes are valid utf-8")
}

} // verus!
