//! The managed block inside a repository's ignore file.
//!
//! The link manager owns one bracketed region of the ignore file,
//! delimited by exact sentinel lines; everything outside the sentinels is
//! never touched. Adding a line creates the region at the end of the file
//! on first use and inserts just after the opening sentinel thereafter;
//! removing a line scans the region and stops at the closing sentinel.

use vstd::prelude::*;

use crate::text::{str_eq, str_views};

verus! {

/// The opening sentinel of the managed region.
pub open spec fn begin_marker() -> Seq<char> {
    "# batl.gitignore begin DO NOT MODIFY"@
}

/// The closing sentinel of the managed region.
pub open spec fn end_marker() -> Seq<char> {
    "# batl.gitignore end DO NOT MODIFY"@
}

/// The first position of `x` in `s`, or `s.len()` if absent.
pub open spec fn seq_find<T>(s: Seq<T>, x: T) -> nat
    decreases s.len(),
{
    if s.len() == 0 {
        0
    } else if s[0] == x {
        0
    } else {
        1 + seq_find(s.skip(1), x)
    }
}

pub proof fn lemma_seq_find<T>(s: Seq<T>, x: T)
    ensures
        seq_find(s, x) <= s.len(),
        seq_find(s, x) < s.len() ==> s[seq_find(s, x) as int] == x,
        forall|j: int| 0 <= j < seq_find(s, x) ==> s[j] != x,
    decreases s.len(),
{
    if s.len() == 0 {
    } else if s[0] == x {
    } else {
        lemma_seq_find(s.skip(1), x);
        assert forall|j: int| 0 <= j < seq_find(s, x) implies s[j] != x by {
            if j > 0 {
                assert(s.skip(1)[j - 1] == s[j]);
            }
        }
    }
}

/// The first position matching either of two values, or `s.len()`.
pub open spec fn seq_find_either<T>(s: Seq<T>, a: T, b: T) -> nat
    decreases s.len(),
{
    if s.len() == 0 {
        0
    } else if s[0] == a || s[0] == b {
        0
    } else {
        1 + seq_find_either(s.skip(1), a, b)
    }
}

pub proof fn lemma_seq_find_either<T>(s: Seq<T>, a: T, b: T)
    ensures
        seq_find_either(s, a, b) <= s.len(),
        seq_find_either(s, a, b) < s.len() ==> (s[seq_find_either(s, a, b) as int] == a || s[
            seq_find_either(s, a, b) as int
        ] == b),
        forall|j: int| 0 <= j < seq_find_either(s, a, b) ==> s[j] != a && s[j] != b,
    decreases s.len(),
{
    if s.len() == 0 {
    } else if s[0] == a || s[0] == b {
    } else {
        lemma_seq_find_either(s.skip(1), a, b);
        assert forall|j: int| 0 <= j < seq_find_either(s, a, b) implies s[j] != a && s[j] != b by {
            if j > 0 {
                assert(s.skip(1)[j - 1] == s[j]);
            }
        }
    }
}

/// The ignore file after adding `entry` to the managed region: inserted
/// just after the opening sentinel, or a fresh region appended at the end
/// of the file on first use.
pub open spec fn add_ignore_line(lines: Seq<Seq<char>>, entry: Seq<char>) -> Seq<Seq<char>> {
    let i = seq_find(lines, begin_marker()) as int;
    if i < lines.len() {
        lines.insert(i + 1, entry)
    } else {
        lines + seq![begin_marker(), entry, end_marker()]
    }
}

/// The ignore file after removing `entry` from the managed region: the
/// first matching line after the opening sentinel goes; the scan stops at
/// the closing sentinel, and a file without the entry is left alone.
pub open spec fn remove_ignore_line(lines: Seq<Seq<char>>, entry: Seq<char>) -> Seq<Seq<char>> {
    let i = seq_find(lines, begin_marker()) as int;
    if i >= lines.len() {
        lines
    } else {
        let j = i + seq_find_either(lines.skip(i), entry, end_marker());
        if j >= lines.len() {
            lines
        } else if lines[j] == end_marker() {
            lines
        } else {
            lines.remove(j)
        }
    }
}

/// Finds the first line equal to `target`.
#[verifier::loop_isolation(false)]
fn find_line(lines: &Vec<String>, target: &str) -> (i: usize)
    ensures
        i as nat == seq_find(str_views(lines@), target@),
{
    let ghost t = str_views(lines@);
    proof {
        lemma_seq_find(t, target@);
    }
    let mut i: usize = 0;
    while i < lines.len()
        invariant
            i <= lines@.len(),
            forall|j: int| 0 <= j < i ==> t[j] != target@,
        decreases lines@.len() - i,
    {
        proof {
            assert(t[i as int] == lines@[i as int]@);
        }
        if str_eq(lines[i].as_str(), target) {
            proof {
                if seq_find(t, target@) < i {
                    assert(t[seq_find(t, target@) as int] == target@);
                    assert(false);
                }
                if seq_find(t, target@) > i {
                    assert(t[i as int] != target@);
                    assert(false);
                }
            }
            return i;
        }
        i = i + 1;
    }
    proof {
        if seq_find(t, target@) < t.len() {
            assert(t[seq_find(t, target@) as int] == target@);
            assert(false);
        }
    }
    lines.len()
}

/// Finds the first line equal to either target, starting at `from`.
#[verifier::loop_isolation(false)]
fn find_line_either_from(lines: &Vec<String>, a: &str, b: &str, from: usize) -> (j: usize)
    requires
        from <= lines@.len(),
    ensures
        j as nat == from + seq_find_either(str_views(lines@).skip(from as int), a@, b@),
{
    let ghost t = str_views(lines@).skip(from as int);
    proof {
        lemma_seq_find_either(t, a@, b@);
    }
    let mut i: usize = from;
    while i < lines.len()
        invariant
            from <= i <= lines@.len(),
            forall|j: int| 0 <= j < i - from ==> t[j] != a@ && t[j] != b@,
        decreases lines@.len() - i,
    {
        if str_eq(lines[i].as_str(), a) || str_eq(lines[i].as_str(), b) {
            proof {
                assert(t[i - from] == str_views(lines@)[i as int]);
                let f = seq_find_either(t, a@, b@) as int;
                if f < i - from {
                    assert(t[f] != a@ && t[f] != b@);
                }
            }
            return i;
        }
        proof {
            assert(t[i - from] == str_views(lines@)[i as int]);
        }
        i = i + 1;
    }
    proof {
        let f = seq_find_either(t, a@, b@) as int;
        if f < t.len() {
            assert(t[f] != a@ && t[f] != b@);
        }
    }
    lines.len()
}

/// Whether a line is one of the managed region's sentinel lines.
pub fn is_sentinel_line(s: &str) -> (r: bool)
    ensures
        r == (s@ == begin_marker() || s@ == end_marker()),
{
    str_eq(s, "# batl.gitignore begin DO NOT MODIFY") || str_eq(
        s,
        "# batl.gitignore end DO NOT MODIFY",
    )
}

/// Adds `entry` inside the managed region of the ignore file.
pub fn add_line(lines: &mut Vec<String>, entry: String)
    ensures
        str_views(final(lines)@) == add_ignore_line(str_views(old(lines)@), entry@),
{
    let begin = "# batl.gitignore begin DO NOT MODIFY";
    let end = "# batl.gitignore end DO NOT MODIFY";
    let ghost t = str_views(lines@);
    let i = find_line(lines, begin);
    proof {
        lemma_seq_find(t, begin_marker());
    }
    if i < lines.len() {
        lines.insert(i + 1, entry);
        proof {
            assert(str_views(lines@) =~= t.insert(i as int + 1, entry@));
        }
    } else {
        lines.push(begin.to_owned());
        lines.push(entry);
        lines.push(end.to_owned());
        proof {
            assert(str_views(lines@) =~= t + seq![begin_marker(), entry@, end_marker()]);
        }
    }
}

/// Removes `entry` from the managed region of the ignore file; a file
/// without the entry is returned unchanged, so removal is idempotent.
pub fn remove_line(lines: &mut Vec<String>, entry: &str)
    ensures
        str_views(final(lines)@) == remove_ignore_line(str_views(old(lines)@), entry@),
{
    let begin = "# batl.gitignore begin DO NOT MODIFY";
    let end = "# batl.gitignore end DO NOT MODIFY";
    let ghost t = str_views(lines@);
    let i = find_line(lines, begin);
    proof {
        lemma_seq_find(t, begin_marker());
    }
    if i >= lines.len() {
        return;
    }
    let j = find_line_either_from(lines, entry, end, i);
    if j >= lines.len() {
        return;
    }
    proof {
        lemma_seq_find_either(t.skip(i as int), entry@, end_marker());
        assert(t.skip(i as int)[j - i] == t[j as int]);
    }
    if str_eq(lines[j].as_str(), end) {
        return;
    }
    lines.remove(j);
    proof {
        assert(str_views(lines@) =~= t.remove(j as int));
    }
}

// ---------------------------------------------------------------------------
// Adding and then removing restores the file
// ---------------------------------------------------------------------------

/// Adding an entry to the managed region and removing it again restores
/// the file exactly; when the region did not exist yet, only the
/// now-empty region's two sentinel lines remain.
pub proof fn lemma_ignore_round_trip(lines: Seq<Seq<char>>, entry: Seq<char>)
    requires
        entry != begin_marker(),
        entry != end_marker(),
    ensures
        seq_find(lines, begin_marker()) < lines.len() ==> remove_ignore_line(
            add_ignore_line(lines, entry),
            entry,
        ) == lines,
        seq_find(lines, begin_marker()) >= lines.len() ==> remove_ignore_line(
            add_ignore_line(lines, entry),
            entry,
        ) == lines + seq![begin_marker(), end_marker()],
{
    reveal_strlit("# batl.gitignore begin DO NOT MODIFY");
    reveal_strlit("# batl.gitignore end DO NOT MODIFY");
    assert(begin_marker() != end_marker()) by {
        assert(begin_marker().len() != end_marker().len());
    }
    lemma_seq_find(lines, begin_marker());
    let i = seq_find(lines, begin_marker()) as int;
    let added = add_ignore_line(lines, entry);
    if i < lines.len() {
        // The region already existed; the entry sits right after the
        // opening sentinel and is the line removal finds first.
        assert(added == lines.insert(i + 1, entry));
        assert(added.len() == lines.len() + 1);
        assert forall|k: int| 0 <= k <= i implies added[k] == lines[k] by {}
        assert(added[i + 1] == entry);
        assert(seq_find(added, begin_marker()) == i) by {
            lemma_seq_find(added, begin_marker());
            let f = seq_find(added, begin_marker()) as int;
            if f < i {
                assert(lines[f] != begin_marker());
                assert(added[f] == lines[f]);
            }
            if f > i {
                assert(added[i] == begin_marker());
            }
        }
        assert(seq_find_either(added.skip(i), entry, end_marker()) == 1) by {
            lemma_seq_find_either(added.skip(i), entry, end_marker());
            let f = seq_find_either(added.skip(i), entry, end_marker()) as int;
            assert(added.skip(i)[1] == added[i + 1]);
            assert(added.skip(i)[0] == added[i]);
            if f == 0 {
                assert(added[i] == begin_marker());
            }
            if f > 1 {
                assert(added.skip(i)[1] != entry);
            }
        }
        assert(added[i + 1] == entry);
        assert(entry != end_marker());
        assert(remove_ignore_line(added, entry) == added.remove(i + 1));
        assert(added.remove(i + 1) =~= lines);
    } else {
        // First use: the fresh region loses its entry and keeps its
        // sentinels.
        assert(added == lines + seq![begin_marker(), entry, end_marker()]);
        let n = lines.len() as int;
        assert(added[n] == begin_marker());
        assert(added[n + 1] == entry);
        assert(added[n + 2] == end_marker());
        assert(seq_find(added, begin_marker()) == n) by {
            lemma_seq_find(added, begin_marker());
            let f = seq_find(added, begin_marker()) as int;
            if f < n {
                assert(added[f] == lines[f]);
                assert(lines[f] != begin_marker());
            }
            if f > n {
                assert(added[n] == begin_marker());
            }
        }
        assert(seq_find_either(added.skip(n), entry, end_marker()) == 1) by {
            lemma_seq_find_either(added.skip(n), entry, end_marker());
            let f = seq_find_either(added.skip(n), entry, end_marker()) as int;
            assert(added.skip(n)[0] == added[n]);
            assert(added.skip(n)[1] == added[n + 1]);
            if f == 0 {
                assert(added[n] == begin_marker());
            }
            if f > 1 {
                assert(added.skip(n)[1] != entry);
            }
        }
        assert(remove_ignore_line(added, entry) == added.remove(n + 1));
        assert(added.remove(n + 1) =~= lines + seq![begin_marker(), end_marker()]);
    }
}

} // verus!
