//! Entry filtering: which directory entries the traversal descends into, and
//! which file names count as target documents.
//!
//! An entry is skipped when its name starts with the reserved `.` prefix or
//! equals one of the configured exclusion names; a file is a target when the
//! portion of its name after the last `.` equals the target extension,
//! compared case-insensitively.

use vstd::prelude::*;
use vstd::string::StrSliceExecFns;

verus! {

/// ASCII case-insensitive character equality: equal outright, or the same
/// letter in the two cases (code points 65..=90 pair with 97..=122).
pub open spec fn eq_ignore_ascii_case_char(a: char, b: char) -> bool {
    a == b || (65 <= a as int <= 90 && b as int == a as int + 32) || (65 <= b as int <= 90
        && a as int == b as int + 32)
}

/// ASCII case-insensitive equality of two character sequences.
pub open spec fn seq_eq_ignore_ascii_case(a: Seq<char>, b: Seq<char>) -> bool {
    a.len() == b.len() && (forall|i: int|
        0 <= i < a.len() ==> eq_ignore_ascii_case_char(a[i], b[i]))
}

/// Position `i` holds the last `.` of `name`.
pub open spec fn is_last_dot(name: Seq<char>, i: int) -> bool {
    0 <= i < name.len() && name[i] == '.' && (forall|j: int|
        i < j < name.len() ==> name[j] != '.')
}

/// The name has an extension (a `.` after its first character) and that
/// extension equals the target extension, case-insensitively. A name whose
/// only `.` is its first character is a hidden file without an extension.
pub open spec fn spec_is_target_name(name: Seq<char>) -> bool {
    exists|i: int|
        #[trigger] is_last_dot(name, i) && i > 0 && seq_eq_ignore_ascii_case(
            name.skip(i + 1),
            "pdf"@,
        )
}

/// The traversal descends into (or keeps) an entry of this name: the name
/// does not start with the reserved `.` prefix and is none of the configured
/// exclusion names.
pub open spec fn spec_keep_entry(name: Seq<char>) -> bool {
    !(name.len() > 0 && name[0] == '.') && name != "Android"@ && name != "data"@
}

/// Character-wise string equality.
fn str_eq(a: &str, b: &str) -> (r: bool)
    ensures
        r == (a@ == b@),
{
    let na = a.unicode_len();
    let nb = b.unicode_len();
    if na != nb {
        return false;
    }
    let mut i: usize = 0;
    while i < na
        invariant
            na == a@.len(),
            nb == b@.len(),
            na == nb,
            i <= na,
            forall|k: int| 0 <= k < i ==> a@[k] == b@[k],
        decreases na - i,
    {
        if a.get_char(i) != b.get_char(i) {
            return false;
        }
        i += 1;
    }
    proof {
        assert(a@ =~= b@);
    }
    true
}

/// Whether the traversal keeps an entry of this name: names starting with
/// the reserved `.` prefix and the configured exclusion names are pruned
/// before they are descended into.
pub fn keep_entry(name: &str) -> (r: bool)
    ensures
        r == spec_keep_entry(name@),
{
    let n = name.unicode_len();
    if n > 0 && name.get_char(0) == '.' {
        return false;
    }
    if str_eq(name, "Android") {
        return false;
    }
    if str_eq(name, "data") {
        return false;
    }
    true
}

/// Whether a file of this name is a target document: its name carries the
/// target extension, compared case-insensitively.
pub fn is_target_file(name: &str) -> (r: bool)
    ensures
        r == spec_is_target_name(name@),
{
    let n = name.unicode_len();
    let mut dot: usize = 0;
    let mut found = false;
    let mut i: usize = 0;
    while i < n
        invariant
            i <= n,
            n == name@.len(),
            found ==> dot < i && name@[dot as int] == '.' && (forall|j: int|
                dot < j < i ==> name@[j] != '.'),
            !found ==> forall|j: int| 0 <= j < i ==> name@[j] != '.',
        decreases n - i,
    {
        if name.get_char(i) == '.' {
            found = true;
            dot = i;
        }
        i += 1;
    }
    if !found {
        proof {
            assert forall|k: int| !is_last_dot(name@, k) by {
                if 0 <= k < name@.len() {
                    assert(name@[k] != '.');
                }
            }
        }
        return false;
    }
    proof {
        assert(is_last_dot(name@, dot as int));
        assert forall|k: int| is_last_dot(name@, k) implies k == dot as int by {
            if k < dot as int {
                assert(name@[dot as int] == '.');
            } else if k > dot as int {
                assert(name@[k] != '.');
            }
        }
    }
    if dot == 0 {
        return false;
    }
    if n - dot - 1 != 3 {
        proof {
            reveal_strlit("pdf");
            assert(name@.skip(dot + 1).len() != 3);
        }
        return false;
    }
    let c1 = name.get_char(dot + 1);
    let c2 = name.get_char(dot + 2);
    let c3 = name.get_char(dot + 3);
    let r = (c1 == 'p' || c1 == 'P') && (c2 == 'd' || c2 == 'D') && (c3 == 'f' || c3 == 'F');
    proof {
        reveal_strlit("pdf");
        let ext = name@.skip(dot + 1);
        assert(ext.len() == 3);
        assert(ext[0] == c1 && ext[1] == c2 && ext[2] == c3);
        if r {
            assert(seq_eq_ignore_ascii_case(ext, "pdf"@)) by {
                assert(eq_ignore_ascii_case_char(ext[0], "pdf"@[0]));
                assert(eq_ignore_ascii_case_char(ext[1], "pdf"@[1]));
                assert(eq_ignore_ascii_case_char(ext[2], "pdf"@[2]));
            }
        } else {
            assert(!seq_eq_ignore_ascii_case(ext, "pdf"@)) by {
                if seq_eq_ignore_ascii_case(ext, "pdf"@) {
                    assert(eq_ignore_ascii_case_char(ext[0], "pdf"@[0]));
                    assert(eq_ignore_ascii_case_char(ext[1], "pdf"@[1]));
                    assert(eq_ignore_ascii_case_char(ext[2], "pdf"@[2]));
                }
            }
        }
    }
    r
}

} // verus!
