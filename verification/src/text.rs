//! String-level helpers: case-sensitive substring containment (used both for
//! target selection and for the skip list), character-wise string equality,
//! and the two display conventions of the report (underscores normalized to
//! hyphens in package names; `"name version"` pairs for dependencies).

use vstd::prelude::*;
use vstd::string::*;

verus! {

/// The characters of `needle` appear contiguously in `hay` starting at `i`.
pub open spec fn matches_at(hay: Seq<char>, needle: Seq<char>, i: int) -> bool {
    &&& 0 <= i
    &&& i + needle.len() <= hay.len()
    &&& forall|k: int| 0 <= k < needle.len() ==> hay[i + k] == needle[k]
}

/// `needle` occurs somewhere inside `hay` (case-sensitive containment,
/// not prefix or exact equality).
pub open spec fn contains_substr(hay: Seq<char>, needle: Seq<char>) -> bool {
    exists|i: int| matches_at(hay, needle, i)
}

/// A name with every underscore replaced by a hyphen, the display
/// normalization for report keys.
pub open spec fn dashify(s: Seq<char>) -> Seq<char> {
    s.map_values(|c: char| if c == '_' { '-' } else { c })
}

/// The display string `"{name} {version}"`.
pub open spec fn display_pair(name: Seq<char>, version: Seq<char>) -> Seq<char> {
    name + seq![' '] + version
}

/// Whether `needle` matches `hay` at position `i`, by comparing characters.
fn match_at_exec(hay: &str, needle: &str, i: usize) -> (r: bool)
    requires
        i + needle@.len() <= hay@.len() <= usize::MAX,
    ensures
        r == matches_at(hay@, needle@, i as int),
{
    let needle_len = needle.unicode_len();
    let mut j: usize = 0;
    while j < needle_len
        invariant
            needle_len == needle@.len(),
            i + needle_len <= hay@.len() <= usize::MAX,
            j <= needle_len,
            forall|k: int| 0 <= k < j ==> hay@[i + k] == needle@[k],
        decreases needle_len - j,
    {
        if hay.get_char(i + j) != needle.get_char(j) {
            assert(hay@[i + j] != needle@[j as int]);
            return false;
        }
        j += 1;
    }
    true
}

/// Case-sensitive containment test: does `needle` occur anywhere in `hay`?
pub fn str_contains(hay: &str, needle: &str) -> (r: bool)
    ensures
        r == contains_substr(hay@, needle@),
{
    let hay_len = hay.unicode_len();
    let needle_len = needle.unicode_len();
    if needle_len > hay_len {
        assert(forall|i: int| !matches_at(hay@, needle@, i));
        return false;
    }
    if needle_len == 0 {
        assert(matches_at(hay@, needle@, 0));
        return true;
    }
    let end = hay_len - needle_len;
    let mut i: usize = 0;
    while i <= end
        invariant
            hay_len == hay@.len(),
            needle_len == needle@.len(),
            0 < needle_len <= hay_len,
            end == hay_len - needle_len,
            i <= end + 1,
            forall|m: int| 0 <= m < i ==> !matches_at(hay@, needle@, m),
        decreases end + 1 - i,
    {
        if match_at_exec(hay, needle, i) {
            return true;
        }
        i += 1;
    }
    assert(forall|m: int| !matches_at(hay@, needle@, m));
    false
}

/// Character-wise equality of two string slices.
pub fn str_eq(a: &str, b: &str) -> (r: bool)
    ensures
        r == (a@ == b@),
{
    let a_len = a.unicode_len();
    let b_len = b.unicode_len();
    if a_len != b_len {
        return false;
    }
    let mut i: usize = 0;
    while i < a_len
        invariant
            a_len == a@.len(),
            a_len == b@.len(),
            i <= a_len,
            forall|k: int| 0 <= k < i ==> a@[k] == b@[k],
        decreases a_len - i,
    {
        if a.get_char(i) != b.get_char(i) {
            assert(a@[i as int] != b@[i as int]);
            return false;
        }
        i += 1;
    }
    proof {
        assert(a@ =~= b@);
    }
    true
}

/// A package name normalized for display: underscores become hyphens.
/// This normalization is cosmetic and plays no part in identifier matching.
pub fn display_name(name: &str) -> (r: String)
    ensures
        r@ == dashify(name@),
{
    let len = name.unicode_len();
    let mut out = String::new();
    let mut i: usize = 0;
    proof {
        assert(out@ =~= dashify(name@.subrange(0, 0)));
    }
    while i < len
        invariant
            len == name@.len(),
            i <= len,
            out@ == dashify(name@.subrange(0, i as int)),
        decreases len - i,
    {
        let c = name.get_char(i);
        if c == '_' {
            out.append("-");
            proof {
                reveal_strlit("-");
            }
        } else {
            let piece = name.substring_char(i, i + 1);
            out.append(piece);
        }
        proof {
            assert(out@ =~= dashify(name@.subrange(0, i + 1)));
        }
        i += 1;
    }
    proof {
        assert(name@.subrange(0, len as int) =~= name@);
    }
    out
}

/// The display string `"{name} {version}"` for one dependency.
pub fn make_display_pair(name: &str, version: &str) -> (r: String)
    ensures
        r@ == display_pair(name@, version@),
{
    let mut out = name.to_owned();
    out.append(" ");
    out.append(version);
    proof {
        reveal_strlit(" ");
        assert(out@ =~= display_pair(name@, version@));
    }
    out
}

} // verus!
