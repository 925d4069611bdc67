//! String facts the rest of the library is stated over, and the few std
//! string functions it calls.

use vstd::prelude::*;

verus! {

/// Unicode `White_Space` code points, the set `str::trim` strips.
pub open spec fn is_white_space(c: char) -> bool {
    let u = c as u32;
    ||| 0x09 <= u <= 0x0d
    ||| u == 0x20
    ||| u == 0x85
    ||| u == 0xa0
    ||| u == 0x1680
    ||| 0x2000 <= u <= 0x200a
    ||| u == 0x2028
    ||| u == 0x2029
    ||| u == 0x202f
    ||| u == 0x205f
    ||| u == 0x3000
}

/// `s` with its leading white space removed.
pub open spec fn trim_start(s: Seq<char>) -> Seq<char>
    decreases s.len(),
{
    if s.len() > 0 && is_white_space(s[0]) {
        trim_start(s.drop_first())
    } else {
        s
    }
}

/// `s` with its trailing white space removed.
pub open spec fn trim_end(s: Seq<char>) -> Seq<char>
    decreases s.len(),
{
    if s.len() > 0 && is_white_space(s.last()) {
        trim_end(s.drop_last())
    } else {
        s
    }
}

/// `s` with leading and trailing white space removed.
pub open spec fn trimmed(s: Seq<char>) -> Seq<char> {
    trim_end(trim_start(s))
}

/// Calls `str::trim`: the result is the input without its leading and
/// trailing Unicode white space.
#[verifier::external_body]
pub(crate) fn trim(s: &str) -> (r: &str)
    ensures
        r@ == trimmed(s@),
{
    s.trim()
}

/// The view of an optional string.
pub open spec fn opt_view(o: Option<String>) -> Option<Seq<char>> {
    match o {
        Some(s) => Some(s@),
        None => None,
    }
}

/// `p` occurs in `s` as a contiguous run of characters.
pub open spec fn has_substring(s: Seq<char>, p: Seq<char>) -> bool {
    exists|i: int| 0 <= i && i + p.len() <= s.len() && #[trigger] s.subrange(i, i + p.len()) == p
}

/// `p` is a prefix of `s`.
pub open spec fn has_prefix(s: Seq<char>, p: Seq<char>) -> bool {
    p.len() <= s.len() && s.subrange(0, p.len() as int) == p
}

/// ASCII lower-casing of one character; every other character is kept.
pub open spec fn ascii_lower(c: char) -> char {
    if 'A' <= c && c <= 'Z' {
        ((c as u32) + 32) as char
    } else {
        c
    }
}

/// The two strings are equal once ASCII letters are lower-cased.
pub open spec fn eq_ignore_ascii_case(a: Seq<char>, b: Seq<char>) -> bool {
    &&& a.len() == b.len()
    &&& forall|i: int| 0 <= i < a.len() ==> #[trigger] ascii_lower(a[i]) == ascii_lower(b[i])
}

/// Equality ignoring ASCII case is reflexive, symmetric and transitive.
pub proof fn lemma_eq_ignore_ascii_case_equiv(a: Seq<char>, b: Seq<char>, c: Seq<char>)
    ensures
        eq_ignore_ascii_case(a, a),
        eq_ignore_ascii_case(a, b) == eq_ignore_ascii_case(b, a),
        eq_ignore_ascii_case(a, b) && eq_ignore_ascii_case(b, c) ==> eq_ignore_ascii_case(a, c),
{
    if eq_ignore_ascii_case(a, b) && eq_ignore_ascii_case(b, c) {
        assert forall|i: int| 0 <= i < a.len() implies #[trigger] ascii_lower(a[i]) == ascii_lower(
            c[i],
        ) by {
            assert(ascii_lower(a[i]) == ascii_lower(b[i]));
            assert(ascii_lower(b[i]) == ascii_lower(c[i]));
        }
    }
    if eq_ignore_ascii_case(b, a) {
        assert forall|i: int| 0 <= i < a.len() implies #[trigger] ascii_lower(a[i]) == ascii_lower(
            b[i],
        ) by {
            assert(ascii_lower(b[i]) == ascii_lower(a[i]));
        }
    }
}

/// What `str::to_lowercase` returns for a string (Unicode lower-casing).
pub uninterp spec fn unicode_lowercase(s: Seq<char>) -> Seq<char>;

/// Calls `str::contains` with a string pattern: true exactly when `pat`
/// occurs in `s`.
#[verifier::external_body]
pub(crate) fn contains_str(s: &str, pat: &str) -> (r: bool)
    ensures
        r == has_substring(s@, pat@),
{
    s.contains(pat)
}

/// Calls `str::starts_with` with a string pattern: true exactly when `pat`
/// is a prefix of `s`.
#[verifier::external_body]
pub(crate) fn starts_with_str(s: &str, pat: &str) -> (r: bool)
    ensures
        r == has_prefix(s@, pat@),
{
    s.starts_with(pat)
}

/// Calls `str::eq_ignore_ascii_case`: true exactly when the strings agree
/// after ASCII lower-casing.
#[verifier::external_body]
pub(crate) fn str_eq_ignore_ascii_case(a: &str, b: &str) -> (r: bool)
    ensures
        r == eq_ignore_ascii_case(a@, b@),
{
    a.eq_ignore_ascii_case(b)
}

/// Calls `str::to_lowercase`; its result is named by `unicode_lowercase`.
#[verifier::external_body]
pub(crate) fn to_lowercase(s: &str) -> (r: String)
    ensures
        r@ == unicode_lowercase(s@),
{
    s.to_lowercase()
}

/// `prefix` followed by `rest`, as a new string.
pub fn concat_str(prefix: &str, rest: &str) -> (r: String)
    ensures
        r@ == prefix@ + rest@,
{
    let s = String::from_str(prefix);
    s.concat(rest)
}

} // verus!
