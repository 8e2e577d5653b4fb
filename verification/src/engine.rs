//! The boundary to the regular-expression engine.
//!
//! Everything the engine computes is named by an uninterpreted spec function
//! of the pattern and subject text, and reached through a trusted wrapper
//! whose contract states what the engine's documentation promises.
//!
//! Each wrapper takes the pattern text itself rather than a compiled value,
//! so that its contract can speak of the result as a function of that text
//! alone; the pattern is recompiled on each call, which is acceptable for
//! interactive use.

use vstd::prelude::*;
use vstd::string::StringSliceAdditionalSpecFns;

verus! {

/// Whether the engine accepts `p` as a pattern (compilation succeeds).
pub uninterp spec fn regex_valid(p: Seq<char>) -> bool;

/// The engine's error message for a pattern it rejects.
pub uninterp spec fn regex_error_text(p: Seq<char>) -> Seq<char>;

/// Whether the pattern matches anywhere in the subject.
pub uninterp spec fn regex_is_match(p: Seq<char>, s: Seq<char>) -> bool;

/// The capture groups of the first match of `p` in `s`: for each group
/// index (group 0 is the whole match), the captured text, or `None` for a
/// group that did not participate in the match.
pub uninterp spec fn regex_captures(p: Seq<char>, s: Seq<char>) -> Seq<Option<Seq<char>>>;

/// The successive non-overlapping left-to-right matches of `p` in `s`:
/// each match's text and its half-open byte range in the UTF-8 encoding
/// of `s`.
pub uninterp spec fn regex_finds(p: Seq<char>, s: Seq<char>) -> Seq<(Seq<char>, int, int)>;

/// One match found in the subject: its text and its byte range.
pub struct Found {
    pub text: String,
    pub start: usize,
    pub end: usize,
}

/// Relies on `regex::Regex::new`, which returns `Ok` exactly when the
/// pattern compiles, and on the `Display` of `regex::Error` for the
/// message on failure.
#[verifier::external_body]
pub(crate) fn try_compile(p: &str) -> (r: Result<(), String>)
    ensures
        r is Ok <==> regex_valid(p@),
        r matches Err(m) ==> m@ == regex_error_text(p@),
{
    match regex::Regex::new(p) {
        Ok(_) => Ok(()),
        Err(e) => Err(e.to_string()),
    }
}

/// Relies on `regex::Regex::is_match`: true exactly when the pattern
/// matches anywhere in the subject.
#[verifier::external_body]
pub(crate) fn engine_is_match(p: &str, s: &str) -> (r: bool)
    requires
        regex_valid(p@),
    ensures
        r == regex_is_match(p@, s@),
{
    regex::Regex::new(p).unwrap().is_match(s)
}

/// Relies on `regex::Regex::captures` and `regex::Captures`: the result is
/// `Some` exactly when the pattern matches; group 0 is the whole match and
/// always participates; iterating the groups yields each group's text, or
/// `None` for a group that did not participate.
#[verifier::external_body]
pub(crate) fn engine_captures(p: &str, s: &str) -> (r: Option<Vec<Option<String>>>)
    requires
        regex_valid(p@),
    ensures
        r is Some <==> regex_is_match(p@, s@),
        r matches Some(groups) ==> {
            &&& groups.deep_view() == regex_captures(p@, s@)
            &&& groups@.len() >= 1
            &&& groups@[0] is Some
        },
{
    regex::Regex::new(p).unwrap().captures(s).map(|caps| {
        caps.iter().map(|g| g.map(|m| m.as_str().to_string())).collect()
    })
}

/// Relies on `regex::Regex::find_iter` and `regex::Match`: the iterator
/// yields the successive non-overlapping matches in left-to-right order
/// (each search resumes at or after the end of the previous match); a
/// match's offsets are byte offsets into the subject with
/// `start <= end <= len`, both guaranteed to fall on UTF-8 character
/// boundaries; `as_str` is the slice of the subject at that range; and at
/// least one match is found exactly when `is_match` holds.
#[verifier::external_body]
pub(crate) fn engine_find_iter(p: &str, s: &str) -> (r: Vec<Found>)
    requires
        regex_valid(p@),
    ensures
        r@.len() == regex_finds(p@, s@).len(),
        forall|i: int|
            0 <= i < r@.len() ==> {
                &&& r@[i].text@ == #[trigger] regex_finds(p@, s@)[i].0
                &&& r@[i].start == regex_finds(p@, s@)[i].1
                &&& r@[i].end == regex_finds(p@, s@)[i].2
            },
        forall|i: int|
            0 <= i < r@.len() ==> #[trigger] r@[i].start <= r@[i].end <= s.spec_bytes().len(),
        forall|i: int| 0 < i < r@.len() ==> r@[i - 1].end <= #[trigger] r@[i].start,
        forall|i: int|
            0 <= i < r@.len() ==> {
                &&& vstd::utf8::is_char_boundary(s.spec_bytes(), #[trigger] r@[i].start as int)
                &&& vstd::utf8::is_char_boundary(s.spec_bytes(), r@[i].end as int)
            },
        forall|i: int|
            0 <= i < r@.len() ==> vstd::utf8::encode_utf8(#[trigger] r@[i].text@)
                == s.spec_bytes().subrange(r@[i].start as int, r@[i].end as int),
        r@.len() > 0 <==> regex_is_match(p@, s@),
{
    let re = regex::Regex::new(p).unwrap();
    re.find_iter(s)
        .map(|m| Found { text: m.as_str().to_string(), start: m.start(), end: m.end() })
        .collect()
}

} // verus!
