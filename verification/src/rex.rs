//! Trusted interface to the regex crate.
//!
//! The whitelist pattern a user registers with a repository is an
//! arbitrary regular expression, so matching it is left to the regex
//! crate. What a pattern accepts is only given a name here; the verified
//! discovery code states its results in terms of that name.

use vstd::prelude::*;

verus! {

#[verifier::external_type_specification]
#[verifier::external_body]
pub struct ExRegex(regex::Regex);

/// The pattern a compiled regular expression was built from, as
/// `regex::Regex::as_str` hands it back.
pub uninterp spec fn re_source(re: regex::Regex) -> Seq<char>;

/// Whether `regex::Regex::new` accepts a pattern.
pub uninterp spec fn re_valid(pattern: Seq<char>) -> bool;

/// What `regex::Regex::is_match` returns for a pattern and a haystack:
/// whether the haystack matches the pattern anywhere.
pub uninterp spec fn re_match(pattern: Seq<char>, haystack: Seq<char>) -> bool;

/// Relies on regex::Regex::new: compiles `pattern`, failing exactly on the
/// patterns the regex crate refuses.
#[verifier::external_body]
pub(crate) fn regex_new(pattern: &str) -> (r: Option<regex::Regex>)
    ensures
        r is Some <==> re_valid(pattern@),
        r matches Some(re) ==> re_source(re) == pattern@,
{
    regex::Regex::new(pattern).ok()
}

/// Relies on regex::Regex::is_match: true if and only if there is a match
/// for the compiled pattern anywhere in the haystack.
#[verifier::external_body]
pub(crate) fn regex_is_match(re: &regex::Regex, haystack: &str) -> (r: bool)
    ensures
        r == re_match(re_source(*re), haystack@),
{
    re.is_match(haystack)
}

} // verus!
