//! Applicability conditions: a rule may carry a regular expression that a line
//! has to match for the rule to apply to it.

use vstd::prelude::*;

verus! {

/// The error that `regex` reports for a pattern it cannot compile.
#[verifier::external_type_specification]
#[verifier::external_body]
pub struct ExRegexError(regex::Error);

/// Whether `regex::Regex::new` accepts `pattern`.
pub uninterp spec fn pattern_compiles(pattern: Seq<char>) -> bool;

/// Whether the regular expression compiled from `pattern` by `regex::Regex::new`
/// finds a match anywhere in `text`, as `regex::Regex::is_match` reports it.
pub uninterp spec fn pattern_matches(pattern: Seq<char>, text: Seq<char>) -> bool;

/// Compiles `pattern` with `regex::Regex::new` and searches `text` with
/// `regex::Regex::is_match`.
///
/// Unproved: the call fails exactly on the patterns that `regex` rejects, and
/// otherwise returns what `is_match` answers for that pattern on `text`; both
/// depend on the two strings alone.
#[verifier::external_body]
pub(crate) fn match_condition(pattern: &str, text: &str) -> (r: Result<bool, regex::Error>)
    ensures
        r is Ok <==> pattern_compiles(pattern@),
        r matches Ok(found) ==> found == pattern_matches(pattern@, text@),
{
    Ok(regex::Regex::new(pattern)?.is_match(text))
}

} // verus!
