//! The pattern predicate: evaluation of a rule's pattern against the
//! matching text, delegated to the `regex` crate.

use vstd::prelude::*;

verus! {

/// Whether `regex::Regex::new` accepts the pattern; a function of the
/// pattern text alone.
pub uninterp spec fn pattern_valid(pattern: Seq<char>) -> bool;

/// Whether the compiled pattern matches anywhere in the text; a function
/// of the pattern and the text alone.
pub uninterp spec fn pattern_match(pattern: Seq<char>, text: Seq<char>) -> bool;

/// A pattern predicate as a rule sees it: a pattern that does not compile
/// is treated as a non-match for that rule only, never as an error.
pub open spec fn pattern_rule_matches(pattern: Seq<char>, text: Seq<char>) -> bool {
    pattern_valid(pattern) && pattern_match(pattern, text)
}

/// Relies on `regex::Regex::new`, whose acceptance of a pattern depends on
/// the pattern alone, and on `regex::Regex::is_match`, whose result
/// depends on the pattern and the searched text alone. A pattern that
/// fails to compile is reported as a non-match.
#[verifier::external_body]
pub(crate) fn regex_rule_matches(pattern: &str, text: &str) -> (r: bool)
    ensures
        r == (pattern_valid(pattern@) && pattern_match(pattern@, text@)),
{
    match regex::Regex::new(pattern) {
        Ok(re) => re.is_match(text),
        Err(_) => false,
    }
}

} // verus!
