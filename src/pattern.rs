//! Pattern matching of stored values, for `key matches pattern` comparisons.
use vstd::prelude::*;

verus! {

/// Whether the regular expression `pattern` matches somewhere in `text`, or `None` when
/// `pattern` is not a valid regular expression.
pub uninterp spec fn regex_match(pattern: Seq<char>, text: Seq<char>) -> Option<bool>;

/// Relies on `regex::Regex::new`, which compiles `pattern` or reports it invalid, and on
/// `Regex::is_match`, which tells whether the compiled expression matches anywhere in
/// `text` (no anchoring). Both depend on their arguments alone.
#[verifier::external_body]
pub(crate) fn find_match(pattern: &str, text: &str) -> (r: Option<bool>)
    ensures
        r == regex_match(pattern@, text@),
{
    match regex::Regex::new(pattern) {
        Ok(re) => Some(re.is_match(text)),
        Err(_) => None,
    }
}

/// Whether the value `text` matches the pattern `pattern`: an invalid pattern matches
/// nothing.
pub fn value_matches(pattern: &str, text: &str) -> (r: bool)
    ensures
        r == (regex_match(pattern@, text@) == Some(true)),
{
    match find_match(pattern, text) {
        Some(b) => b,
        None => false,
    }
}

} // verus!
