//! Regular-expression filtering of paths, through the `regex` crate.
use vstd::prelude::*;

verus! {

/// Whether `regex::Regex::new` accepts the pattern.
pub uninterp spec fn regex_compiles(pattern: Seq<char>) -> bool;

/// Whether the compiled pattern matches somewhere in `text` (`Regex::is_match`).
pub uninterp spec fn regex_matches(pattern: Seq<char>, text: Seq<char>) -> bool;

/// Calls `regex::Regex::new`; the contract claims only that the outcome is
/// the named compile result for this pattern.
#[verifier::external_body]
pub(crate) fn regex_valid(pattern: &str) -> (r: bool)
    ensures
        r == regex_compiles(pattern@),
{
    regex::Regex::new(pattern).is_ok()
}

/// Compiles `pattern` with `regex::Regex::new` and calls `Regex::is_match` on
/// `text`; the contract claims only that the answer is the named match result
/// for this pattern and text.
#[verifier::external_body]
pub(crate) fn regex_is_match(pattern: &str, text: &str) -> (r: bool)
    requires
        regex_compiles(pattern@),
    ensures
        r == regex_matches(pattern@, text@),
{
    match regex::Regex::new(pattern) {
        Ok(re) => re.is_match(text),
        Err(_) => false,
    }
}


/// What `Regex::replace_all` makes of `text` when every match of the compiled
/// pattern is replaced by `rep`.
pub uninterp spec fn regex_replaced(pattern: Seq<char>, text: Seq<char>, rep: Seq<char>) -> Seq<char>;

/// Compiles `pattern` with `regex::Regex::new` and, when it compiles, replaces
/// every match in `text` by `rep` with `Regex::replace_all`; the contract
/// claims only that the outcome is the named one for these arguments.
#[verifier::external_body]
pub(crate) fn regex_replace_all(pattern: &str, text: &str, rep: &str) -> (r: Option<String>)
    ensures
        match r {
            Some(s) => regex_compiles(pattern@) && s@ == regex_replaced(pattern@, text@, rep@),
            None => !regex_compiles(pattern@),
        },
{
    match regex::Regex::new(pattern) {
        Ok(re) => Some(re.replace_all(text, rep).into_owned()),
        Err(_) => None,
    }
}

} // verus!
