//! Regular-expression matching, through the `regex` crate.
//!
//! Each call compiles its pattern and applies it once. What a compiled
//! pattern matches is the `regex` crate's business and is not restated here:
//! the results are named (`regex_is_match`, `regex_replace_all`), as pure
//! functions of the pattern and the text.

use vstd::prelude::*;

verus! {

/// What `regex::Regex::new(pattern)` followed by `is_match(text)` gives:
/// `None` when the pattern does not compile, else whether it matches.
pub uninterp spec fn regex_is_match(pattern: Seq<char>, text: Seq<char>) -> Option<bool>;

/// What `regex::Regex::new(pattern)` followed by `replace_all(text, rep)`
/// gives: `None` when the pattern does not compile, else the replaced text.
pub uninterp spec fn regex_replace_all(pattern: Seq<char>, text: Seq<char>, rep: Seq<char>) -> Option<
    Seq<char>,
>;

/// Whether `regex::Regex::new(pattern)` succeeds.
pub uninterp spec fn regex_compiles(pattern: Seq<char>) -> bool;

/// Calls `regex::Regex::new`; the contract claims only that whether it
/// succeeds is a function of `pattern` (`regex_compiles`).
#[verifier::external_body]
pub(crate) fn compiles(pattern: &str) -> (r: bool)
    ensures
        r == regex_compiles(pattern@),
{
    regex::Regex::new(pattern).is_ok()
}

/// Calls `regex::Regex::is_match` on a freshly compiled `pattern`. The
/// contract claims only that the result is a function of `pattern` and
/// `text` (`regex_is_match`), `None` standing for a compile error, which
/// `regex_compiles` decides.
#[verifier::external_body]
pub(crate) fn is_match(pattern: &str, text: &str) -> (r: Option<bool>)
    ensures
        r == regex_is_match(pattern@, text@),
        r is None <==> !regex_compiles(pattern@),
{
    match regex::Regex::new(pattern) {
        Ok(re) => Some(re.is_match(text)),
        Err(_) => None,
    }
}

/// Calls `regex::Regex::replace_all` on a freshly compiled `pattern`. The
/// contract claims only that the result is a function of `pattern`, `text`
/// and `rep` (`regex_replace_all`), `None` standing for a compile error.
#[verifier::external_body]
pub(crate) fn replace_all(pattern: &str, text: &str, rep: &str) -> (r: Option<String>)
    ensures
        match r {
            Some(s) => regex_replace_all(pattern@, text@, rep@) == Some(s@),
            None => regex_replace_all(pattern@, text@, rep@) is None,
        },
{
    match regex::Regex::new(pattern) {
        Ok(re) => Some(re.replace_all(text, rep).into_owned()),
        Err(_) => None,
    }
}

/// Whether `pattern` matches `text`; a pattern that does not compile
/// matches nothing.
pub open spec fn pattern_matches(pattern: Seq<char>, text: Seq<char>) -> bool {
    regex_is_match(pattern, text) == Some(true)
}

/// `text` with every match of `pattern` replaced by `rep`; unchanged when
/// the pattern does not compile.
pub open spec fn replaced(pattern: Seq<char>, text: Seq<char>, rep: Seq<char>) -> Seq<char> {
    match regex_replace_all(pattern, text, rep) {
        Some(r) => r,
        None => text,
    }
}

/// Executable `matches`.
pub fn matches_exec(pattern: &str, text: &str) -> (r: bool)
    ensures
        r == pattern_matches(pattern@, text@),
{
    match is_match(pattern, text) {
        Some(b) => b,
        None => false,
    }
}

/// Executable `replaced`.
pub fn replaced_exec(pattern: &str, text: &str, rep: &str) -> (r: String)
    ensures
        r@ == replaced(pattern@, text@, rep@),
{
    match replace_all(pattern, text, rep) {
        Some(s) => s,
        None => text.to_owned(),
    }
}

} // verus!
