//! Regular expressions, compiled and matched by the `regex` crate.

use vstd::prelude::*;

verus! {

#[verifier::external_type_specification]
#[verifier::external_body]
pub struct ExRegex(regex::Regex);

#[verifier::external_type_specification]
#[verifier::external_body]
pub struct ExRegexError(regex::Error);

/// A compiled regular expression, together with the pattern it was compiled from.
pub struct Pattern {
    re: regex::Regex,
    source: Ghost<Seq<char>>,
}

impl View for Pattern {
    type V = Seq<char>;

    /// The pattern the expression was compiled from.
    closed spec fn view(&self) -> Seq<char> {
        self.source@
    }
}

/// What `Regex::captures` gives for the expression compiled from `pattern`, searched
/// in `hay`: `None` when there is no match; otherwise, for each capture group (group 0
/// is the whole match), the text it matched, or `None` for a group that took no part.
pub uninterp spec fn regex_captures(pattern: Seq<char>, hay: Seq<char>) -> Option<
    Seq<Option<Seq<char>>>,
>;

/// What `Regex::is_match` gives for the expression compiled from `pattern`, searched in
/// `hay`.
pub uninterp spec fn regex_is_match(pattern: Seq<char>, hay: Seq<char>) -> bool;

/// Whether `Regex::new` (default settings, so default size limits) compiles
/// `pattern`: it is valid syntax and its compiled form fits the limits.
pub uninterp spec fn regex_compiles(pattern: Seq<char>) -> bool;

/// Compiles `pattern` with `Regex::new`.  Claims that it succeeds exactly when
/// `regex_compiles` holds of the pattern (a function of the pattern alone), and that a
/// compiled expression is the one of the given pattern.
#[verifier::external_body]
pub(crate) fn compile(pattern: &str) -> (r: Result<Pattern, regex::Error>)
    ensures
        r is Ok <==> regex_compiles(pattern@),
        r matches Ok(p) ==> p@ == pattern@,
{
    match regex::Regex::new(pattern) {
        Ok(re) => Ok(Pattern { re, source: Ghost(pattern@) }),
        Err(e) => Err(e),
    }
}

/// Searches `hay` with `Regex::captures` and returns the text of each capture group.
/// Claims that the result is `regex_captures` of the pattern and the haystack.
#[verifier::external_body]
pub(crate) fn captures(p: &Pattern, hay: &str) -> (r: Option<Vec<Option<String>>>)
    ensures
        r.deep_view() == regex_captures(p@, hay@),
{
    p.re.captures(hay).map(|c| c.iter().map(|m| m.map(|m| m.as_str().to_string())).collect())
}

/// Tests `hay` with `Regex::is_match`.  Claims that the result is `regex_is_match` of
/// the pattern and the haystack.
#[verifier::external_body]
pub(crate) fn is_match(p: &Pattern, hay: &str) -> (r: bool)
    ensures
        r == regex_is_match(p@, hay@),
{
    p.re.is_match(hay)
}

} // verus!
