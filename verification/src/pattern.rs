//! Regular-expression matching, done by the `regex` crate.

use vstd::prelude::*;
use regex::Regex;

verus! {

#[verifier::external_type_specification]
#[verifier::external_body]
pub struct ExRegex(regex::Regex);

#[verifier::external_type_specification]
#[verifier::external_body]
pub struct ExRegexError(regex::Error);

/// Whether `regex::Regex::new` accepts the pattern.
pub uninterp spec fn regex_compiles(pattern: Seq<char>) -> bool;

/// Whether the compiled pattern matches anywhere in the haystack
/// (`regex::Regex::is_match`).
pub uninterp spec fn regex_finds(pattern: Seq<char>, haystack: Seq<char>) -> bool;

/// A compiled regular expression together with the pattern it was compiled
/// from. Only `compile` builds one, so `re` is always the compilation of `source`.
pub struct Matcher {
    source: String,
    re: Regex,
}

impl View for Matcher {
    type V = Seq<char>;

    closed spec fn view(&self) -> Seq<char> {
        self.source@
    }
}

/// Compiles a pattern with `regex::Regex::new`. Trusted: succeeds exactly
/// when the pattern is accepted, and keeps the pattern text beside the result.
#[verifier::external_body]
pub(crate) fn compile(pattern: &str) -> (r: Result<Matcher, regex::Error>)
    ensures
        r is Ok <==> regex_compiles(pattern@),
        r matches Ok(m) ==> m@ == pattern@,
{
    match Regex::new(pattern) {
        Ok(re) => Ok(Matcher { source: pattern.to_string(), re }),
        Err(e) => Err(e),
    }
}

/// `regex::Regex::is_match`: whether the pattern matches anywhere in the
/// haystack. Trusted: the answer is the named result for the pattern's text.
#[verifier::external_body]
pub(crate) fn is_match(m: &Matcher, haystack: &str) -> (r: bool)
    ensures
        r == regex_finds(m@, haystack@),
{
    m.re.is_match(haystack)
}

} // verus!
