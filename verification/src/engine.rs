//! The regular expression engine, as far as the library relies on it.

use vstd::prelude::*;
use regex::Regex;

verus! {

/// A compiled regular expression of the `regex` crate. Nothing inside it is
/// visible to the proofs.
#[verifier::external_type_specification]
#[verifier::external_body]
pub struct ExRegex(regex::Regex);

/// The error with which the `regex` crate refuses a pattern.
#[verifier::external_type_specification]
#[verifier::external_body]
pub struct ExRegexError(regex::Error);

/// Whether the engine compiles the pattern.
pub uninterp spec fn regex_compiles(pattern: Seq<char>) -> bool;

/// The pattern that a compiled expression was made from.
pub uninterp spec fn regex_source(re: &Regex) -> Seq<char>;

/// Whether a compiled expression finds a match somewhere in the line.
pub uninterp spec fn regex_accepts(re: &Regex, line: Seq<char>) -> bool;

/// `Regex::new` parses and compiles a pattern with the engine's defaults.
/// Not proved. Assumed: whether it succeeds depends on the pattern alone, and
/// the expression it returns keeps the pattern it was given.
pub assume_specification[ Regex::new ](re: &str) -> (r: Result<Regex, regex::Error>)
    ensures
        r is Ok <==> regex_compiles(re@),
        r matches Ok(compiled) ==> regex_source(&compiled) == re@,
;

/// `Regex::as_str` returns the pattern that the expression was made from.
/// Not proved.
pub assume_specification<'a>[ Regex::as_str ](re: &'a Regex) -> (s: &'a str)
    ensures
        s@ == regex_source(re),
;

/// `Regex::is_match` tells whether the expression matches anywhere in the
/// haystack. Not proved. Assumed: the answer depends on the expression and
/// the haystack alone.
pub assume_specification[ Regex::is_match ](re: &Regex, haystack: &str) -> (b: bool)
    ensures
        b == regex_accepts(re, haystack@),
;

/// The engine's account of why it refused a pattern: the error's `Display`
/// text. Nothing is claimed of it.
#[verifier::external_body]
pub(crate) fn refusal_text(error: &regex::Error) -> String {
    error.to_string()
}

} // verus!
