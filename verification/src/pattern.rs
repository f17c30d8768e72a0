//! Regular expressions.

use regex::Regex;
use vstd::prelude::*;

verus! {

/// The compiled expression type of the `regex` crate.
#[verifier::external_type_specification]
#[verifier::external_body]
pub struct ExRegex(Regex);

/// Whether a text is a regular expression that compiles.
pub uninterp spec fn regex_compiles(source: Seq<char>) -> bool;

/// Whether the regular expression `source` matches somewhere in `text`.
pub uninterp spec fn regex_accepts(source: Seq<char>, text: Seq<char>) -> bool;

/// The text that a compiled expression was compiled from.
pub uninterp spec fn regex_source(re: Regex) -> Seq<char>;

/// `Regex::new` compiles an expression, or refuses it.
#[verifier::external_body]
pub(crate) fn compile_regex(source: &str) -> (r: Option<Regex>)
    ensures
        (match r {
            Some(re) => regex_compiles(source@) && regex_source(re) == source@,
            None => !regex_compiles(source@),
        }),
{
    Regex::new(source).ok()
}

/// `Regex::is_match` says whether the expression matches anywhere in the text.
#[verifier::external_body]
pub(crate) fn regex_matches(re: &Regex, text: &str) -> (r: bool)
    ensures
        r == regex_accepts(regex_source(*re), text@),
{
    re.is_match(text)
}

} // verus!
