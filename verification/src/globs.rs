//! Shell patterns, as the `glob` crate compiles and applies them. What is a
//! pattern and what a pattern matches is the crate's to say: here both have a
//! name, and the contracts of this library speak of them by that name. Which
//! characters part the components of a path is the platform's, so the names
//! stand for what holds on the platform that the library is built for.

use glob::{Pattern, PatternError};
use vstd::prelude::*;
use vstd::string::*;

verus! {

#[verifier::external_type_specification]
#[verifier::external_body]
pub struct ExPattern(Pattern);

#[verifier::external_type_specification]
#[verifier::external_body]
pub struct ExPatternError(PatternError);

/// The text that a pattern was compiled from, which `Pattern::as_str` gives.
pub uninterp spec fn pattern_text(pattern: Pattern) -> Seq<char>;

/// Whether a text is a well-formed pattern, one that `Pattern::new` compiles.
pub uninterp spec fn is_pattern(text: Seq<char>) -> bool;

/// Whether the pattern with the given text matches a path, as
/// `Pattern::matches` tells.
pub uninterp spec fn pattern_matches(text: Seq<char>, path: Seq<char>) -> bool;

/// Whether a character has a meaning of its own in a pattern.
pub open spec fn is_meta(c: char) -> bool {
    c == '?' || c == '*' || c == '[' || c == ']'
}

/// A text in which every character that has a meaning of its own in a
/// pattern stands in brackets, so that it matches itself alone.
pub open spec fn escaped(text: Seq<char>) -> Seq<char>
    decreases text.len(),
{
    if text.len() == 0 {
        Seq::empty()
    } else if is_meta(text.last()) {
        escaped(text.drop_last()) + seq!['[', text.last(), ']']
    } else {
        escaped(text.drop_last()).push(text.last())
    }
}

/// `Pattern::new`: compiles a text that is a well-formed pattern, and
/// refuses every other; the pattern keeps the text.
#[verifier::external_body]
pub(crate) fn glob_new(text: &str) -> (pattern: Result<Pattern, PatternError>)
    ensures
        pattern is Ok <==> is_pattern(text@),
        pattern is Ok ==> pattern_text(pattern->Ok_0) == text@,
{
    Pattern::new(text)
}

/// `Pattern::matches`: whether the pattern matches the path, which depends
/// on the text of the pattern and on the path alone.
#[verifier::external_body]
pub(crate) fn glob_matches(pattern: &Pattern, path: &str) -> (matched: bool)
    ensures
        matched == pattern_matches(pattern_text(*pattern), path@),
{
    pattern.matches(path)
}

/// `Pattern::escape`: puts each of `?`, `*`, `[` and `]` in brackets and
/// leaves every other character as it is.
#[verifier::external_body]
pub(crate) fn glob_escape(text: &str) -> (safe: String)
    ensures
        safe@ == escaped(text@),
{
    Pattern::escape(text)
}

} // verus!
