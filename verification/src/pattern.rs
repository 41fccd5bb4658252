//! The boundary to the `regex` crate: nothing here is proved, only stated.
//!
//! What crosses the boundary is plain: the text of a pattern, the text of
//! a haystack, and the byte spans of capture groups. A compiled expression
//! is carried from `compile` to `find_captures` inside an `Engine`, which
//! keeps the text it was compiled from.

use vstd::prelude::*;

verus! {

/// A compiled expression of the `regex` crate, carried as an opaque value.
#[verifier::external_type_specification]
#[verifier::external_body]
pub struct ExRegex(regex::Regex);

/// The error of `regex::Regex::new`, carried as an opaque value.
#[verifier::external_type_specification]
#[verifier::external_body]
pub struct ExRegexError(regex::Error);

/// The byte span `[start, end)` of one capture group in a haystack.
pub type Span = (usize, usize);

/// The capture groups of one match, group 0 (the whole match) first; a
/// group that took no part in the match is `None`.
pub type Groups = Vec<Option<Span>>;

/// Whether the `regex` crate accepts `pattern`: whether `Regex::new`
/// compiles it.
pub uninterp spec fn compiles(pattern: Seq<char>) -> bool;

/// What the `regex` crate finds when a pattern that it accepts is searched
/// for in `haystack`: the successive non-overlapping matches from left to
/// right, each with the byte spans of its capture groups.
pub uninterp spec fn captures_of(pattern: Seq<char>, haystack: Seq<char>) -> Seq<
    Seq<Option<Span>>,
>;

/// The matches as plain sequences.
pub open spec fn groups_of(matches: Seq<Groups>) -> Seq<Seq<Option<Span>>> {
    matches.map_values(|g: Groups| g@)
}

/// A compiled pattern. It is made by `compile` and by nothing else, so
/// the expression it holds is the one compiled from its source text; its
/// view is that text.
#[derive(Debug)]
pub struct Engine {
    source: String,
    regex: regex::Regex,
}

impl View for Engine {
    type V = Seq<char>;

    closed spec fn view(&self) -> Seq<char> {
        self.source@
    }
}

/// Compiles `pattern` with `regex::Regex::new`.
///
/// Trusted: whether the crate accepts a pattern depends on the pattern's
/// text alone, which is what `compiles` names; the engine handed back
/// keeps that text.
#[verifier::external_body]
pub(crate) fn compile(pattern: &str) -> (made: Result<Engine, regex::Error>)
    ensures
        made is Ok <==> compiles(pattern@),
        made matches Ok(engine) ==> engine@ == pattern@,
{
    regex::Regex::new(pattern).map(|regex| Engine { source: pattern.to_owned(), regex })
}

/// Walks `regex::Regex::captures_iter` over `haystack` and hands out the
/// spans that `Match::start` and `Match::end` give for every group of
/// every match.
///
/// Trusted: what an expression finds depends on the text it was compiled
/// from and on the haystack alone, and is therefore the value that
/// `captures_of` names.
#[verifier::external_body]
pub(crate) fn find_captures(engine: &Engine, haystack: &str) -> (found: Vec<Groups>)
    ensures
        groups_of(found@) == captures_of(engine@, haystack@),
{
    engine.regex.captures_iter(haystack).map(
        |caps| caps.iter().map(|group| group.map(|m| (m.start(), m.end()))).collect(),
    ).collect()
}

} // verus!
