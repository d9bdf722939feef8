//! The regular-expression search that the extraction of fields rests on.
//! Compilation and search are done by the `regex` crate; what they give
//! back is named here and believed, not proved.

use vstd::prelude::*;

verus! {

#[verifier::external_type_specification]
#[verifier::external_body]
pub struct ExRegex(regex::Regex);

/// Whether `regex::Regex::new` accepts `pattern` (it is well formed and the
/// compiled program stays under the crate's default size limit).
pub uninterp spec fn regex_compiles(pattern: Seq<char>) -> bool;

/// What `regex::Regex::captures` reports when the compiled `pattern` is
/// searched in `haystack`: `None` when it matches nowhere, otherwise the
/// leftmost-first match as one entry per capture group, group 0 (the whole
/// match) first, each the text that the group matched or `None` where the
/// group took no part in the match.
pub uninterp spec fn regex_captures(pattern: Seq<char>, haystack: Seq<char>) -> Option<
    Seq<Option<Seq<char>>>,
>;

/// A compiled regular expression together with the pattern it was compiled
/// from. Only `compile` builds one, so `compiled` is always the compilation
/// of `source`.
pub(crate) struct Pattern {
    source: String,
    compiled: regex::Regex,
}

impl View for Pattern {
    type V = Seq<char>;

    /// The pattern text.
    closed spec fn view(&self) -> Seq<char> {
        self.source@
    }
}

/// Compiles `pattern` with `regex::Regex::new`. Trusted: the result is
/// `Some` exactly when the crate accepts the pattern (named by
/// `regex_compiles`), and then it remembers the pattern text.
#[verifier::external_body]
pub(crate) fn compile(pattern: &str) -> (res: Option<Pattern>)
    ensures
        res is Some <==> regex_compiles(pattern@),
        res matches Some(p) ==> p@ == pattern@,
{
    regex::Regex::new(pattern).ok().map(|re| Pattern { source: pattern.to_string(), compiled: re })
}

/// Searches `haystack` with `regex::Regex::captures` and copies out the
/// text of every capture group. Trusted: the result is what
/// `regex_captures` names for the pattern and the haystack, and a match
/// always has its group 0 (the crate documents that `get(0)` is never
/// `None`). Which match the crate picks, and where groups end, is left to
/// the crate and not stated.
#[verifier::external_body]
pub(crate) fn captures(pattern: &Pattern, haystack: &str) -> (res: Option<Vec<Option<String>>>)
    ensures
        res.deep_view() == regex_captures(pattern@, haystack@),
        res matches Some(groups) ==> groups@.len() >= 1 && groups@[0] is Some,
{
    pattern.compiled.captures(haystack).map(
        |c| c.iter().map(|m| m.map(|m| m.as_str().to_string())).collect(),
    )
}

} // verus!
