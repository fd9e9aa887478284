//! Regular-expression search over text.

use vstd::prelude::*;

verus! {

/// The capture groups of one match, group 0 first; a group that took no part
/// in the match is `None`.
pub type Groups = Vec<Option<String>>;

/// What a search for `pattern` in `text` finds: `None` where the pattern
/// does not compile, else the successive non-overlapping matches, left to
/// right, each with its capture groups.
pub uninterp spec fn pattern_matches(pattern: Seq<char>, text: Seq<char>) -> Option<
    Seq<Seq<Option<Seq<char>>>>,
>;

/// Compiles `pattern` with `regex::Regex::new` and collects what
/// `Regex::captures_iter` yields on `text`, each `Captures` through
/// `Captures::iter`. The contract names the result: the same pattern and
/// text always give the same matches. Nothing is claimed about which
/// matches a given pattern has.
#[verifier::external_body]
pub(crate) fn find_all(pattern: &str, text: &str) -> (found: Option<Vec<Groups>>)
    ensures
        found.deep_view() == pattern_matches(pattern@, text@),
{
    let re = regex::Regex::new(pattern).ok()?;
    Some(
        re.captures_iter(text).map(
            |c| c.iter().map(|g| g.map(|m| m.as_str().to_owned())).collect(),
        ).collect(),
    )
}

/// What splitting `text` at the matches of `pattern` leaves: `None` where
/// the pattern does not compile, else the parts of the text that no match
/// covers, left to right.
pub uninterp spec fn pattern_splits(pattern: Seq<char>, text: Seq<char>) -> Option<Seq<Seq<char>>>;

/// Compiles `pattern` with `regex::Regex::new` and collects what
/// `Regex::split` yields on `text`. The contract names the result: the same
/// pattern and text always give the same parts.
#[verifier::external_body]
pub(crate) fn split_by(pattern: &str, text: &str) -> (parts: Option<Vec<String>>)
    ensures
        parts.deep_view() == pattern_splits(pattern@, text@),
{
    let re = regex::Regex::new(pattern).ok()?;
    Some(re.split(text).map(|part| part.to_owned()).collect())
}

/// Whether `pattern` compiles and matches somewhere in `text`.
pub open spec fn matches_in(pattern: Seq<char>, text: Seq<char>) -> bool {
    pattern_matches(pattern, text) matches Some(found) && found.len() > 0
}

/// Whether `pattern` matches somewhere in `text`.
pub fn has_match(pattern: &str, text: &str) -> (found: bool)
    ensures
        found == matches_in(pattern@, text@),
{
    match find_all(pattern, text) {
        Some(found) => found.len() > 0,
        None => false,
    }
}

/// The text of capture group `i`, where the match has such a group and the
/// group took part in it.
pub open spec fn group(groups: Seq<Option<Seq<char>>>, i: int) -> Option<Seq<char>> {
    if 0 <= i < groups.len() {
        groups[i]
    } else {
        None
    }
}

/// The text of capture group `i`.
pub fn group_text(groups: &Groups, i: usize) -> (text: Option<&String>)
    ensures
        match text {
            Some(t) => group(groups.deep_view(), i as int) == Some(t@),
            None => group(groups.deep_view(), i as int) is None,
        },
{
    if i < groups.len() {
        assert(groups.deep_view()[i as int] == groups[i as int].deep_view());
        match &groups[i] {
            Some(text) => Some(text),
            None => None,
        }
    } else {
        None
    }
}

} // verus!
