//! The regular expressions by which blocks and class attributes are found,
//! and the searches themselves, which the `regex` crate performs.
//!
//! What a search returns is named, not described: contracts elsewhere speak of
//! `first_match` and `all_matches` applied to a pattern and a text.

use regex::Regex;
use vstd::prelude::*;

verus! {

/// A `class` attribute in double quotes with a value of at least one
/// character; group 1 is the value.
pub const CLASS_DOUBLE_QUOTED: &'static str = r#"class\s*=\s*"([^"]+)""#;

/// A `class` attribute in single quotes with a value of at least one
/// character; group 1 is the value.
pub const CLASS_SINGLE_QUOTED: &'static str = r#"class\s*=\s*'([^']+)'"#;

/// A `class` attribute in double quotes, its value possibly empty; group 1 is
/// the value.
pub const CLASS_DOUBLE_QUOTED_ANY: &'static str = r#"class\s*=\s*"([^"]*)""#;

/// A `class` attribute in single quotes, its value possibly empty; group 1 is
/// the value.
pub const CLASS_SINGLE_QUOTED_ANY: &'static str = r#"class\s*=\s*'([^']*)'"#;

/// A block: a `pre` element that holds nothing but a `code` element. Group 1
/// is what follows `<pre` up to `>`, group 2 what follows `<code` up to `>`,
/// group 3 the text up to the first `</code>` that `</pre>` follows.
pub const BLOCK: &'static str = r"(?s)<pre([^>]*)>\s*<code([^>]*)>(.*?)</code>\s*</pre>";

/// The groups of the leftmost match of the regular expression `pattern` in
/// `text`: for each group of the pattern, group 0 being the whole match, the
/// positions at which it starts and ends, counted in characters, or `None`
/// where the group took no part in the match. The result is `None` where
/// `text` holds no match and where `pattern` is no regular expression.
pub uninterp spec fn first_match(pattern: Seq<char>, text: Seq<char>) -> Option<
    Seq<Option<(usize, usize)>>,
>;

/// The groups, as `first_match` gives them, of each of the successive
/// matches of `pattern` in `text` that do not overlap, from left to right. The
/// result is empty where `pattern` is no regular expression.
pub uninterp spec fn all_matches(pattern: Seq<char>, text: Seq<char>) -> Seq<
    Seq<Option<(usize, usize)>>,
>;

/// What a list of matches holds.
pub open spec fn matches_view(v: Seq<Vec<Option<(usize, usize)>>>) -> Seq<
    Seq<Option<(usize, usize)>>,
> {
    v.map_values(|m: Vec<Option<(usize, usize)>>| m@)
}

/// The groups of the leftmost match of `pattern` in `text`.
///
/// Trusted: compiles the pattern with `Regex::new` and searches with
/// `Regex::captures`; the byte offsets of each group are turned into counts of
/// characters. The contract only gives the outcome its name.
#[verifier::external_body]
pub(crate) fn captures(pattern: &str, text: &str) -> (r: Option<Vec<Option<(usize, usize)>>>)
    ensures
        r matches Some(groups) ==> first_match(pattern@, text@) == Some(groups@),
        r is None ==> first_match(pattern@, text@) is None,
{
    let found = Regex::new(pattern).ok()?.captures(text)?;
    let count = |at: usize| text[..at].chars().count();
    Some(found.iter().map(|g| g.map(|m| (count(m.start()), count(m.end())))).collect())
}

/// The groups of all matches of `pattern` in `text`, from left to right.
///
/// Trusted: compiles the pattern with `Regex::new` and walks
/// `Regex::captures_iter`; the byte offsets of each group are turned into
/// counts of characters. The contract only gives the outcome its name.
#[verifier::external_body]
pub(crate) fn captures_iter(pattern: &str, text: &str) -> (r: Vec<Vec<Option<(usize, usize)>>>)
    ensures
        matches_view(r@) == all_matches(pattern@, text@),
{
    let count = |at: usize| text[..at].chars().count();
    let groups = |found: regex::Captures| found.iter().map(|g| g.map(|m| (count(m.start()), count(m.end())))).collect();
    Regex::new(pattern).map(|re| re.captures_iter(text).map(groups).collect()).unwrap_or_default()
}

} // verus!
