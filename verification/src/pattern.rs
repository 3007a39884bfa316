//! Regular expressions, matched by the `regex` crate.

use crate::text::{text_of, texts_of};
use vstd::prelude::*;

verus! {

/// What `regex::Regex::is_match` returns on `text` for the expression compiled
/// from `pattern`: whether the expression matches anywhere in the text. `None`
/// where `pattern` does not compile.
pub uninterp spec fn regex_is_match(pattern: Seq<char>, text: Seq<char>) -> Option<bool>;

/// What the capture group `group` holds in the match that
/// `regex::Regex::captures` finds in `text` for the expression compiled from
/// `pattern`. `None` where `pattern` does not compile, where nothing matches,
/// where the expression has no such group, and where the group took no part in
/// the match.
pub uninterp spec fn regex_capture(pattern: Seq<char>, text: Seq<char>, group: nat) -> Option<
    Seq<char>,
>;

/// What the capture group `group` holds in each of the matches that
/// `regex::Regex::captures_iter` yields on `text` for the expression compiled from
/// `pattern`, in their order, `None` for a match in which the group took no part
/// or which has no such group. Empty where `pattern` does not compile.
pub uninterp spec fn regex_captures(pattern: Seq<char>, text: Seq<char>, group: nat) -> Seq<
    Option<Seq<char>>,
>;

/// Whether `pattern` compiles and matches somewhere in `text`.
pub open spec fn pattern_matches(pattern: Seq<char>, text: Seq<char>) -> bool {
    regex_is_match(pattern, text) == Some(true)
}

/// Compiles `pattern` with `regex::Regex::new` and asks `regex::Regex::is_match`
/// whether it matches in `text`. The contract claims no more than that the answer
/// depends on the two strings alone.
#[verifier::external_body]
fn try_is_match(pattern: &str, text: &str) -> (r: Option<bool>)
    ensures
        r == regex_is_match(pattern@, text@),
{
    match regex::Regex::new(pattern) {
        Ok(re) => Some(re.is_match(text)),
        Err(_) => None,
    }
}

/// Compiles `pattern` with `regex::Regex::new`, asks `regex::Regex::captures` for
/// the first match in `text` and copies what the group `group` holds. The contract
/// claims no more than that the answer depends on the three arguments alone.
#[verifier::external_body]
pub(crate) fn first_capture(pattern: &str, text: &str, group: usize) -> (r: Option<String>)
    ensures
        text_of(r) == regex_capture(pattern@, text@, group as nat),
{
    match regex::Regex::new(pattern) {
        Ok(re) => re.captures(text).and_then(|c| c.get(group)).map(|m| m.as_str().to_string()),
        Err(_) => None,
    }
}

/// Compiles `pattern` with `regex::Regex::new`, walks the matches that
/// `regex::Regex::captures_iter` yields on `text` and copies what the group
/// `group` holds in each. The contract claims no more than that the answer depends
/// on the three arguments alone.
#[verifier::external_body]
pub(crate) fn all_captures(pattern: &str, text: &str, group: usize) -> (r: Vec<Option<String>>)
    ensures
        texts_of(r@) == regex_captures(pattern@, text@, group as nat),
{
    match regex::Regex::new(pattern) {
        Ok(re) => re.captures_iter(text).map(
            |c| c.get(group).map(|m| m.as_str().to_string()),
        ).collect(),
        Err(_) => Vec::new(),
    }
}

/// Whether the regular expression `pattern` matches somewhere in `text`. A
/// pattern that does not compile matches nothing.
pub fn is_match(pattern: &str, text: &str) -> (r: bool)
    ensures
        r == pattern_matches(pattern@, text@),
{
    match try_is_match(pattern, text) {
        Some(found) => found,
        None => false,
    }
}

} // verus!
