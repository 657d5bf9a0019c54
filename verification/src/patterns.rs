//! Regular expressions, as functions of plain values.

use regex::Regex;
use vstd::prelude::*;

use crate::text;

verus! {

/// The groups of a match: the whole match, then each group of the expression. `None`
/// stands for a group that took no part in the match.
pub type Groups = Vec<Option<String>>;

/// The view of groups.
pub open spec fn group_views(groups: Seq<Option<String>>) -> Seq<Option<Seq<char>>> {
    Seq::new(groups.len(), |k: int| text::opt_view(groups[k]))
}

/// The view of the groups of a match that may be missing.
pub open spec fn match_view(groups: Option<Groups>) -> Option<Seq<Option<Seq<char>>>> {
    match groups {
        Some(groups) => Some(group_views(groups@)),
        None => None,
    }
}

/// The groups of the first match of a regular expression in a text.
pub uninterp spec fn first_match(pattern: Seq<char>, text: Seq<char>) -> Option<
    Seq<Option<Seq<char>>>,
>;

/// Whether a regular expression matches anywhere in a text.
pub uninterp spec fn matches_in(pattern: Seq<char>, text: Seq<char>) -> bool;

/// `Regex::captures`: the groups of the first match, each as the text that it
/// covers. `None` where nothing matches, or where the pattern is not a regular
/// expression.
#[verifier::external_body]
pub(crate) fn captures(pattern: &str, text: &str) -> (groups: Option<Groups>)
    ensures
        match_view(groups) == first_match(pattern@, text@),
{
    let captures = Regex::new(pattern).ok()?.captures(text)?;
    Some(captures.iter().map(|group| group.map(|m| m.as_str().to_owned())).collect())
}

/// `Regex::is_match`: whether there is a match. `false` where the pattern is not a
/// regular expression.
#[verifier::external_body]
pub(crate) fn is_match(pattern: &str, text: &str) -> (yes: bool)
    ensures
        yes == matches_in(pattern@, text@),
{
    match Regex::new(pattern) {
        Ok(regex) => regex.is_match(text),
        Err(_) => false,
    }
}

/// The text of a group, empty where it took no part in the match.
pub open spec fn group_text(groups: Seq<Option<Seq<char>>>, k: int) -> Seq<char> {
    if 0 <= k < groups.len() && groups[k] is Some {
        groups[k]->0
    } else {
        seq![]
    }
}

/// The text of a group, empty where it took no part in the match.
pub fn group(groups: &Groups, k: usize) -> (s: String)
    ensures
        s@ == group_text(group_views(groups@), k as int),
{
    if k < groups.len() {
        match &groups[k] {
            Some(s) => s.clone(),
            None => String::new(),
        }
    } else {
        String::new()
    }
}

/// A group that took part in the match has its own text, and any other has the empty one.
pub proof fn groups_keep_their_text(groups: Seq<Option<Seq<char>>>, k: int)
    ensures
        0 <= k < groups.len() && groups[k] is Some ==> group_text(groups, k) == groups[k]->0,
        0 <= k < groups.len() && groups[k] is None ==> group_text(groups, k).len() == 0,
        k >= groups.len() ==> group_text(groups, k).len() == 0,
{
}

} // verus!
