//! Regular expressions, as far as the library searches and replaces with
//! them.

use regex::Regex;
use vstd::prelude::*;
use crate::compiler::opt_view;

verus! {

/// What the regular expression `pattern` finds in `text`: for its first match
/// the text of every group, the whole match first, a group that took no part
/// being `None`; `None` without a match, and for a pattern that is none.
pub uninterp spec fn regex_groups(pattern: Seq<char>, text: Seq<char>) -> Option<
    Seq<Option<Seq<char>>>,
>;

/// What is left of `text` once every match of the regular expression
/// `pattern` is replaced by `with`, taken as it stands; `text` itself for a
/// pattern that is none.
pub uninterp spec fn regex_replaced(pattern: Seq<char>, text: Seq<u8>, with: Seq<u8>) -> Seq<u8>;

/// The values of a list of optional texts, in order.
pub open spec fn group_views(groups: Seq<Option<String>>) -> Seq<Option<Seq<char>>> {
    Seq::new(groups.len(), |i: int| opt_view(groups[i]))
}

/// The value of what a search found.
pub open spec fn found_view(found: Option<Vec<Option<String>>>) -> Option<Seq<Option<Seq<char>>>> {
    match found {
        Some(groups) => Some(group_views(groups@)),
        None => None,
    }
}

/// Searches `text` for the first match of `pattern`, with `Regex::new` and
/// `Regex::captures` of the crate regex. What the crate finds is a function
/// of the pattern and the text; the contract gives it a name and says no more.
#[verifier::external_body]
pub(crate) fn captures(pattern: &str, text: &str) -> (r: Option<Vec<Option<String>>>)
    ensures
        found_view(r) == regex_groups(pattern@, text@),
{
    match Regex::new(pattern) {
        Ok(re) => re.captures(text).map(
            |found| found.iter().map(|group| group.map(|m| m.as_str().to_string())).collect(),
        ),
        Err(_) => None,
    }
}

/// Replaces every match of `pattern` in `text` by `with`, with `Regex::new`
/// and `Regex::replace_all` of the crate regex, on bytes and without
/// expanding `with`. What the crate makes of it is a function of the three;
/// the contract gives it a name and says no more.
#[verifier::external_body]
pub(crate) fn replace_all(pattern: &str, text: &[u8], with: &[u8]) -> (r: Vec<u8>)
    ensures
        r@ == regex_replaced(pattern@, text@, with@),
{
    match regex::bytes::Regex::new(pattern) {
        Ok(re) => re.replace_all(text, regex::bytes::NoExpand(with)).into_owned(),
        Err(_) => text.to_vec(),
    }
}

} // verus!
