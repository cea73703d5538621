//! Regular expressions, as far as the index needs them. The matching itself
//! is the work of the `regex` crate; what it returns is named here and handed
//! on, and the library's own steps start from those results.

use vstd::prelude::*;
use regex::Regex;
use crate::text::texts;

verus! {

/// What `regex` finds of one capture group: `None` if `pattern` is not a
/// regular expression that `regex` accepts; else, for each of the successive
/// non-overlapping matches of `pattern` in `haystack`, the text that the
/// group numbered `group` took, or `None` where the pattern has no such
/// group or the group took no part in that match.
pub uninterp spec fn regex_captures(pattern: Seq<char>, group: int, haystack: Seq<char>) -> Option<
    Seq<Option<Seq<char>>>,
>;

/// What `regex` makes of `haystack` when every match of `pattern` gives way
/// to `replacement`, in which `$`-references to capture groups are expanded;
/// `None` if `pattern` is not a regular expression that `regex` accepts.
pub uninterp spec fn regex_replace_all(
    pattern: Seq<char>,
    haystack: Seq<char>,
    replacement: Seq<char>,
) -> Option<Seq<char>>;

/// Whether `regex` finds a match of `pattern` anywhere in `haystack`; `None`
/// if `pattern` is not a regular expression that `regex` accepts.
pub uninterp spec fn regex_is_match(pattern: Seq<char>, haystack: Seq<char>) -> Option<bool>;

/// What a list of captured groups says.
pub open spec fn capture_texts(found: Option<Vec<Option<String>>>) -> Option<Seq<Option<Seq<char>>>> {
    match found {
        None => None,
        Some(groups) => Some(
            Seq::new(
                groups@.len(),
                |i: int|
                    match groups@[i] {
                        None => None,
                        Some(text) => Some(text@),
                    },
            ),
        ),
    }
}

/// What an optional string says.
pub open spec fn optional_text(found: Option<String>) -> Option<Seq<char>> {
    match found {
        None => None,
        Some(text) => Some(text@),
    }
}

/// `regex::Regex::new`, then `Regex::captures_iter` with `Captures::get` and
/// `Match::as_str` on each match.
///
/// Believed, not proved: the result is what `regex_captures` names.
#[verifier::external_body]
pub(crate) fn captures_of_group(pattern: &str, group: usize, haystack: &str) -> (found: Option<
    Vec<Option<String>>,
>)
    ensures
        capture_texts(found) == regex_captures(pattern@, group as int, haystack@),
{
    match Regex::new(pattern) {
        Ok(re) => Some(
            re.captures_iter(haystack).map(|c| c.get(group).map(|m| m.as_str().to_string())).collect(),
        ),
        Err(_) => None,
    }
}

/// `regex::Regex::new`, then `Regex::replace_all` with a string as the
/// replacement.
///
/// Believed, not proved: the result is what `regex_replace_all` names.
#[verifier::external_body]
pub(crate) fn replace_all_matches(pattern: &str, haystack: &str, replacement: &str) -> (replaced: Option<
    String,
>)
    ensures
        optional_text(replaced) == regex_replace_all(pattern@, haystack@, replacement@),
{
    match Regex::new(pattern) {
        Ok(re) => Some(re.replace_all(haystack, replacement).into_owned()),
        Err(_) => None,
    }
}

/// `regex::Regex::new`, then `Regex::is_match`.
///
/// Believed, not proved: the result is what `regex_is_match` names.
#[verifier::external_body]
pub(crate) fn matches_somewhere(pattern: &str, haystack: &str) -> (found: Option<bool>)
    ensures
        found == regex_is_match(pattern@, haystack@),
{
    match Regex::new(pattern) {
        Ok(re) => Some(re.is_match(haystack)),
        Err(_) => None,
    }
}

/// The text of each captured group, the empty text where a group is absent;
/// nothing at all where there is no list.
pub open spec fn group_texts(found: Option<Seq<Option<Seq<char>>>>) -> Seq<Seq<char>> {
    match found {
        None => Seq::empty(),
        Some(groups) => Seq::new(
            groups.len(),
            |i: int|
                match groups[i] {
                    None => Seq::empty(),
                    Some(text) => text,
                },
        ),
    }
}

/// The captured groups as plain strings: an absent group counts as the
/// empty string, an absent list as the empty list.
pub fn groups_as_strings(found: Option<Vec<Option<String>>>) -> (items: Vec<String>)
    ensures
        texts(items@) == group_texts(capture_texts(found)),
{
    let mut items: Vec<String> = Vec::new();
    match found {
        None => {
            assert(texts(items@) =~= group_texts(capture_texts(found)));
        },
        Some(groups) => {
            let ghost all = group_texts(capture_texts(found));
            let n: usize = groups.len();
            let mut i: usize = 0;
            while i < n
                invariant
                    n == groups@.len(),
                    i <= n,
                    all == group_texts(capture_texts(Some(groups))),
                    items@.len() == i,
                    forall|k: int| 0 <= k < i ==> items@[k]@ == all[k],
                decreases n - i,
            {
                let text: String = match &groups[i] {
                    Some(text) => text.clone(),
                    None => String::new(),
                };
                items.push(text);
                i += 1;
            }
            assert(texts(items@) =~= all);
        },
    }
    items
}

} // verus!
