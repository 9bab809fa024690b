//! Regular-expression matching on text.

use regex::Regex;
use vstd::prelude::*;

verus! {

/// What replacing every match of `pattern` in `text` by `replacement` gives,
/// or `None` where `pattern` is no regular expression.
pub uninterp spec fn regex_replaced(
    pattern: Seq<char>,
    text: Seq<char>,
    replacement: Seq<char>,
) -> Option<Seq<char>>;

/// The capture groups of the first match of `pattern` in `text`, the whole
/// match first, each group with the text it matched or `None` where it took
/// no part in the match; `None` where there is no match or `pattern` is no
/// regular expression.
pub uninterp spec fn regex_captured(pattern: Seq<char>, text: Seq<char>) -> Option<
    Seq<Option<Seq<char>>>,
>;

/// The capture groups as plain text.
pub open spec fn group_texts(groups: Vec<Option<String>>) -> Seq<Option<Seq<char>>> {
    Seq::new(
        groups.len() as nat,
        |i: int|
            match groups[i] {
                Some(text) => Some(text@),
                None => None,
            },
    )
}

/// `Regex::new` followed by `Regex::replace_all`: the text with each match
/// of the pattern replaced, which is a function of the three texts alone.
#[verifier::external_body]
pub(crate) fn replace_all(pattern: &str, text: &str, replacement: &str) -> (replaced: Option<
    String,
>)
    ensures
        replaced.is_some() == regex_replaced(pattern@, text@, replacement@).is_some(),
        replaced.is_some() ==> replaced.unwrap()@ == regex_replaced(
            pattern@,
            text@,
            replacement@,
        ).unwrap(),
{
    let rule = Regex::new(pattern).ok()?;
    Some(rule.replace_all(text, replacement).into_owned())
}

/// `Regex::new` followed by `Regex::captures`: the groups of the first match,
/// which are a function of the two texts alone.
#[verifier::external_body]
pub(crate) fn captures(pattern: &str, text: &str) -> (groups: Option<Vec<Option<String>>>)
    ensures
        groups.is_some() == regex_captured(pattern@, text@).is_some(),
        groups.is_some() ==> group_texts(groups.unwrap()) == regex_captured(
            pattern@,
            text@,
        ).unwrap(),
{
    let rule = Regex::new(pattern).ok()?;
    let found = rule.captures(text)?;
    Some(found.iter().map(|group| group.map(|m| m.as_str().to_string())).collect())
}

} // verus!
