//! Regular expressions.
//!
//! Matching is done by the `regex` crate. What an expression accepts is named by
//! the uninterpreted functions here, as functions of the expression's text and
//! the text that is searched.

use crate::text::texts;
use vstd::prelude::*;

verus! {

/// `regex::Regex`, a compiled regular expression.
#[verifier::external_type_specification]
#[verifier::external_body]
pub struct ExRegex(regex::Regex);

/// Why `regex::Regex::new` rejects an expression: nothing where it accepts it.
pub uninterp spec fn regex_rejection(expression: Seq<char>) -> Option<Seq<char>>;

/// A text that stands for a compiled expression, with the options that it was made
/// with: expressions that it is the same for match alike. Without options it is the
/// text of the expression.
pub uninterp spec fn regex_text(re: regex::Regex) -> Seq<char>;

/// The text that a compiled expression was made from, as `regex::Regex::as_str` gives
/// it, without options.
pub uninterp spec fn regex_written(re: regex::Regex) -> Seq<char>;

/// Whether an expression matches somewhere in a text.
pub uninterp spec fn regex_is_match(expression: Seq<char>, text: Seq<char>) -> bool;

/// The first match of an expression in a text: the byte offsets at which it
/// begins and ends, and what it matched.
pub uninterp spec fn regex_first(expression: Seq<char>, text: Seq<char>) -> Option<
    (nat, nat, Seq<char>),
>;

/// The groups of the first match of an expression in a text, the whole match
/// first; a group that took no part in the match is empty.
pub uninterp spec fn regex_groups(expression: Seq<char>, text: Seq<char>) -> Option<Seq<Seq<char>>>;

/// A match of an expression: byte offsets and matched text.
pub struct Match {
    pub start: usize,
    pub end: usize,
    pub text: String,
}

/// `regex::Regex::new`: the compiled expression, with no options, or the message of
/// the error, printed with its `Display`.
#[verifier::external_body]
pub(crate) fn regex_new(expression: &str) -> (r: Result<regex::Regex, String>)
    ensures
        match r {
            Ok(re) => regex_text(re) == expression@ && regex_written(re) == expression@
                && regex_rejection(expression@) is None,
            Err(m) => regex_rejection(expression@) == Some(m@),
        },
{
    regex::Regex::new(expression).map_err(|e| e.to_string())
}

/// `regex::Regex::as_str`: the text that the expression was made from.
pub assume_specification[ regex::Regex::as_str ](re: &regex::Regex) -> (r: &str)
    ensures
        r@ == regex_written(*re),
;

/// `regex::Regex::is_match`: whether the expression matches anywhere in the text.
pub assume_specification[ regex::Regex::is_match ](re: &regex::Regex, haystack: &str) -> (r: bool)
    ensures
        r == regex_is_match(regex_text(*re), haystack@),
;

/// `regex::Regex::find`: the leftmost-first match. There is one exactly where
/// `is_match` holds, and its offsets lie in order.
#[verifier::external_body]
pub(crate) fn regex_find(re: &regex::Regex, haystack: &str) -> (r: Option<Match>)
    ensures
        r is Some == regex_is_match(regex_text(*re), haystack@),
        match r {
            Some(m) => regex_first(regex_text(*re), haystack@) == Some(
                (m.start as nat, m.end as nat, m.text@),
            ) && m.start <= m.end,
            None => regex_first(regex_text(*re), haystack@) is None,
        },
{
    re.find(haystack).map(
        |m| Match { start: m.start(), end: m.end(), text: m.as_str().to_string() },
    )
}

/// `regex::Regex::captures`: the groups of the leftmost-first match, a group
/// that took no part as the empty text. There are groups exactly where
/// `is_match` holds.
#[verifier::external_body]
pub(crate) fn regex_captures(re: &regex::Regex, haystack: &str) -> (r: Option<Vec<String>>)
    ensures
        r is Some == regex_is_match(regex_text(*re), haystack@),
        match r {
            Some(g) => regex_groups(regex_text(*re), haystack@) == Some(texts(g@)),
            None => regex_groups(regex_text(*re), haystack@) is None,
        },
{
    re.captures(haystack).map(
        |c| c.iter().map(|g| g.map_or(String::new(), |m| m.as_str().to_string())).collect(),
    )
}

/// Compiles a regular expression.
pub fn compile(expression: &str) -> (r: Result<regex::Regex, String>)
    ensures
        match r {
            Ok(re) => regex_text(re) == expression@ && regex_written(re) == expression@
                && regex_rejection(expression@) is None,
            Err(m) => regex_rejection(expression@) == Some(m@),
        },
{
    regex_new(expression)
}

} // verus!
