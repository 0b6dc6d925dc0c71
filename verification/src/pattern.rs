//! Matching text against regular expressions, which the `regex` crate does.

use vstd::prelude::*;

verus! {

/// The texts that `strings` hold.
pub open spec fn texts(strings: Seq<String>) -> Seq<Seq<char>> {
    Seq::new(strings.len(), |i: int| strings[i]@)
}

/// The texts that each entry of `matches` holds.
pub open spec fn match_texts(matches: Seq<Vec<String>>) -> Seq<Seq<Seq<char>>> {
    Seq::new(matches.len(), |i: int| texts(matches[i]@))
}

/// For each match of `pattern` in `haystack`, from left to right and none
/// overlapping another, the text of the whole match and then what each of
/// its capture groups holds; no match where `pattern` is no regular
/// expression.
pub uninterp spec fn regex_matches(pattern: Seq<char>, haystack: Seq<char>) -> Seq<
    Seq<Seq<char>>,
>;

/// The whole match and what the capture groups of `pattern` hold at its
/// first match in `haystack`.
pub open spec fn regex_groups(pattern: Seq<char>, haystack: Seq<char>) -> Option<
    Seq<Seq<char>>,
> {
    if regex_matches(pattern, haystack).len() > 0 {
        Some(regex_matches(pattern, haystack)[0])
    } else {
        None
    }
}

/// The pieces of `haystack` between the matches of `pattern`; none where
/// `pattern` is no regular expression.
pub uninterp spec fn regex_pieces(pattern: Seq<char>, haystack: Seq<char>) -> Seq<Seq<char>>;

/// Compiles `pattern` with `regex::Regex::new` and walks `haystack` with
/// `Regex::captures_iter`: for each match, the text of the whole match and
/// of each capture group, an empty text for a group that took no part in the
/// match. The contract names the result and says nothing more of it.
#[verifier::external_body]
pub(crate) fn all_match_groups(pattern: &str, haystack: &str) -> (matches: Vec<Vec<String>>)
    ensures
        match_texts(matches@) == regex_matches(pattern@, haystack@),
{
    match regex::Regex::new(pattern) {
        Ok(rx) => rx.captures_iter(haystack).map(
            |caps|
                caps.iter().map(
                    |group| group.map_or(String::new(), |m| m.as_str().to_string()),
                ).collect(),
        ).collect(),
        Err(_) => Vec::new(),
    }
}

/// Compiles `pattern` with `regex::Regex::new` and returns the pieces that
/// `Regex::split` cuts `haystack` into. The contract names the result and
/// says nothing more of it.
#[verifier::external_body]
pub(crate) fn split_at_matches(pattern: &str, haystack: &str) -> (pieces: Vec<String>)
    ensures
        texts(pieces@) == regex_pieces(pattern@, haystack@),
{
    match regex::Regex::new(pattern) {
        Ok(rx) => rx.split(haystack).map(|piece| piece.to_string()).collect(),
        Err(_) => Vec::new(),
    }
}

} // verus!
