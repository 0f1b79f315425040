//! Addresses, as the URL parser and the pattern matcher take them apart.

use vstd::prelude::*;

use crate::text;

verus! {

/// The parts of an absolute URL that the rules read. A URL whose path is no list of segments has
/// none.
pub struct ParsedUrl {
    pub scheme: String,
    pub segments: Option<Vec<String>>,
}

/// What `ParsedUrl` stands for.
pub struct UrlParts {
    pub scheme: Seq<char>,
    pub segments: Option<Seq<Seq<char>>>,
}

impl View for ParsedUrl {
    type V = UrlParts;

    open spec fn view(&self) -> UrlParts {
        UrlParts {
            scheme: self.scheme@,
            segments: match self.segments {
                Some(segments) => Some(text::texts(segments@)),
                None => None,
            },
        }
    }
}

/// What an optional `ParsedUrl` stands for.
pub open spec fn opt_parts(url: Option<ParsedUrl>) -> Option<UrlParts> {
    match url {
        Some(url) => Some(url@),
        None => None,
    }
}

/// The parts of `address` where it is an absolute URL.
pub uninterp spec fn parsed_url(address: Seq<char>) -> Option<UrlParts>;

/// Calls `url::Url::parse`, and on the URL that comes back `scheme` and `path_segments`. Which
/// texts are URLs, and what their parts are, depends on the text alone; it goes by the name
/// `parsed_url`.
#[verifier::external_body]
pub(crate) fn parse_url(address: &str) -> (url: Option<ParsedUrl>)
    ensures
        opt_parts(url) == parsed_url(address@),
{
    url::Url::parse(address).ok().map(|url| ParsedUrl {
        scheme: url.scheme().to_string(),
        segments: url.path_segments().map(|parts| parts.map(str::to_string).collect()),
    })
}

/// What the group of that number holds in the leftmost match of `pattern` in `haystack`. There is
/// nothing where the pattern is none, where it does not match, or where the group took no part.
pub uninterp spec fn captured_group(pattern: Seq<char>, haystack: Seq<char>, group: nat) -> Option<
    Seq<char>,
>;

/// Calls `regex::Regex::new`, `Regex::captures` and `Captures::get`. What a group holds in the
/// leftmost match depends on the pattern, the text and the number of the group alone; it goes by
/// the name `captured_group`.
#[verifier::external_body]
pub(crate) fn capture_group(pattern: &str, haystack: &str, group: usize) -> (held: Option<String>)
    ensures
        text::opt_text(held) == captured_group(pattern@, haystack@, group as nat),
{
    let pattern = regex::Regex::new(pattern).ok()?;
    let captures = pattern.captures(haystack)?;
    captures.get(group).map(|held| held.as_str().to_string())
}

} // verus!
