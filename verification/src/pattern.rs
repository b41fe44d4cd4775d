//! Regular expressions and moments in time, as the outside crates read them.

use vstd::prelude::*;

verus! {

/// Why a text is no regular expression, if it is none.
pub uninterp spec fn regex_error(pattern: Seq<char>) -> Option<Seq<char>>;

/// Whether a pattern compiles and matches somewhere in a text.
pub uninterp spec fn regex_matches(pattern: Seq<char>, t: Seq<char>) -> bool;

/// Whether a text is a moment in RFC 3339 form.
pub uninterp spec fn is_rfc3339(t: Seq<char>) -> bool;

/// The RFC 3339 text of a moment, if the calendar reaches that far.
pub uninterp spec fn rfc3339(secs: i64, nanos: u32) -> Option<Seq<char>>;

/// `regex::Regex::new`: the message of its error, or nothing where the pattern
/// compiles. It is named by [`regex_error`]: it depends on the pattern alone.
#[verifier::external_body]
pub(crate) fn pattern_error(pattern: &str) -> (r: Option<String>)
    ensures
        r.deep_view() == regex_error(pattern@),
{
    regex::Regex::new(pattern).err().map(|e| e.to_string())
}

/// `regex::Regex::is_match` of a pattern that compiles. The answer is named by
/// [`regex_matches`]: it depends on the pattern and the text alone. A pattern
/// that does not compile matches nothing.
#[verifier::external_body]
pub(crate) fn is_match(pattern: &str, t: &str) -> (r: bool)
    ensures
        r == regex_matches(pattern@, t@),
        regex_error(pattern@) is Some ==> !r,
{
    regex::Regex::new(pattern).is_ok_and(|re| re.is_match(t))
}

/// `chrono::DateTime::parse_from_rfc3339`: whether it accepts a text. The
/// answer is named by [`is_rfc3339`]: it depends on the text alone.
#[verifier::external_body]
pub(crate) fn parses_as_time(t: &str) -> (r: bool)
    ensures
        r == is_rfc3339(t@),
{
    chrono::DateTime::parse_from_rfc3339(t).is_ok()
}

/// `chrono::DateTime::to_rfc3339` of the moment that
/// `chrono::DateTime::from_timestamp` gives, in UTC. The text is named by
/// [`rfc3339`]: it depends on the moment alone.
#[verifier::external_body]
pub(crate) fn time_text(secs: i64, nanos: u32) -> (r: Option<String>)
    ensures
        r.deep_view() == rfc3339(secs, nanos),
{
    chrono::DateTime::from_timestamp(secs, nanos).map(|t| t.to_rfc3339())
}

} // verus!
