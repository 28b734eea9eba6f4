//! Regular expressions, through the `regex` crate.
use vstd::prelude::*;
use regex::Regex;

verus! {

/// `regex::Regex`, carried through opaquely.
#[verifier::external_type_specification]
#[verifier::external_body]
pub struct ExRegex(Regex);

/// Whether `regex::Regex::new` accepts `pattern`: it refuses an invalid
/// pattern and one whose compiled form exceeds the default size limit.
pub uninterp spec fn regex_compiles(pattern: Seq<char>) -> bool;

/// The text of the first match (leftmost, as `regex::Regex::find` reports
/// it) of `pattern` in `haystack`, if there is one.
pub uninterp spec fn regex_first_match(pattern: Seq<char>, haystack: Seq<char>) -> Option<Seq<char>>;

/// A compiled regular expression together with the pattern it was compiled
/// from. Only `compile` makes one, so the two always belong together.
pub struct Matcher {
    pattern: String,
    re: Regex,
}

impl Matcher {
    /// The pattern this matcher was compiled from.
    pub closed spec fn pattern(&self) -> Seq<char> {
        self.pattern@
    }
}

/// Calls `regex::Regex::new` on `pattern`. Claims: the result is present
/// exactly where the crate accepts the pattern, and it remembers `pattern`.
#[verifier::external_body]
pub(crate) fn compile(pattern: &str) -> (r: Option<Matcher>)
    ensures
        r is Some <==> regex_compiles(pattern@),
        r matches Some(m) ==> m.pattern() == pattern@,
{
    match Regex::new(pattern) {
        Ok(re) => Some(Matcher { pattern: pattern.to_string(), re }),
        Err(_) => None,
    }
}

/// Calls `regex::Regex::find` on `haystack` and takes the matched text with
/// `regex::Match::as_str`. Claims: the result is the named first match of the
/// matcher's pattern in `haystack`, and matched text is a piece of `haystack`
/// (the crate documents `as_str` as the substring of the haystack that matched).
#[verifier::external_body]
pub(crate) fn first_match(m: &Matcher, haystack: &str) -> (r: Option<String>)
    ensures
        match r {
            Some(t) => regex_first_match(m.pattern(), haystack@) == Some(t@)
                && crate::text::contains(haystack@, t@),
            None => regex_first_match(m.pattern(), haystack@) is None,
        },
{
    m.re.find(haystack).map(|found| found.as_str().to_string())
}

} // verus!
