//! Regular expressions, through the `regex` crate.
use vstd::prelude::*;

verus! {

#[verifier::external_type_specification]
#[verifier::external_body]
pub struct ExRegex(regex::Regex);

/// Whether `regex::Regex::new` accepts `pattern`.
pub uninterp spec fn regex_compiles(pattern: Seq<char>) -> bool;

/// What `regex::Regex::captures` finds for `pattern` in `haystack`: `None`
/// when there is no match, else the text of each capture group (group 0 being
/// the whole match), `None` for a group that took no part in the match.
pub uninterp spec fn regex_captures(pattern: Seq<char>, haystack: Seq<char>) -> Option<
    Seq<Option<Seq<char>>>,
>;

/// A compiled regular expression together with the pattern it came from.
pub struct Pattern {
    re: regex::Regex,
    source: Ghost<Seq<char>>,
}

impl View for Pattern {
    type V = Seq<char>;

    closed spec fn view(&self) -> Seq<char> {
        self.source@
    }
}

impl Pattern {
    /// `regex::Regex::new`: compiles `pattern`, or gives `None` where the
    /// crate reports an error. Which patterns it accepts is named, not stated.
    #[verifier::external_body]
    pub(crate) fn compile(pattern: &str) -> (r: Option<Pattern>)
        ensures
            r is Some <==> regex_compiles(pattern@),
            r matches Some(p) ==> p@ == pattern@,
    {
        match regex::Regex::new(pattern) {
            Ok(re) => Some(Pattern { re, source: Ghost(pattern@) }),
            Err(_) => None,
        }
    }

    /// `regex::Regex::captures`: the first match of the pattern in `haystack`,
    /// as the text of each capture group. The result is named, not stated.
    #[verifier::external_body]
    pub(crate) fn captures(&self, haystack: &str) -> (r: Option<Vec<Option<String>>>)
        ensures
            r.deep_view() == regex_captures(self@, haystack@),
    {
        self.re.captures(haystack).map(
            |c| c.iter().map(|m| m.map(|m| m.as_str().to_string())).collect(),
        )
    }
}

} // verus!
