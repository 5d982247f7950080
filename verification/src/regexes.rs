//! Compiled regular expressions for hostname predicates, backed by the
//! regex crate.  Contracts speak of the pattern text through two named
//! results, since both compilation success and matching are functions of
//! the texts alone.

use vstd::prelude::*;

verus! {

#[verifier::external_type_specification]
#[verifier::external_body]
pub struct ExRegex(regex::Regex);

/// Whether the regex crate accepts `pattern` as a valid pattern.
pub uninterp spec fn regex_ok(pattern: Seq<char>) -> bool;

/// Whether the regex compiled from `pattern` matches somewhere in `text`.
pub uninterp spec fn regex_match(pattern: Seq<char>, text: Seq<char>) -> bool;

/// A compiled regex paired with the pattern it was compiled from; all
/// contracts speak of the pattern text.
pub struct CompiledRegex {
    pattern: String,
    re: regex::Regex,
}

impl CompiledRegex {
    /// The pattern this regex was compiled from.
    pub closed spec fn pattern_view(&self) -> Seq<char> {
        self.pattern@
    }

    /// Relies on regex::Regex::new: whether a pattern compiles depends on
    /// the pattern text alone.
    #[verifier::external_body]
    pub fn compile(pattern: &str) -> (r: Option<CompiledRegex>)
        ensures
            r is Some <==> regex_ok(pattern@),
            r is Some ==> r->0.pattern_view() == pattern@,
    {
        match regex::Regex::new(pattern) {
            Ok(re) => Some(CompiledRegex { pattern: pattern.to_owned(), re }),
            Err(_) => None,
        }
    }

    /// Relies on regex::Regex::is_match: whether a compiled regex matches a
    /// haystack depends on the pattern and haystack texts alone.
    #[verifier::external_body]
    pub fn is_match(&self, text: &str) -> (r: bool)
        ensures
            r == regex_match(self.pattern_view(), text@),
    {
        self.re.is_match(text)
    }

    /// The stored pattern text.
    pub fn pattern(&self) -> (r: &str)
        ensures
            r@ == self.pattern_view(),
    {
        self.pattern.as_str()
    }
}

} // verus!
