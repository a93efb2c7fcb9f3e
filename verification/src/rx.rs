//! The boundary to the regex crate: compiled patterns, kept together with the
//! text they were compiled from, and a single match predicate over that text.

use vstd::prelude::*;

verus! {

/// The regex crate's compiled-pattern type, declared so that a value of it can
/// sit in a field. Verus sees nothing inside such a value.
#[verifier::external_type_specification]
#[verifier::external_body]
pub struct ExRegex(regex::Regex);

/// Whether the pattern, compiled as the regex crate compiles it, matches
/// anywhere in the line. `regex::Regex::is_match` searches the haystack with
/// the compiled pattern and nothing else, so its answer is a function of the
/// pattern text and the line text alone.
pub uninterp spec fn regex_matches(pattern: Seq<char>, line: Seq<char>) -> bool;

/// Whether the regex crate accepts the pattern: `regex::Regex::new` compiles
/// it without error. It fails only on an invalid or oversized pattern, so
/// acceptance is a function of the pattern text alone.
pub uninterp spec fn regex_compiles(pattern: Seq<char>) -> bool;

/// Why a pattern was rejected: the message the regex crate gave for it.
#[derive(Debug)]
pub struct RegexError {
    pub message: String,
}

/// A compiled pattern that remembers the text it was compiled from. All
/// contracts about matching speak of that text through [`regex_matches`].
pub struct LineRegex {
    re: regex::Regex,
    pattern_text: String,
}

impl LineRegex {
    /// The pattern text this value was compiled from.
    pub closed spec fn pattern(&self) -> Seq<char> {
        self.pattern_text@
    }

    /// Relies on `regex::Regex::new`: it compiles the pattern, succeeding
    /// exactly when the pattern text is acceptable to the regex crate; the
    /// error is rendered to its display text here.
    #[verifier::external_body]
    fn compile_raw(pattern: &str) -> (r: Result<LineRegex, String>)
        ensures
            r is Ok <==> regex_compiles(pattern@),
            r is Ok ==> r->Ok_0.pattern() == pattern@,
    {
        match regex::Regex::new(pattern) {
            Ok(re) => Ok(LineRegex { re, pattern_text: pattern.to_string() }),
            Err(e) => Err(format!("{}", e)),
        }
    }

    /// Compile a pattern. This succeeds exactly when the regex crate accepts
    /// the pattern text, and on success the result remembers exactly the
    /// pattern text it was given.
    pub fn new(pattern: &str) -> (r: Result<LineRegex, RegexError>)
        ensures
            r is Ok <==> regex_compiles(pattern@),
            r is Ok ==> r->Ok_0.pattern() == pattern@,
    {
        match Self::compile_raw(pattern) {
            Ok(re) => Ok(re),
            Err(message) => Err(RegexError { message }),
        }
    }

    /// Relies on `regex::Regex::is_match`: true if and only if the compiled
    /// pattern matches anywhere in the line.
    #[verifier::external_body]
    pub(crate) fn is_match(&self, line: &str) -> (r: bool)
        ensures
            r == regex_matches(self.pattern(), line@),
    {
        self.re.is_match(line)
    }
}

} // verus!
