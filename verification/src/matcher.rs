//! The path matcher: wraps one compiled filter pattern and decides whether a
//! discovered file path is eligible for parsing. The regex engine is an
//! outside library; with default options everything it decides — whether a
//! pattern compiles, whether it matches a text, and whether the engine gives
//! up on a text — is a function of the pattern and the text alone, so each
//! outcome is named by a spec function and everything downstream is proved
//! against those names.

use vstd::prelude::*;

verus! {

/// Whether the engine accepts `pattern` as a valid regex; compilation with
/// default options depends on the pattern alone.
pub uninterp spec fn regex_compiles(pattern: Seq<char>) -> bool;

/// What the filter decides for a pattern and a text: whether the compiled
/// pattern matches anywhere in the text.
pub uninterp spec fn regex_match(pattern: Seq<char>, text: Seq<char>) -> bool;

/// Whether the engine gives up on this pattern and text — its backtracking
/// limit, fixed under default options, is exceeded — instead of answering.
pub uninterp spec fn regex_gives_up(pattern: Seq<char>, text: Seq<char>) -> bool;

#[verifier::external_type_specification]
#[verifier::external_body]
/// The compiled regex of the outside engine, opaque to the library.
pub struct ExRegex(fancy_regex::Regex);

#[verifier::external_type_specification]
#[verifier::external_body]
/// The outside engine's error, opaque to the library.
pub struct ExRegexError(fancy_regex::Error);

/// The filter pattern does not compile: a fatal configuration error raised
/// before any crawling begins.
#[derive(Debug, Clone, Copy, PartialEq, Eq, Structural)]
pub struct PatternError;

/// The regex engine gave up while testing a path.
#[derive(Debug, Clone, Copy, PartialEq, Eq, Structural)]
pub struct MatchError;

/// One filter pattern, compiled once at configuration time and shared
/// read-only afterwards.
pub struct PathMatcher {
    pattern: String,
    re: fancy_regex::Regex,
}

/// Relies on fancy_regex::Regex::new: compiles the pattern with default
/// options. Whether a pattern compiles depends on the pattern alone, so the
/// outcome is named by [`regex_compiles`]; `Err` exactly when the pattern
/// is not a valid regex.
#[verifier::external_body]
fn compile_regex(pattern: &str) -> (r: Result<fancy_regex::Regex, fancy_regex::Error>)
    ensures
        r is Ok <==> regex_compiles(pattern@),
{
    fancy_regex::Regex::new(pattern)
}

impl PathMatcher {
    /// The pattern this matcher was compiled from.
    pub closed spec fn pattern_view(&self) -> Seq<char> {
        self.pattern@
    }

    /// Compiles the filter pattern; succeeds exactly when the pattern is a
    /// valid regex, so a non-compiling pattern is rejected here, before any
    /// crawling begins.
    pub fn new(pattern: &str) -> (r: Result<PathMatcher, PatternError>)
        ensures
            r is Ok <==> regex_compiles(pattern@),
            r matches Ok(m) ==> m.pattern_view() == pattern@,
    {
        match compile_regex(pattern) {
            Ok(re) => Ok(PathMatcher { pattern: pattern.to_owned(), re }),
            Err(_) => Err(PatternError),
        }
    }

    /// Relies on fancy_regex::Regex::is_match: whether the compiled pattern
    /// matches anywhere in `text`. Under default options the result — the
    /// error side included, which is the fixed backtracking limit being
    /// exceeded — is a function of the pattern the regex was compiled from,
    /// held next to it in this struct, and the text; the two outcomes are
    /// named by [`regex_match`] and [`regex_gives_up`].
    #[verifier::external_body]
    fn is_match_raw(&self, text: &str) -> (r: Result<bool, MatchError>)
        ensures
            r matches Ok(b) ==> b == regex_match(self.pattern_view(), text@),
            r is Err <==> regex_gives_up(self.pattern_view(), text@),
    {
        match self.re.is_match(text) {
            Ok(b) => Ok(b),
            Err(_) => Err(MatchError),
        }
    }

    /// Whether the path is eligible for parsing: the filter pattern matches
    /// it. No side effects; `Err` exactly when the regex engine gives up on
    /// this path at run time, which aborts the run.
    pub fn matches(&self, path: &str) -> (r: Result<bool, MatchError>)
        ensures
            r matches Ok(b) ==> b == regex_match(self.pattern_view(), path@),
            r is Err <==> regex_gives_up(self.pattern_view(), path@),
    {
        self.is_match_raw(path)
    }
}

} // verus!
