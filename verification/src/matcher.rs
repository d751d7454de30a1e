//! Name-pattern matching, backed by the `regex` crate.
//!
//! The library treats a compiled regular expression as opaque: whether a
//! pattern compiles is `pattern_ok(pattern)`, and whether it matches a
//! string is `regex_match(pattern, text)`. Both are names for results of
//! the `regex` crate, which depend on the pattern and the text alone.

use vstd::prelude::*;

verus! {

/// Whether `regex` accepts `pattern` as a regular expression (syntax and
/// default size limit). Depends on the pattern alone.
pub uninterp spec fn pattern_ok(pattern: Seq<char>) -> bool;

/// Whether the regular expression `pattern` matches anywhere in `text`.
/// Depends on the pattern and the text alone.
pub uninterp spec fn regex_match(pattern: Seq<char>, text: Seq<char>) -> bool;

#[verifier::external_type_specification]
#[verifier::external_body]
pub struct ExRegex(regex::Regex);

#[verifier::external_type_specification]
#[verifier::external_body]
pub struct ExRegexError(regex::Error);

/// A compiled name pattern: a `regex::Regex` together with the pattern
/// text it was compiled from. The fields are private: every `Matcher`
/// comes from `compile`, so the two fields agree.
pub struct Matcher {
    re: regex::Regex,
    pattern: String,
}

impl Matcher {
    /// The pattern this matcher was compiled from.
    pub closed spec fn pattern(self) -> Seq<char> {
        self.pattern@
    }
}

/// Relies on `regex::Regex::new`: compiling succeeds exactly when the
/// pattern is a valid regular expression (within the default size limit),
/// which depends on the pattern alone.
#[verifier::external_body]
pub(crate) fn compile(pattern: &str) -> (r: Result<Matcher, regex::Error>)
    ensures
        r is Ok <==> pattern_ok(pattern@),
        r matches Ok(m) ==> m.pattern() == pattern@,
{
    match regex::Regex::new(pattern) {
        Ok(re) => Ok(Matcher { re, pattern: pattern.to_string() }),
        Err(e) => Err(e),
    }
}

/// Relies on `regex::Regex::is_match`: whether the compiled pattern
/// matches anywhere in `text`, a function of the pattern and the text
/// alone.
#[verifier::external_body]
pub(crate) fn is_match(m: &Matcher, text: &str) -> (r: bool)
    ensures
        r == regex_match(m.pattern(), text@),
{
    m.re.is_match(text)
}

} // verus!
