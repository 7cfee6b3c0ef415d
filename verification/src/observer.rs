//! Name patterns that select which entity properties an observer hears of.
use vstd::prelude::*;
use crate::text::text_eq;

verus! {

#[verifier::external_type_specification]
#[verifier::external_body]
pub struct ExRegex(regex::Regex);

#[verifier::external_type_specification]
#[verifier::external_body]
pub struct ExRegexError(regex::Error);

/// Whether `regex::Regex::new` accepts a pattern.
pub uninterp spec fn regex_compiles(pattern: Seq<char>) -> bool;

/// Whether the regular expression `pattern` matches somewhere in `value`:
/// the answer of `regex::Regex::is_match` for the regex compiled from
/// `pattern`.
pub uninterp spec fn regex_matches(pattern: Seq<char>, value: Seq<char>) -> bool;

/// A compiled regular expression, with the pattern it was compiled from.
pub struct CompiledRegex {
    regex: regex::Regex,
    pattern: Ghost<Seq<char>>,
}

impl CompiledRegex {
    /// The pattern the regular expression was compiled from.
    pub closed spec fn pattern(&self) -> Seq<char> {
        self.pattern@
    }
}

/// Calls `regex::Regex::new`. Whether it succeeds depends on the pattern
/// alone, so that is named; the compiled regex keeps the pattern.
#[verifier::external_body]
fn regex_compile(pattern: &str) -> (r: Result<CompiledRegex, regex::Error>)
    ensures
        r is Ok <==> regex_compiles(pattern@),
        r matches Ok(c) ==> c.pattern() == pattern@,
{
    match regex::Regex::new(pattern) {
        Ok(regex) => Ok(CompiledRegex { regex, pattern: Ghost(pattern@) }),
        Err(e) => Err(e),
    }
}

/// Calls `regex::Regex::is_match` on the regex compiled from a pattern. Its
/// answer depends on the pattern and the value alone, so it is named.
#[verifier::external_body]
fn regex_is_match(regex: &CompiledRegex, value: &str) -> (r: bool)
    ensures
        r == regex_matches(regex.pattern(), value@),
{
    regex.regex.is_match(value)
}

/// How a name pattern is read.
pub enum PatternKind {
    /// The name must equal the pattern.
    Exact,
    /// The name must match the pattern as a regular expression.
    Regex,
}

/// A compiled name pattern.
pub enum Matcher {
    /// Every name matches.
    Any,
    /// Only this name matches.
    Exact(String),
    /// Names that the regular expression matches.
    Regex(CompiledRegex),
}

/// Whether a pattern can be compiled: a regular expression pattern must be
/// `.*` or one that the regex engine accepts.
pub open spec fn pattern_compiles(pattern: Option<(Seq<char>, PatternKind)>) -> bool {
    match pattern {
        Some((p, PatternKind::Regex)) => p == ".*"@ || regex_compiles(p),
        _ => true,
    }
}

/// The view of an optional pattern.
pub open spec fn pattern_view(pattern: Option<(&str, PatternKind)>) -> Option<(Seq<char>, PatternKind)> {
    match pattern {
        Some((p, k)) => Some((p@, k)),
        None => None,
    }
}

impl Matcher {
    /// What a matcher compiled from `pattern` is: any name for no pattern
    /// or the regex `.*`, the exact name, or a regular expression.
    pub open spec fn compiled_from(self, pattern: Option<(Seq<char>, PatternKind)>) -> bool {
        match pattern {
            None => self is Any,
            Some((p, PatternKind::Exact)) => self matches Matcher::Exact(e) && e@ == p,
            Some((p, PatternKind::Regex)) => if p == ".*"@ {
                self is Any
            } else {
                self matches Matcher::Regex(c) && c.pattern() == p
            },
        }
    }

    /// Compiles a pattern.
    pub fn new(pattern: Option<(&str, PatternKind)>) -> (m: Self)
        requires
            pattern_compiles(pattern_view(pattern)),
        ensures
            m.compiled_from(pattern_view(pattern)),
    {
        match pattern {
            None => Matcher::Any,
            Some((p, PatternKind::Exact)) => Matcher::Exact(p.to_owned()),
            Some((p, PatternKind::Regex)) => {
                if text_eq(p, ".*") {
                    Matcher::Any
                } else {
                    match regex_compile(p) {
                        Ok(re) => Matcher::Regex(re),
                        Err(_) => Matcher::Any,
                    }
                }
            },
        }
    }

    /// Compiles a pattern, or gives `None` when a regular expression
    /// pattern does not compile.
    pub fn try_new(pattern: Option<(&str, PatternKind)>) -> (m: Option<Self>)
        ensures
            match m {
                Some(x) => pattern_compiles(pattern_view(pattern)) && x.compiled_from(pattern_view(pattern)),
                None => !pattern_compiles(pattern_view(pattern)),
            },
    {
        let ok = match &pattern {
            Some((p, PatternKind::Regex)) => text_eq(p, ".*") || regex_compile(p).is_ok(),
            _ => true,
        };
        if ok {
            Some(Matcher::new(pattern))
        } else {
            None
        }
    }

    /// Whether a name matches: every name for `Any`, the same name for
    /// `Exact`, and for `Regex` the names its pattern matches.
    pub fn matches(&self, value: &str) -> (r: bool)
        ensures
            *self is Any ==> r,
            self matches Matcher::Exact(e) ==> r == (e@ == value@),
            self matches Matcher::Regex(c) ==> r == regex_matches(c.pattern(), value@),
    {
        match self {
            Matcher::Any => true,
            Matcher::Exact(expected) => text_eq(expected.as_str(), value),
            Matcher::Regex(regex) => regex_is_match(regex, value),
        }
    }
}

} // verus!
