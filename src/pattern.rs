//! Compiled search patterns. A `CompiledPattern` is made only by
//! `compile_pattern`, which records the pattern and case flag it was built
//! from; whether it matches a text is then a function of those three.
use vstd::prelude::*;
use grep::matcher::Matcher;
use grep::regex::{RegexMatcher, RegexMatcherBuilder};

verus! {

#[verifier::external_type_specification]
#[verifier::external_body]
pub struct ExRegexMatcher(RegexMatcher);

/// Whether `RegexMatcherBuilder::build` accepts a pattern, with case folding
/// on or off.
pub uninterp spec fn pattern_compiles(expr: Seq<char>, case_insensitive: bool) -> bool;

/// Whether the pattern, compiled with that case flag, matches somewhere in
/// the text (`Matcher::is_match`).
pub uninterp spec fn pattern_hits(expr: Seq<char>, case_insensitive: bool, text: Seq<char>) -> bool;

/// A matcher together with the pattern and case flag it was compiled from.
pub struct CompiledPattern {
    matcher: RegexMatcher,
    expr: Ghost<Seq<char>>,
    case_insensitive: Ghost<bool>,
}

impl CompiledPattern {
    pub closed spec fn expr(&self) -> Seq<char> {
        self.expr@
    }

    pub closed spec fn case_insensitive(&self) -> bool {
        self.case_insensitive@
    }
}

/// Relies on `RegexMatcherBuilder::build` after `case_insensitive`: it
/// fails exactly on the patterns that do not compile under that flag.
#[verifier::external_body]
pub fn compile_pattern(expr: &str, case_insensitive: bool) -> (r: Option<CompiledPattern>)
    ensures
        r is Some <==> pattern_compiles(expr@, case_insensitive),
        r is Some ==> r->Some_0.expr() == expr@ && r->Some_0.case_insensitive() == case_insensitive,
{
    match RegexMatcherBuilder::new().case_insensitive(case_insensitive).build(expr) {
        Ok(matcher) => Some(
            CompiledPattern { matcher, expr: Ghost(expr@), case_insensitive: Ghost(case_insensitive) },
        ),
        Err(_) => None,
    }
}

/// Relies on `Matcher::is_match` of `RegexMatcher`, whose error type is
/// `NoError`: whether the compiled pattern matches somewhere in the text.
#[verifier::external_body]
pub fn pattern_is_match(p: &CompiledPattern, text: &str) -> (r: bool)
    ensures
        r == pattern_hits(p.expr(), p.case_insensitive(), text@),
{
    p.matcher.is_match(text.as_bytes()).unwrap_or(false)
}

} // verus!
