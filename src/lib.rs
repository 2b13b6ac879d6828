//! Lexer generator: compiles named regular-expression token specifications into one
//! flat deterministic automaton, and scans source text with it by longest match.
use vstd::prelude::*;

pub mod bitset;
pub mod lexer;
pub mod lexer_spec;
pub mod regex_parser;

verus! {

/// A token specification: an identifier and the regular expression it stands for.
pub struct TokenSpec {
    name: String,
    pattern: String,
}

impl TokenSpec {
    /// Creates a new token specification.
    pub fn new(name: String, pattern: String) -> (r: Self)
        ensures
            r.spec_name() == name@,
            r.spec_pattern() == pattern@,
    {
        Self { name, pattern }
    }

    /// The regular expression of the specification.
    pub fn pattern(&self) -> (r: &str)
        ensures
            r@ == self.spec_pattern(),
    {
        self.pattern.as_str()
    }

    /// The identifier of the specification.
    pub fn name(&self) -> (r: &str)
        ensures
            r@ == self.spec_name(),
    {
        self.name.as_str()
    }

    pub closed spec fn spec_name(&self) -> Seq<char> {
        self.name@
    }

    pub closed spec fn spec_pattern(&self) -> Seq<char> {
        self.pattern@
    }
}

} // verus!
