//! Why parsing filter rules can fail.

use vstd::prelude::*;

verus! {

#[verifier::external_type_specification]
#[verifier::external_body]
pub struct ExGlobError(globset::Error);

#[verifier::external_type_specification]
#[verifier::external_body]
pub struct ExIoError(std::io::Error);

/// A failure to parse or load filter rules.
#[derive(Debug)]
pub enum ParseError {
    /// A line that is no rule; it holds the line.
    InvalidRule(String),
    /// A pattern that globset refused.
    Glob(globset::Error),
    /// A file that is already being read higher up.
    RecursiveInclude(String),
    /// Rule files nested too deeply.
    RecursionLimit,
    /// A brace pattern with too many expansions.
    TooManyExpansions,
    /// A file that could not be read.
    Io(std::io::Error),
}

/// A parse failure as a plain value: which failure, and the text it names.
pub enum ErrV {
    InvalidRule(Seq<char>),
    Glob,
    RecursiveInclude(Seq<char>),
    RecursionLimit,
    TooManyExpansions,
    Io,
}

impl View for ParseError {
    type V = ErrV;

    open spec fn view(&self) -> ErrV {
        match self {
            ParseError::InvalidRule(s) => ErrV::InvalidRule(s@),
            ParseError::Glob(_) => ErrV::Glob,
            ParseError::RecursiveInclude(s) => ErrV::RecursiveInclude(s@),
            ParseError::RecursionLimit => ErrV::RecursionLimit,
            ParseError::TooManyExpansions => ErrV::TooManyExpansions,
            ParseError::Io(_) => ErrV::Io,
        }
    }
}

} // verus!
