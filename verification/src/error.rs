//! Errors that may happen during inlining.
use vstd::prelude::*;
use crate::css::{SpecSyntaxError, SyntaxError};
use crate::text::push_str;

verus! {

#[verifier::external_type_specification]
#[verifier::external_body]
pub struct ExIoError(std::io::Error);

/// Inlining error.
#[derive(Debug)]
pub enum InlineError {
    /// Missing stylesheet file.
    MissingStyleSheet {
        /// Path to the missing file.
        path: String,
    },
    /// Input-output error, such as a stylesheet that cannot be retrieved.
    IO(std::io::Error),
    /// Syntax errors or unsupported selectors.
    ParseError(String),
}

/// The message of a syntax error.
pub open spec fn syntax_error_message(e: SpecSyntaxError) -> Seq<char> {
    match e {
        SpecSyntaxError::UnexpectedToken(t) => "Unexpected token: "@ + t,
        SpecSyntaxError::EndOfInput => "End of input"@,
        SpecSyntaxError::AtRuleInvalid(name) => "Invalid @ rule: "@ + name,
        SpecSyntaxError::QualifiedRuleInvalid => "Invalid qualified rule"@,
    }
}

/// The message of a syntax error.
pub fn syntax_error_text(e: &SyntaxError) -> (r: String)
    ensures
        r@ == syntax_error_message(e@),
{
    let mut out = String::new();
    match e {
        SyntaxError::UnexpectedToken(t) => {
            push_str(&mut out, "Unexpected token: ");
            push_str(&mut out, t.as_str());
        },
        SyntaxError::EndOfInput => {
            push_str(&mut out, "End of input");
        },
        SyntaxError::AtRuleInvalid(name) => {
            push_str(&mut out, "Invalid @ rule: ");
            push_str(&mut out, name.as_str());
        },
        SyntaxError::QualifiedRuleInvalid => {
            push_str(&mut out, "Invalid qualified rule");
        },
    }
    assert(out@ =~= syntax_error_message(e@));
    out
}

/// The inlining error for a syntax error.
pub fn from_syntax_error(e: &SyntaxError) -> (r: InlineError)
    ensures
        r matches InlineError::ParseError(m) && m@ == syntax_error_message(e@),
{
    InlineError::ParseError(syntax_error_text(e))
}

/// The message of an input-output error, as its `Display` writes it.
#[verifier::external_body]
fn io_error_text(e: &std::io::Error) -> String {
    e.to_string()
}

impl InlineError {
    /// The underlying input-output error, for an input-output error.
    pub fn source(&self) -> (r: Option<&std::io::Error>)
        ensures
            r is Some <==> self is IO,
    {
        match self {
            InlineError::IO(e) => Some(e),
            _ => None,
        }
    }

    /// The message of the error: the message of an input-output error, the message of a
    /// syntax error, or `Missing stylesheet file: ` and the path.
    pub fn to_string(&self) -> (r: String)
        ensures
            match self {
                InlineError::ParseError(m) => r@ == m@,
                InlineError::MissingStyleSheet { path } => r@ == "Missing stylesheet file: "@
                    + path@,
                InlineError::IO(_) => true,
            },
    {
        match self {
            InlineError::IO(e) => io_error_text(e),
            InlineError::ParseError(m) => m.clone(),
            InlineError::MissingStyleSheet { path } => {
                let mut out = String::new();
                push_str(&mut out, "Missing stylesheet file: ");
                push_str(&mut out, path.as_str());
                out
            },
        }
    }
}

} // verus!
