//! Error values of the compiler stages.

use vstd::prelude::*;

verus! {

/// Why the tokeniser gave up on an input.
#[derive(Debug, PartialEq)]
pub enum TokenizeError {
    /// A character of which no operator can be made. The tokeniser does not
    /// return it: it reports a character that begins no token as
    /// `InvalidSyntax`.
    InvalidOperator(char),
    /// A run of digits whose value does not fit the integer range.
    InvalidNumber(String),
    /// A character outside the language's alphabet; carries the whole input.
    InvalidSyntax(String),
}

/// A [`TokenizeError`] with its texts as character sequences.
pub enum TokenizeFault {
    InvalidOperator(char),
    InvalidNumber(Seq<char>),
    InvalidSyntax(Seq<char>),
}

impl View for TokenizeError {
    type V = TokenizeFault;

    open spec fn view(&self) -> TokenizeFault {
        match *self {
            TokenizeError::InvalidOperator(c) => TokenizeFault::InvalidOperator(c),
            TokenizeError::InvalidNumber(s) => TokenizeFault::InvalidNumber(s@),
            TokenizeError::InvalidSyntax(s) => TokenizeFault::InvalidSyntax(s@),
        }
    }
}

/// The result of a step of the tokeniser.
pub type TokenizeResult<T, E = TokenizeError> = Result<T, E>;

/// Why the parser gave up on a token queue.
#[derive(Debug, PartialEq)]
pub enum ParseError {
    /// A statement does not end in `;`.
    MissingSemicolon,
    /// An opening parenthesis is not closed.
    MissingCloseParen,
    /// A token stands where it cannot: an operator or punctuation mark in
    /// the place of an operand. Carries the text of the token.
    UnexpectedToken(String),
    /// The tokens end where an operand must stand.
    UnexpectedEnd,
    /// The offset of one more local variable would not fit 64 bits.
    TooManyVariables,
}

/// A [`ParseError`] with its texts as character sequences.
pub enum ParseFault {
    MissingSemicolon,
    MissingCloseParen,
    UnexpectedToken(Seq<char>),
    UnexpectedEnd,
    TooManyVariables,
}

impl View for ParseError {
    type V = ParseFault;

    open spec fn view(&self) -> ParseFault {
        match *self {
            ParseError::MissingSemicolon => ParseFault::MissingSemicolon,
            ParseError::MissingCloseParen => ParseFault::MissingCloseParen,
            ParseError::UnexpectedToken(s) => ParseFault::UnexpectedToken(s@),
            ParseError::UnexpectedEnd => ParseFault::UnexpectedEnd,
            ParseError::TooManyVariables => ParseFault::TooManyVariables,
        }
    }
}

/// Why the code generator gave up on a tree.
#[derive(Debug, PartialEq, Eq, Clone, Copy)]
pub enum CodegenError {
    /// The target of an assignment is not a local variable.
    NotAnLvalue,
    /// An assignment lacks its target or its value.
    MissingOperand,
}

/// Why no assembly came of a command line.
#[derive(Debug, PartialEq)]
pub enum CompileError {
    /// The command line does not hold exactly one argument after the
    /// program's name.
    WrongArgumentCount,
    Tokenize(TokenizeError),
    Parse(ParseError),
    Codegen(CodegenError),
}

/// A [`CompileError`] with its texts as character sequences.
pub enum CompileFault {
    WrongArgumentCount,
    Tokenize(TokenizeFault),
    Parse(ParseFault),
    Codegen(CodegenError),
}

impl View for CompileError {
    type V = CompileFault;

    open spec fn view(&self) -> CompileFault {
        match *self {
            CompileError::WrongArgumentCount => CompileFault::WrongArgumentCount,
            CompileError::Tokenize(e) => CompileFault::Tokenize(e@),
            CompileError::Parse(e) => CompileFault::Parse(e@),
            CompileError::Codegen(e) => CompileFault::Codegen(e),
        }
    }
}

} // verus!
