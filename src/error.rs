use vstd::prelude::*;

verus! {

/// Why a text could not be cut into tokens.
#[derive(Debug, Clone, Copy, PartialEq, Eq, Structural)]
pub enum LexError {
    /// A character that starts no token.
    UnexpectedCharacter(char),
    /// A run of digits and points that spells no number.
    InvalidNumber,
    /// A word that is neither a function nor a constant.
    UnknownIdentifier,
}

/// Why a token sequence is not an expression.
#[derive(Debug, Clone, Copy, PartialEq, Eq, Structural)]
pub enum ParseError {
    /// There was no token at all.
    EmptyExpression,
    /// A token stood where an operand was needed.
    UnexpectedToken,
    /// The tokens ran out where an operand was needed.
    UnexpectedEndOfInput,
    /// An opening parenthesis was not closed.
    UnmatchedParenthesis,
    /// A whole expression was read but tokens were left over.
    UnexpectedTrailingTokens,
}

/// Why an expression tree has no value.
#[derive(Debug, Clone, Copy, PartialEq, Eq, Structural)]
pub enum MathError {
    NegativeSquareRoot,
    NonPositiveLogarithm,
    InvalidFactorialOperand,
    DivisionByZero,
    ModuloByZero,
    InvalidLogarithmArguments,
    /// The expression refers to the last result, and there is none yet.
    NoLastResult,
}

/// The stage at which an evaluation failed.
#[derive(Debug, Clone, Copy, PartialEq, Eq, Structural)]
pub enum ErrorKind {
    Lexical,
    Syntactic,
    Mathematical,
}

/// Any failure of an evaluation: the first error met, at whichever stage.
#[derive(Debug, Clone, Copy, PartialEq, Eq, Structural)]
pub enum Error {
    Lexical(LexError),
    Syntactic(ParseError),
    Mathematical(MathError),
}

pub open spec fn kind_of(e: Error) -> ErrorKind {
    match e {
        Error::Lexical(_) => ErrorKind::Lexical,
        Error::Syntactic(_) => ErrorKind::Syntactic,
        Error::Mathematical(_) => ErrorKind::Mathematical,
    }
}

/// The human-readable text of an error.
pub open spec fn message_of(e: Error) -> Seq<char> {
    match e {
        Error::Lexical(LexError::UnexpectedCharacter(c)) => "Unexpected character: '"@ + seq![c]
            + "'"@,
        Error::Lexical(LexError::InvalidNumber) => "Invalid number"@,
        Error::Lexical(LexError::UnknownIdentifier) => "Unknown identifier"@,
        Error::Syntactic(ParseError::EmptyExpression) => "Empty expression"@,
        Error::Syntactic(ParseError::UnexpectedToken) => "Unexpected token"@,
        Error::Syntactic(ParseError::UnexpectedEndOfInput) => "Unexpected end of input"@,
        Error::Syntactic(ParseError::UnmatchedParenthesis) => "Unmatched parenthesis"@,
        Error::Syntactic(ParseError::UnexpectedTrailingTokens) => "Unexpected tokens after expression"@,
        Error::Mathematical(MathError::NegativeSquareRoot) => "Square root of negative number encountered"@,
        Error::Mathematical(MathError::NonPositiveLogarithm) => "Natural logarithm of non-positive number encountered"@,
        Error::Mathematical(MathError::InvalidFactorialOperand) => "Factorial is only defined for non-negative integers"@,
        Error::Mathematical(MathError::DivisionByZero) => "Division by zero encountered"@,
        Error::Mathematical(MathError::ModuloByZero) => "Modulo by zero encountered"@,
        Error::Mathematical(MathError::InvalidLogarithmArguments) => "Invalid logarithm base or argument"@,
        Error::Mathematical(MathError::NoLastResult) => "No last result available"@,
    }
}

/// Relies on `char::to_string` (through `Display` for `char`): the string
/// that holds the one character `c`.
#[verifier::external_body]
fn char_text(c: char) -> (r: String)
    ensures
        r@ == seq![c],
{
    c.to_string()
}

impl Error {
    /// The stage at which this error arose.
    pub fn kind(&self) -> (r: ErrorKind)
        ensures
            r == kind_of(*self),
    {
        match self {
            Error::Lexical(_) => ErrorKind::Lexical,
            Error::Syntactic(_) => ErrorKind::Syntactic,
            Error::Mathematical(_) => ErrorKind::Mathematical,
        }
    }

    /// The human-readable text of this error.
    pub fn message(&self) -> (r: String)
        ensures
            r@ == message_of(*self),
    {
        let text = match self {
            Error::Lexical(LexError::UnexpectedCharacter(c)) => {
                let mut quoted = String::from_str("Unexpected character: '");
                quoted.append(char_text(*c).as_str());
                quoted.append("'");
                return quoted;
            },
            Error::Lexical(LexError::InvalidNumber) => "Invalid number",
            Error::Lexical(LexError::UnknownIdentifier) => "Unknown identifier",
            Error::Syntactic(ParseError::EmptyExpression) => "Empty expression",
            Error::Syntactic(ParseError::UnexpectedToken) => "Unexpected token",
            Error::Syntactic(ParseError::UnexpectedEndOfInput) => "Unexpected end of input",
            Error::Syntactic(ParseError::UnmatchedParenthesis) => "Unmatched parenthesis",
            Error::Syntactic(ParseError::UnexpectedTrailingTokens) => "Unexpected tokens after expression",
            Error::Mathematical(MathError::NegativeSquareRoot) => "Square root of negative number encountered",
            Error::Mathematical(MathError::NonPositiveLogarithm) => "Natural logarithm of non-positive number encountered",
            Error::Mathematical(MathError::InvalidFactorialOperand) => "Factorial is only defined for non-negative integers",
            Error::Mathematical(MathError::DivisionByZero) => "Division by zero encountered",
            Error::Mathematical(MathError::ModuloByZero) => "Modulo by zero encountered",
            Error::Mathematical(MathError::InvalidLogarithmArguments) => "Invalid logarithm base or argument",
            Error::Mathematical(MathError::NoLastResult) => "No last result available",
        };
        String::from_str(text)
    }
}

} // verus!
