//! Text-to-tree front end of an arithmetic calculator: a lexer, a
//! precedence-climbing parser, the error taxonomy shared with the evaluator,
//! the session's last-result slot, and the integer factorial that the
//! evaluator relies on.
pub mod error;
pub mod factorial;
pub mod lexer;
pub mod log;
pub mod parser;
pub mod session;
pub mod laws;

pub use error::{Error, ErrorKind, LexError, MathError, ParseError};
pub use factorial::factorial;
pub use lexer::{Lexer, Token};
pub use log::Level;
pub use parser::{BinaryOperator, Constant, Expr, Operation, Parser, UnaryOperator, Value};
pub use session::Session;
