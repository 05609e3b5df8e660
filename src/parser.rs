use std::collections::VecDeque;

use vstd::prelude::*;

use crate::error::{Error, ParseError};
use crate::lexer::{lex_error, lexes, Lexer, Token};

verus! {

/// A named mathematical constant.
#[derive(Debug, Clone, Copy, PartialEq, Eq, Structural)]
pub enum Constant {
    Pi,
    E,
}

/// An operator with one operand.
#[derive(Debug, Clone, Copy, PartialEq, Eq, Structural)]
pub enum UnaryOperator {
    Factorial,
    SquareRoot,
    Sin,
    Cos,
    Tan,
    Ln,
    Floor,
    Ceil,
    Abs,
    Round,
    Negate,
}

/// An operator with two operands.
#[derive(Debug, Clone, Copy, PartialEq, Eq, Structural)]
pub enum BinaryOperator {
    Add,
    Subtract,
    Multiply,
    Divide,
    Power,
    Modulo,
    /// `left log right` is the logarithm of `left` to the base `right`.
    Log,
}

/// A leaf of the expression tree.
#[derive(Debug, Clone, PartialEq)]
pub enum Value {
    /// A numeric literal, as it was spelled.
    Number(String),
    Constant(Constant),
    /// The value of the previous successful evaluation.
    LastResult,
}

/// An inner node of the expression tree; it owns its operands.
#[derive(Debug, PartialEq)]
pub enum Operation {
    Unary { operation: UnaryOperator, operand: Box<Expr> },
    Binary { left: Box<Expr>, operation: BinaryOperator, right: Box<Expr> },
}

/// An expression tree.
#[derive(Debug, PartialEq)]
pub enum Expr {
    Operation(Operation),
    Value(Value),
}

/// Binding strength of the unary operators, above every infix operator.
pub const UNARY_PRECEDENCE: u8 = 4;

pub open spec fn unary(operation: UnaryOperator, operand: Expr) -> Expr {
    Expr::Operation(Operation::Unary { operation, operand: Box::new(operand) })
}

pub open spec fn binary(operation: BinaryOperator, left: Expr, right: Expr) -> Expr {
    Expr::Operation(Operation::Binary { left: Box::new(left), operation, right: Box::new(right) })
}

pub open spec fn last_result() -> Expr {
    Expr::Value(Value::LastResult)
}

/// The infix operator of a token, with its precedence: `+ -` bind weakest,
/// then `* / %`, then `^` and `log`.
pub open spec fn infix(t: Token) -> Option<(BinaryOperator, u8)> {
    match t {
        Token::Plus => Some((BinaryOperator::Add, 1u8)),
        Token::Minus => Some((BinaryOperator::Subtract, 1u8)),
        Token::Multiply => Some((BinaryOperator::Multiply, 2u8)),
        Token::Divide => Some((BinaryOperator::Divide, 2u8)),
        Token::Modulo => Some((BinaryOperator::Modulo, 2u8)),
        Token::Power => Some((BinaryOperator::Power, 3u8)),
        Token::Log => Some((BinaryOperator::Log, 3u8)),
        _ => None,
    }
}

/// Whether `t` is an infix operator of precedence above `min`.
pub open spec fn binds_above(t: Token, min: u8) -> bool {
    match infix(t) {
        Some((_, prec)) => prec > min,
        None => false,
    }
}

/// The prefix function of a token.
pub open spec fn prefix_function(t: Token) -> Option<UnaryOperator> {
    match t {
        Token::Sqrt => Some(UnaryOperator::SquareRoot),
        Token::Sin => Some(UnaryOperator::Sin),
        Token::Cos => Some(UnaryOperator::Cos),
        Token::Tan => Some(UnaryOperator::Tan),
        Token::Ln => Some(UnaryOperator::Ln),
        Token::Floor => Some(UnaryOperator::Floor),
        Token::Ceil => Some(UnaryOperator::Ceil),
        Token::Abs => Some(UnaryOperator::Abs),
        Token::Round => Some(UnaryOperator::Round),
        _ => None,
    }
}

/// A parse of a prefix of `ts`: the tree, and the tokens after it.
pub type Parsed = Result<(Expr, Seq<Token>), ParseError>;

/// Wraps `e` in one factorial for each `!` that follows it.
pub open spec fn postfix(e: Expr, ts: Seq<Token>) -> (Expr, Seq<Token>)
    decreases ts.len(),
{
    if ts.len() > 0 && ts[0] == Token::Factorial {
        postfix(unary(UnaryOperator::Factorial, e), ts.drop_first())
    } else {
        (e, ts)
    }
}

/// A primary expression at the front of `ts`: a literal, a constant, a
/// prefix function applied to the next primary (or to the last result at
/// the end of the input), a negated primary, or a parenthesised expression.
pub open spec fn primary(ts: Seq<Token>) -> Parsed
    decreases ts.len(), 0nat,
{
    if ts.len() == 0 {
        Err(ParseError::UnexpectedEndOfInput)
    } else {
        let rest = ts.drop_first();
        match ts[0] {
            Token::Number(lit) => Ok((Expr::Value(Value::Number(lit)), rest)),
            Token::Pi => Ok((Expr::Value(Value::Constant(Constant::Pi)), rest)),
            Token::E => Ok((Expr::Value(Value::Constant(Constant::E)), rest)),
            Token::Minus => match primary(rest) {
                Ok((e, after)) => Ok((unary(UnaryOperator::Negate, e), after)),
                Err(err) => Err(err),
            },
            Token::LParen => match expression(rest, 0) {
                Ok((e, after)) => if after.len() > 0 && after[0] == Token::RParen {
                    Ok((e, after.drop_first()))
                } else {
                    Err(ParseError::UnmatchedParenthesis)
                },
                Err(err) => Err(err),
            },
            t => match prefix_function(t) {
                Some(f) => if rest.len() == 0 {
                    Ok((unary(f, last_result()), rest))
                } else {
                    match primary(rest) {
                        Ok((e, after)) => Ok((unary(f, e), after)),
                        Err(err) => Err(err),
                    }
                },
                None => Err(ParseError::UnexpectedToken),
            },
        }
    }
}

/// A primary expression followed by any number of `!`.
pub open spec fn factor(ts: Seq<Token>) -> Parsed
    decreases ts.len(), 1nat,
{
    match primary(ts) {
        Ok((e, after)) => Ok(postfix(e, after)),
        Err(err) => Err(err),
    }
}

/// Folds the infix operators at the front of `ts` whose precedence exceeds
/// `min` onto `left`, each with a right operand of higher precedence, so that
/// operators of equal precedence associate to the left.
pub open spec fn fold_infix(left: Expr, ts: Seq<Token>, min: u8) -> Parsed
    decreases ts.len(), 3nat,
{
    if ts.len() > 0 && binds_above(ts[0], min) {
        let (op, prec) = infix(ts[0])->Some_0;
        match expression(ts.drop_first(), prec) {
            Ok((right, after)) => if after.len() < ts.len() {
                fold_infix(binary(op, left, right), after, min)
            } else {
                Err(ParseError::UnexpectedToken)
            },
            Err(err) => Err(err),
        }
    } else {
        Ok((left, ts))
    }
}

/// An expression at the front of `ts` whose infix operators all bind more
/// tightly than `min`.
pub open spec fn expression(ts: Seq<Token>, min: u8) -> Parsed
    decreases ts.len(), 2nat,
{
    match factor(ts) {
        Ok((e, after)) => if after.len() < ts.len() {
            fold_infix(e, after, min)
        } else {
            Err(ParseError::UnexpectedToken)
        },
        Err(err) => Err(err),
    }
}

/// The tree of a whole token sequence. A sequence that starts with an infix
/// operator takes the last result as its left operand, with a right operand
/// of unary precedence.
pub open spec fn syntax_tree(ts: Seq<Token>) -> Result<Expr, ParseError> {
    if ts.len() == 0 {
        Err(ParseError::EmptyExpression)
    } else {
        let parsed = match infix(ts[0]) {
            Some((op, _)) => match expression(ts.drop_first(), UNARY_PRECEDENCE) {
                Ok((right, after)) => fold_infix(binary(op, last_result(), right), after, 0),
                Err(err) => Err(err),
            },
            None => expression(ts, 0),
        };
        match parsed {
            Ok((e, after)) => if after.len() == 0 {
                Ok(e)
            } else {
                Err(ParseError::UnexpectedTrailingTokens)
            },
            Err(err) => Err(err),
        }
    }
}

/// The tree of a token sequence, with a syntactic error marked as such.
pub open spec fn text_tree(ts: Seq<Token>) -> Result<Expr, Error> {
    match syntax_tree(ts) {
        Ok(e) => Ok(e),
        Err(err) => Err(Error::Syntactic(err)),
    }
}

/// `r` and the tokens left after it are what the parse `p` describes; on an
/// error, the error is the same.
pub open spec fn agrees(r: Result<Expr, ParseError>, left: Seq<Token>, p: Parsed) -> bool {
    match p {
        Ok((e, after)) => r == Ok::<Expr, ParseError>(e) && left == after,
        Err(err) => r == Err::<Expr, ParseError>(err),
    }
}

/// The infix operator of `t`, with its precedence.
fn infix_of(t: &Token) -> (r: Option<(BinaryOperator, u8)>)
    ensures
        r == infix(*t),
{
    match t {
        Token::Plus => Some((BinaryOperator::Add, 1)),
        Token::Minus => Some((BinaryOperator::Subtract, 1)),
        Token::Multiply => Some((BinaryOperator::Multiply, 2)),
        Token::Divide => Some((BinaryOperator::Divide, 2)),
        Token::Modulo => Some((BinaryOperator::Modulo, 2)),
        Token::Power => Some((BinaryOperator::Power, 3)),
        Token::Log => Some((BinaryOperator::Log, 3)),
        _ => None,
    }
}

/// The prefix function of `t`.
fn function_of(t: &Token) -> (r: Option<UnaryOperator>)
    ensures
        r == prefix_function(*t),
{
    match t {
        Token::Sqrt => Some(UnaryOperator::SquareRoot),
        Token::Sin => Some(UnaryOperator::Sin),
        Token::Cos => Some(UnaryOperator::Cos),
        Token::Tan => Some(UnaryOperator::Tan),
        Token::Ln => Some(UnaryOperator::Ln),
        Token::Floor => Some(UnaryOperator::Floor),
        Token::Ceil => Some(UnaryOperator::Ceil),
        Token::Abs => Some(UnaryOperator::Abs),
        Token::Round => Some(UnaryOperator::Round),
        _ => None,
    }
}

fn make_unary(operation: UnaryOperator, operand: Expr) -> (r: Expr)
    ensures
        r == unary(operation, operand),
{
    Expr::Operation(Operation::Unary { operation, operand: Box::new(operand) })
}

fn make_binary(operation: BinaryOperator, left: Expr, right: Expr) -> (r: Expr)
    ensures
        r == binary(operation, left, right),
{
    Expr::Operation(Operation::Binary { left: Box::new(left), operation, right: Box::new(right) })
}

/// Reads an expression tree from a token sequence by precedence climbing.
pub struct Parser {
    tokens: VecDeque<Token>,
}

impl Parser {
    /// The tokens not read yet.
    pub closed spec fn remaining(&self) -> Seq<Token> {
        self.tokens@
    }

    /// A parser that will read `tokens` from the front.
    pub fn new(tokens: Vec<Token>) -> (r: Self)
        ensures
            r.remaining() == tokens@,
    {
        let ghost all = tokens@;
        let mut rest = tokens;
        let mut queue: VecDeque<Token> = VecDeque::new();
        while rest.len() > 0
            invariant
                rest@ + queue@ == all,
            decreases rest.len(),
        {
            let ghost before = rest@;
            match rest.pop() {
                Some(t) => {
                    queue.push_front(t);
                    assert(before == rest@.push(t));
                    assert(rest@ + queue@ =~= before + (queue@.drop_first()));
                },
                None => {},
            }
        }
        assert(queue@ =~= all);
        Parser { tokens: queue }
    }

    /// The tree of a whole token sequence.
    pub fn parse_tokens(tokens: Vec<Token>) -> (r: Result<Expr, ParseError>)
        ensures
            r == syntax_tree(tokens@),
    {
        if tokens.len() == 0 {
            return Err(ParseError::EmptyExpression);
        }
        let mut parser = Parser::new(tokens);
        let parsed = match infix_of(&parser.tokens[0]) {
            Some((op, _)) => {
                let ghost before = parser.tokens@;
                let _ = parser.tokens.pop_front();
                assert(parser.tokens@ =~= before.drop_first());
                match parser.parse_expression(UNARY_PRECEDENCE) {
                    Ok(right) => parser.fold_operators(
                        make_binary(op, Expr::Value(Value::LastResult), right),
                        0,
                    ),
                    Err(err) => Err(err),
                }
            },
            None => parser.parse_expression(0),
        };
        match parsed {
            Ok(e) => {
                if parser.tokens.len() == 0 {
                    Ok(e)
                } else {
                    Err(ParseError::UnexpectedTrailingTokens)
                }
            },
            Err(err) => Err(err),
        }
    }

    /// The tree of an expression text, or the first lexical or syntactic
    /// error in it.
    pub fn parse(line: &str) -> (r: Result<Expr, Error>)
        ensures
            match lex_error(line@) {
                Some(err) => r == Err::<Expr, Error>(Error::Lexical(err)),
                None => exists|ts: Seq<Token>| lexes(line@, ts) && r == text_tree(ts),
            },
    {
        match Lexer::tokenize(line) {
            Err(err) => Err(Error::Lexical(err)),
            Ok(tokens) => {
                let ghost ts = tokens@;
                let r = match Parser::parse_tokens(tokens) {
                    Ok(e) => Ok(e),
                    Err(err) => Err(Error::Syntactic(err)),
                };
                assert(lexes(line@, ts) && r == text_tree(ts));
                r
            },
        }
    }

    /// Whether the next token is `!`.
    fn next_is_factorial(&self) -> (r: bool)
        ensures
            r == (self.remaining().len() > 0 && self.remaining()[0] == Token::Factorial),
    {
        self.tokens.len() > 0 && matches!(self.tokens[0], Token::Factorial)
    }

    /// Reads a primary expression.
    pub fn parse_primary(&mut self) -> (r: Result<Expr, ParseError>)
        ensures
            agrees(r, final(self).remaining(), primary(old(self).remaining())),
            r is Ok ==> final(self).remaining().len() < old(self).remaining().len(),
        decreases old(self).remaining().len(), 0nat,
    {
        let ghost ts = self.tokens@;
        match self.tokens.pop_front() {
            None => Err(ParseError::UnexpectedEndOfInput),
            Some(t) => {
                assert(self.tokens@ =~= ts.drop_first());
                match t {
                    Token::Number(lit) => Ok(Expr::Value(Value::Number(lit))),
                    Token::Pi => Ok(Expr::Value(Value::Constant(Constant::Pi))),
                    Token::E => Ok(Expr::Value(Value::Constant(Constant::E))),
                    Token::Minus => match self.parse_primary() {
                        Ok(e) => Ok(make_unary(UnaryOperator::Negate, e)),
                        Err(err) => Err(err),
                    },
                    Token::LParen => match self.parse_expression(0) {
                        Ok(e) => {
                            let ghost after = self.tokens@;
                            match self.tokens.pop_front() {
                                Some(Token::RParen) => {
                                    assert(self.tokens@ =~= after.drop_first());
                                    Ok(e)
                                },
                                _ => Err(ParseError::UnmatchedParenthesis),
                            }
                        },
                        Err(err) => Err(err),
                    },
                    other => match function_of(&other) {
                        Some(f) => {
                            if self.tokens.len() == 0 {
                                Ok(make_unary(f, Expr::Value(Value::LastResult)))
                            } else {
                                match self.parse_primary() {
                                    Ok(e) => Ok(make_unary(f, e)),
                                    Err(err) => Err(err),
                                }
                            }
                        },
                        None => Err(ParseError::UnexpectedToken),
                    },
                }
            },
        }
    }

    /// Reads a primary expression and the `!` that follow it.
    pub fn parse_factor(&mut self) -> (r: Result<Expr, ParseError>)
        ensures
            agrees(r, final(self).remaining(), factor(old(self).remaining())),
            r is Ok ==> final(self).remaining().len() < old(self).remaining().len(),
        decreases old(self).remaining().len(), 1nat,
    {
        let ghost ts = self.tokens@;
        let mut e = match self.parse_primary() {
            Ok(e) => e,
            Err(err) => {
                return Err(err);
            },
        };
        let ghost target = postfix(e, self.tokens@);
        while self.next_is_factorial()
            invariant
                postfix(e, self.tokens@) == target,
                self.tokens@.len() < ts.len(),
            decreases self.tokens@.len(),
        {
            let ghost before = self.tokens@;
            let _ = self.tokens.pop_front();
            assert(self.tokens@ =~= before.drop_first());
            e = make_unary(UnaryOperator::Factorial, e);
        }
        Ok(e)
    }

    /// Reads an expression whose infix operators all bind more tightly than
    /// `min`.
    pub fn parse_expression(&mut self, min: u8) -> (r: Result<Expr, ParseError>)
        ensures
            agrees(r, final(self).remaining(), expression(old(self).remaining(), min)),
            r is Ok ==> final(self).remaining().len() < old(self).remaining().len(),
        decreases old(self).remaining().len(), 2nat,
    {
        let left = match self.parse_factor() {
            Ok(e) => e,
            Err(err) => {
                return Err(err);
            },
        };
        self.fold_operators(left, min)
    }

    /// Folds onto `left` the infix operators ahead that bind more tightly than
    /// `min`.
    fn fold_operators(&mut self, left: Expr, min: u8) -> (r: Result<Expr, ParseError>)
        ensures
            agrees(r, final(self).remaining(), fold_infix(left, old(self).remaining(), min)),
            r is Ok ==> final(self).remaining().len() <= old(self).remaining().len(),
        decreases old(self).remaining().len(), 3nat,
    {
        let ghost ts = self.tokens@;
        let ghost target = fold_infix(left, ts, min);
        let mut acc = left;
        loop
            invariant
                fold_infix(acc, self.tokens@, min) == target,
                target == fold_infix(left, ts, min),
                ts == old(self).remaining(),
                self.tokens@.len() <= ts.len(),
            decreases self.tokens@.len(),
        {
            if self.tokens.len() == 0 {
                return Ok(acc);
            }
            let (op, prec) = match infix_of(&self.tokens[0]) {
                Some((op, prec)) => {
                    if prec <= min {
                        return Ok(acc);
                    }
                    (op, prec)
                },
                None => {
                    return Ok(acc);
                },
            };
            let ghost before = self.tokens@;
            let _ = self.tokens.pop_front();
            assert(self.tokens@ =~= before.drop_first());
            match self.parse_expression(prec) {
                Ok(right) => {
                    acc = make_binary(op, acc, right);
                },
                Err(err) => {
                    return Err(err);
                },
            }
        }
    }
}

} // verus!
