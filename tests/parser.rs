use calculator::{
    BinaryOperator, Constant, Error, ErrorKind, Expr, LexError, Operation, ParseError, Parser,
    Token, UnaryOperator, Value,
};
use calculator::BinaryOperator::{Add, Divide, Log, Modulo, Multiply, Power, Subtract};
use calculator::UnaryOperator::{Abs, Factorial, Floor, Ln, Negate, SquareRoot};

fn num(text: &str) -> Expr {
    Expr::Value(Value::Number(text.to_string()))
}

fn last() -> Expr {
    Expr::Value(Value::LastResult)
}

fn un(operation: UnaryOperator, operand: Expr) -> Expr {
    Expr::Operation(Operation::Unary {
        operation,
        operand: Box::new(operand),
    })
}

fn bin(operation: BinaryOperator, left: Expr, right: Expr) -> Expr {
    Expr::Operation(Operation::Binary {
        left: Box::new(left),
        operation,
        right: Box::new(right),
    })
}

fn tree(text: &str) -> Expr {
    Parser::parse(text).unwrap()
}

fn syntax_error(text: &str) -> ParseError {
    match Parser::parse(text) {
        Err(Error::Syntactic(e)) => e,
        other => panic!("expected a syntax error for {:?}, got {:?}", text, other),
    }
}

#[test]
fn parser_precedence_tree() {
    assert_eq!(
        tree("3 + 5 * 2 - 4 / 2 ^ 2"),
        bin(
            Subtract,
            bin(Add, num("3"), bin(Multiply, num("5"), num("2"))),
            bin(Divide, num("4"), bin(Power, num("2"), num("2"))),
        )
    );
}

#[test]
fn parser_equal_precedence_associates_left() {
    assert_eq!(
        tree("10 - 2 - 3"),
        bin(Subtract, bin(Subtract, num("10"), num("2")), num("3"))
    );
    assert_eq!(
        tree("2 ^ 3 ^ 2"),
        bin(Power, bin(Power, num("2"), num("3")), num("2"))
    );
    assert_eq!(
        tree("7 % 3 * 2"),
        bin(Multiply, bin(Modulo, num("7"), num("3")), num("2"))
    );
}

#[test]
fn parser_log_is_infix_at_power_precedence() {
    assert_eq!(
        tree("1 + 100 log 10 * 2"),
        bin(
            Add,
            num("1"),
            bin(Multiply, bin(Log, num("100"), num("10")), num("2"))
        )
    );
}

#[test]
fn parser_factorial_nesting() {
    assert_eq!(tree("3!!"), un(Factorial, un(Factorial, num("3"))));
    assert_eq!(tree("(3!)!"), un(Factorial, un(Factorial, num("3"))));
    assert_eq!(
        tree("3! + 1"),
        bin(BinaryOperator::Add, un(Factorial, num("3")), num("1"))
    );
}

#[test]
fn parser_prefix_functions_take_one_primary() {
    assert_eq!(
        tree("sqrt 16 + 1"),
        bin(BinaryOperator::Add, un(SquareRoot, num("16")), num("1"))
    );
    assert_eq!(tree("sqrt -1"), un(SquareRoot, un(Negate, num("1"))));
    assert_eq!(
        tree("abs (floor (0 - 3.7))"),
        un(
            Abs,
            un(Floor, bin(BinaryOperator::Subtract, num("0"), num("3.7")))
        )
    );
}

#[test]
fn parser_constants() {
    assert_eq!(
        tree("2 * pi"),
        bin(
            BinaryOperator::Multiply,
            num("2"),
            Expr::Value(Value::Constant(Constant::Pi))
        )
    );
    assert_eq!(tree("e"), Expr::Value(Value::Constant(Constant::E)));
}

#[test]
fn parser_bare_function_uses_last_result() {
    assert_eq!(tree("sqrt"), un(UnaryOperator::SquareRoot, last()));
    assert_eq!(tree("ln"), un(UnaryOperator::Ln, last()));
}

#[test]
fn parser_leading_operator_uses_last_result() {
    assert_eq!(tree("- 2"), bin(Subtract, last(), num("2")));
    assert_eq!(tree("* 3 + 1"), bin(Add, bin(Multiply, last(), num("3")), num("1")));
    assert_eq!(tree("log 10"), bin(Log, last(), num("10")));
    // the right operand binds at unary precedence
    assert_eq!(tree("- 2 * 3"), bin(Multiply, bin(Subtract, last(), num("2")), num("3")));
}

#[test]
fn parser_negation_inside_parentheses_is_unary() {
    assert_eq!(tree("(-2)"), un(UnaryOperator::Negate, num("2")));
    assert_eq!(
        tree("10 * -1"),
        bin(BinaryOperator::Multiply, num("10"), un(UnaryOperator::Negate, num("1")))
    );
}

#[test]
fn parser_trailing_operator_fails() {
    assert_eq!(syntax_error("2 *"), ParseError::UnexpectedEndOfInput);
    assert_eq!(syntax_error("2 +"), ParseError::UnexpectedEndOfInput);
    assert_eq!(syntax_error("-"), ParseError::UnexpectedEndOfInput);
}

#[test]
fn parser_syntax_errors() {
    assert_eq!(syntax_error(""), ParseError::EmptyExpression);
    assert_eq!(syntax_error("   "), ParseError::EmptyExpression);
    assert_eq!(syntax_error("(2 + 3"), ParseError::UnmatchedParenthesis);
    assert_eq!(syntax_error("2 + 3)"), ParseError::UnexpectedTrailingTokens);
    assert_eq!(syntax_error(")"), ParseError::UnexpectedToken);
    assert_eq!(syntax_error("2 * * 3"), ParseError::UnexpectedToken);
    assert_eq!(syntax_error("!"), ParseError::UnexpectedToken);
    assert_eq!(syntax_error("2 3"), ParseError::UnexpectedTrailingTokens);
    assert_eq!(syntax_error("sqrt +"), ParseError::UnexpectedToken);
}

#[test]
fn parser_lexical_errors_come_first() {
    assert_eq!(
        Parser::parse("abc"),
        Err(Error::Lexical(LexError::UnknownIdentifier))
    );
    assert_eq!(
        Parser::parse("(1 $"),
        Err(Error::Lexical(LexError::UnexpectedCharacter('$')))
    );
}

#[test]
fn parser_from_tokens() {
    let tokens = vec![
        Token::Number("1".to_string()),
        Token::Plus,
        Token::Number("2".to_string()),
    ];
    assert_eq!(
        Parser::parse_tokens(tokens),
        Ok(bin(BinaryOperator::Add, num("1"), num("2")))
    );
    assert_eq!(Parser::parse_tokens(vec![]), Err(ParseError::EmptyExpression));
}

#[test]
fn parser_step_by_step() {
    let mut parser = Parser::new(vec![
        Token::Number("2".to_string()),
        Token::Factorial,
        Token::Factorial,
        Token::RParen,
    ]);
    assert_eq!(
        parser.parse_factor(),
        Ok(un(UnaryOperator::Factorial, un(UnaryOperator::Factorial, num("2"))))
    );
    assert_eq!(parser.parse_primary(), Err(ParseError::UnexpectedToken));
}

#[test]
fn parsing_twice_gives_the_same_tree() {
    let text = "sqrt 16 + 3 ! - 2 ^ 3";
    assert_eq!(Parser::parse(text), Parser::parse(text));
}

#[test]
fn error_kinds_and_messages() {
    let lexical = Error::Lexical(LexError::InvalidNumber);
    let syntactic = Error::Syntactic(ParseError::EmptyExpression);
    let math = Error::Mathematical(calculator::MathError::DivisionByZero);
    assert_eq!(lexical.kind(), ErrorKind::Lexical);
    assert_eq!(syntactic.kind(), ErrorKind::Syntactic);
    assert_eq!(math.kind(), ErrorKind::Mathematical);
    assert_eq!(lexical.message(), "Invalid number");
    assert_eq!(syntactic.message(), "Empty expression");
    assert_eq!(math.message(), "Division by zero encountered");
    assert_eq!(
        Error::Lexical(LexError::UnexpectedCharacter('&')).message(),
        "Unexpected character: '&'"
    );
}
