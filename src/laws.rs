use vstd::prelude::*;

use crate::lexer::{lexes, lexes_from, Token};
use crate::error::Error;
use crate::parser::{
    binary, binds_above, expression, factor, fold_infix, infix, postfix, prefix_function,
    primary, syntax_tree, text_tree, unary, Expr, Operation, Parsed, UnaryOperator, Value,
    UNARY_PRECEDENCE,
};

verus! {

/// `a` and `b` are the same token; numeric literals are compared by spelling.
pub open spec fn same_token(a: Token, b: Token) -> bool {
    match (a, b) {
        (Token::Number(x), Token::Number(y)) => x@ == y@,
        _ => a == b,
    }
}

/// `a` and `b` are the same token sequence.
pub open spec fn same_tokens(a: Seq<Token>, b: Seq<Token>) -> bool {
    &&& a.len() == b.len()
    &&& forall|k: int| 0 <= k < a.len() ==> same_token(#[trigger] a[k], b[k])
}

proof fn lemma_same_tail(a: Seq<Token>, b: Seq<Token>)
    requires
        a.len() > 0,
        b.len() > 0,
        same_token(a[0], b[0]),
        same_tokens(a.drop_first(), b.drop_first()),
    ensures
        same_tokens(a, b),
{
    assert forall|k: int| 0 <= k < a.len() implies same_token(#[trigger] a[k], b[k]) by {
        if k > 0 {
            assert(a[k] == a.drop_first()[k - 1]);
            assert(b[k] == b.drop_first()[k - 1]);
        }
    }
}

proof fn lemma_lexes_from_unique(s: Seq<char>, i: int, a: Seq<Token>, b: Seq<Token>)
    requires
        lexes_from(s, i, a),
        lexes_from(s, i, b),
    ensures
        same_tokens(a, b),
    decreases s.len() - i,
{
    if 0 <= i < s.len() {
        let c = s[i];
        if crate::lexer::white_space(c) {
            lemma_lexes_from_unique(s, i + 1, a, b);
        } else if crate::lexer::symbol_token(c) is Some {
            lemma_lexes_from_unique(s, i + 1, a.drop_first(), b.drop_first());
            lemma_same_tail(a, b);
        } else if crate::lexer::is_number_char(c) {
            let j = crate::lexer::number_end(s, i + 1);
            crate::lexer::lemma_number_end(s, i + 1);
            lemma_lexes_from_unique(s, j, a.drop_first(), b.drop_first());
            lemma_same_tail(a, b);
        } else if crate::lexer::is_letter(c) {
            let j = crate::lexer::word_end(s, i + 1);
            crate::lexer::lemma_word_end(s, i + 1);
            lemma_lexes_from_unique(s, j, a.drop_first(), b.drop_first());
            lemma_same_tail(a, b);
        }
    }
}

/// Scanning is deterministic: a text has one token sequence, up to how
/// numeric literals are held, so scanning the same text again yields the
/// same tokens.
pub proof fn law_scanning_is_deterministic(s: Seq<char>, a: Seq<Token>, b: Seq<Token>)
    requires
        lexes(s, a),
        lexes(s, b),
    ensures
        same_tokens(a, b),
{
    lemma_lexes_from_unique(s, 0, a, b);
}

/// A token that can close an operand: a literal, a constant, a closing
/// parenthesis, a `!`, or a function that stands alone at the end.
pub open spec fn closes_operand(t: Token) -> bool {
    match t {
        Token::Number(_) | Token::Pi | Token::E | Token::RParen | Token::Factorial => true,
        Token::Sqrt | Token::Sin | Token::Cos | Token::Tan | Token::Ln => true,
        Token::Floor | Token::Ceil | Token::Abs | Token::Round => true,
        _ => false,
    }
}

/// `after` is what is left of `ts` once a front part is read.
pub open spec fn suffix_of(ts: Seq<Token>, after: Seq<Token>) -> bool {
    &&& after.len() <= ts.len()
    &&& after == ts.skip(ts.len() - after.len())
}

/// `after` is what is left of `ts` once a front part is read, and the last
/// token read, if any, closes an operand.
pub open spec fn read_front(ts: Seq<Token>, after: Seq<Token>) -> bool {
    &&& suffix_of(ts, after)
    &&& after.len() < ts.len() ==> closes_operand(ts[ts.len() - after.len() - 1])
}

/// A parse that reads something and leaves `after`.
pub open spec fn reads_operand(ts: Seq<Token>, p: Parsed) -> bool {
    match p {
        Ok((_, after)) => after.len() < ts.len() && read_front(ts, after),
        Err(_) => true,
    }
}

/// A parse that may read nothing and leaves `after`.
pub open spec fn reads_some(ts: Seq<Token>, p: Parsed) -> bool {
    match p {
        Ok((_, after)) => read_front(ts, after),
        Err(_) => true,
    }
}

proof fn lemma_chain(ts: Seq<Token>, mid: Seq<Token>, after: Seq<Token>)
    requires
        suffix_of(ts, mid),
        read_front(mid, after),
    ensures
        after.len() < mid.len() ==> read_front(ts, after),
        after.len() == mid.len() ==> after == mid,
{
    assert(after =~= ts.skip(ts.len() - after.len()));
    if after.len() < mid.len() {
        assert(mid[mid.len() - after.len() - 1] == ts[ts.len() - after.len() - 1]);
    } else {
        assert(after =~= mid);
    }
}

proof fn lemma_drop_one(ts: Seq<Token>)
    requires
        ts.len() > 0,
    ensures
        ts.drop_first() == ts.skip(1),
        ts.drop_first() =~= ts.skip(ts.len() - ts.drop_first().len()),
{
}

proof fn lemma_postfix_reads(e: Expr, ts: Seq<Token>)
    ensures
        read_front(ts, postfix(e, ts).1),
    decreases ts.len(),
{
    if ts.len() > 0 && ts[0] == Token::Factorial {
        let rest = ts.drop_first();
        lemma_postfix_reads(unary(UnaryOperator::Factorial, e), rest);
        let after = postfix(e, ts).1;
        assert(after =~= ts.skip(ts.len() - after.len()));
        if after.len() == rest.len() {
            assert(ts[ts.len() - after.len() - 1] == ts[0]);
        } else {
            assert(rest[rest.len() - after.len() - 1] == ts[ts.len() - after.len() - 1]);
        }
    } else {
        assert(ts =~= ts.skip(0));
    }
}

proof fn lemma_primary_reads(ts: Seq<Token>)
    ensures
        reads_operand(ts, primary(ts)),
    decreases ts.len(), 0nat,
{
    if ts.len() > 0 {
        let rest = ts.drop_first();
        lemma_drop_one(ts);
        match ts[0] {
            Token::Minus => {
                lemma_primary_reads(rest);
                if let Ok((_, after)) = primary(rest) {
                    lemma_chain(ts, rest, after);
                }
            },
            Token::LParen => {
                lemma_expression_reads(rest, 0);
                if let Ok((_, after)) = expression(rest, 0) {
                    if after.len() > 0 && after[0] == Token::RParen {
                        lemma_drop_one(after);
                        assert(read_front(after, after.drop_first()));
                        lemma_chain(rest, after, after.drop_first());
                        lemma_chain(ts, rest, after.drop_first());
                    }
                }
            },
            _ => {
                if rest.len() > 0 {
                    lemma_primary_reads(rest);
                    if let Ok((_, after)) = primary(rest) {
                        lemma_chain(ts, rest, after);
                    }
                }
            },
        }
    }
}

proof fn lemma_factor_reads(ts: Seq<Token>)
    ensures
        reads_operand(ts, factor(ts)),
    decreases ts.len(), 1nat,
{
    lemma_primary_reads(ts);
    if let Ok((e, after)) = primary(ts) {
        lemma_postfix_reads(e, after);
        lemma_chain(ts, after, postfix(e, after).1);
    }
}

proof fn lemma_expression_reads(ts: Seq<Token>, min: u8)
    ensures
        reads_operand(ts, expression(ts, min)),
    decreases ts.len(), 2nat,
{
    lemma_factor_reads(ts);
    if let Ok((e, after)) = factor(ts) {
        lemma_fold_reads(e, after, min);
        if let Ok((_, last)) = fold_infix(e, after, min) {
            lemma_chain(ts, after, last);
        }
    }
}

proof fn lemma_fold_reads(left: Expr, ts: Seq<Token>, min: u8)
    ensures
        reads_some(ts, fold_infix(left, ts, min)),
    decreases ts.len(), 3nat,
{
    if ts.len() > 0 && binds_above(ts[0], min) {
        let (op, prec) = infix(ts[0])->Some_0;
        let rest = ts.drop_first();
        lemma_drop_one(ts);
        lemma_expression_reads(rest, prec);
        if let Ok((right, after)) = expression(rest, prec) {
            lemma_chain(ts, rest, after);
            lemma_fold_reads(binary(op, left, right), after, min);
            if let Ok((_, last)) = fold_infix(binary(op, left, right), after, min) {
                lemma_chain(ts, after, last);
            }
        }
    } else {
        assert(ts =~= ts.skip(0));
    }
}

/// An expression cannot end with an infix operator: a trailing operator is
/// a syntax error however the expression starts, so the last result is taken
/// as an operand only before a leading operator.
pub proof fn law_trailing_operator_fails(ts: Seq<Token>)
    requires
        ts.len() > 0,
        infix(ts.last()) is Some,
    ensures
        syntax_tree(ts) is Err,
{
    match infix(ts[0]) {
        Some((op, _)) => {
            let rest = ts.drop_first();
            lemma_drop_one(ts);
            lemma_expression_reads(rest, UNARY_PRECEDENCE);
            if let Ok((right, after)) = expression(rest, UNARY_PRECEDENCE) {
                lemma_chain(ts, rest, after);
                let left = binary(op, crate::parser::last_result(), right);
                lemma_fold_reads(left, after, 0);
                if let Ok((_, last)) = fold_infix(left, after, 0) {
                    lemma_chain(ts, after, last);
                }
            }
        },
        None => {
            lemma_expression_reads(ts, 0);
        },
    }
}

/// `x` and `y` are the same tree; numeric literals are compared by spelling.
pub open spec fn same_expr(x: Expr, y: Expr) -> bool
    decreases x,
{
    match x {
        Expr::Value(Value::Number(p)) => match y {
            Expr::Value(Value::Number(q)) => p@ == q@,
            _ => false,
        },
        Expr::Value(v) => y == Expr::Value(v),
        Expr::Operation(Operation::Unary { operation, operand }) => match y {
            Expr::Operation(Operation::Unary { operation: op2, operand: arg2 }) => {
                operation == op2 && same_expr(*operand, *arg2)
            },
            _ => false,
        },
        Expr::Operation(Operation::Binary { left, operation, right }) => match y {
            Expr::Operation(Operation::Binary { left: l2, operation: op2, right: r2 }) => {
                operation == op2 && same_expr(*left, *l2) && same_expr(*right, *r2)
            },
            _ => false,
        },
    }
}

/// Two parses with the same tree and the same tokens left, or the same error.
pub open spec fn same_parsed(p: Parsed, q: Parsed) -> bool {
    match (p, q) {
        (Ok((e1, a1)), Ok((e2, a2))) => same_expr(e1, e2) && same_tokens(a1, a2),
        (Err(x), Err(y)) => x == y,
        _ => false,
    }
}

/// Two outcomes of parsing a text with the same tree or the same error.
pub open spec fn same_outcome(p: Result<Expr, Error>, q: Result<Expr, Error>) -> bool {
    match (p, q) {
        (Ok(e1), Ok(e2)) => same_expr(e1, e2),
        (Err(x), Err(y)) => x == y,
        _ => false,
    }
}

proof fn lemma_same_front(a: Seq<Token>, b: Seq<Token>)
    requires
        same_tokens(a, b),
        a.len() > 0,
    ensures
        same_token(a[0], b[0]),
        same_tokens(a.drop_first(), b.drop_first()),
        infix(a[0]) == infix(b[0]),
        prefix_function(a[0]) == prefix_function(b[0]),
        (a[0] == Token::Factorial) == (b[0] == Token::Factorial),
        (a[0] == Token::RParen) == (b[0] == Token::RParen),
{
    assert(same_token(a[0], b[0]));
    assert forall|k: int| 0 <= k < a.drop_first().len() implies same_token(
        #[trigger] a.drop_first()[k],
        b.drop_first()[k],
    ) by {
        assert(same_token(a[k + 1], b[k + 1]));
    }
}

proof fn lemma_postfix_same(e1: Expr, e2: Expr, a: Seq<Token>, b: Seq<Token>)
    requires
        same_expr(e1, e2),
        same_tokens(a, b),
    ensures
        same_expr(postfix(e1, a).0, postfix(e2, b).0),
        same_tokens(postfix(e1, a).1, postfix(e2, b).1),
    decreases a.len(),
{
    if a.len() > 0 {
        lemma_same_front(a, b);
        if a[0] == Token::Factorial {
            let f1 = unary(UnaryOperator::Factorial, e1);
            let f2 = unary(UnaryOperator::Factorial, e2);
            assert(same_expr(f1, f2));
            lemma_postfix_same(f1, f2, a.drop_first(), b.drop_first());
        }
    }
}

proof fn lemma_primary_same(a: Seq<Token>, b: Seq<Token>)
    requires
        same_tokens(a, b),
    ensures
        same_parsed(primary(a), primary(b)),
    decreases a.len(), 0nat,
{
    if a.len() > 0 {
        lemma_same_front(a, b);
        let (ra, rb) = (a.drop_first(), b.drop_first());
        match a[0] {
            Token::Number(_) => {},
            Token::Minus => {
                lemma_primary_same(ra, rb);
                if let (Ok((e1, _)), Ok((e2, _))) = (primary(ra), primary(rb)) {
                    assert(same_expr(unary(UnaryOperator::Negate, e1), unary(UnaryOperator::Negate, e2)));
                }
            },
            Token::LParen => {
                lemma_expression_same(ra, rb, 0);
                if let (Ok((_, x1)), Ok((_, x2))) = (expression(ra, 0), expression(rb, 0)) {
                    if x1.len() > 0 {
                        lemma_same_front(x1, x2);
                    }
                }
            },
            _ => {
                if ra.len() == 0 {
                    let last = crate::parser::last_result();
                    assert(same_expr(last, last));
                    if let Some(f) = prefix_function(a[0]) {
                        assert(same_expr(unary(f, last), unary(f, last)));
                    }
                } else {
                    lemma_primary_same(ra, rb);
                    if let (Some(f), Ok((e1, _)), Ok((e2, _))) = (
                        prefix_function(a[0]),
                        primary(ra),
                        primary(rb),
                    ) {
                        assert(same_expr(unary(f, e1), unary(f, e2)));
                    }
                }
            },
        }
    }
}

proof fn lemma_factor_same(a: Seq<Token>, b: Seq<Token>)
    requires
        same_tokens(a, b),
    ensures
        same_parsed(factor(a), factor(b)),
    decreases a.len(), 1nat,
{
    lemma_primary_same(a, b);
    if let (Ok((e1, x1)), Ok((e2, x2))) = (primary(a), primary(b)) {
        lemma_postfix_same(e1, e2, x1, x2);
    }
}

proof fn lemma_expression_same(a: Seq<Token>, b: Seq<Token>, min: u8)
    requires
        same_tokens(a, b),
    ensures
        same_parsed(expression(a, min), expression(b, min)),
    decreases a.len(), 2nat,
{
    lemma_factor_same(a, b);
    if let (Ok((e1, x1)), Ok((e2, x2))) = (factor(a), factor(b)) {
        if x1.len() < a.len() {
            lemma_fold_same(e1, e2, x1, x2, min);
        }
    }
}

proof fn lemma_fold_same(l1: Expr, l2: Expr, a: Seq<Token>, b: Seq<Token>, min: u8)
    requires
        same_expr(l1, l2),
        same_tokens(a, b),
    ensures
        same_parsed(fold_infix(l1, a, min), fold_infix(l2, b, min)),
    decreases a.len(), 3nat,
{
    if a.len() > 0 {
        lemma_same_front(a, b);
        if binds_above(a[0], min) {
            let (op, prec) = infix(a[0])->Some_0;
            lemma_expression_same(a.drop_first(), b.drop_first(), prec);
            if let (Ok((r1, x1)), Ok((r2, x2))) = (
                expression(a.drop_first(), prec),
                expression(b.drop_first(), prec),
            ) {
                if x1.len() < a.len() {
                    assert(same_expr(binary(op, l1, r1), binary(op, l2, r2)));
                    lemma_fold_same(binary(op, l1, r1), binary(op, l2, r2), x1, x2, min);
                }
            }
        }
    }
}

/// Parsing is deterministic: however a text is scanned, its tree is the
/// same, literal spellings included, or it fails with the same error; so
/// parsing the same text again yields the same tree.
pub proof fn law_parsing_is_deterministic(s: Seq<char>, a: Seq<Token>, b: Seq<Token>)
    requires
        lexes(s, a),
        lexes(s, b),
    ensures
        same_outcome(text_tree(a), text_tree(b)),
{
    law_scanning_is_deterministic(s, a, b);
    if a.len() > 0 {
        lemma_same_front(a, b);
        match infix(a[0]) {
            Some((op, _)) => {
                let (ra, rb) = (a.drop_first(), b.drop_first());
                lemma_expression_same(ra, rb, UNARY_PRECEDENCE);
                if let (Ok((r1, x1)), Ok((r2, x2))) = (
                    expression(ra, UNARY_PRECEDENCE),
                    expression(rb, UNARY_PRECEDENCE),
                ) {
                    assert(same_expr(crate::parser::last_result(), crate::parser::last_result()));
                    let l1 = binary(op, crate::parser::last_result(), r1);
                    let l2 = binary(op, crate::parser::last_result(), r2);
                    assert(same_expr(l1, l2));
                    lemma_fold_same(l1, l2, x1, x2, 0);
                }
            },
            None => {
                lemma_expression_same(a, b, 0);
            },
        }
    }
}

} // verus!
