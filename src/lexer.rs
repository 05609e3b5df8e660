use vstd::prelude::*;
use vstd::std_specs::iter::IteratorSpec;
use vstd::string::StrSliceExecFns;

use crate::error::LexError;

verus! {

broadcast use {vstd::string::axiom_spec_iter, vstd::string::next_postcondition};

/// One lexical unit of an expression.
#[derive(Debug, Clone, PartialEq)]
pub enum Token {
    /// A numeric literal, kept as the digits and the point that spelled it.
    Number(String),
    Plus,
    Minus,
    Multiply,
    Divide,
    LParen,
    RParen,
    Power,
    Modulo,
    Factorial,
    Sqrt,
    Sin,
    Cos,
    Tan,
    Ln,
    Floor,
    Ceil,
    Abs,
    Round,
    Log,
    Pi,
    E,
}

/// Whether `c` has Unicode's White_Space property: the ASCII tab, line feed,
/// vertical tab, form feed, carriage return and space, and ten code points
/// or ranges beyond ASCII.
pub open spec fn white_space(c: char) -> bool {
    ||| c == ' '
    ||| ('\t' <= c <= '\r')
    ||| c == '\u{85}'
    ||| c == '\u{a0}'
    ||| c == '\u{1680}'
    ||| ('\u{2000}' <= c <= '\u{200a}')
    ||| c == '\u{2028}'
    ||| c == '\u{2029}'
    ||| c == '\u{202f}'
    ||| c == '\u{205f}'
    ||| c == '\u{3000}'
}

/// Whether `c` is alphabetic or numeric in Unicode's sense.
pub uninterp spec fn alphanumeric(c: char) -> bool;

/// A character that continues a word: on ASCII exactly the letters and
/// digits, beyond ASCII the Unicode alphabetic and numeric characters.
pub open spec fn word_char(c: char) -> bool {
    if is_ascii_char(c) {
        is_letter(c) || is_digit(c)
    } else {
        alphanumeric(c)
    }
}

pub open spec fn is_ascii_char(c: char) -> bool {
    (c as u32) < 128
}

pub open spec fn is_digit(c: char) -> bool {
    '0' <= c <= '9'
}

pub open spec fn is_letter(c: char) -> bool {
    ('a' <= c <= 'z') || ('A' <= c <= 'Z')
}

/// A character that may occur in a numeric literal.
pub open spec fn is_number_char(c: char) -> bool {
    is_digit(c) || c == '.'
}

/// Whether `c` is a white-space character.
fn is_white_space(c: char) -> (r: bool)
    ensures
        r == white_space(c),
{
    match c {
        ' ' | '\t'..='\r' | '\u{85}' | '\u{a0}' | '\u{1680}' => true,
        '\u{2000}'..='\u{200a}' | '\u{2028}' | '\u{2029}' | '\u{202f}' | '\u{205f}' => true,
        '\u{3000}' => true,
        _ => false,
    }
}

/// Relies on char::is_alphanumeric: Alphabetic or Numeric in Unicode, which on
/// ASCII holds of the letters and the digits alone.
#[verifier::external_body]
fn is_alphanumeric(c: char) -> (r: bool)
    ensures
        r == alphanumeric(c),
        is_ascii_char(c) ==> (r <==> (is_letter(c) || is_digit(c))),
{
    c.is_alphanumeric()
}

/// Whether `c` continues a word.
fn is_word_char(c: char) -> (r: bool)
    ensures
        r == word_char(c),
{
    is_alphanumeric(c)
}

/// The token that a single operator or parenthesis character stands for.
pub open spec fn symbol_token(c: char) -> Option<Token> {
    if c == '+' {
        Some(Token::Plus)
    } else if c == '-' {
        Some(Token::Minus)
    } else if c == '*' {
        Some(Token::Multiply)
    } else if c == '/' {
        Some(Token::Divide)
    } else if c == '(' {
        Some(Token::LParen)
    } else if c == ')' {
        Some(Token::RParen)
    } else if c == '^' {
        Some(Token::Power)
    } else if c == '%' {
        Some(Token::Modulo)
    } else if c == '!' {
        Some(Token::Factorial)
    } else {
        None
    }
}

/// The token that a function or constant keyword stands for.
pub open spec fn keyword_token(w: Seq<char>) -> Option<Token> {
    if w == seq!['s', 'q', 'r', 't'] {
        Some(Token::Sqrt)
    } else if w == seq!['s', 'i', 'n'] {
        Some(Token::Sin)
    } else if w == seq!['c', 'o', 's'] {
        Some(Token::Cos)
    } else if w == seq!['t', 'a', 'n'] {
        Some(Token::Tan)
    } else if w == seq!['l', 'n'] {
        Some(Token::Ln)
    } else if w == seq!['f', 'l', 'o', 'o', 'r'] {
        Some(Token::Floor)
    } else if w == seq!['c', 'e', 'i', 'l'] {
        Some(Token::Ceil)
    } else if w == seq!['a', 'b', 's'] {
        Some(Token::Abs)
    } else if w == seq!['r', 'o', 'u', 'n', 'd'] {
        Some(Token::Round)
    } else if w == seq!['l', 'o', 'g'] {
        Some(Token::Log)
    } else if w == seq!['p', 'i'] {
        Some(Token::Pi)
    } else if w == seq!['e'] {
        Some(Token::E)
    } else {
        None
    }
}

/// End of the run of number characters that starts at `i`.
pub open spec fn number_end(s: Seq<char>, i: int) -> int
    decreases s.len() - i,
{
    if 0 <= i < s.len() && is_number_char(s[i]) {
        number_end(s, i + 1)
    } else {
        i
    }
}

/// End of the run of word characters that starts at `i`.
pub open spec fn word_end(s: Seq<char>, i: int) -> int
    decreases s.len() - i,
{
    if 0 <= i < s.len() && word_char(s[i]) {
        word_end(s, i + 1)
    } else {
        i
    }
}

/// Number of decimal points in `w`.
pub open spec fn point_count(w: Seq<char>) -> nat
    decreases w.len(),
{
    if w.len() == 0 {
        0
    } else {
        point_count(w.drop_last()) + if w.last() == '.' {
            1nat
        } else {
            0nat
        }
    }
}

/// A run of digits and points spells a number when it holds a digit and at
/// most one point.
pub open spec fn valid_number(w: Seq<char>) -> bool {
    point_count(w) <= 1 && point_count(w) < w.len()
}

pub proof fn lemma_number_end(s: Seq<char>, i: int)
    requires
        0 <= i <= s.len(),
    ensures
        i <= number_end(s, i) <= s.len(),
        forall|k: int| i <= k < number_end(s, i) ==> is_number_char(#[trigger] s[k]),
        number_end(s, i) < s.len() ==> !is_number_char(s[number_end(s, i)]),
    decreases s.len() - i,
{
    if i < s.len() && is_number_char(s[i]) {
        lemma_number_end(s, i + 1);
    }
}

pub proof fn lemma_word_end(s: Seq<char>, i: int)
    requires
        0 <= i <= s.len(),
    ensures
        i <= word_end(s, i) <= s.len(),
        forall|k: int| i <= k < word_end(s, i) ==> word_char(#[trigger] s[k]),
        word_end(s, i) < s.len() ==> !word_char(s[word_end(s, i)]),
    decreases s.len() - i,
{
    if i < s.len() && word_char(s[i]) {
        lemma_word_end(s, i + 1);
    }
}

/// The first position at or after `i` that holds no white space.
pub open spec fn skip_space(s: Seq<char>, i: int) -> int
    decreases s.len() - i,
{
    if 0 <= i < s.len() && white_space(s[i]) {
        skip_space(s, i + 1)
    } else {
        i
    }
}

/// End of the lexeme that starts at `q`: one character for a symbol or a
/// character that starts no token, the whole run for a number or a word.
pub open spec fn lexeme_end(s: Seq<char>, q: int) -> int {
    let c = s[q];
    if symbol_token(c) is Some {
        q + 1
    } else if is_number_char(c) {
        number_end(s, q + 1)
    } else if is_letter(c) {
        word_end(s, q + 1)
    } else {
        q + 1
    }
}

/// The error of the lexeme that starts at `q`, if it is not a token.
pub open spec fn lexeme_error(s: Seq<char>, q: int) -> Option<LexError> {
    let c = s[q];
    if symbol_token(c) is Some {
        None
    } else if is_number_char(c) {
        if valid_number(s.subrange(q, lexeme_end(s, q))) {
            None
        } else {
            Some(LexError::InvalidNumber)
        }
    } else if is_letter(c) {
        if keyword_token(s.subrange(q, lexeme_end(s, q))) is Some {
            None
        } else {
            Some(LexError::UnknownIdentifier)
        }
    } else {
        Some(LexError::UnexpectedCharacter(c))
    }
}

/// `t` is the token that the lexeme starting at `q` spells.
pub open spec fn lexeme_token(s: Seq<char>, q: int, t: Token) -> bool {
    let c = s[q];
    if symbol_token(c) is Some {
        t == symbol_token(c)->0
    } else if is_number_char(c) {
        t is Number && t->Number_0@ == s.subrange(q, lexeme_end(s, q))
    } else {
        keyword_token(s.subrange(q, lexeme_end(s, q))) == Some(t)
    }
}

/// The first lexical error met when scanning `s` from position `i`, if any.
pub open spec fn lex_error_from(s: Seq<char>, i: int) -> Option<LexError>
    decreases s.len() - i,
{
    if i < 0 || i >= s.len() {
        None
    } else {
        let c = s[i];
        if white_space(c) || symbol_token(c) is Some {
            lex_error_from(s, i + 1)
        } else if is_number_char(c) {
            let j = number_end(s, i + 1);
            proof {
                lemma_number_end(s, i + 1);
            }
            if valid_number(s.subrange(i, j)) {
                lex_error_from(s, j)
            } else {
                Some(LexError::InvalidNumber)
            }
        } else if is_letter(c) {
            let j = word_end(s, i + 1);
            proof {
                lemma_word_end(s, i + 1);
            }
            if keyword_token(s.subrange(i, j)) is Some {
                lex_error_from(s, j)
            } else {
                Some(LexError::UnknownIdentifier)
            }
        } else {
            Some(LexError::UnexpectedCharacter(c))
        }
    }
}

/// `ts` is the token sequence that scanning `s` from position `i` yields.
/// White space separates tokens and is dropped; a numeric literal keeps its
/// spelling.
pub open spec fn lexes_from(s: Seq<char>, i: int, ts: Seq<Token>) -> bool
    decreases s.len() - i,
{
    if i < 0 || i >= s.len() {
        ts.len() == 0
    } else {
        let c = s[i];
        if white_space(c) {
            lexes_from(s, i + 1, ts)
        } else if symbol_token(c) is Some {
            &&& ts.len() > 0
            &&& ts[0] == symbol_token(c)->0
            &&& lexes_from(s, i + 1, ts.drop_first())
        } else if is_number_char(c) {
            let j = number_end(s, i + 1);
            proof {
                lemma_number_end(s, i + 1);
            }
            &&& ts.len() > 0
            &&& ts[0] is Number
            &&& ts[0]->Number_0@ == s.subrange(i, j)
            &&& valid_number(s.subrange(i, j))
            &&& lexes_from(s, j, ts.drop_first())
        } else if is_letter(c) {
            let j = word_end(s, i + 1);
            proof {
                lemma_word_end(s, i + 1);
            }
            &&& ts.len() > 0
            &&& keyword_token(s.subrange(i, j)) == Some(ts[0])
            &&& lexes_from(s, j, ts.drop_first())
        } else {
            false
        }
    }
}

/// The first lexical error of the whole text, if any.
pub open spec fn lex_error(s: Seq<char>) -> Option<LexError> {
    lex_error_from(s, 0)
}

/// `ts` is the token sequence of the whole text.
pub open spec fn lexes(s: Seq<char>, ts: Seq<Token>) -> bool {
    lexes_from(s, 0, ts)
}

/// Cuts an expression text into tokens, one at a time, from left to right.
pub struct Lexer<'a> {
    input: &'a str,
    chars: Vec<char>,
    pos: usize,
}

/// The operator or parenthesis token of `c`.
fn symbol(c: char) -> (r: Option<Token>)
    ensures
        r == symbol_token(c),
{
    match c {
        '+' => Some(Token::Plus),
        '-' => Some(Token::Minus),
        '*' => Some(Token::Multiply),
        '/' => Some(Token::Divide),
        '(' => Some(Token::LParen),
        ')' => Some(Token::RParen),
        '^' => Some(Token::Power),
        '%' => Some(Token::Modulo),
        '!' => Some(Token::Factorial),
        _ => None,
    }
}

/// Whether `chars[start..end]` spells `word`.
fn spells(chars: &Vec<char>, start: usize, end: usize, word: &[char]) -> (r: bool)
    requires
        start <= end <= chars.len(),
    ensures
        r == (chars@.subrange(start as int, end as int) == word@),
{
    if end - start != word.len() {
        return false;
    }
    let mut k: usize = 0;
    while k < word.len()
        invariant
            end - start == word.len(),
            start <= end <= chars.len(),
            k <= word.len(),
            forall|m: int| 0 <= m < k ==> chars@[start + m] == word@[m],
        decreases word.len() - k,
    {
        if chars[start + k] != word[k] {
            assert(chars@.subrange(start as int, end as int)[k as int] != word@[k as int]);
            return false;
        }
        k = k + 1;
    }
    assert(chars@.subrange(start as int, end as int) =~= word@);
    true
}

/// The keyword token that `chars[start..end]` spells, if any.
fn keyword(chars: &Vec<char>, start: usize, end: usize) -> (r: Option<Token>)
    requires
        start <= end <= chars.len(),
    ensures
        r == keyword_token(chars@.subrange(start as int, end as int)),
{
    let w = Ghost(chars@.subrange(start as int, end as int));
    let sqrt: [char; 4] = ['s', 'q', 'r', 't'];
    let sin: [char; 3] = ['s', 'i', 'n'];
    let cos: [char; 3] = ['c', 'o', 's'];
    let tan: [char; 3] = ['t', 'a', 'n'];
    let ln: [char; 2] = ['l', 'n'];
    let floor: [char; 5] = ['f', 'l', 'o', 'o', 'r'];
    let ceil: [char; 4] = ['c', 'e', 'i', 'l'];
    let abs: [char; 3] = ['a', 'b', 's'];
    let round: [char; 5] = ['r', 'o', 'u', 'n', 'd'];
    let log: [char; 3] = ['l', 'o', 'g'];
    let pi: [char; 2] = ['p', 'i'];
    let e: [char; 1] = ['e'];
    assert(sqrt@ =~= seq!['s', 'q', 'r', 't']);
    assert(sin@ =~= seq!['s', 'i', 'n']);
    assert(cos@ =~= seq!['c', 'o', 's']);
    assert(tan@ =~= seq!['t', 'a', 'n']);
    assert(ln@ =~= seq!['l', 'n']);
    assert(floor@ =~= seq!['f', 'l', 'o', 'o', 'r']);
    assert(ceil@ =~= seq!['c', 'e', 'i', 'l']);
    assert(abs@ =~= seq!['a', 'b', 's']);
    assert(round@ =~= seq!['r', 'o', 'u', 'n', 'd']);
    assert(log@ =~= seq!['l', 'o', 'g']);
    assert(pi@ =~= seq!['p', 'i']);
    assert(e@ =~= seq!['e']);
    if spells(chars, start, end, sqrt.as_slice()) {
        Some(Token::Sqrt)
    } else if spells(chars, start, end, sin.as_slice()) {
        Some(Token::Sin)
    } else if spells(chars, start, end, cos.as_slice()) {
        Some(Token::Cos)
    } else if spells(chars, start, end, tan.as_slice()) {
        Some(Token::Tan)
    } else if spells(chars, start, end, ln.as_slice()) {
        Some(Token::Ln)
    } else if spells(chars, start, end, floor.as_slice()) {
        Some(Token::Floor)
    } else if spells(chars, start, end, ceil.as_slice()) {
        Some(Token::Ceil)
    } else if spells(chars, start, end, abs.as_slice()) {
        Some(Token::Abs)
    } else if spells(chars, start, end, round.as_slice()) {
        Some(Token::Round)
    } else if spells(chars, start, end, log.as_slice()) {
        Some(Token::Log)
    } else if spells(chars, start, end, pi.as_slice()) {
        Some(Token::Pi)
    } else if spells(chars, start, end, e.as_slice()) {
        Some(Token::E)
    } else {
        None
    }
}

/// Whether `chars[start..end]` holds a digit and at most one point.
fn spells_number(chars: &Vec<char>, start: usize, end: usize) -> (r: bool)
    requires
        start <= end <= chars.len(),
    ensures
        r == valid_number(chars@.subrange(start as int, end as int)),
{
    let mut points: usize = 0;
    let mut k: usize = start;
    while k < end
        invariant
            start <= k <= end <= chars.len(),
            points == point_count(chars@.subrange(start as int, k as int)),
            points <= k - start,
        decreases end - k,
    {
        assert(chars@.subrange(start as int, k + 1).drop_last() =~= chars@.subrange(
            start as int,
            k as int,
        ));
        if chars[k] == '.' {
            points = points + 1;
        }
        k = k + 1;
    }
    points <= 1 && points < end - start
}

impl<'a> Lexer<'a> {
    /// The characters being scanned.
    pub closed spec fn text(&self) -> Seq<char> {
        self.chars@
    }

    /// Index of the next character to scan.
    pub closed spec fn position(&self) -> int {
        self.pos as int
    }

    pub closed spec fn wf(&self) -> bool {
        &&& self.chars@ == self.input@
        &&& self.pos <= self.chars.len()
    }

    /// A lexer positioned at the start of `input`.
    pub fn new(input: &'a str) -> (r: Self)
        ensures
            r.wf(),
            r.text() == input@,
            r.position() == 0,
    {
        Lexer { input, chars: chars_of(input), pos: 0 }
    }

    /// Scans the next token. `None` means that only white space was left.
    pub fn next_token(&mut self) -> (r: Result<Option<Token>, LexError>)
        requires
            old(self).wf(),
        ensures
            final(self).wf(),
            final(self).text() == old(self).text(),
            ({
                let s = old(self).text();
                let q = skip_space(s, old(self).position());
                match r {
                    Ok(None) => q == s.len() && final(self).position() == s.len(),
                    Ok(Some(t)) => {
                        &&& q < s.len()
                        &&& lexeme_error(s, q) is None
                        &&& lexeme_token(s, q, t)
                        &&& final(self).position() == lexeme_end(s, q)
                    },
                    Err(e) => q < s.len() && lexeme_error(s, q) == Some(e),
                }
            }),
            match r {
                Ok(None) => {
                    &&& final(self).position() == old(self).text().len()
                    &&& lex_error_from(old(self).text(), old(self).position()) is None
                    &&& lexes_from(old(self).text(), old(self).position(), Seq::empty())
                },
                Ok(Some(t)) => {
                    &&& old(self).position() < final(self).position()
                    &&& lex_error_from(old(self).text(), final(self).position()) == lex_error_from(
                        old(self).text(),
                        old(self).position(),
                    )
                    &&& forall|rest: Seq<Token>|
                        #![trigger lexes_from(old(self).text(), final(self).position(), rest)]
                        lexes_from(old(self).text(), final(self).position(), rest)
                            ==> lexes_from(
                            old(self).text(),
                            old(self).position(),
                            seq![t] + rest,
                        )
                },
                Err(e) => lex_error_from(old(self).text(), old(self).position()) == Some(e),
            },
    {
        let ghost s = self.chars@;
        let ghost p0 = self.pos as int;
        let n = self.chars.len();
        while self.pos < n && is_white_space(self.chars[self.pos])
            invariant
                self.wf(),
                s == self.chars@,
                n == s.len(),
                p0 <= self.pos,
                skip_space(s, self.pos as int) == skip_space(s, p0),
                lex_error_from(s, self.pos as int) == lex_error_from(s, p0),
                forall|rest: Seq<Token>|
                    #![trigger lexes_from(s, self.pos as int, rest)]
                    lexes_from(s, self.pos as int, rest) ==> lexes_from(s, p0, rest),
            decreases n - self.pos,
        {
            let ghost q = self.pos as int;
            self.pos = self.pos + 1;
            assert forall|rest: Seq<Token>|
                #![trigger lexes_from(s, self.pos as int, rest)]
                lexes_from(s, self.pos as int, rest) implies lexes_from(s, p0, rest) by {
                assert(lexes_from(s, q, rest));
            }
        }
        if self.pos == n {
            assert(lexes_from(s, self.pos as int, Seq::empty()));
            return Ok(None);
        }
        let start = self.pos;
        let c = self.chars[start];
        assert(skip_space(s, p0) == start);
        match symbol(c) {
            Some(t) => {
                self.pos = start + 1;
                proof {
                    assert forall|rest: Seq<Token>|
                        #![trigger lexes_from(s, self.pos as int, rest)]
                        lexes_from(s, self.pos as int, rest) implies lexes_from(
                            s,
                            p0,
                            seq![t] + rest,
                        ) by {
                        assert((seq![t] + rest).drop_first() =~= rest);
                        assert(lexes_from(s, start as int, seq![t] + rest));
                    }
                }
                return Ok(Some(t));
            },
            None => {},
        }
        if c == '.' || ('0' <= c && c <= '9') {
            self.pos = start + 1;
            proof {
                lemma_number_end(s, start + 1);
            }
            while self.pos < n && (self.chars[self.pos] == '.' || ('0' <= self.chars[self.pos]
                && self.chars[self.pos] <= '9'))
                invariant
                    self.wf(),
                    s == self.chars@,
                    n == s.len(),
                    start < self.pos <= n,
                    number_end(s, self.pos as int) == number_end(s, start + 1),
                decreases n - self.pos,
            {
                self.pos = self.pos + 1;
            }
            let end = self.pos;
            if !spells_number(&self.chars, start, end) {
                self.pos = start;
                return Err(LexError::InvalidNumber);
            }
            let t = Token::Number(String::from_str(self.input.substring_char(start, end)));
            proof {
                assert forall|rest: Seq<Token>|
                    #![trigger lexes_from(s, self.pos as int, rest)]
                    lexes_from(s, self.pos as int, rest) implies lexes_from(
                        s,
                        p0,
                        seq![t] + rest,
                    ) by {
                    assert((seq![t] + rest).drop_first() =~= rest);
                    assert(lexes_from(s, start as int, seq![t] + rest));
                }
            }
            return Ok(Some(t));
        }
        if ('a' <= c && c <= 'z') || ('A' <= c && c <= 'Z') {
            self.pos = start + 1;
            proof {
                lemma_word_end(s, start + 1);
            }
            while self.pos < n && is_word_char(self.chars[self.pos])
                invariant
                    self.wf(),
                    s == self.chars@,
                    n == s.len(),
                    start < self.pos <= n,
                    word_end(s, self.pos as int) == word_end(s, start + 1),
                decreases n - self.pos,
            {
                self.pos = self.pos + 1;
            }
            let end = self.pos;
            match keyword(&self.chars, start, end) {
                Some(t) => {
                    proof {
                        assert forall|rest: Seq<Token>|
                            #![trigger lexes_from(s, self.pos as int, rest)]
                            lexes_from(s, self.pos as int, rest) implies lexes_from(
                                s,
                                p0,
                                seq![t] + rest,
                            ) by {
                            assert((seq![t] + rest).drop_first() =~= rest);
                            assert(lexes_from(s, start as int, seq![t] + rest));
                        }
                    }
                    return Ok(Some(t));
                },
                None => {
                    self.pos = start;
                    return Err(LexError::UnknownIdentifier);
                },
            }
        }
        Err(LexError::UnexpectedCharacter(c))
    }

    /// Cuts the whole of `input` into tokens, or reports the first lexical error.
    pub fn tokenize(input: &'a str) -> (r: Result<Vec<Token>, LexError>)
        ensures
            match r {
                Ok(ts) => lex_error(input@) is None && lexes(input@, ts@),
                Err(e) => lex_error(input@) == Some(e),
            },
    {
        let mut lexer = Lexer::new(input);
        let mut tokens: Vec<Token> = Vec::new();
        let ghost s = input@;
        loop
            invariant
                lexer.wf(),
                lexer.text() == s,
                s == input@,
                lex_error_from(s, lexer.position()) == lex_error(s),
                forall|rest: Seq<Token>|
                    #![trigger lexes_from(s, lexer.position(), rest)]
                    lexes_from(s, lexer.position(), rest) ==> lexes(s, tokens@ + rest),
            decreases s.len() - lexer.position(),
        {
            let ghost before = tokens@;
            match lexer.next_token() {
                Ok(Some(t)) => {
                    tokens.push(t);
                    proof {
                        assert forall|rest: Seq<Token>|
                            #![trigger lexes_from(s, lexer.position(), rest)]
                            lexes_from(s, lexer.position(), rest) implies lexes(
                                s,
                                tokens@ + rest,
                            ) by {
                            assert(before + (seq![t] + rest) =~= tokens@ + rest);
                        }
                    }
                },
                Ok(None) => {
                    assert(tokens@ + Seq::empty() =~= tokens@);
                    return Ok(tokens);
                },
                Err(e) => {
                    return Err(e);
                },
            }
        }
    }
}

/// The characters of `input`, in order.
fn chars_of(input: &str) -> (r: Vec<char>)
    ensures
        r@ == input@,
{
    let n = input.unicode_len();
    let mut it = input.chars();
    let mut out: Vec<char> = Vec::new();
    while out.len() < n
        invariant
            n == input@.len(),
            out@ + it.remaining() == input@,
        decreases n - out.len(),
    {
        match it.next() {
            Some(c) => {
                out.push(c);
            },
            None => {},
        }
    }
    assert(out@ =~= input@);
    out
}

} // verus!
