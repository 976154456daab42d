//! Integer calculator: a lexer, a Pratt parser and an evaluator with checked
//! `i64` arithmetic.
use vstd::prelude::*;
use crate::text::{chars_of, decimal_digits, decimal_value, digit_value, i64_to_string, is_ascii_digit, is_digit, push_all, signed_decimal};

verus! {

#[derive(Debug, Clone, Copy, PartialEq, Eq, Structural)]
pub enum Token {
    Atom(i64),
    Plus,
    Minus,
    Slash,
    Star,
    LParen,
    RParen,
    Invalid,
    Eof,
}

/// Tokens of an input, handed out front to back.
#[derive(Debug)]
pub struct Lexer {
    tokens: Vec<Token>,
    pos: usize,
}

#[derive(Debug)]
pub enum Expr {
    Atom(i64),
    UnOp(Token, Box<Expr>),
    BinOp(Token, Box<Expr>, Box<Expr>),
}

impl Clone for Expr {
    fn clone(&self) -> (r: Self)
        ensures
            r == *self,
        decreases self,
    {
        match self {
            Expr::Atom(v) => Expr::Atom(*v),
            Expr::UnOp(op, e) => Expr::UnOp(*op, Box::new((&**e).clone())),
            Expr::BinOp(op, l, r) => Expr::BinOp(
                *op,
                Box::new((&**l).clone()),
                Box::new((&**r).clone()),
            ),
        }
    }
}

// ---------------------------------------------------------------------------
// Lexing
// ---------------------------------------------------------------------------

pub open spec fn is_blank(c: char) -> bool {
    c == ' ' || c == '\t' || c == '\r' || c == '\n'
}

/// Number of leading ASCII digits.
pub open spec fn digit_run(s: Seq<char>) -> nat
    decreases s.len(),
{
    if s.len() > 0 && is_digit(s[0]) {
        1 + digit_run(s.drop_first())
    } else {
        0
    }
}

/// The token for a run of digits: its value, or `Invalid` when it does not
/// fit in an `i64`.
pub open spec fn number_token(digits: Seq<char>) -> Token {
    if decimal_value(digits) <= i64::MAX {
        Token::Atom(decimal_value(digits) as i64)
    } else {
        Token::Invalid
    }
}

/// The tokens of `s`: blanks are skipped, each operator or parenthesis is a
/// token, a maximal run of digits is one number, anything else is `Invalid`.
pub open spec fn lex(s: Seq<char>) -> Seq<Token>
    decreases s.len(),
{
    if s.len() == 0 {
        Seq::empty()
    } else {
        let c = s[0];
        if is_blank(c) {
            lex(s.drop_first())
        } else if is_digit(c) {
            let k = digit_run(s);
            if 0 < k <= s.len() {
                seq![number_token(s.take(k as int))] + lex(s.skip(k as int))
            } else {
                Seq::empty()
            }
        } else {
            seq![single_token(c)] + lex(s.drop_first())
        }
    }
}

pub open spec fn single_token(c: char) -> Token {
    if c == '+' {
        Token::Plus
    } else if c == '-' {
        Token::Minus
    } else if c == '*' {
        Token::Star
    } else if c == '/' {
        Token::Slash
    } else if c == '(' {
        Token::LParen
    } else if c == ')' {
        Token::RParen
    } else {
        Token::Invalid
    }
}

pub(crate) proof fn lemma_digit_run(s: Seq<char>)
    ensures
        digit_run(s) <= s.len(),
        forall|i: int| 0 <= i < digit_run(s) ==> is_digit(#[trigger] s[i]),
        digit_run(s) < s.len() ==> !is_digit(s[digit_run(s) as int]),
    decreases s.len(),
{
    if s.len() > 0 && is_digit(s[0]) {
        lemma_digit_run(s.drop_first());
        assert forall|i: int| 0 <= i < digit_run(s) implies is_digit(#[trigger] s[i]) by {
            if i > 0 {
                assert(s[i] == s.drop_first()[i - 1]);
            }
        }
    }
}

pub(crate) proof fn lemma_digit_run_unique(s: Seq<char>, k: int)
    requires
        0 <= k <= s.len(),
        forall|i: int| 0 <= i < k ==> is_digit(#[trigger] s[i]),
        k < s.len() ==> !is_digit(s[k]),
    ensures
        digit_run(s) == k,
    decreases s.len(),
{
    if k > 0 {
        assert(is_digit(s[0]));
        assert forall|i: int| 0 <= i < k - 1 implies is_digit(#[trigger] s.drop_first()[i]) by {
            assert(s.drop_first()[i] == s[i + 1]);
        }
        lemma_digit_run_unique(s.drop_first(), k - 1);
    }
}

/// Reads the digits `v[lo..hi]` as an `i64` token.
fn number_token_of(v: &Vec<char>, lo: usize, hi: usize) -> (t: Token)
    requires
        lo <= hi <= v.len(),
        forall|i: int| lo <= i < hi ==> is_digit(#[trigger] v@[i]),
    ensures
        t == number_token(v@.subrange(lo as int, hi as int)),
{
    let ghost d = v@.subrange(lo as int, hi as int);
    let mut acc: i64 = 0;
    let mut i = lo;
    while i < hi
        invariant
            lo <= i <= hi <= v.len(),
            d == v@.subrange(lo as int, hi as int),
            forall|j: int| lo <= j < hi ==> is_digit(#[trigger] v@[j]),
            acc == decimal_value(d.take(i - lo)),
        decreases hi - i,
    {
        let c = v[i];
        assert(is_digit(v@[i as int]));
        assert(d[i - lo] == c);
        assert(d.take(i - lo + 1).drop_last() == d.take(i - lo));
        let dv = (c as u32 - '0' as u32) as i64;
        assert(dv == digit_value(c));
        match acc.checked_mul(10) {
            Some(m) => match m.checked_add(dv) {
                Some(n) => {
                    acc = n;
                },
                None => {
                    proof {
                        crate::text::lemma_decimal_value_prefix_le(d, i - lo + 1);
                    }
                    return Token::Invalid;
                },
            },
            None => {
                proof {
                    crate::text::lemma_decimal_value_prefix_le(d, i - lo + 1);
                }
                return Token::Invalid;
            },
        }
        i += 1;
    }
    assert(d.take(hi - lo) == d);
    Token::Atom(acc)
}

/// No token of `ts` is `Eof`: that token stands only for running out.
pub open spec fn no_eof(ts: Seq<Token>) -> bool {
    forall|i: int| 0 <= i < ts.len() ==> #[trigger] ts[i] != Token::Eof
}

impl View for Lexer {
    type V = Seq<Token>;

    /// The tokens not yet handed out, front first.
    closed spec fn view(&self) -> Seq<Token> {
        self.tokens@.skip(self.pos as int)
    }
}

impl Lexer {
    /// The position lies within the tokens, and no token left is `Eof`.
    pub closed spec fn wf(self) -> bool {
        &&& self.pos <= self.tokens.len()
        &&& no_eof(self@)
    }

    /// Splits `input` into tokens.
    #[verifier::rlimit(40)]
    pub fn new(input: &str) -> (lexer: Self)
        ensures
            lexer.wf(),
            lexer@ == lex(input@),
            no_eof(lexer@),
    {
        let v = chars_of(input);
        let mut tokens: Vec<Token> = Vec::new();
        let mut i: usize = 0;
        assert(v@.skip(0) == v@);
        while i < v.len()
            invariant
                i <= v.len(),
                v@ == input@,
                tokens@ + lex(v@.skip(i as int)) == lex(input@),
            decreases v.len() - i,
        {
            let ghost rest = v@.skip(i as int);
            let ch = v[i];
            assert(rest[0] == ch);
            assert(rest.drop_first() == v@.skip(i + 1));
            if ch == ' ' || ch == '\t' || ch == '\r' || ch == '\n' {
                i += 1;
            } else if is_ascii_digit(ch) {
                let start = i;
                while i < v.len() && is_ascii_digit(v[i])
                    invariant
                        start < v.len(),
                        start <= i <= v.len(),
                        is_digit(v@[start as int]),
                        forall|j: int| start <= j < i ==> is_digit(#[trigger] v@[j]),
                    decreases v.len() - i,
                {
                    i += 1;
                }
                proof {
                    assert forall|j: int| 0 <= j < i - start implies is_digit(#[trigger] rest[j]) by {
                        assert(rest[j] == v@[start + j]);
                    }
                    if i < v.len() {
                        assert(rest[i - start] == v@[i as int]);
                    }
                    lemma_digit_run_unique(rest, i - start);
                    assert(rest.take(i - start) == v@.subrange(start as int, i as int));
                    assert(rest.skip(i - start) == v@.skip(i as int));
                }
                let t = number_token_of(&v, start, i);
                tokens.push(t);
                proof {
                    assert(tokens@ + lex(v@.skip(i as int)) == tokens@.drop_last() + (seq![t] + lex(
                        v@.skip(i as int),
                    )));
                }
            } else {
                let t = if ch == '+' {
                    Token::Plus
                } else if ch == '-' {
                    Token::Minus
                } else if ch == '*' {
                    Token::Star
                } else if ch == '/' {
                    Token::Slash
                } else if ch == '(' {
                    Token::LParen
                } else if ch == ')' {
                    Token::RParen
                } else {
                    Token::Invalid
                };
                assert(t == single_token(ch));
                tokens.push(t);
                i += 1;
                proof {
                    assert(tokens@ + lex(v@.skip(i as int)) == tokens@.drop_last() + (seq![t] + lex(
                        v@.skip(i as int),
                    )));
                }
            }
        }
        assert(v@.skip(v.len() as int) == Seq::<char>::empty());
        assert(tokens@ + Seq::<Token>::empty() == tokens@);
        assert(tokens@.skip(0) == tokens@);
        proof {
            lemma_lex_tokens(input@);
        }
        Lexer { tokens, pos: 0 }
    }

    /// The next token, without consuming it; `Eof` when there is none.
    pub fn peek(&self) -> (t: Token)
        requires
            self.wf(),
        ensures
            t == peek_token(self@),
    {
        if self.pos < self.tokens.len() {
            self.tokens[self.pos]
        } else {
            Token::Eof
        }
    }

    /// Consumes and returns the next token; `Eof`, consuming nothing, when there is none.
    pub fn next(&mut self) -> (t: Token)
        requires
            old(self).wf(),
        ensures
            final(self).wf(),
            t == peek_token(old(self)@),
            final(self)@ == (if old(self)@.len() > 0 {
                old(self)@.drop_first()
            } else {
                old(self)@
            }),
    {
        if self.pos < self.tokens.len() {
            let t = self.tokens[self.pos];
            self.pos = self.pos + 1;
            proof {
                assert forall|i: int| 0 <= i < self@.len() implies #[trigger] self@[i] != Token::Eof by {
                    assert(self@[i] == old(self)@[i + 1]);
                }
            }
            t
        } else {
            Token::Eof
        }
    }
}

pub open spec fn peek_token(ts: Seq<Token>) -> Token {
    if ts.len() > 0 {
        ts[0]
    } else {
        Token::Eof
    }
}


// ---------------------------------------------------------------------------
// Parsing
// ---------------------------------------------------------------------------

/// Why a parse stopped.
#[derive(Debug, Clone, Copy, PartialEq, Eq, Structural)]
pub enum ParseFailure {
    MissingParen,
    Unexpected(Token),
}

pub open spec fn prefix_bp(t: Token) -> Option<u8> {
    match t {
        Token::Minus | Token::Plus => Some(5),
        _ => None,
    }
}

pub open spec fn infix_bp(t: Token) -> Option<(u8, u8)> {
    match t {
        Token::Plus | Token::Minus => Some((1, 2)),
        Token::Star | Token::Slash => Some((3, 4)),
        _ => None,
    }
}

fn prefix_binding_power(operator: Token) -> (r: Option<((), u8)>)
    ensures
        r matches Some((_, bp)) ==> prefix_bp(operator) == Some(bp),
        r is None ==> prefix_bp(operator) is None,
{
    match operator {
        Token::Minus | Token::Plus => Some(((), 5)),
        _ => None,
    }
}

fn infix_binding_power(operator: Token) -> (r: Option<(u8, u8)>)
    ensures
        r == infix_bp(operator),
{
    match operator {
        Token::Plus | Token::Minus => Some((1, 2)),
        Token::Star | Token::Slash => Some((3, 4)),
        _ => None,
    }
}

/// What remains of `ts` after one token is taken, as `Lexer::next` does it.
pub open spec fn after_next(ts: Seq<Token>) -> Seq<Token> {
    if ts.len() > 0 {
        ts.drop_first()
    } else {
        ts
    }
}

/// A parse: the expression and the tokens left over, or why it failed and
/// the tokens left over at that point.
pub type ParseOutcome = Result<(Expr, Seq<Token>), (ParseFailure, Seq<Token>)>;

/// Pratt parsing of an expression whose operators bind at least as tightly as
/// `min_bp`: a prefix (a number, a parenthesised expression or a unary
/// `+`/`-` applied to an operand of power 5), then the infix loop.
pub open spec fn parse_prefix(ts: Seq<Token>, min_bp: u8) -> ParseOutcome
    decreases ts.len(), 1nat,
{
    if ts.len() == 0 {
        Err((ParseFailure::Unexpected(Token::Eof), ts))
    } else {
        let rest = ts.drop_first();
        match ts[0] {
            Token::Atom(v) => parse_infix(Expr::Atom(v), rest, min_bp),
            Token::LParen => match parse_prefix(rest, 0) {
                Err(e) => Err(e),
                Ok((e, r)) => if peek_token(r) != Token::RParen {
                    Err((ParseFailure::MissingParen, after_next(r)))
                } else if r.len() < ts.len() {
                    parse_infix(e, r.drop_first(), min_bp)
                } else {
                    Err((ParseFailure::MissingParen, r))
                },
            },
            Token::Minus => match parse_prefix(rest, 5) {
                Err(e) => Err(e),
                Ok((e, r)) => if r.len() < ts.len() {
                    parse_infix(Expr::UnOp(Token::Minus, Box::new(e)), r, min_bp)
                } else {
                    Err((ParseFailure::MissingParen, r))
                },
            },
            Token::Plus => match parse_prefix(rest, 5) {
                Err(e) => Err(e),
                Ok((e, r)) => if r.len() < ts.len() {
                    parse_infix(Expr::UnOp(Token::Plus, Box::new(e)), r, min_bp)
                } else {
                    Err((ParseFailure::MissingParen, r))
                },
            },
            t => Err((ParseFailure::Unexpected(t), rest)),
        }
    }
}

/// The infix loop: while the next token is a binary operator whose left
/// power is at least `min_bp`, take it and an operand parsed at its right power.
pub open spec fn parse_infix(left: Expr, ts: Seq<Token>, min_bp: u8) -> ParseOutcome
    decreases ts.len(), 0nat,
{
    let op = peek_token(ts);
    if op == Token::Eof || op == Token::RParen {
        Ok((left, ts))
    } else {
        match infix_bp(op) {
            Some((l_bp, r_bp)) => if l_bp < min_bp {
                Ok((left, ts))
            } else {
                match parse_prefix(ts.drop_first(), r_bp) {
                    Err(e) => Err(e),
                    Ok((rhs, r)) => if r.len() < ts.len() {
                        parse_infix(Expr::BinOp(op, Box::new(left), Box::new(rhs)), r, min_bp)
                    } else {
                        Err((ParseFailure::MissingParen, r))
                    },
                }
            },
            None => Ok((left, ts)),
        }
    }
}

/// The leftover of a parse.
pub open spec fn outcome_rest(o: ParseOutcome) -> Seq<Token> {
    match o {
        Ok((_, r)) => r,
        Err((_, r)) => r,
    }
}

/// A parse never grows the token stream; a successful prefix parse takes at
/// least one token.
#[verifier::rlimit(40)]
pub proof fn lemma_parse_shrinks(ts: Seq<Token>, min_bp: u8)
    ensures
        outcome_rest(parse_prefix(ts, min_bp)).len() <= ts.len(),
        parse_prefix(ts, min_bp) is Ok ==> outcome_rest(parse_prefix(ts, min_bp)).len() < ts.len(),
    decreases ts.len(), 1nat,
{
    if ts.len() > 0 {
        let rest = ts.drop_first();
        match ts[0] {
            Token::Atom(v) => {
                lemma_infix_shrinks(Expr::Atom(v), rest, min_bp);
            },
            Token::LParen => {
                lemma_parse_shrinks(rest, 0);
                match parse_prefix(rest, 0) {
                    Ok((e, r)) => {
                        if peek_token(r) == Token::RParen {
                            lemma_infix_shrinks(e, r.drop_first(), min_bp);
                        }
                    },
                    _ => {},
                }
            },
            Token::Minus => {
                lemma_parse_shrinks(rest, 5);
                match parse_prefix(rest, 5) {
                    Ok((e, r)) => {
                        lemma_infix_shrinks(Expr::UnOp(Token::Minus, Box::new(e)), r, min_bp);
                    },
                    _ => {},
                }
            },
            Token::Plus => {
                lemma_parse_shrinks(rest, 5);
                match parse_prefix(rest, 5) {
                    Ok((e, r)) => {
                        lemma_infix_shrinks(Expr::UnOp(Token::Plus, Box::new(e)), r, min_bp);
                    },
                    _ => {},
                }
            },
            _ => {},
        }
    }
}

#[verifier::rlimit(40)]
pub proof fn lemma_infix_shrinks(left: Expr, ts: Seq<Token>, min_bp: u8)
    ensures
        outcome_rest(parse_infix(left, ts, min_bp)).len() <= ts.len(),
    decreases ts.len(), 0nat,
{
    let op = peek_token(ts);
    if !(op == Token::Eof || op == Token::RParen) {
        match infix_bp(op) {
            Some((l_bp, r_bp)) => if l_bp >= min_bp {
                lemma_parse_shrinks(ts.drop_first(), r_bp);
                match parse_prefix(ts.drop_first(), r_bp) {
                    Ok((rhs, r)) => {
                        lemma_infix_shrinks(
                            Expr::BinOp(op, Box::new(left), Box::new(rhs)),
                            r,
                            min_bp,
                        );
                    },
                    _ => {},
                }
            },
            None => {},
        }
    }
}

/// `Debug` of a token.
pub open spec fn token_debug(t: Token) -> Seq<char> {
    match t {
        Token::Atom(v) => "Atom("@ + signed_decimal(v as int) + ")"@,
        Token::Plus => "Plus"@,
        Token::Minus => "Minus"@,
        Token::Slash => "Slash"@,
        Token::Star => "Star"@,
        Token::LParen => "LParen"@,
        Token::RParen => "RParen"@,
        Token::Invalid => "Invalid"@,
        Token::Eof => "Eof"@,
    }
}

pub open spec fn parse_failure_message(f: ParseFailure) -> Seq<char> {
    match f {
        ParseFailure::MissingParen => "Missing closing parenthesis ')'"@,
        ParseFailure::Unexpected(t) => "Unexpected token at start of expression: "@ + token_debug(t),
    }
}

/// A string equal to a literal.
pub fn owned(s: &str) -> (r: String)
    ensures
        r@ == s@,
{
    s.to_owned()
}

fn token_debug_string(t: Token) -> (r: String)
    ensures
        r@ == token_debug(t),
{
    match t {
        Token::Atom(v) => {
            let mut s = owned("Atom(");
            let n = i64_to_string(v);
            push_all(&mut s, n.as_str());
            push_all(&mut s, ")");
            s
        },
        Token::Plus => owned("Plus"),
        Token::Minus => owned("Minus"),
        Token::Slash => owned("Slash"),
        Token::Star => owned("Star"),
        Token::LParen => owned("LParen"),
        Token::RParen => owned("RParen"),
        Token::Invalid => owned("Invalid"),
        Token::Eof => owned("Eof"),
    }
}

fn unexpected_message(t: Token) -> (r: String)
    ensures
        r@ == parse_failure_message(ParseFailure::Unexpected(t)),
{
    let mut s = owned("Unexpected token at start of expression: ");
    let d = token_debug_string(t);
    push_all(&mut s, d.as_str());
    s
}

/// Parses an expression from the front of the lexer's tokens, as
/// `parse_prefix` describes; the lexer is left at the first token not used.
#[verifier::rlimit(40)]
pub fn parse_expr(lexer: &mut Lexer, min_bp: u8) -> (r: Result<Expr, String>)
    requires
        old(lexer).wf(),
    ensures
        final(lexer).wf(),
        final(lexer)@ == outcome_rest(parse_prefix(old(lexer)@, min_bp)),
        match parse_prefix(old(lexer)@, min_bp) {
            Ok((e, _)) => r == Ok::<Expr, String>(e),
            Err((f, _)) => r matches Err(m) && m@ == parse_failure_message(f),
        },
    decreases old(lexer)@.len(),
{
    let ghost ts = lexer@;
    proof {
        lemma_parse_shrinks(ts, min_bp);
    }
    let token = lexer.next();
    let mut left = match token {
        Token::Atom(val) => Expr::Atom(val),
        Token::LParen => {
            let ghost inner = lexer@;
            proof {
                lemma_parse_shrinks(inner, 0);
            }
            let expr = match parse_expr(lexer, 0) {
                Ok(e) => e,
                Err(m) => return Err(m),
            };
            let ghost r = lexer@;
            if lexer.next() != Token::RParen {
                return Err(owned("Missing closing parenthesis ')'"));
            }
            proof {
                assert(r.len() < ts.len());
            }
            expr
        },
        Token::Minus | Token::Plus => {
            let op = token;
            let (_, r_bp) = match prefix_binding_power(op) {
                Some(p) => p,
                None => vstd::pervasive::unreached(),
            };
            let ghost inner = lexer@;
            proof {
                lemma_parse_shrinks(inner, 5);
            }
            let rhs = match parse_expr(lexer, r_bp) {
                Ok(e) => e,
                Err(m) => return Err(m),
            };
            Expr::UnOp(op, Box::new(rhs))
        },
        t => return Err(unexpected_message(t)),
    };
    loop
        invariant
            ts == old(lexer)@,
            lexer.wf(),
            lexer@.len() < ts.len(),
            parse_infix(left, lexer@, min_bp) == parse_prefix(ts, min_bp),
        ensures
            parse_prefix(ts, min_bp) == Ok::<(Expr, Seq<Token>), (ParseFailure, Seq<Token>)>(
                (left, lexer@),
            ),
        decreases lexer@.len(),
    {
        let op = lexer.peek();
        if op == Token::Eof || op == Token::RParen {
            break;
        }
        match infix_binding_power(op) {
            Some((l_bp, r_bp)) => {
                if l_bp < min_bp {
                    break;
                }
                let ghost before = lexer@;
                lexer.next();
                proof {
                    lemma_parse_shrinks(before.drop_first(), r_bp);
                }
                let rhs = match parse_expr(lexer, r_bp) {
                    Ok(e) => e,
                    Err(m) => return Err(m),
                };
                left = Expr::BinOp(op, Box::new(left), Box::new(rhs));
            },
            None => {
                break;
            },
        }
    }
    Ok(left)
}

// ---------------------------------------------------------------------------
// Evaluation
// ---------------------------------------------------------------------------

/// Why an evaluation failed.
#[derive(Debug, Clone, Copy, PartialEq, Eq, Structural)]
pub enum EvalFailure {
    Overflow,
    DivideByZero,
    InvalidOperator,
    InvalidTree,
}

pub open spec fn eval_failure_message(f: EvalFailure) -> Seq<char> {
    match f {
        EvalFailure::Overflow => "integer overflow"@,
        EvalFailure::DivideByZero => "you cant divide by zero"@,
        EvalFailure::InvalidOperator => "invalid operator"@,
        EvalFailure::InvalidTree => "invalid tree"@,
    }
}

pub open spec fn fits_i64(x: int) -> bool {
    i64::MIN <= x <= i64::MAX
}

/// Integer division rounding toward zero, as Rust's `/` does.
pub open spec fn trunc_div(a: int, b: int) -> int {
    if a == 0 {
        0
    } else if a > 0 && b > 0 {
        a / b
    } else if a < 0 && b < 0 {
        (a * -1) / (b * -1)
    } else if a < 0 {
        ((a * -1) / b) * -1
    } else {
        (a / (b * -1)) * -1
    }
}

pub open spec fn checked(x: int) -> Result<int, EvalFailure> {
    if fits_i64(x) {
        Ok(x)
    } else {
        Err(EvalFailure::Overflow)
    }
}

/// The value of an expression in exact integer arithmetic, failing when any
/// intermediate result leaves the `i64` range, on division by zero, and on an
/// operator that does not belong in its place.
pub open spec fn eval_spec(e: Expr) -> Result<int, EvalFailure>
    decreases e,
{
    match e {
        Expr::Atom(v) => Ok(v as int),
        Expr::UnOp(op, rhs) => match op {
            Token::Minus => match eval_spec(*rhs) {
                Ok(x) => checked(-x),
                Err(f) => Err(f),
            },
            Token::Plus => eval_spec(*rhs),
            _ => Err(EvalFailure::InvalidTree),
        },
        Expr::BinOp(op, lhs, rhs) => match eval_spec(*lhs) {
            Err(f) => Err(f),
            Ok(a) => match eval_spec(*rhs) {
                Err(f) => Err(f),
                Ok(b) => match op {
                    Token::Plus => checked(a + b),
                    Token::Minus => checked(a - b),
                    Token::Star => checked(a * b),
                    Token::Slash => if b == 0 {
                        Err(EvalFailure::DivideByZero)
                    } else {
                        checked(trunc_div(a, b))
                    },
                    _ => Err(EvalFailure::InvalidOperator),
                },
            },
        },
    }
}

/// A calculation that succeeds gives a value of `i64`.
pub proof fn lemma_calculation_in_range(s: Seq<char>)
    ensures
        calculation(s) matches Ok(v) ==> fits_i64(v),
{
    match parse_prefix(lex(s), 0) {
        Ok((ast, _)) => lemma_eval_in_range(ast),
        Err(_) => {},
    }
}

proof fn lemma_eval_in_range(e: Expr)
    ensures
        eval_spec(e) matches Ok(x) ==> fits_i64(x),
    decreases e,
{
    match e {
        Expr::Atom(_) => {},
        Expr::UnOp(_, rhs) => {
            lemma_eval_in_range(*rhs);
        },
        Expr::BinOp(_, lhs, rhs) => {
            lemma_eval_in_range(*lhs);
            lemma_eval_in_range(*rhs);
        },
    }
}

fn eval_failure_string(f: EvalFailure) -> (r: String)
    ensures
        r@ == eval_failure_message(f),
{
    match f {
        EvalFailure::Overflow => owned("integer overflow"),
        EvalFailure::DivideByZero => owned("you cant divide by zero"),
        EvalFailure::InvalidOperator => owned("invalid operator"),
        EvalFailure::InvalidTree => owned("invalid tree"),
    }
}

#[verifier::rlimit(40)]
fn eval_inner(expr: &Expr) -> (r: Result<i64, EvalFailure>)
    ensures
        eval_spec(*expr) matches Ok(x) ==> fits_i64(x),
        match eval_spec(*expr) {
            Ok(x) => r == Ok::<i64, EvalFailure>(x as i64),
            Err(f) => r == Err::<i64, EvalFailure>(f),
        },
    decreases expr,
{
    proof {
        lemma_eval_in_range(*expr);
    }
    match expr {
        Expr::Atom(val) => {
            Ok(*val)
        },
        Expr::UnOp(op, rhs) => {
            let r: Result<i64, EvalFailure> = match op {
                Token::Minus => {
                    match eval_inner(&**rhs) {
                        Ok(x) => {
                            if x == i64::MIN {
                                Err(EvalFailure::Overflow)
                            } else {
                                Ok(-x)
                            }
                        },
                        Err(f) => Err(f),
                    }
                },
                Token::Plus => eval_inner(&**rhs),
                _ => Err(EvalFailure::InvalidTree),
            };
            r
        },
        Expr::BinOp(op, lhs, rhs) => {
            let ra = eval_inner(&**lhs);
            let a = match ra {
                Ok(x) => x,
                Err(f) => return Err(f),
            };
            let rb = eval_inner(&**rhs);
            let b = match rb {
                Ok(x) => x,
                Err(f) => return Err(f),
            };
            let r: Result<i64, EvalFailure> = match op {
                Token::Plus => match a.checked_add(b) {
                    Some(v) => Ok(v),
                    None => Err(EvalFailure::Overflow),
                },
                Token::Minus => match a.checked_sub(b) {
                    Some(v) => Ok(v),
                    None => Err(EvalFailure::Overflow),
                },
                Token::Star => match a.checked_mul(b) {
                    Some(v) => Ok(v),
                    None => Err(EvalFailure::Overflow),
                },
                Token::Slash => {
                    if b == 0 {
                        Err(EvalFailure::DivideByZero)
                    } else {
                        match a.checked_div(b) {
                            Some(v) => Ok(v),
                            None => Err(EvalFailure::Overflow),
                        }
                    }
                },
                _ => Err(EvalFailure::InvalidOperator),
            };
            r
        },
    }
}

/// Evaluates an expression with checked `i64` arithmetic.
pub fn eval(expr: &Expr) -> (r: Result<i64, String>)
    ensures
        match eval_spec(*expr) {
            Ok(x) => r == Ok::<i64, String>(x as i64),
            Err(f) => r matches Err(m) && m@ == eval_failure_message(f),
        },
{
    match eval_inner(expr) {
        Ok(v) => Ok(v),
        Err(f) => Err(eval_failure_string(f)),
    }
}

// ---------------------------------------------------------------------------
// The calculator
// ---------------------------------------------------------------------------

/// What the calculator answers for an input: the value, or the message of
/// the first failure (parse, trailing tokens, evaluation).
pub open spec fn calculation(s: Seq<char>) -> Result<int, Seq<char>> {
    match parse_prefix(lex(s), 0) {
        Err((f, _)) => Err(parse_failure_message(f)),
        Ok((ast, rest)) => if peek_token(rest) != Token::Eof {
            Err("unexpected trailing input"@)
        } else {
            match eval_spec(ast) {
                Ok(v) => Ok(v),
                Err(f) => Err(eval_failure_message(f)),
            }
        },
    }
}

/// Evaluates an integer expression written with `+ - * /`, parentheses and
/// unary signs.
#[verifier::rlimit(40)]
pub fn calculate(input: &str) -> (r: Result<i64, String>)
    ensures
        match calculation(input@) {
            Ok(v) => r == Ok::<i64, String>(v as i64),
            Err(m) => r matches Err(e) && e@ == m,
        },
{
    let mut lexer = Lexer::new(input);
    let ast = match parse_expr(&mut lexer, 0) {
        Ok(e) => e,
        Err(m) => return Err(m),
    };
    if lexer.peek() != Token::Eof {
        return Err(owned("unexpected trailing input"));
    }
    eval(&ast)
}


// ---------------------------------------------------------------------------
// Laws
// ---------------------------------------------------------------------------

/// A character the calculator knows: a blank, a digit, an operator or a parenthesis.
pub open spec fn known_char(c: char) -> bool {
    is_blank(c) || is_digit(c) || c == '+' || c == '-' || c == '*' || c == '/' || c == '('
        || c == ')'
}

/// No `Invalid` among the first `n` tokens.
pub open spec fn valid_upto(ts: Seq<Token>, n: int) -> bool {
    forall|i: int| 0 <= i < n ==> #[trigger] ts[i] != Token::Invalid
}

/// A successful parse leaves a suffix of its input and has read no `Invalid` token.
proof fn lemma_parse_reads_valid(ts: Seq<Token>, min_bp: u8)
    ensures
        parse_prefix(ts, min_bp) matches Ok((_, r)) ==> r.len() <= ts.len() && r == ts.skip(
            ts.len() - r.len(),
        ) && valid_upto(ts, ts.len() - r.len()),
    decreases ts.len(), 1nat,
{
    lemma_parse_shrinks(ts, min_bp);
    if ts.len() > 0 {
        let rest = ts.drop_first();
        match ts[0] {
            Token::Atom(v) => {
                lemma_infix_reads_valid(Expr::Atom(v), rest, min_bp);
                lemma_valid_shift(ts, parse_prefix(ts, min_bp));
            },
            Token::LParen => {
                lemma_parse_reads_valid(rest, 0);
                match parse_prefix(rest, 0) {
                    Ok((e, r)) => {
                        if peek_token(r) == Token::RParen && r.len() < ts.len() {
                            lemma_infix_reads_valid(e, r.drop_first(), min_bp);
                            match parse_infix(e, r.drop_first(), min_bp) {
                                Ok((_, r2)) => {
                                    assert forall|i: int| 0 <= i < ts.len() - r2.len() implies #[trigger] ts[i]
                                        != Token::Invalid by {
                                        if i > 0 && i - 1 < rest.len() - r.len() {
                                            assert(ts[i] == rest[i - 1]);
                                        } else if i > 0 && i - 1 == rest.len() - r.len() {
                                            assert(ts[i] == r[0]);
                                        } else if i > 0 {
                                            let k = i - 1 - (rest.len() - r.len()) - 1;
                                            assert(ts[i] == r.drop_first()[k]);
                                        }
                                    }
                                    assert(r2 == ts.skip(ts.len() - r2.len()));
                                },
                                _ => {},
                            }
                        }
                    },
                    _ => {},
                }
            },
            Token::Minus | Token::Plus => {
                let op = ts[0];
                lemma_parse_reads_valid(rest, 5);
                match parse_prefix(rest, 5) {
                    Ok((e, r)) => {
                        if r.len() < ts.len() {
                            lemma_infix_reads_valid(Expr::UnOp(op, Box::new(e)), r, min_bp);
                            match parse_infix(Expr::UnOp(op, Box::new(e)), r, min_bp) {
                                Ok((_, r2)) => {
                                    assert forall|i: int| 0 <= i < ts.len() - r2.len() implies #[trigger] ts[i]
                                        != Token::Invalid by {
                                        if i > 0 && i - 1 < rest.len() - r.len() {
                                            assert(ts[i] == rest[i - 1]);
                                        } else if i > 0 {
                                            let k = i - 1 - (rest.len() - r.len());
                                            assert(ts[i] == r[k]);
                                        }
                                    }
                                    assert(r2 == ts.skip(ts.len() - r2.len()));
                                },
                                _ => {},
                            }
                        }
                    },
                    _ => {},
                }
            },
            _ => {},
        }
    }
}

/// A successful parse starting with one token taken reads a valid prefix.
proof fn lemma_valid_shift(ts: Seq<Token>, o: ParseOutcome)
    requires
        ts.len() > 0,
        ts[0] != Token::Invalid,
        o matches Ok((_, r)) ==> r.len() <= ts.len() - 1 && r == ts.drop_first().skip(
            ts.len() - 1 - r.len(),
        ) && valid_upto(ts.drop_first(), ts.len() - 1 - r.len()),
    ensures
        o matches Ok((_, r)) ==> r.len() <= ts.len() && r == ts.skip(ts.len() - r.len())
            && valid_upto(ts, ts.len() - r.len()),
{
    match o {
        Ok((_, r)) => {
            assert forall|i: int| 0 <= i < ts.len() - r.len() implies #[trigger] ts[i]
                != Token::Invalid by {
                if i > 0 {
                    assert(ts[i] == ts.drop_first()[i - 1]);
                }
            }
            assert(r == ts.skip(ts.len() - r.len()));
        },
        _ => {},
    }
}

proof fn lemma_infix_reads_valid(left: Expr, ts: Seq<Token>, min_bp: u8)
    ensures
        parse_infix(left, ts, min_bp) matches Ok((_, r)) ==> r.len() <= ts.len() && r == ts.skip(
            ts.len() - r.len(),
        ) && valid_upto(ts, ts.len() - r.len()),
    decreases ts.len(), 0nat,
{
    let op = peek_token(ts);
    if op == Token::Eof || op == Token::RParen {
        assert(ts.skip(0) == ts);
    } else {
        match infix_bp(op) {
            Some((l_bp, r_bp)) => if l_bp >= min_bp {
                let rest = ts.drop_first();
                lemma_parse_reads_valid(rest, r_bp);
                match parse_prefix(rest, r_bp) {
                    Ok((rhs, r)) => {
                        if r.len() < ts.len() {
                            let next = Expr::BinOp(op, Box::new(left), Box::new(rhs));
                            lemma_infix_reads_valid(next, r, min_bp);
                            match parse_infix(next, r, min_bp) {
                                Ok((_, r2)) => {
                                    assert forall|i: int| 0 <= i < ts.len() - r2.len() implies #[trigger] ts[i]
                                        != Token::Invalid by {
                                        if i > 0 && i - 1 < rest.len() - r.len() {
                                            assert(ts[i] == rest[i - 1]);
                                        } else if i > 0 {
                                            let k = i - 1 - (rest.len() - r.len());
                                            assert(ts[i] == r[k]);
                                        }
                                    }
                                    assert(r2 == ts.skip(ts.len() - r2.len()));
                                },
                                _ => {},
                            }
                        }
                    },
                    _ => {},
                }
            } else {
                assert(ts.skip(0) == ts);
            },
            None => {
                assert(ts.skip(0) == ts);
            },
        }
    }
}

/// Lexing never produces `Eof`, and produces `Invalid` for an unknown character.
proof fn lemma_lex_tokens(s: Seq<char>)
    ensures
        forall|i: int| 0 <= i < lex(s).len() ==> #[trigger] lex(s)[i] != Token::Eof,
        (exists|j: int| 0 <= j < s.len() && !known_char(#[trigger] s[j])) ==> lex(s).contains(
            Token::Invalid,
        ),
    decreases s.len(),
{
    if s.len() > 0 {
        let c = s[0];
        if is_blank(c) {
            lemma_lex_tokens(s.drop_first());
            if exists|j: int| 0 <= j < s.len() && !known_char(#[trigger] s[j]) {
                let j = choose|j: int| 0 <= j < s.len() && !known_char(#[trigger] s[j]);
                assert(s.drop_first()[j - 1] == s[j]);
            }
        } else if is_digit(c) {
            let k = digit_run(s);
            lemma_digit_run(s);
            lemma_lex_tokens(s.skip(k as int));
            let t = seq![number_token(s.take(k as int))];
            assert forall|i: int| 0 <= i < lex(s).len() implies #[trigger] lex(s)[i] != Token::Eof by {
                if i > 0 {
                    assert(lex(s)[i] == lex(s.skip(k as int))[i - 1]);
                }
            }
            if exists|j: int| 0 <= j < s.len() && !known_char(#[trigger] s[j]) {
                let j = choose|j: int| 0 <= j < s.len() && !known_char(#[trigger] s[j]);
                assert(j >= k);
                assert(s.skip(k as int)[j - k] == s[j]);
                let w = choose|w: int|
                    0 <= w < lex(s.skip(k as int)).len() && lex(s.skip(k as int))[w]
                        == Token::Invalid;
                assert(lex(s)[w + 1] == Token::Invalid);
            }
        } else {
            lemma_lex_tokens(s.drop_first());
            assert forall|i: int| 0 <= i < lex(s).len() implies #[trigger] lex(s)[i] != Token::Eof by {
                if i > 0 {
                    assert(lex(s)[i] == lex(s.drop_first())[i - 1]);
                }
            }
            if !known_char(c) {
                assert(lex(s)[0] == Token::Invalid);
            } else if exists|j: int| 0 <= j < s.len() && !known_char(#[trigger] s[j]) {
                let j = choose|j: int| 0 <= j < s.len() && !known_char(#[trigger] s[j]);
                assert(s.drop_first()[j - 1] == s[j]);
                let w = choose|w: int|
                    0 <= w < lex(s.drop_first()).len() && lex(s.drop_first())[w] == Token::Invalid;
                assert(lex(s)[w + 1] == Token::Invalid);
            }
        }
    }
}

/// The calculator rejects every input that holds a character other than a
/// blank, an ASCII digit, `+`, `-`, `*`, `/`, `(` or `)`.
#[verifier::rlimit(40)]
pub proof fn law_unknown_character_rejected(s: Seq<char>, j: int)
    requires
        0 <= j < s.len(),
        !known_char(s[j]),
    ensures
        calculation(s) is Err,
{
    lemma_lex_tokens(s);
    let ts = lex(s);
    let w = choose|w: int| 0 <= w < ts.len() && ts[w] == Token::Invalid;
    lemma_parse_reads_valid(ts, 0);
    match parse_prefix(ts, 0) {
        Ok((_, r)) => {
            if r.len() == 0 {
                assert(ts[w] != Token::Invalid);
            } else {
                assert(r[0] == ts[ts.len() - r.len()]);
            }
        },
        _ => {},
    }
}

/// The calculator rejects every input whose tokens include an `Invalid` one: an
/// unknown character or a number too large for `i64`.
#[verifier::rlimit(40)]
pub proof fn law_invalid_token_rejected(s: Seq<char>)
    requires
        lex(s).contains(Token::Invalid),
    ensures
        calculation(s) is Err,
{
    lemma_lex_tokens(s);
    let ts = lex(s);
    let w = choose|w: int| 0 <= w < ts.len() && ts[w] == Token::Invalid;
    lemma_parse_reads_valid(ts, 0);
    match parse_prefix(ts, 0) {
        Ok((_, r)) => {
            if r.len() == 0 {
                assert(ts[w] != Token::Invalid);
            } else {
                assert(r[0] == ts[ts.len() - r.len()]);
            }
        },
        _ => {},
    }
}

/// The tokens of a number written in decimal: the number, when it fits.
proof fn lemma_lex_number(m: nat)
    requires
        m <= i64::MAX,
    ensures
        lex(decimal_digits(m)) == seq![Token::Atom(m as i64)],
{
    let ds = decimal_digits(m);
    crate::text::lemma_decimal_roundtrip(m);
    assert(is_digit(ds[0]));
    lemma_digit_run_unique(ds, ds.len() as int);
    assert(ds.take(ds.len() as int) == ds);
    assert(ds.skip(ds.len() as int) == Seq::<char>::empty());
    assert(!is_blank(ds[0]));
    assert(lex(Seq::<char>::empty()) == Seq::<Token>::empty());
    assert(lex(ds) == seq![number_token(ds)] + Seq::<Token>::empty());
}

/// Law: the calculator reads back every number it prints, all of `i64`
/// but its minimum (whose digits alone do not fit in an `i64`).
pub proof fn law_reads_printed_numbers(n: int)
    requires
        i64::MIN < n <= i64::MAX,
    ensures
        calculation(signed_decimal(n)) == Ok::<int, Seq<char>>(n),
{
    let empty = Seq::<Token>::empty();
    if n >= 0 {
        lemma_lex_number(n as nat);
        let ts = seq![Token::Atom(n as i64)];
        assert(ts.drop_first() == empty);
        assert(parse_infix(Expr::Atom(n as i64), empty, 0) == Ok::<(Expr, Seq<Token>), (ParseFailure, Seq<Token>)>((Expr::Atom(n as i64), empty)));
        assert(parse_prefix(ts, 0) == Ok::<(Expr, Seq<Token>), (ParseFailure, Seq<Token>)>((Expr::Atom(n as i64), empty)));
    } else {
        let m = (-n) as nat;
        lemma_lex_number(m);
        let s = signed_decimal(n);
        assert(s == seq!['-'] + decimal_digits(m));
        assert(s[0] == '-');
        assert(s.drop_first() == decimal_digits(m));
        assert(lex(s) == seq![Token::Minus] + lex(decimal_digits(m)));
        let ts = seq![Token::Minus, Token::Atom(m as i64)];
        assert(lex(s) == ts);
        let one = seq![Token::Atom(m as i64)];
        assert(ts.drop_first() == one);
        assert(one.drop_first() == empty);
        assert(parse_infix(Expr::Atom(m as i64), empty, 5) == Ok::<(Expr, Seq<Token>), (ParseFailure, Seq<Token>)>((Expr::Atom(m as i64), empty)));
        assert(parse_prefix(one, 5) == Ok::<(Expr, Seq<Token>), (ParseFailure, Seq<Token>)>((Expr::Atom(m as i64), empty)));
        let neg = Expr::UnOp(Token::Minus, Box::new(Expr::Atom(m as i64)));
        assert(parse_infix(neg, empty, 0) == Ok::<(Expr, Seq<Token>), (ParseFailure, Seq<Token>)>((neg, empty)));
        assert(parse_prefix(ts, 0) == Ok::<(Expr, Seq<Token>), (ParseFailure, Seq<Token>)>((neg, empty)));
        assert((m as i64) as int == m);
        assert(eval_spec(Expr::Atom(m as i64)) == Ok::<int, EvalFailure>(m as int));
        assert(checked(-(m as int)) == Ok::<int, EvalFailure>(n));
        assert(eval_spec(neg) == Ok::<int, EvalFailure>(n));
    }
}

/// Law: the next token is `Eof` exactly when no token is left, and from
/// then on taking a token changes nothing and gives `Eof` again.
pub proof fn law_eof_only_at_end(lexer: Lexer)
    requires
        lexer.wf(),
    ensures
        (peek_token(lexer@) == Token::Eof) == (lexer@.len() == 0),
        peek_token(lexer@) == Token::Eof ==> after_next(lexer@) == lexer@ && peek_token(
            after_next(lexer@),
        ) == Token::Eof,
{
    if lexer@.len() > 0 {
        assert(lexer@[0] != Token::Eof);
    }
}

/// Law: the tokens of any input hold no `Eof`.
pub proof fn law_lex_has_no_eof(s: Seq<char>)
    ensures
        no_eof(lex(s)),
{
    lemma_lex_tokens(s);
}

/// The tokens of a number followed by text that does not start with a digit.
proof fn lemma_lex_number_then(m: nat, rest: Seq<char>)
    requires
        m <= i64::MAX,
        rest.len() > 0 ==> !is_digit(rest[0]),
    ensures
        lex(decimal_digits(m) + rest) == seq![Token::Atom(m as i64)] + lex(rest),
{
    let ds = decimal_digits(m);
    let s = ds + rest;
    crate::text::lemma_decimal_roundtrip(m);
    assert forall|i: int| 0 <= i < ds.len() implies is_digit(#[trigger] s[i]) by {
        assert(s[i] == ds[i]);
    }
    if ds.len() < s.len() {
        assert(s[ds.len() as int] == rest[0]);
    }
    lemma_digit_run_unique(s, ds.len() as int);
    assert(s[0] == ds[0]);
    assert(!is_blank(s[0]));
    assert(s.take(ds.len() as int) == ds);
    assert(s.skip(ds.len() as int) == rest);
}

/// The tokens of ` op ` followed by more text.
proof fn lemma_lex_operator(op: char, rest: Seq<char>)
    requires
        op == '+' || op == '-',
    ensures
        lex(seq![' ', op, ' '] + rest) == seq![single_token(op)] + lex(rest),
{
    let s = seq![' ', op, ' '] + rest;
    let s1 = seq![op, ' '] + rest;
    let s2 = seq![' '] + rest;
    assert(s.len() > 0 && s[0] == ' ' && is_blank(s[0]));
    assert(s.drop_first() == s1);
    assert(lex(s) == lex(s1));
    assert(s1.len() > 0 && s1[0] == op);
    assert(!is_blank(op) && !is_digit(op));
    assert(s1.drop_first() == s2);
    assert(lex(s1) == seq![single_token(op)] + lex(s2));
    assert(s2.len() > 0 && s2[0] == ' ' && is_blank(s2[0]));
    assert(s2.drop_first() == rest);
    assert(lex(s2) == lex(rest));
}

/// An operator that adds or subtracts.
pub open spec fn additive(op: Token) -> bool {
    op == Token::Plus || op == Token::Minus
}

/// `a op1 b op2 c` with additive operators parses as `(a op1 b) op2 c`.
proof fn lemma_parse_left_grouped(a: i64, op1: Token, b: i64, op2: Token, c: i64)
    requires
        additive(op1),
        additive(op2),
    ensures
        parse_prefix(seq![Token::Atom(a), op1, Token::Atom(b), op2, Token::Atom(c)], 0) == Ok::<
            (Expr, Seq<Token>),
            (ParseFailure, Seq<Token>),
        >(
            (
                Expr::BinOp(
                    op2,
                    Box::new(Expr::BinOp(op1, Box::new(Expr::Atom(a)), Box::new(Expr::Atom(b)))),
                    Box::new(Expr::Atom(c)),
                ),
                Seq::empty(),
            ),
        ),
{
    let e = Seq::<Token>::empty();
    let t5 = seq![Token::Atom(a), op1, Token::Atom(b), op2, Token::Atom(c)];
    let t4 = seq![op1, Token::Atom(b), op2, Token::Atom(c)];
    let t3 = seq![Token::Atom(b), op2, Token::Atom(c)];
    let t2 = seq![op2, Token::Atom(c)];
    let t1 = seq![Token::Atom(c)];
    assert(t5.drop_first() == t4);
    assert(t4.drop_first() == t3);
    assert(t3.drop_first() == t2);
    assert(t2.drop_first() == t1);
    assert(t1.drop_first() == e);
    let ea = Expr::Atom(a);
    let eb = Expr::Atom(b);
    let ec = Expr::Atom(c);
    let ab = Expr::BinOp(op1, Box::new(ea), Box::new(eb));
    let abc = Expr::BinOp(op2, Box::new(ab), Box::new(ec));
    // c on its own, at power 2
    assert(parse_infix(ec, e, 2) == Ok::<(Expr, Seq<Token>), (ParseFailure, Seq<Token>)>((ec, e)));
    assert(parse_prefix(t1, 2) == Ok::<(Expr, Seq<Token>), (ParseFailure, Seq<Token>)>((ec, e)));
    // b stops before op2: its left power 1 is below 2
    assert(parse_infix(eb, t2, 2) == Ok::<(Expr, Seq<Token>), (ParseFailure, Seq<Token>)>((eb, t2)));
    assert(parse_prefix(t3, 2) == Ok::<(Expr, Seq<Token>), (ParseFailure, Seq<Token>)>((eb, t2)));
    assert(parse_infix(abc, e, 0) == Ok::<(Expr, Seq<Token>), (ParseFailure, Seq<Token>)>((abc, e)));
    assert(parse_infix(ab, t2, 0) == Ok::<(Expr, Seq<Token>), (ParseFailure, Seq<Token>)>((abc, e)));
    assert(parse_infix(ea, t4, 0) == Ok::<(Expr, Seq<Token>), (ParseFailure, Seq<Token>)>((abc, e)));
}

/// The text `a op1 b op2 c` of three numbers and two of `+`, `-`.
pub open spec fn three_terms(a: nat, op1: char, b: nat, op2: char, c: nat) -> Seq<char> {
    decimal_digits(a) + seq![' ', op1, ' '] + decimal_digits(b) + seq![' ', op2, ' ']
        + decimal_digits(c)
}

/// `x + y` or `x - y` as integers.
pub open spec fn apply_additive(op: char, x: int, y: int) -> int {
    if op == '+' {
        x + y
    } else {
        x - y
    }
}

/// Law: addition and subtraction group to the left: `a - b - c` is
/// `(a - b) - c`, `a - b + c` is `(a - b) + c`, and so for every mix of the
/// two, when the numbers and the results along the way fit in an `i64`.
pub proof fn law_additive_groups_left(a: nat, op1: char, b: nat, op2: char, c: nat)
    requires
        op1 == '+' || op1 == '-',
        op2 == '+' || op2 == '-',
        a <= i64::MAX,
        b <= i64::MAX,
        c <= i64::MAX,
        fits_i64(apply_additive(op1, a as int, b as int)),
        fits_i64(apply_additive(op2, apply_additive(op1, a as int, b as int), c as int)),
    ensures
        calculation(three_terms(a, op1, b, op2, c)) == Ok::<int, Seq<char>>(
            apply_additive(op2, apply_additive(op1, a as int, b as int), c as int),
        ),
{
    let dc = decimal_digits(c);
    let r2 = seq![' ', op2, ' '] + dc;
    let db = decimal_digits(b);
    let r1 = seq![' ', op1, ' '] + db + r2;
    let da = decimal_digits(a);
    assert(three_terms(a, op1, b, op2, c) == da + r1);
    lemma_lex_number_then(c, Seq::empty());
    assert(dc + Seq::<char>::empty() == dc);
    assert(lex(Seq::<char>::empty()) == Seq::<Token>::empty());
    lemma_lex_operator(op2, dc);
    assert(r2[0] == ' ');
    lemma_lex_number_then(b, r2);
    lemma_lex_operator(op1, db + r2);
    assert(seq![' ', op1, ' '] + (db + r2) == r1);
    assert(r1[0] == ' ');
    lemma_lex_number_then(a, r1);
    let t1 = single_token(op1);
    let t2 = single_token(op2);
    let ts = seq![Token::Atom(a as i64), t1, Token::Atom(b as i64), t2, Token::Atom(c as i64)];
    assert(lex(da + r1) == ts);
    lemma_parse_left_grouped(a as i64, t1, b as i64, t2, c as i64);
    assert((a as i64) as int == a);
    assert((b as i64) as int == b);
    assert((c as i64) as int == c);
    let ab = Expr::BinOp(t1, Box::new(Expr::Atom(a as i64)), Box::new(Expr::Atom(b as i64)));
    assert(eval_spec(Expr::Atom(a as i64)) == Ok::<int, EvalFailure>(a as int));
    assert(eval_spec(Expr::Atom(b as i64)) == Ok::<int, EvalFailure>(b as int));
    assert(eval_spec(Expr::Atom(c as i64)) == Ok::<int, EvalFailure>(c as int));
    assert(eval_spec(ab) == Ok::<int, EvalFailure>(apply_additive(op1, a as int, b as int)));
}

} // verus!
