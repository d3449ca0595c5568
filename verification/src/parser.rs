//! The parser: from tokens to an expression tree.
//!
//! A recursive-descent parser, one function for each rule of the grammar.
//! Each function reads an expression at the start of a token slice and gives
//! it back with the tokens that follow it, so that a caller can go on from
//! there. The input is never changed; the first error ends the parse.
//! `Parser` offers the same over a sequence that it owns, with a cursor.

use crate::expr::Expr;
use crate::grammar::{after, extended, join, lemma_after_after, lemma_well_formed_after};
use crate::grammar::{lemma_parse_binary, lemma_parse_primary, lemma_parse_unary};
use crate::grammar::{parse_binary, parse_chain, sound, stopped, success};
use crate::grammar::{parse_expression, parse_operand, parse_primary, parse_unary, Level};
use crate::grammar::{ParseErrorView, Parsed};
use crate::text::push_decimal;
use crate::token::{all_well_formed, ends_with_eof, is_terminated, token_views, Token};
use crate::token::{TokenType, TokenView};
use vstd::prelude::*;
use vstd::slice::slice_subrange;
use vstd::string::StringExecFns;

verus! {

/// Why a token sequence is no expression: the token at which parsing
/// stopped, its line, and a message.
#[derive(Debug, PartialEq, Eq)]
pub struct ParseError {
    line: usize,
    token: Token,
    message: String,
}

impl View for ParseError {
    type V = ParseErrorView;

    closed spec fn view(&self) -> ParseErrorView {
        ParseErrorView { line: self.line as nat, token: self.token@, message: self.message@ }
    }
}

impl ParseError {
    /// The error that stops parsing at `token`, on line `line`.
    pub fn new(line: usize, token: Token, message: String) -> (r: Self)
        ensures
            r@ == (ParseErrorView { line: line as nat, token: token@, message: message@ }),
    {
        Self { line, token, message }
    }

    /// The line of the token at which parsing stopped.
    pub fn line(&self) -> (r: usize)
        ensures
            r == self@.line,
    {
        self.line
    }

    /// The token at which parsing stopped.
    pub fn token(&self) -> (r: &Token)
        ensures
            r@ == self@.token,
    {
        &self.token
    }

    /// What the parser expected.
    pub fn message(&self) -> (r: &str)
        ensures
            r@ == self@.message,
    {
        self.message.as_str()
    }

    /// The text of the error.
    pub fn to_string(&self) -> (out: String)
        ensures
            out@ == self@.describe(),
    {
        let mut out = String::from_str("[line ");
        push_decimal(&mut out, self.line);
        out.append("][token ");
        out.append(self.token.to_string().as_str());
        out.append("] ");
        out.append(self.message.as_str());
        out
    }
}

/// What a parsing function returns.
pub type PResult<T> = Result<T, ParseError>;

/// Whether `r` is what `expected` says for `tokens`: the same tree, with
/// the tokens that it was not made from, or the same error. A tree is made
/// from at least one token and never from the last one, so that the tokens
/// after it end with the end-of-input token as `tokens` do. Where the
/// tokens are well formed the tree can be printed, and the tokens after
/// it are well formed too.
pub open spec fn agrees(
    r: PResult<(Expr, &[Token])>,
    tokens: Seq<Token>,
    expected: Parsed,
) -> bool {
    match expected {
        Ok((tree, n)) => {
            &&& r matches Ok((expr, rest))
            &&& expr@ == tree
            &&& 0 < n < tokens.len()
            &&& rest@ =~= tokens.skip(n as int)
            &&& ends_with_eof(token_views(rest@))
            &&& all_well_formed(token_views(tokens)) ==> tree.printable() && all_well_formed(
                token_views(rest@),
            )
        },
        Err(error) => r matches Err(e) && e@ == error,
    }
}

/// The views of the tokens after the first `n` are the views after the
/// first `n`.
pub proof fn lemma_views_after(tokens: Seq<Token>, n: nat)
    requires
        n <= tokens.len(),
    ensures
        token_views(tokens.skip(n as int)) == after(token_views(tokens), n),
        token_views(tokens).len() == tokens.len(),
        forall|i: int| 0 <= i < tokens.len() ==> (#[trigger] token_views(tokens)[i]) == tokens[i]@,
{
    assert(token_views(tokens.skip(n as int)) =~= after(token_views(tokens), n));
}

/// The tokens after the first.
fn tail<'a>(tokens: &'a [Token]) -> (rest: &'a [Token])
    requires
        ends_with_eof(token_views(tokens@)),
        tokens@[0].type_ != TokenType::Eof,
    ensures
        rest@ == tokens@.skip(1),
        token_views(rest@) == after(token_views(tokens@), 1),
        ends_with_eof(token_views(rest@)),
        rest@.len() == tokens@.len() - 1,
        all_well_formed(token_views(tokens@)) ==> all_well_formed(token_views(rest@)),
{
    proof {
        lemma_views_after(tokens@, 1);
        if all_well_formed(token_views(tokens@)) {
            lemma_well_formed_after(token_views(tokens@), 1);
        }
    }
    slice_subrange(tokens, 1, tokens.len())
}

/// Parses an expression at the start of `tokens`. Gives the tree and
/// the tokens that follow it, or the first error.
pub fn expression<'a>(tokens: &'a [Token]) -> (r: PResult<(Expr, &'a [Token])>)
    requires
        ends_with_eof(token_views(tokens@)),
    ensures
        agrees(r, tokens@, parse_expression(token_views(tokens@))),
    decreases tokens@.len(), 14nat,
{
    equality(tokens)
}

/// equality -> comparison ( ( "!=" | "==" ) comparison )*
pub fn equality<'a>(tokens: &'a [Token]) -> (r: PResult<(Expr, &'a [Token])>)
    requires
        ends_with_eof(token_views(tokens@)),
    ensures
        agrees(r, tokens@, parse_binary(Level::Equality, token_views(tokens@))),
    decreases tokens@.len(), 13nat,
{
    binary(Level::Equality, tokens)
}

/// comparison -> term ( ( ">" | ">=" | "<" | "<=" ) term )*
pub fn comparison<'a>(tokens: &'a [Token]) -> (r: PResult<(Expr, &'a [Token])>)
    requires
        ends_with_eof(token_views(tokens@)),
    ensures
        agrees(r, tokens@, parse_binary(Level::Comparison, token_views(tokens@))),
    decreases tokens@.len(), 10nat,
{
    binary(Level::Comparison, tokens)
}

/// term -> factor ( ( "-" | "+" ) factor )*
pub fn term<'a>(tokens: &'a [Token]) -> (r: PResult<(Expr, &'a [Token])>)
    requires
        ends_with_eof(token_views(tokens@)),
    ensures
        agrees(r, tokens@, parse_binary(Level::Term, token_views(tokens@))),
    decreases tokens@.len(), 7nat,
{
    binary(Level::Term, tokens)
}

/// factor -> unary ( ( "/" | "*" ) unary )*
pub fn factor<'a>(tokens: &'a [Token]) -> (r: PResult<(Expr, &'a [Token])>)
    requires
        ends_with_eof(token_views(tokens@)),
    ensures
        agrees(r, tokens@, parse_binary(Level::Factor, token_views(tokens@))),
    decreases tokens@.len(), 4nat,
{
    binary(Level::Factor, tokens)
}

/// Parses an operand of the operators of `level`.
fn operand<'a>(level: Level, tokens: &'a [Token]) -> (r: PResult<(Expr, &'a [Token])>)
    requires
        ends_with_eof(token_views(tokens@)),
    ensures
        agrees(r, tokens@, parse_operand(level, token_views(tokens@))),
    decreases tokens@.len(), 2 + 3 * level.rank(),
{
    match level {
        Level::Equality => comparison(tokens),
        Level::Comparison => term(tokens),
        Level::Term => factor(tokens),
        Level::Factor => unary(tokens),
    }
}

/// Parses operands of `level` and folds them to the left, operator by
/// operator.
fn binary<'a>(level: Level, tokens: &'a [Token]) -> (r: PResult<(Expr, &'a [Token])>)
    requires
        ends_with_eof(token_views(tokens@)),
    ensures
        agrees(r, tokens@, parse_binary(level, token_views(tokens@))),
    decreases tokens@.len(), 3 + 3 * level.rank(),
{
    let ghost ts = token_views(tokens@);
    proof {
        lemma_parse_binary(level, ts);
    }
    let (mut expr, mut rest) = match operand(level, tokens) {
        Ok(parsed) => parsed,
        Err(error) => {
            return Err(error);
        },
    };
    proof {
        lemma_views_after(tokens@, (tokens@.len() - rest@.len()) as nat);
    }
    while level.accepts(rest[0].type_)
        invariant
            ts == token_views(tokens@),
            ends_with_eof(ts),
            0 < rest@.len() < tokens@.len(),
            rest@ == tokens@.skip(tokens@.len() - rest@.len()),
            token_views(rest@) == after(ts, (tokens@.len() - rest@.len()) as nat),
            all_well_formed(ts) ==> all_well_formed(token_views(rest@)),
            parse_binary(level, ts) == extended(
                parse_chain(level, expr@, token_views(rest@)),
                (tokens@.len() - rest@.len()) as nat,
            ),
        decreases rest@.len(),
    {
        let ghost used = (tokens@.len() - rest@.len()) as nat;
        let ghost here = token_views(rest@);
        proof {
            lemma_views_after(rest@, 0);
            assert(here[0] == rest@[0]@);
            assert(here.last() == ts.last());
        }
        let operator = rest[0].clone();
        let (right, tks) = match operand(level, tail(rest)) {
            Ok(parsed) => parsed,
            Err(error) => {
                return Err(error);
            },
        };
        proof {
            let n = (rest@.len() - 1 - tks@.len()) as nat;
            assert(parse_operand(level, after(here, 1)) == success(right@, n));
            assert(tks@ == rest@.skip(1 + n as int));
            assert(tks@ == tokens@.skip(used + 1 + n as int));
            lemma_views_after(rest@, 1 + n);
            lemma_views_after(tokens@, used + 1 + n);
        }
        expr = Expr::Binary { left: Box::new(expr), operator, right: Box::new(right) };
        rest = tks;
    }
    proof {
        lemma_views_after(rest@, 0);
    }
    Ok((expr, rest))
}

/// unary -> ( "!" | "-" ) unary | primary
pub fn unary<'a>(tokens: &'a [Token]) -> (r: PResult<(Expr, &'a [Token])>)
    requires
        ends_with_eof(token_views(tokens@)),
    ensures
        agrees(r, tokens@, parse_unary(token_views(tokens@))),
    decreases tokens@.len(), 1nat,
{
    proof {
        lemma_views_after(tokens@, 0);
        lemma_parse_unary(token_views(tokens@));
    }
    match tokens[0].type_ {
        TokenType::Bang | TokenType::Minus => {
            let operator = tokens[0].clone();
            match unary(tail(tokens)) {
                Ok((right, rest)) => {
                    proof {
                        lemma_views_after(tokens@, (tokens@.len() - rest@.len()) as nat);
                    }
                    Ok((Expr::Unary { operator, right: Box::new(right) }, rest))
                },
                Err(error) => Err(error),
            }
        },
        _ => primary(tokens),
    }
}

/// primary -> NUMBER | STRING | "true" | "false" | "nil" | "(" expression ")"
pub fn primary<'a>(tokens: &'a [Token]) -> (r: PResult<(Expr, &'a [Token])>)
    requires
        ends_with_eof(token_views(tokens@)),
    ensures
        agrees(r, tokens@, parse_primary(token_views(tokens@))),
    decreases tokens@.len(), 0nat,
{
    proof {
        lemma_views_after(tokens@, 0);
        lemma_parse_primary(token_views(tokens@));
    }
    let token = &tokens[0];
    match token.type_ {
        TokenType::False | TokenType::True | TokenType::Nil | TokenType::Number
        | TokenType::String_ => Ok((Expr::Literal { value: token.clone() }, tail(tokens))),
        TokenType::LeftParen => {
            match expression(tail(tokens)) {
                Ok((expr, rest)) => {
                    proof {
                        lemma_views_after(tokens@, (tokens@.len() - rest@.len()) as nat);
                        lemma_views_after(rest@, 0);
                    }
                    let next = &rest[0];
                    match next.type_ {
                        TokenType::RightParen => Ok(
                            (Expr::Grouping { expression: Box::new(expr) }, tail(rest)),
                        ),
                        TokenType::Eof => Err(
                            ParseError::new(
                                next.line,
                                next.clone(),
                                String::from_str("Expect a ')' token at end."),
                            ),
                        ),
                        _ => Err(
                            ParseError::new(
                                next.line,
                                next.clone(),
                                String::from_str("Expect a ')' token here."),
                            ),
                        ),
                    }
                },
                Err(error) => Err(error),
            }
        },
        _ => Err(
            ParseError::new(
                token.line,
                token.clone(),
                String::from_str("Cannot parse this token."),
            ),
        ),
    }
}

/// A parser that keeps its place in a token sequence, so that the
/// expressions of the sequence can be read one after another.
pub struct Parser {
    tokens: Vec<Token>,
    current: usize,
}

impl Parser {
    /// The tokens that the parser reads.
    pub closed spec fn tokens(&self) -> Seq<TokenView> {
        token_views(self.tokens@)
    }

    /// The number of tokens that have been read.
    pub closed spec fn position(&self) -> nat {
        self.current as nat
    }

    /// The tokens end with the end-of-input token and the parser stands
    /// at one of them.
    pub open spec fn well_formed(&self) -> bool {
        ends_with_eof(self.tokens()) && self.position() < self.tokens().len()
    }

    /// The tokens that have not been read.
    pub open spec fn ahead(&self) -> Seq<TokenView> {
        after(self.tokens(), self.position())
    }

    /// Whether `r` is what `expected` says for a parser that stood as
    /// `before` and stands as `self`: the tree, with its tokens read, or
    /// the error, with no token read.
    pub open spec fn follows(&self, before: Parser, r: PResult<Expr>, expected: Parsed) -> bool {
        &&& self.tokens() == before.tokens()
        &&& self.well_formed()
        &&& match expected {
            Ok((tree, n)) => {
                &&& r matches Ok(expr)
                &&& expr@ == tree
                &&& self.position() == before.position() + n
                &&& all_well_formed(before.tokens()) ==> tree.printable()
            },
            Err(error) => r matches Err(e) && e@ == error && self.position() == before.position(),
        }
    }

    /// A parser at the start of `tokens`.
    pub fn new(tokens: Vec<Token>) -> (r: Self)
        ensures
            r.tokens() == token_views(tokens@),
            r.position() == 0,
    {
        Self { tokens, current: 0 }
    }

    /// Whether the tokens end with the end-of-input token and the
    /// parser stands at one of them.
    pub fn is_well_formed(&self) -> (r: bool)
        ensures
            r == self.well_formed(),
    {
        is_terminated(self.tokens.as_slice()) && self.current < self.tokens.len()
    }

    /// expression -> equality
    pub fn expression(&mut self) -> (r: PResult<Expr>)
        requires
            old(self).well_formed(),
        ensures
            final(self).follows(*old(self), r, parse_expression(old(self).ahead())),
    {
        self.equality()
    }

    /// equality -> comparison ( ( "!=" | "==" ) comparison )*
    pub fn equality(&mut self) -> (r: PResult<Expr>)
        requires
            old(self).well_formed(),
        ensures
            final(self).follows(*old(self), r, parse_binary(Level::Equality, old(self).ahead())),
    {
        let ghost ts = self.tokens();
        let ghost whole = parse_binary(Level::Equality, self.ahead());
        proof {
            lemma_after_after(ts, self.position(), 0);
            lemma_parse_binary(Level::Equality, self.ahead());
            if all_well_formed(ts) {
                lemma_well_formed_after(ts, self.position());
            }
        }
        let start = self.current;
        let mut expr = match self.comparison() {
            Ok(expr) => expr,
            Err(error) => {
                return Err(error);
            },
        };
        proof {
            lemma_after_after(ts, start as nat, (self.current - start) as nat);
        }
        loop
            invariant
                self.tokens() == ts,
                ts == old(self).tokens(),
                self.well_formed(),
                start == old(self).position(),
                start <= self.current,
                whole == parse_binary(Level::Equality, old(self).ahead()),
                sound(whole, old(self).ahead()),
                all_well_formed(ts) ==> all_well_formed(old(self).ahead()),
                whole == extended(
                    parse_chain(Level::Equality, expr@, self.ahead()),
                    (self.current - start) as nat,
                ),
            ensures
                !Level::Equality.has(self.ahead()[0].type_),
            decreases self.tokens().len() - self.position(),
        {
            let ghost here = self.ahead();
            let ghost place = self.position();
            if !(self.match_type(TokenType::BangEqual) || self.match_type(TokenType::EqualEqual)) {
                break ;
            }
            let operator = self.previous().clone();
            let ghost left = expr@;
            proof {
                lemma_after_after(ts, place, 0);
                lemma_after_after(ts, place, 1);
                assert(operator@ == here[0]);
                assert(Level::Equality.has(here[0].type_));
                assert(self.ahead() == after(here, 1));
                assert(parse_operand(Level::Equality, after(here, 1)) == parse_binary(
                    Level::Comparison,
                    after(here, 1),
                ));
            }
            let right = match self.comparison() {
                Ok(expr) => expr,
                Err(error) => {
                    assert(parse_chain(Level::Equality, left, here) == stopped(error@));
                    self.current = start;
                    return Err(error);
                },
            };
            proof {
                let n = (self.position() - place - 1) as nat;
                lemma_after_after(ts, place, 1 + n);
                assert(self.ahead() == after(here, 1 + n));
                assert(parse_chain(Level::Equality, left, here) == extended(
                    parse_chain(Level::Equality, join(left, here[0], right@), self.ahead()),
                    1 + n,
                ));
            }
            expr = Expr::Binary { left: Box::new(expr), operator, right: Box::new(right) };
        }
        Ok(expr)
    }

    /// comparison -> term ( ( ">" | ">=" | "<" | "<=" ) term )*
    pub fn comparison(&mut self) -> (r: PResult<Expr>)
        requires
            old(self).well_formed(),
        ensures
            final(self).follows(
                *old(self),
                r,
                parse_binary(Level::Comparison, old(self).ahead()),
            ),
    {
        proof {
            lemma_views_after(self.tokens@, self.current as nat);
            if all_well_formed(self.tokens()) {
                lemma_well_formed_after(self.tokens(), self.position());
            }
        }
        let ahead = slice_subrange(self.tokens.as_slice(), self.current, self.tokens.len());
        match comparison(ahead) {
            Ok((expr, rest)) => {
                let left = rest.len();
                self.current = self.tokens.len() - left;
                Ok(expr)
            },
            Err(error) => Err(error),
        }
    }

    /// Reads the next token where its category is `ty`.
    pub fn match_type(&mut self, ty: TokenType) -> (r: bool)
        requires
            old(self).well_formed(),
        ensures
            r == (old(self).ahead()[0].type_ == ty && ty != TokenType::Eof),
            final(self).tokens() == old(self).tokens(),
            final(self).position() == old(self).position() + if r {
                1nat
            } else {
                0nat
            },
            final(self).well_formed(),
    {
        if self.check(ty) {
            self.advance();
            true
        } else {
            false
        }
    }

    /// Whether the next token is of category `ty`. The end-of-input
    /// token is never looked for.
    pub fn check(&self, ty: TokenType) -> (r: bool)
        requires
            self.well_formed(),
        ensures
            r == (self.ahead()[0].type_ == ty && ty != TokenType::Eof),
    {
        if self.is_at_end() {
            return false;
        }
        self.peek().type_ == ty
    }

    /// The next token.
    pub fn peek(&self) -> (r: &Token)
        requires
            self.well_formed(),
        ensures
            r@ == self.ahead()[0],
    {
        proof {
            lemma_views_after(self.tokens@, self.current as nat);
        }
        &self.tokens[self.current]
    }

    /// Whether the next token is the end-of-input token.
    pub fn is_at_end(&self) -> (r: bool)
        requires
            self.well_formed(),
        ensures
            r == (self.ahead()[0].type_ == TokenType::Eof),
    {
        self.peek().type_ == TokenType::Eof
    }

    /// The token that was read last.
    pub fn previous(&self) -> (r: &Token)
        requires
            self.well_formed(),
            self.position() > 0,
        ensures
            r@ == self.tokens()[self.position() - 1],
    {
        proof {
            lemma_views_after(self.tokens@, 0);
        }
        &self.tokens[self.current - 1]
    }

    /// Reads the next token, unless it is the end-of-input token, and
    /// gives the token that was read last.
    pub fn advance(&mut self) -> (r: &Token)
        requires
            old(self).well_formed(),
            old(self).position() > 0 || old(self).ahead()[0].type_ != TokenType::Eof,
        ensures
            final(self).tokens() == old(self).tokens(),
            final(self).position() == old(self).position() + if old(self).ahead()[0].type_
                == TokenType::Eof {
                0nat
            } else {
                1nat
            },
            final(self).well_formed(),
            r@ == final(self).tokens()[final(self).position() - 1],
    {
        proof {
            lemma_views_after(self.tokens@, 0);
            assert(self.current < self.tokens.len());
        }
        if !self.is_at_end() {
            self.current += 1;
        }
        self.previous()
    }
}

} // verus!
