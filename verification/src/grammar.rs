//! The grammar: what the expression of a token sequence is.
//!
//! From the lowest precedence to the highest:
//!
//! ```text
//! expression -> equality
//! equality   -> comparison ( ( "!=" | "==" ) comparison )*
//! comparison -> term ( ( ">" | ">=" | "<" | "<=" ) term )*
//! term       -> factor ( ( "-" | "+" ) factor )*
//! factor     -> unary ( ( "/" | "*" ) unary )*
//! unary      -> ( "!" | "-" ) unary | primary
//! primary    -> NUMBER | STRING | "true" | "false" | "nil" | "(" expression ")"
//! ```
//!
//! Binary operators associate to the left, prefix operators to the right.
//! `parse_expression` gives the tree of a token sequence and the number of
//! tokens it is made from, or the error at which reading stops.

use crate::expr::ExprView;
use crate::text::decimal_digits;
use crate::token::{all_well_formed, ends_with_eof, TokenType, TokenView};
use vstd::prelude::*;

verus! {

/// Why a token sequence is no expression: the token at which reading
/// stops, its line, and a message.
pub struct ParseErrorView {
    pub line: nat,
    pub token: TokenView,
    pub message: Seq<char>,
}

impl ParseErrorView {
    /// The text of the error: the line, the token and the message.
    pub open spec fn describe(self) -> Seq<char> {
        "[line "@ + decimal_digits(self.line) + "][token "@ + self.token.describe() + "] "@
            + self.message
    }
}

/// What parsing gives: a tree and the number of tokens it was made from,
/// or an error.
pub type Parsed = Result<(ExprView, nat), ParseErrorView>;

/// The levels of binary operators, from the lowest precedence to the
/// highest.
#[derive(Debug, Clone, Copy, PartialEq, Eq, Structural)]
pub enum Level {
    Equality,
    Comparison,
    Term,
    Factor,
}

impl Level {
    /// Whether tokens of category `t` are the operators of this level.
    pub open spec fn has(self, t: TokenType) -> bool {
        match self {
            Level::Equality => t == TokenType::BangEqual || t == TokenType::EqualEqual,
            Level::Comparison => t == TokenType::Greater || t == TokenType::GreaterEqual || t
                == TokenType::Less || t == TokenType::LessEqual,
            Level::Term => t == TokenType::Minus || t == TokenType::Plus,
            Level::Factor => t == TokenType::Slash || t == TokenType::Star,
        }
    }

    /// Whether tokens of category `t` are operators that bind tighter than
    /// those of this level.
    pub open spec fn above(self, t: TokenType) -> bool {
        match self {
            Level::Equality => Level::Comparison.has(t) || Level::Term.has(t) || Level::Factor.has(
                t,
            ),
            Level::Comparison => Level::Term.has(t) || Level::Factor.has(t),
            Level::Term => Level::Factor.has(t),
            Level::Factor => false,
        }
    }

    /// The height of the level above the tightest one.
    pub open spec fn rank(self) -> nat {
        match self {
            Level::Equality => 3,
            Level::Comparison => 2,
            Level::Term => 1,
            Level::Factor => 0,
        }
    }

    /// Whether tokens of category `t` are the operators of this level.
    pub fn accepts(self, t: TokenType) -> (r: bool)
        ensures
            r == self.has(t),
    {
        match self {
            Level::Equality => t == TokenType::BangEqual || t == TokenType::EqualEqual,
            Level::Comparison => t == TokenType::Greater || t == TokenType::GreaterEqual || t
                == TokenType::Less || t == TokenType::LessEqual,
            Level::Term => t == TokenType::Minus || t == TokenType::Plus,
            Level::Factor => t == TokenType::Slash || t == TokenType::Star,
        }
    }
}

/// Whether tokens of category `t` are prefix operators.
pub open spec fn is_prefix(t: TokenType) -> bool {
    t == TokenType::Bang || t == TokenType::Minus
}

/// Whether a token of category `t` is an expression by itself.
pub open spec fn is_atom(t: TokenType) -> bool {
    t == TokenType::False || t == TokenType::True || t == TokenType::Nil || t
        == TokenType::Number || t == TokenType::String_
}

/// `ts` without its first `n` tokens.
pub open spec fn after(ts: Seq<TokenView>, n: nat) -> Seq<TokenView> {
    if n <= ts.len() {
        ts.skip(n as int)
    } else {
        Seq::empty()
    }
}

/// The tree `tree`, made from `n` tokens.
pub open spec fn success(tree: ExprView, n: nat) -> Parsed {
    Ok((tree, n))
}

/// The error `error`.
pub open spec fn stopped(error: ParseErrorView) -> Parsed {
    Err(error)
}

/// The error that stops parsing at `token`.
pub open spec fn failure(token: TokenView, message: Seq<char>) -> Parsed {
    Err(ParseErrorView { line: token.line, token, message })
}

/// `r` after `n` tokens more: what `r` gives where its tokens follow `n`
/// tokens that were read before.
pub open spec fn extended(r: Parsed, n: nat) -> Parsed {
    match r {
        Ok((e, m)) => Ok((e, n + m)),
        Err(error) => Err(error),
    }
}

/// The literal of the token `t`.
pub open spec fn atom(t: TokenView) -> ExprView {
    ExprView::Literal { value: t }
}

/// `left` and `right` under the operator `operator`.
pub open spec fn join(left: ExprView, operator: TokenView, right: ExprView) -> ExprView {
    ExprView::Binary { left: Box::new(left), operator, right: Box::new(right) }
}

/// primary -> NUMBER | STRING | "true" | "false" | "nil" | "(" expression ")"
pub open spec fn parse_primary(ts: Seq<TokenView>) -> Parsed
    recommends
        ends_with_eof(ts),
    decreases ts.len(), 0nat,
{
    if ts.len() > 0 && is_atom(ts[0].type_) {
        Ok((ExprView::Literal { value: ts[0] }, 1))
    } else if ts.len() > 0 && ts[0].type_ == TokenType::LeftParen {
        match parse_expression(after(ts, 1)) {
            Ok((inner, n)) => {
                let next = ts[1 + n as int];
                if next.type_ == TokenType::RightParen {
                    Ok((ExprView::Grouping { expression: Box::new(inner) }, n + 2))
                } else if next.type_ == TokenType::Eof {
                    failure(next, "Expect a ')' token at end."@)
                } else {
                    failure(next, "Expect a ')' token here."@)
                }
            },
            Err(error) => Err(error),
        }
    } else {
        failure(ts[0], "Cannot parse this token."@)
    }
}

/// unary -> ( "!" | "-" ) unary | primary
pub open spec fn parse_unary(ts: Seq<TokenView>) -> Parsed
    recommends
        ends_with_eof(ts),
    decreases ts.len(), 1nat,
{
    if ts.len() > 0 && is_prefix(ts[0].type_) {
        match parse_unary(after(ts, 1)) {
            Ok((right, n)) => Ok(
                (ExprView::Unary { operator: ts[0], right: Box::new(right) }, n + 1),
            ),
            Err(error) => Err(error),
        }
    } else {
        parse_primary(ts)
    }
}

/// An operand of the operators of `level`: an expression of the next
/// level.
pub open spec fn parse_operand(level: Level, ts: Seq<TokenView>) -> Parsed
    recommends
        ends_with_eof(ts),
    decreases ts.len(), 2 + 2 * level.rank(),
{
    match level {
        Level::Equality => parse_binary(Level::Comparison, ts),
        Level::Comparison => parse_binary(Level::Term, ts),
        Level::Term => parse_binary(Level::Factor, ts),
        Level::Factor => parse_unary(ts),
    }
}

/// What follows the operand `left`: as long as an operator of `level`
/// comes next, it and the operand after it are folded, with what was read
/// so far on the left.
pub open spec fn parse_chain(level: Level, left: ExprView, ts: Seq<TokenView>) -> Parsed
    recommends
        ends_with_eof(ts),
    decreases ts.len(), 0nat,
{
    if ts.len() > 0 && level.has(ts[0].type_) {
        match parse_operand(level, after(ts, 1)) {
            Ok((right, n)) => extended(
                parse_chain(
                    level,
                    ExprView::Binary {
                        left: Box::new(left),
                        operator: ts[0],
                        right: Box::new(right),
                    },
                    after(ts, 1 + n),
                ),
                1 + n,
            ),
            Err(error) => Err(error),
        }
    } else {
        Ok((left, 0))
    }
}

/// operand ( operator operand )*, for the operators of `level`.
pub open spec fn parse_binary(level: Level, ts: Seq<TokenView>) -> Parsed
    recommends
        ends_with_eof(ts),
    decreases ts.len(), 3 + 2 * level.rank(),
{
    match parse_operand(level, ts) {
        Ok((left, n)) => extended(parse_chain(level, left, after(ts, n)), n),
        Err(error) => Err(error),
    }
}

/// expression -> equality
pub open spec fn parse_expression(ts: Seq<TokenView>) -> Parsed
    recommends
        ends_with_eof(ts),
    decreases ts.len(), 10nat,
{
    parse_binary(Level::Equality, ts)
}

/// Leaving out `a` tokens and then `b` is leaving out `a + b`.
pub proof fn lemma_after_after(ts: Seq<TokenView>, a: nat, b: nat)
    requires
        a + b <= ts.len(),
    ensures
        after(after(ts, a), b) == after(ts, a + b),
        a + b < ts.len() ==> after(ts, a + b)[0] == ts[(a + b) as int],
        after(ts, a).len() == ts.len() - a,
{
    assert(after(after(ts, a), b) =~= after(ts, a + b));
}

/// What is left of well-formed tokens is well formed.
pub proof fn lemma_well_formed_after(ts: Seq<TokenView>, n: nat)
    requires
        all_well_formed(ts),
    ensures
        all_well_formed(after(ts, n)),
{
    reveal(all_well_formed);
    if n <= ts.len() {
        assert forall|i: int| 0 <= i < ts.len() - n implies (#[trigger] after(
            ts,
            n,
        )[i]).well_formed() by {
            assert(after(ts, n)[i] == ts[i + n]);
        }
    }
}

/// Whether `r` is sound for `ts`. A tree is made from at least one token
/// and never from the last one, and it can be printed where the tokens
/// are well formed. An error holds one of the tokens, and its line.
pub open spec fn sound(r: Parsed, ts: Seq<TokenView>) -> bool {
    match r {
        Ok((tree, n)) => {
            &&& 0 < n < ts.len()
            &&& all_well_formed(ts) ==> tree.printable()
        },
        Err(error) => ts.contains(error.token) && error.line == error.token.line,
    }
}

/// A token of what is left of `ts` is a token of `ts`.
pub proof fn lemma_after_contains(ts: Seq<TokenView>, n: nat, token: TokenView)
    requires
        after(ts, n).contains(token),
    ensures
        ts.contains(token),
{
    if n <= ts.len() {
        let i = choose|i: int| 0 <= i < after(ts, n).len() && after(ts, n)[i] == token;
        assert(ts[i + n] == token);
    }
}

/// A tree is made from at least one token and never from the
/// end-of-input token; a tree made from well-formed tokens can be printed.
pub proof fn lemma_parse_expression(ts: Seq<TokenView>)
    requires
        ends_with_eof(ts),
    ensures
        sound(parse_expression(ts), ts),
    decreases ts.len(), 14nat,
{
    reveal(all_well_formed);
    lemma_parse_binary(Level::Equality, ts);
}

/// The same, for the expressions of one level.
pub proof fn lemma_parse_binary(level: Level, ts: Seq<TokenView>)
    requires
        ends_with_eof(ts),
    ensures
        sound(parse_binary(level, ts), ts),
    decreases ts.len(), 3 + 3 * level.rank(),
{
    reveal(all_well_formed);
    lemma_parse_operand(level, ts);
    if let Ok((left, n)) = parse_operand(level, ts) {
        lemma_parse_chain(level, left, after(ts, n));
        if let Err(error) = parse_chain(level, left, after(ts, n)) {
            lemma_after_contains(ts, n, error.token);
        }
    }
}

/// The same, for the operands of one level.
pub proof fn lemma_parse_operand(level: Level, ts: Seq<TokenView>)
    requires
        ends_with_eof(ts),
    ensures
        sound(parse_operand(level, ts), ts),
    decreases ts.len(), 2 + 3 * level.rank(),
{
    reveal(all_well_formed);
    match level {
        Level::Equality => lemma_parse_binary(Level::Comparison, ts),
        Level::Comparison => lemma_parse_binary(Level::Term, ts),
        Level::Term => lemma_parse_binary(Level::Factor, ts),
        Level::Factor => lemma_parse_unary(ts),
    }
}

/// The same, for what follows an operand; here the tree may be the
/// operand alone, made from no further token.
pub proof fn lemma_parse_chain(level: Level, left: ExprView, ts: Seq<TokenView>)
    requires
        ends_with_eof(ts),
    ensures
        match parse_chain(level, left, ts) {
            Ok((tree, n)) => {
                &&& n < ts.len()
                &&& all_well_formed(ts) && left.printable() ==> tree.printable()
            },
            Err(error) => ts.contains(error.token) && error.line == error.token.line,
        },
    decreases ts.len(), 0nat,
{
    reveal(all_well_formed);
    if level.has(ts[0].type_) {
        lemma_parse_operand(level, after(ts, 1));
        match parse_operand(level, after(ts, 1)) {
            Ok((right, n)) => {
                let folded = join(left, ts[0], right);
                lemma_parse_chain(level, folded, after(ts, 1 + n));
                if let Err(error) = parse_chain(level, folded, after(ts, 1 + n)) {
                    lemma_after_contains(ts, 1 + n, error.token);
                }
            },
            Err(error) => {
                lemma_after_contains(ts, 1, error.token);
            },
        }
    }
}

/// The same, for unary expressions.
pub proof fn lemma_parse_unary(ts: Seq<TokenView>)
    requires
        ends_with_eof(ts),
    ensures
        sound(parse_unary(ts), ts),
    decreases ts.len(), 1nat,
{
    reveal(all_well_formed);
    if is_prefix(ts[0].type_) {
        lemma_parse_unary(after(ts, 1));
        if let Err(error) = parse_unary(after(ts, 1)) {
            lemma_after_contains(ts, 1, error.token);
        }
    } else {
        lemma_parse_primary(ts);
    }
}

/// The same, for primary expressions.
pub proof fn lemma_parse_primary(ts: Seq<TokenView>)
    requires
        ends_with_eof(ts),
    ensures
        sound(parse_primary(ts), ts),
    decreases ts.len(), 0nat,
{
    reveal(all_well_formed);
    if is_atom(ts[0].type_) {
    } else if ts[0].type_ == TokenType::LeftParen {
        lemma_parse_expression(after(ts, 1));
        match parse_expression(after(ts, 1)) {
            Ok((inner, n)) => {
                assert(ts.contains(ts[1 + n as int]));
            },
            Err(error) => {
                lemma_after_contains(ts, 1, error.token);
            },
        }
    } else {
        assert(ts.contains(ts[0]));
    }
}

/// Whether tokens of category `t` are binary operators.
pub open spec fn is_binary_operator(t: TokenType) -> bool {
    Level::Equality.has(t) || Level::Equality.above(t)
}

/// A literal that no tighter operator follows is an operand by itself.
pub proof fn lemma_atom_is_operand(level: Level, ts: Seq<TokenView>)
    requires
        ts.len() >= 2,
        is_atom(ts[0].type_),
        !level.above(ts[1].type_),
    ensures
        parse_operand(level, ts) == success(atom(ts[0]), 1),
    decreases level.rank(),
{
    assert(after(ts, 1)[0] == ts[1]);
    assert(parse_unary(ts) == parse_primary(ts));
    match level {
        Level::Equality => {
            lemma_atom_is_operand(Level::Comparison, ts);
            assert(parse_chain(Level::Comparison, atom(ts[0]), after(ts, 1)) == success(
                atom(ts[0]),
                0,
            ));
        },
        Level::Comparison => {
            lemma_atom_is_operand(Level::Term, ts);
            assert(parse_chain(Level::Term, atom(ts[0]), after(ts, 1)) == success(
                atom(ts[0]),
                0,
            ));
        },
        Level::Term => {
            lemma_atom_is_operand(Level::Factor, ts);
            assert(parse_chain(Level::Factor, atom(ts[0]), after(ts, 1)) == success(
                atom(ts[0]),
                0,
            ));
        },
        Level::Factor => {},
    }
}

/// Operators of equal precedence associate to the left: of three
/// operands `a`, `b` and `c` joined by two operators of one level, the
/// first two are joined first, whatever the operands and the operators
/// are.
pub proof fn law_equal_precedence_folds_left(
    level: Level,
    ts: Seq<TokenView>,
    a: ExprView,
    b: ExprView,
    c: ExprView,
    i: nat,
    j: nat,
    k: nat,
)
    requires
        k < ts.len(),
        i < j < k,
        parse_operand(level, ts) == success(a, i),
        level.has(ts[i as int].type_),
        parse_operand(level, after(ts, i + 1)) == success(b, (j - i - 1) as nat),
        level.has(ts[j as int].type_),
        parse_operand(level, after(ts, j + 1)) == success(c, (k - j - 1) as nat),
        !level.has(ts[k as int].type_),
    ensures
        parse_binary(level, ts) == success(join(join(a, ts[i as int], b), ts[j as int], c), k),
{
    let ab = join(a, ts[i as int], b);
    let abc = join(ab, ts[j as int], c);
    lemma_after_after(ts, i, 1);
    lemma_after_after(ts, i, (j - i) as nat);
    lemma_after_after(ts, j, 1);
    lemma_after_after(ts, j, (k - j) as nat);
    lemma_after_after(ts, k, 0);
    lemma_after_after(ts, i, 0);
    lemma_after_after(ts, j, 0);
    assert(parse_chain(level, abc, after(ts, k)) == success(abc, 0));
    assert(parse_chain(level, ab, after(ts, j)) == success(abc, (k - j) as nat));
    assert(parse_chain(level, a, after(ts, i)) == success(abc, (k - i) as nat));
}

/// An expression of one level that no binary operator follows is the
/// whole expression.
pub proof fn lemma_level_is_expression(level: Level, ts: Seq<TokenView>, tree: ExprView, n: nat)
    requires
        parse_binary(level, ts) == success(tree, n),
        n < ts.len(),
        !is_binary_operator(ts[n as int].type_),
    ensures
        parse_expression(ts) == success(tree, n),
    decreases 3 - level.rank(),
{
    assert(after(ts, n)[0] == ts[n as int]);
    match level {
        Level::Equality => {},
        Level::Comparison => {
            assert(parse_chain(Level::Equality, tree, after(ts, n)) == success(tree, 0));
        },
        Level::Term => {
            assert(parse_chain(Level::Comparison, tree, after(ts, n)) == success(tree, 0));
            lemma_level_is_expression(Level::Comparison, ts, tree, n);
        },
        Level::Factor => {
            assert(parse_chain(Level::Term, tree, after(ts, n)) == success(tree, 0));
            lemma_level_is_expression(Level::Term, ts, tree, n);
        },
    }
}

/// Strict left associativity, for whole expressions and as printed: where
/// `a`, `b` and `c` are literals and the operators `p` and `q` have equal
/// precedence, `a p b q c` is read as `(a p b) q c` and printed as
/// `(q (p a b) c)`, never as `(p a (q b c))`.
pub proof fn law_left_associative(level: Level, ts: Seq<TokenView>)
    requires
        ts.len() >= 6,
        is_atom(ts[0].type_),
        level.has(ts[1].type_),
        is_atom(ts[2].type_),
        level.has(ts[3].type_),
        is_atom(ts[4].type_),
        !is_binary_operator(ts[5].type_),
    ensures
        ({
            let inner = join(atom(ts[0]), ts[1], atom(ts[2]));
            let outer = join(inner, ts[3], atom(ts[4]));
            &&& parse_expression(ts) == success(outer, 5)
            &&& outer.format() == "("@ + ts[3].lexeme + " "@ + inner.format() + " "@ + atom(
                ts[4],
            ).format() + ")"@
            &&& inner.format() == "("@ + ts[1].lexeme + " "@ + atom(ts[0]).format() + " "@ + atom(
                ts[2],
            ).format() + ")"@
        }),
{
    let tree = join(join(atom(ts[0]), ts[1], atom(ts[2])), ts[3], atom(ts[4]));
    lemma_atom_is_operand(level, ts);
    assert(after(ts, 2)[0] == ts[2] && after(ts, 2)[1] == ts[3]);
    lemma_atom_is_operand(level, after(ts, 2));
    assert(after(ts, 4)[0] == ts[4] && after(ts, 4)[1] == ts[5]);
    lemma_atom_is_operand(level, after(ts, 4));
    law_equal_precedence_folds_left(
        level,
        ts,
        atom(ts[0]),
        atom(ts[2]),
        atom(ts[4]),
        1,
        3,
        5,
    );
    lemma_level_is_expression(level, ts, tree, 5);
}

/// The number of tokens that the tree `e` is written with, the
/// parentheses of its groups included.
pub open spec fn width(e: ExprView) -> nat
    decreases e,
{
    match e {
        ExprView::Literal { value } => 1,
        ExprView::Unary { operator, right } => 1 + width(*right),
        ExprView::Binary { left, operator, right } => width(*left) + 1 + width(*right),
        ExprView::Grouping { expression } => 2 + width(*expression),
    }
}

/// Whether the tokens of `ts` from position `from` on are the tree `e`,
/// written out: each literal and operator of the tree is the token at
/// its place, and each group stands between parentheses.
pub open spec fn written_at(e: ExprView, ts: Seq<TokenView>, from: int) -> bool
    decreases e,
{
    match e {
        ExprView::Literal { value } => 0 <= from < ts.len() && ts[from] == value,
        ExprView::Unary { operator, right } => {
            &&& 0 <= from < ts.len()
            &&& ts[from] == operator
            &&& written_at(*right, ts, from + 1)
        },
        ExprView::Binary { left, operator, right } => {
            let middle = from + width(*left);
            &&& written_at(*left, ts, from)
            &&& 0 <= middle < ts.len()
            &&& ts[middle] == operator
            &&& written_at(*right, ts, middle + 1)
        },
        ExprView::Grouping { expression } => {
            let close = from + 1 + width(*expression);
            &&& 0 <= from < ts.len()
            &&& ts[from].type_ == TokenType::LeftParen
            &&& written_at(*expression, ts, from + 1)
            &&& close < ts.len()
            &&& ts[close].type_ == TokenType::RightParen
        },
    }
}

/// How tightly the operator of category `t` binds: from 1 for equality
/// to 4 for multiplication and division; 0 for what is no binary operator.
pub open spec fn binding(t: TokenType) -> nat {
    if Level::Equality.has(t) {
        1
    } else if Level::Comparison.has(t) {
        2
    } else if Level::Term.has(t) {
        3
    } else if Level::Factor.has(t) {
        4
    } else {
        0
    }
}

/// How tightly the tree `e` holds together: as its operator binds for a
/// binary expression, 5 for a unary expression, 6 for a literal or a group.
pub open spec fn strength(e: ExprView) -> nat {
    match e {
        ExprView::Binary { left, operator, right } => binding(operator.type_),
        ExprView::Unary { operator, right } => 5,
        ExprView::Literal { value } => 6,
        ExprView::Grouping { expression } => 6,
    }
}

/// Whether the tree `e` is one that the grammar gives. Under a binary
/// operator the left operand holds together at least as tightly as the
/// operator binds, and the right operand more tightly; the operand of a
/// prefix operator is unary, a literal or a group; only parentheses hold
/// anything looser.
pub open spec fn in_grammar(e: ExprView) -> bool
    decreases e,
{
    match e {
        ExprView::Literal { value } => is_atom(value.type_),
        ExprView::Unary { operator, right } => {
            &&& is_prefix(operator.type_)
            &&& strength(*right) >= 5
            &&& in_grammar(*right)
        },
        ExprView::Binary { left, operator, right } => {
            &&& is_binary_operator(operator.type_)
            &&& strength(*left) >= binding(operator.type_)
            &&& strength(*right) > binding(operator.type_)
            &&& in_grammar(*left)
            &&& in_grammar(*right)
        },
        ExprView::Grouping { expression } => in_grammar(*expression),
    }
}

/// Whether the tree `e` is faithful to the first `n` tokens of `ts`: it is
/// written with exactly these tokens, it is a tree of the grammar, and it
/// holds together at least as tightly as `least`.
pub open spec fn faithful(e: ExprView, ts: Seq<TokenView>, n: nat, least: nat) -> bool {
    &&& width(e) == n
    &&& written_at(e, ts, 0)
    &&& in_grammar(e)
    &&& strength(e) >= least
}

/// A tree that is written in what is left of `ts` after `k` tokens is
/// written in `ts`, `k` tokens further on.
pub proof fn lemma_written_further(e: ExprView, ts: Seq<TokenView>, k: nat, from: int)
    requires
        written_at(e, after(ts, k), from),
    ensures
        written_at(e, ts, from + k),
    decreases e,
{
    match e {
        ExprView::Literal { value } => {},
        ExprView::Unary { operator, right } => {
            lemma_written_further(*right, ts, k, from + 1);
        },
        ExprView::Binary { left, operator, right } => {
            lemma_written_further(*left, ts, k, from);
            lemma_written_further(*right, ts, k, from + width(*left) + 1);
        },
        ExprView::Grouping { expression } => {
            lemma_written_further(*expression, ts, k, from + 1);
        },
    }
}

/// The tree of an expression is faithful to the tokens it is made from:
/// read in order, its literals, operators and parentheses are these
/// tokens, none left out and none added, and its shape is the one that
/// the precedence and the associativity of the operators call for.
pub proof fn law_tree_is_faithful(ts: Seq<TokenView>)
    requires
        ends_with_eof(ts),
    ensures
        parse_expression(ts) matches Ok((tree, n)) ==> faithful(tree, ts, n, 1),
{
    lemma_faithful_binary(Level::Equality, ts);
}

/// The same, for the expressions of one level.
pub proof fn lemma_faithful_binary(level: Level, ts: Seq<TokenView>)
    requires
        ends_with_eof(ts),
    ensures
        parse_binary(level, ts) matches Ok((tree, n)) ==> faithful(
            tree,
            ts,
            n,
            (4 - level.rank()) as nat,
        ),
    decreases ts.len(), 3 + 3 * level.rank(),
{
    lemma_faithful_operand(level, ts);
    lemma_parse_operand(level, ts);
    if let Ok((left, n)) = parse_operand(level, ts) {
        lemma_faithful_chain(level, left, ts, n);
    }
}

/// The same, for the operands of one level.
pub proof fn lemma_faithful_operand(level: Level, ts: Seq<TokenView>)
    requires
        ends_with_eof(ts),
    ensures
        parse_operand(level, ts) matches Ok((tree, n)) ==> faithful(
            tree,
            ts,
            n,
            (5 - level.rank()) as nat,
        ),
    decreases ts.len(), 2 + 3 * level.rank(),
{
    match level {
        Level::Equality => lemma_faithful_binary(Level::Comparison, ts),
        Level::Comparison => lemma_faithful_binary(Level::Term, ts),
        Level::Term => lemma_faithful_binary(Level::Factor, ts),
        Level::Factor => lemma_faithful_unary(ts),
    }
}

/// The same, for what follows the operand `left`, which was made from
/// the first `used` tokens of `ts`.
pub proof fn lemma_faithful_chain(level: Level, left: ExprView, ts: Seq<TokenView>, used: nat)
    requires
        ends_with_eof(ts),
        used < ts.len(),
        faithful(left, ts, used, (4 - level.rank()) as nat),
    ensures
        parse_chain(level, left, after(ts, used)) matches Ok((tree, n)) ==> faithful(
            tree,
            ts,
            used + n,
            (4 - level.rank()) as nat,
        ),
    decreases ts.len() - used, 0nat,
{
    let here = after(ts, used);
    lemma_after_after(ts, used, 0);
    if level.has(here[0].type_) {
        lemma_after_after(ts, used, 1);
        lemma_faithful_operand(level, after(here, 1));
        lemma_parse_operand(level, after(here, 1));
        if let Ok((right, n)) = parse_operand(level, after(here, 1)) {
            lemma_written_further(right, ts, used + 1, 0);
            lemma_after_after(ts, used, 1 + n);
            lemma_faithful_chain(level, join(left, here[0], right), ts, used + 1 + n);
        }
    }
}

/// The same, for unary expressions.
pub proof fn lemma_faithful_unary(ts: Seq<TokenView>)
    requires
        ends_with_eof(ts),
    ensures
        parse_unary(ts) matches Ok((tree, n)) ==> faithful(tree, ts, n, 5),
    decreases ts.len(), 1nat,
{
    if is_prefix(ts[0].type_) {
        lemma_faithful_unary(after(ts, 1));
        if let Ok((right, n)) = parse_unary(after(ts, 1)) {
            lemma_written_further(right, ts, 1, 0);
        }
    } else {
        lemma_faithful_primary(ts);
    }
}

/// The same, for primary expressions.
pub proof fn lemma_faithful_primary(ts: Seq<TokenView>)
    requires
        ends_with_eof(ts),
    ensures
        parse_primary(ts) matches Ok((tree, n)) ==> faithful(tree, ts, n, 6),
    decreases ts.len(), 0nat,
{
    if is_atom(ts[0].type_) {
    } else if ts[0].type_ == TokenType::LeftParen {
        lemma_faithful_binary(Level::Equality, after(ts, 1));
        lemma_parse_expression(after(ts, 1));
        if let Ok((inner, n)) = parse_expression(after(ts, 1)) {
            lemma_written_further(inner, ts, 1, 0);
        }
    }
}

/// An expression takes every operand it can: it ends only where no
/// binary operator follows.
pub proof fn law_expression_is_maximal(ts: Seq<TokenView>)
    requires
        ends_with_eof(ts),
    ensures
        parse_expression(ts) matches Ok((tree, n)) ==> !is_binary_operator(ts[n as int].type_),
{
    lemma_maximal_binary(Level::Equality, ts);
}

/// An expression of one level ends where no operator of that level or of
/// a tighter one follows.
pub proof fn lemma_maximal_binary(level: Level, ts: Seq<TokenView>)
    requires
        ends_with_eof(ts),
    ensures
        parse_binary(level, ts) matches Ok((tree, n)) ==> !level.has(ts[n as int].type_)
            && !level.above(ts[n as int].type_),
    decreases ts.len(), 3 + 3 * level.rank(),
{
    lemma_maximal_operand(level, ts);
    lemma_parse_operand(level, ts);
    if let Ok((left, n)) = parse_operand(level, ts) {
        lemma_maximal_chain(level, left, ts, n);
    }
}

/// An operand of one level ends where no tighter operator follows.
pub proof fn lemma_maximal_operand(level: Level, ts: Seq<TokenView>)
    requires
        ends_with_eof(ts),
    ensures
        parse_operand(level, ts) matches Ok((tree, n)) ==> !level.above(ts[n as int].type_),
    decreases ts.len(), 2 + 3 * level.rank(),
{
    match level {
        Level::Equality => lemma_maximal_binary(Level::Comparison, ts),
        Level::Comparison => lemma_maximal_binary(Level::Term, ts),
        Level::Term => lemma_maximal_binary(Level::Factor, ts),
        Level::Factor => {},
    }
}

/// The same as for the expressions of one level, for what follows an
/// operand that was made from the first `used` tokens of `ts`.
pub proof fn lemma_maximal_chain(level: Level, left: ExprView, ts: Seq<TokenView>, used: nat)
    requires
        ends_with_eof(ts),
        used < ts.len(),
        !level.above(ts[used as int].type_),
    ensures
        parse_chain(level, left, after(ts, used)) matches Ok((tree, n)) ==> !level.has(
            ts[(used + n) as int].type_,
        ) && !level.above(ts[(used + n) as int].type_),
    decreases ts.len() - used, 0nat,
{
    let here = after(ts, used);
    lemma_after_after(ts, used, 0);
    if level.has(here[0].type_) {
        lemma_after_after(ts, used, 1);
        lemma_maximal_operand(level, after(here, 1));
        lemma_parse_operand(level, after(here, 1));
        if let Ok((right, n)) = parse_operand(level, after(here, 1)) {
            lemma_after_after(ts, used, 1 + n);
            lemma_after_after(ts, used + 1, n);
            lemma_maximal_chain(level, join(left, here[0], right), ts, used + 1 + n);
        }
    }
}

} // verus!
