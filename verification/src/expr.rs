//! Expression trees and their printer.

use crate::text::{debug_quote, debug_quoted};
use crate::token::{Literal, LiteralView, Token, TokenType, TokenView};
use vstd::pervasive::{arbitrary, unreached};
use vstd::prelude::*;
use vstd::string::StringExecFns;

verus! {

/// An expression. Each node owns its children.
#[derive(Debug, PartialEq, Eq)]
pub enum Expr {
    /// A literal: the token it was read from.
    Literal { value: Token },
    /// An operator and its operand.
    Unary { operator: Token, right: Box<Expr> },
    /// An operator between its two operands.
    Binary { left: Box<Expr>, operator: Token, right: Box<Expr> },
    /// An expression in parentheses.
    Grouping { expression: Box<Expr> },
}

/// An expression as a mathematical value: the tree of the views of its
/// tokens.
pub enum ExprView {
    Literal { value: TokenView },
    Unary { operator: TokenView, right: Box<ExprView> },
    Binary { left: Box<ExprView>, operator: TokenView, right: Box<ExprView> },
    Grouping { expression: Box<ExprView> },
}

/// Whether a literal of this token can be printed: it is one of the
/// keywords `nil`, `true` and `false`, or it carries a value.
pub open spec fn printable_literal(t: TokenView) -> bool {
    ||| t.type_ == TokenType::Nil
    ||| t.type_ == TokenType::True
    ||| t.type_ == TokenType::False
    ||| t.literal !is Null
}

/// The text of a literal: the keyword, the number with its point, or the
/// string in quotes.
pub open spec fn format_literal(t: TokenView) -> Seq<char>
    recommends
        printable_literal(t),
{
    if t.type_ == TokenType::Nil {
        "nil"@
    } else if t.type_ == TokenType::True {
        "true"@
    } else if t.type_ == TokenType::False {
        "false"@
    } else {
        match t.literal {
            LiteralView::Num(n) => n.render(),
            LiteralView::Str(s) => debug_quoted(s),
            LiteralView::Null => arbitrary(),
        }
    }
}

impl ExprView {
    /// Whether every literal of the tree can be printed.
    pub open spec fn printable(self) -> bool
        decreases self,
    {
        match self {
            ExprView::Literal { value } => printable_literal(value),
            ExprView::Unary { operator, right } => right.printable(),
            ExprView::Binary { left, operator, right } => left.printable() && right.printable(),
            ExprView::Grouping { expression } => expression.printable(),
        }
    }

    /// The tree in prefix notation, fully parenthesized: an operator
    /// comes before its operands, and a group is marked `group`.
    pub open spec fn format(self) -> Seq<char>
        decreases self,
    {
        match self {
            ExprView::Literal { value } => format_literal(value),
            ExprView::Unary { operator, right } => "("@ + operator.lexeme + " "@ + right.format()
                + ")"@,
            ExprView::Binary { left, operator, right } => "("@ + operator.lexeme + " "@
                + left.format() + " "@ + right.format() + ")"@,
            ExprView::Grouping { expression } => "(group "@ + expression.format() + ")"@,
        }
    }
}

impl Expr {
    /// The tree as a mathematical value; it is the view of the tree.
    pub open spec fn model(&self) -> ExprView
        decreases self,
    {
        match self {
            Expr::Literal { value } => ExprView::Literal { value: value@ },
            Expr::Unary { operator, right } => ExprView::Unary {
                operator: operator@,
                right: Box::new(right.model()),
            },
            Expr::Binary { left, operator, right } => ExprView::Binary {
                left: Box::new(left.model()),
                operator: operator@,
                right: Box::new(right.model()),
            },
            Expr::Grouping { expression } => ExprView::Grouping {
                expression: Box::new(expression.model()),
            },
        }
    }
}

impl View for Expr {
    type V = ExprView;

    open spec fn view(&self) -> ExprView {
        self.model()
    }
}

impl Expr {
    /// Whether every literal of the tree can be printed.
    pub fn is_printable(&self) -> (r: bool)
        ensures
            r == self@.printable(),
        decreases self,
    {
        match self {
            Expr::Literal { value } => match value.type_ {
                TokenType::Nil | TokenType::True | TokenType::False => true,
                _ => match &value.literal {
                    Literal::Null => false,
                    _ => true,
                },
            },
            Expr::Unary { operator, right } => right.is_printable(),
            Expr::Binary { left, operator, right } => left.is_printable() && right.is_printable(),
            Expr::Grouping { expression } => expression.is_printable(),
        }
    }

    /// Prints the tree in prefix notation.
    pub fn format_ast(&self) -> (out: String)
        requires
            self@.printable(),
        ensures
            out@ == self@.format(),
        decreases self,
    {
        match self {
            Expr::Literal { value } => match value.type_ {
                TokenType::Nil => String::from_str("nil"),
                TokenType::True => String::from_str("true"),
                TokenType::False => String::from_str("false"),
                _ => match &value.literal {
                    Literal::Num(n) => n.to_string(),
                    Literal::Str(s) => debug_quote(s.as_str()),
                    Literal::Null => unreached(),
                },
            },
            Expr::Binary { left, operator, right } => {
                let mut out = String::from_str("(");
                out.append(operator.lexeme.as_str());
                out.append(" ");
                out.append(left.format_ast().as_str());
                out.append(" ");
                out.append(right.format_ast().as_str());
                out.append(")");
                out
            },
            Expr::Grouping { expression } => {
                let mut out = String::from_str("(group ");
                out.append(expression.format_ast().as_str());
                out.append(")");
                out
            },
            Expr::Unary { operator, right } => {
                let mut out = String::from_str("(");
                out.append(operator.lexeme.as_str());
                out.append(" ");
                out.append(right.format_ast().as_str());
                out.append(")");
                out
            },
        }
    }
}

} // verus!
