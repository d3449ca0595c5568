//! The token model: lexical categories, literal values and token records.

use crate::number::{Decimal, DecimalView};
use crate::text::{debug_quote, debug_quoted};
use vstd::prelude::*;
use vstd::string::StringExecFns;

verus! {

/// The closed set of lexical categories.
#[derive(Debug, Clone, Copy, PartialEq, Eq, Structural, Hash)]
pub enum TokenType {
    // Single-character tokens.
    LeftParen,
    RightParen,
    LeftBrace,
    RightBrace,
    Comma,
    Dot,
    Minus,
    Plus,
    Semicolon,
    Slash,
    Star,
    // One or two character tokens.
    Bang,
    BangEqual,
    Equal,
    EqualEqual,
    Greater,
    GreaterEqual,
    Less,
    LessEqual,
    // Literals.
    Identifier,
    String_,
    Number,
    // Keywords.
    And,
    Class,
    Else,
    False,
    Fun,
    For,
    If,
    Nil,
    Or,
    Print,
    Return,
    Super,
    This,
    True,
    Var,
    While,
    // End of input.
    Eof,
}

impl TokenType {
    /// The name of the category, as it is written in this enumeration.
    pub open spec fn name_spec(self) -> Seq<char> {
        match self {
            TokenType::LeftParen => "LeftParen"@,
            TokenType::RightParen => "RightParen"@,
            TokenType::LeftBrace => "LeftBrace"@,
            TokenType::RightBrace => "RightBrace"@,
            TokenType::Comma => "Comma"@,
            TokenType::Dot => "Dot"@,
            TokenType::Minus => "Minus"@,
            TokenType::Plus => "Plus"@,
            TokenType::Semicolon => "Semicolon"@,
            TokenType::Slash => "Slash"@,
            TokenType::Star => "Star"@,
            TokenType::Bang => "Bang"@,
            TokenType::BangEqual => "BangEqual"@,
            TokenType::Equal => "Equal"@,
            TokenType::EqualEqual => "EqualEqual"@,
            TokenType::Greater => "Greater"@,
            TokenType::GreaterEqual => "GreaterEqual"@,
            TokenType::Less => "Less"@,
            TokenType::LessEqual => "LessEqual"@,
            TokenType::Identifier => "Identifier"@,
            TokenType::String_ => "String_"@,
            TokenType::Number => "Number"@,
            TokenType::And => "And"@,
            TokenType::Class => "Class"@,
            TokenType::Else => "Else"@,
            TokenType::False => "False"@,
            TokenType::Fun => "Fun"@,
            TokenType::For => "For"@,
            TokenType::If => "If"@,
            TokenType::Nil => "Nil"@,
            TokenType::Or => "Or"@,
            TokenType::Print => "Print"@,
            TokenType::Return => "Return"@,
            TokenType::Super => "Super"@,
            TokenType::This => "This"@,
            TokenType::True => "True"@,
            TokenType::Var => "Var"@,
            TokenType::While => "While"@,
            TokenType::Eof => "Eof"@,
        }
    }

    /// The name of the category.
    pub fn name(self) -> (r: &'static str)
        ensures
            r@ == self.name_spec(),
    {
        match self {
            TokenType::LeftParen => "LeftParen",
            TokenType::RightParen => "RightParen",
            TokenType::LeftBrace => "LeftBrace",
            TokenType::RightBrace => "RightBrace",
            TokenType::Comma => "Comma",
            TokenType::Dot => "Dot",
            TokenType::Minus => "Minus",
            TokenType::Plus => "Plus",
            TokenType::Semicolon => "Semicolon",
            TokenType::Slash => "Slash",
            TokenType::Star => "Star",
            TokenType::Bang => "Bang",
            TokenType::BangEqual => "BangEqual",
            TokenType::Equal => "Equal",
            TokenType::EqualEqual => "EqualEqual",
            TokenType::Greater => "Greater",
            TokenType::GreaterEqual => "GreaterEqual",
            TokenType::Less => "Less",
            TokenType::LessEqual => "LessEqual",
            TokenType::Identifier => "Identifier",
            TokenType::String_ => "String_",
            TokenType::Number => "Number",
            TokenType::And => "And",
            TokenType::Class => "Class",
            TokenType::Else => "Else",
            TokenType::False => "False",
            TokenType::Fun => "Fun",
            TokenType::For => "For",
            TokenType::If => "If",
            TokenType::Nil => "Nil",
            TokenType::Or => "Or",
            TokenType::Print => "Print",
            TokenType::Return => "Return",
            TokenType::Super => "Super",
            TokenType::This => "This",
            TokenType::True => "True",
            TokenType::Var => "Var",
            TokenType::While => "While",
            TokenType::Eof => "Eof",
        }
    }
}

/// The value that a token carries.
#[derive(Debug, PartialEq, Eq)]
pub enum Literal {
    /// The number that a number literal denotes.
    Num(Decimal),
    /// The characters between the quotes of a string literal, as written.
    Str(String),
    /// No value: every token that is not a literal.
    Null,
}

/// The value that a token carries, as a mathematical value.
pub enum LiteralView {
    Num(DecimalView),
    Str(Seq<char>),
    Null,
}

impl LiteralView {
    /// The text of the value in diagnostics: the variant's name and, in
    /// parentheses, the number or the quoted string.
    pub open spec fn describe(self) -> Seq<char> {
        match self {
            LiteralView::Num(d) => "Num("@ + d.render() + ")"@,
            LiteralView::Str(s) => "Str("@ + debug_quoted(s) + ")"@,
            LiteralView::Null => "Null"@,
        }
    }
}

impl View for Literal {
    type V = LiteralView;

    open spec fn view(&self) -> LiteralView {
        match self {
            Literal::Num(d) => LiteralView::Num(d@),
            Literal::Str(s) => LiteralView::Str(s@),
            Literal::Null => LiteralView::Null,
        }
    }
}

impl Clone for Literal {
    fn clone(&self) -> (r: Self)
        ensures
            r@ == self@,
    {
        match self {
            Literal::Num(d) => Literal::Num(d.clone()),
            Literal::Str(s) => Literal::Str(s.clone()),
            Literal::Null => Literal::Null,
        }
    }
}

impl Literal {
    /// The text of the value in diagnostics.
    pub fn to_string(&self) -> (out: String)
        ensures
            out@ == self@.describe(),
    {
        match self {
            Literal::Num(d) => {
                let mut out = String::from_str("Num(");
                out.append(d.to_string().as_str());
                out.append(")");
                out
            },
            Literal::Str(s) => {
                let mut out = String::from_str("Str(");
                out.append(debug_quote(s.as_str()).as_str());
                out.append(")");
                out
            },
            Literal::Null => String::from_str("Null"),
        }
    }
}

/// A classified unit of source text.
#[derive(Debug, PartialEq, Eq)]
pub struct Token {
    pub type_: TokenType,
    /// The source text of the token, delimiters included.
    pub lexeme: String,
    pub literal: Literal,
    /// The line of the source, counted from 1, on which the token ends. The
    /// end-of-input token has line 0.
    pub line: usize,
}

/// A token as a mathematical value.
pub struct TokenView {
    pub type_: TokenType,
    pub lexeme: Seq<char>,
    pub literal: LiteralView,
    pub line: nat,
}

impl TokenView {
    /// What holds of every token that comes from source text. A number
    /// token, and no other, carries a number, in canonical form; a string
    /// token, and no other, carries a string. The end-of-input token has an
    /// empty lexeme; every other token has at least one character.
    pub open spec fn well_formed(self) -> bool {
        &&& self.type_ == TokenType::Number <==> self.literal is Num
        &&& self.type_ == TokenType::String_ <==> self.literal is Str
        &&& self.literal matches LiteralView::Num(d) ==> d.is_canonical()
        &&& self.type_ == TokenType::Eof <==> self.lexeme.len() == 0
    }

    /// The text of the token in diagnostics: its category, its lexeme and
    /// its value, separated by spaces.
    pub open spec fn describe(self) -> Seq<char> {
        self.type_.name_spec() + " "@ + self.lexeme + " "@ + self.literal.describe()
    }
}

/// The end-of-input token.
pub open spec fn eof_token() -> TokenView {
    TokenView {
        type_: TokenType::Eof,
        lexeme: Seq::empty(),
        literal: LiteralView::Null,
        line: 0,
    }
}

impl View for Token {
    type V = TokenView;

    open spec fn view(&self) -> TokenView {
        TokenView {
            type_: self.type_,
            lexeme: self.lexeme@,
            literal: self.literal@,
            line: self.line as nat,
        }
    }
}

impl Clone for Token {
    fn clone(&self) -> (r: Self)
        ensures
            r@ == self@,
    {
        Token {
            type_: self.type_,
            lexeme: self.lexeme.clone(),
            literal: self.literal.clone(),
            line: self.line,
        }
    }
}

impl Token {
    /// The token made of these parts.
    pub fn new(type_: TokenType, lexeme: String, literal: Literal, line: usize) -> (r: Self)
        ensures
            r.type_ == type_,
            r.lexeme == lexeme,
            r.literal == literal,
            r.line == line,
    {
        Self { type_, lexeme, literal, line }
    }

    /// The text of the token in diagnostics.
    pub fn to_string(&self) -> (out: String)
        ensures
            out@ == self@.describe(),
    {
        let mut out = String::from_str(self.type_.name());
        out.append(" ");
        out.append(self.lexeme.as_str());
        out.append(" ");
        out.append(self.literal.to_string().as_str());
        out
    }
}

/// The views of the tokens of `ts`, in order.
pub open spec fn token_views(ts: Seq<Token>) -> Seq<TokenView> {
    ts.map_values(|t: Token| t@)
}

/// Whether every token of `ts` is well formed.
#[verifier::opaque]
pub open spec fn all_well_formed(ts: Seq<TokenView>) -> bool {
    forall|i: int| 0 <= i < ts.len() ==> (#[trigger] ts[i]).well_formed()
}

/// Whether `ts` is a token sequence of a text: it ends with the
/// end-of-input token, which occurs nowhere else in it; the tokens before
/// have their lines, counted from 1; and every token is well formed.
pub open spec fn is_token_sequence(ts: Seq<TokenView>) -> bool {
    &&& ts.len() >= 1
    &&& ts.last() == eof_token()
    &&& forall|i: int|
        0 <= i < ts.len() - 1 ==> (#[trigger] ts[i]).type_ != TokenType::Eof && ts[i].line >= 1
    &&& all_well_formed(ts)
}

/// Whether `ts` ends with the end-of-input token, as every token sequence
/// that the scanner produces does.
pub open spec fn ends_with_eof(ts: Seq<TokenView>) -> bool {
    ts.len() > 0 && ts.last().type_ == TokenType::Eof
}

/// Whether `tokens` ends with the end-of-input token.
pub fn is_terminated(tokens: &[Token]) -> (r: bool)
    ensures
        r == ends_with_eof(token_views(tokens@)),
{
    let n = tokens.len();
    n > 0 && tokens[n - 1].type_ == TokenType::Eof
}

} // verus!
