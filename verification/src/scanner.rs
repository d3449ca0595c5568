//! The scanner: from source text to tokens.
//!
//! The scanner reads the whole text once. An error is recorded and the
//! scan goes on with the next character, so one pass finds every error.

use crate::lexicon::{error_at, law_scan_gives_token_sequence, lemma_lex_at, lex_at};
use crate::lexicon::lemma_number_lexeme;
use crate::lexicon::{keyword, lex_number, lex_string, lex_word, number_end, optional, scan};
use crate::lexicon::{scan_from, token_at, LexErrorKind, LexErrorView};
use crate::number::Decimal;
use crate::text::{is_alpha, is_digit, newlines, run_end, spells, substring, to_chars};
use crate::text::{lemma_newlines_bound, lemma_newlines_same_line, lemma_run_len};
use crate::text::{lemma_run_len_unique, CharClass};
use crate::token::{is_token_sequence, token_views, Literal, LiteralView, Token};
use crate::token::TokenType;
use crate::utils::{error, report_text};
use vstd::prelude::*;

verus! {

/// A lexical error and the line, counted from 1, on which it was found.
#[derive(Debug, Clone, Copy, PartialEq, Eq)]
pub struct LexError {
    pub line: usize,
    pub kind: LexErrorKind,
}

impl View for LexError {
    type V = LexErrorView;

    open spec fn view(&self) -> LexErrorView {
        LexErrorView { line: self.line as nat, kind: self.kind }
    }
}

impl LexError {
    /// The text of the error, as a diagnostic for its line.
    pub fn to_string(&self) -> (out: String)
        ensures
            out@ == report_text(self@.line, Seq::empty(), self@.kind.message_spec()),
    {
        error(self.line, self.kind.message())
    }
}

/// The views of the errors of `es`, in order.
pub open spec fn error_views(es: Seq<LexError>) -> Seq<LexErrorView> {
    es.map_values(|e: LexError| e@)
}

/// The scanner: three cursors over the text, and the errors found in it.
pub struct Scanner {
    /// Where the lexeme that is being scanned starts.
    start: usize,
    /// The position of the next character to read.
    current: usize,
    /// The number of line feeds before `current`.
    line: usize,
    /// The errors of the text scanned last, in the order they were found.
    errors: Vec<LexError>,
}

impl Scanner {
    /// The errors that the scanner holds.
    pub closed spec fn diagnostics(&self) -> Seq<LexErrorView> {
        error_views(self.errors@)
    }

    /// The cursors are in order within `s` and the line counter is right.
    spec fn in_step(&self, s: Seq<char>) -> bool {
        &&& self.start < self.current <= s.len()
        &&& s[self.start as int] != '\n'
        &&& self.line == newlines(s, self.current as int)
    }

    /// A scanner that has scanned nothing.
    pub fn new() -> (r: Self)
        ensures
            r.diagnostics() == Seq::<LexErrorView>::empty(),
    {
        Self { start: 0, current: 0, line: 0, errors: Vec::new() }
    }

    /// The errors found in the text that was scanned last.
    pub fn errors(&self) -> (r: &Vec<LexError>)
        ensures
            error_views(r@) == self.diagnostics(),
    {
        &self.errors
    }

    /// The errors found in the text that was scanned last, by value.
    pub fn into_errors(self) -> (r: Vec<LexError>)
        ensures
            error_views(r@) == self.diagnostics(),
    {
        self.errors
    }

    /// Whether the text that was scanned last has a lexical error.
    pub fn had_error(&self) -> (r: bool)
        ensures
            r == (self.diagnostics().len() > 0),
    {
        self.errors.len() > 0
    }

    /// Scans `src` from its start. The tokens are returned; the errors are
    /// kept in the scanner, in place of those of the text before. Whatever
    /// the text holds, the tokens end with the end-of-input token, which
    /// occurs nowhere else among them, and each token is well formed.
    pub fn scan_tokens(&mut self, src: &str) -> (tokens: Vec<Token>)
        ensures
            token_views(tokens@) == scan(src@).tokens,
            final(self).diagnostics() == scan(src@).errors,
            is_token_sequence(token_views(tokens@)),
    {
        let mut tokens: Vec<Token> = Vec::new();
        let chars_vec = to_chars(src);
        let chars = chars_vec.as_slice();
        self.start = 0;
        self.current = 0;
        self.line = 0;
        self.errors = Vec::new();
        assert(token_views(tokens@) + scan_from(chars@, 0).tokens == scan(chars@).tokens);
        assert(self.diagnostics() + scan_from(chars@, 0).errors == scan(chars@).errors);

        while self.current < chars.len()
            invariant
                chars@ == src@,
                self.current <= chars@.len(),
                self.line == newlines(chars@, self.current as int),
                token_views(tokens@) + scan_from(chars@, self.current as int).tokens == scan(
                    chars@,
                ).tokens,
                self.diagnostics() + scan_from(chars@, self.current as int).errors == scan(
                    chars@,
                ).errors,
            decreases chars@.len() - self.current,
        {
            self.start = self.current;
            let ghost before = token_views(tokens@);
            let ghost errors_before = self.diagnostics();
            let ghost first = lex_at(chars@, self.current as int);
            let ghost rest = scan_from(chars@, first.end);
            proof {
                lemma_lex_at(chars@, self.current as int);
            }
            if let Some(tkn) = self.scan_token(chars) {
                tokens.push(tkn);
                assert(token_views(tokens@) == before.push(tkn@));
            }
            assert(token_views(tokens@) + rest.tokens == before + (optional(first.token)
                + rest.tokens));
            assert(self.diagnostics() + rest.errors == errors_before + (optional(first.error)
                + rest.errors));
        }
        let ghost before = token_views(tokens@);
        let eof = Token::new(TokenType::Eof, String::new(), Literal::Null, 0);
        tokens.push(eof);
        proof {
            assert(token_views(tokens@) == before.push(eof@));
            assert(token_views(tokens@) == scan(src@).tokens);
            law_scan_gives_token_sequence(src@);
        }
        tokens
    }

    /// Scans the lexeme that starts at the cursor.
    fn scan_token(&mut self, chars: &[char]) -> (r: Option<Token>)
        requires
            old(self).current < chars@.len(),
            old(self).start == old(self).current,
            old(self).line == newlines(chars@, old(self).current as int),
        ensures
            final(self).current == lex_at(chars@, old(self).current as int).end,
            final(self).current <= chars@.len(),
            final(self).line == newlines(chars@, final(self).current as int),
            match r {
                Some(t) => Some(t@),
                None => None,
            } == lex_at(chars@, old(self).current as int).token,
            final(self).diagnostics() == old(self).diagnostics() + optional(
                lex_at(chars@, old(self).current as int).error,
            ),
    {
        let c = chars[self.current];
        self.current += 1;
        proof {
            lemma_lex_at(chars@, self.start as int);
            lemma_newlines_bound(chars@, self.start as int);
            assert(self.diagnostics() + Seq::<LexErrorView>::empty() == self.diagnostics());
        }
        if c == '\n' {
            self.line += 1;
            return None;
        }
        if c == ' ' || c == '\t' || c == '\r' {
            return None;
        }
        proof {
            // Any other character leaves the line counter as it is.
            assert(newlines(chars@, self.current as int) == newlines(chars@, self.start as int));
        }
        match c {
            '(' => Some(self.new_token(chars, TokenType::LeftParen)),
            ')' => Some(self.new_token(chars, TokenType::RightParen)),
            '{' => Some(self.new_token(chars, TokenType::LeftBrace)),
            '}' => Some(self.new_token(chars, TokenType::RightBrace)),
            ',' => Some(self.new_token(chars, TokenType::Comma)),
            '.' => Some(self.new_token(chars, TokenType::Dot)),
            '-' => Some(self.new_token(chars, TokenType::Minus)),
            '+' => Some(self.new_token(chars, TokenType::Plus)),
            ';' => Some(self.new_token(chars, TokenType::Semicolon)),
            '*' => Some(self.new_token(chars, TokenType::Star)),
            '!' | '=' | '<' | '>' => {
                if self.current < chars.len() && chars[self.current] == '=' {
                    self.current += 1;
                    match c {
                        '!' => Some(self.new_token(chars, TokenType::BangEqual)),
                        '=' => Some(self.new_token(chars, TokenType::EqualEqual)),
                        '<' => Some(self.new_token(chars, TokenType::LessEqual)),
                        _ => Some(self.new_token(chars, TokenType::GreaterEqual)),
                    }
                } else {
                    match c {
                        '!' => Some(self.new_token(chars, TokenType::Bang)),
                        '=' => Some(self.new_token(chars, TokenType::Equal)),
                        '<' => Some(self.new_token(chars, TokenType::Less)),
                        _ => Some(self.new_token(chars, TokenType::Greater)),
                    }
                }
            },
            '/' => {
                if self.current < chars.len() && chars[self.current] == '/' {
                    self.current = run_end(chars, self.current + 1, CharClass::Comment);
                    proof {
                        lemma_run_len(chars@, self.start + 2, CharClass::Comment);
                        lemma_newlines_same_line(
                            chars@,
                            self.start as int,
                            self.current as int,
                        );
                    }
                    None
                } else {
                    Some(self.new_token(chars, TokenType::Slash))
                }
            },
            '"' => self.new_string_literal_token(chars),
            '0'..='9' => self.new_number_literal_token_(chars),
            '_' | 'a'..='z' | 'A'..='Z' => self.new_identifier_or_keyword_token(chars),
            _ => {
                self.report(chars, LexErrorKind::UnexpectedCharacter);
                None
            },
        }
    }

    /// The token of category `type_` for the text between the cursors.
    fn new_token(&self, chars: &[char], type_: TokenType) -> (r: Token)
        requires
            self.in_step(chars@),
        ensures
            Some(r@) == token_at(
                chars@,
                self.start as int,
                self.current as int,
                type_,
                LiteralView::Null,
            ).token,
    {
        proof {
            lemma_newlines_bound(chars@, self.current as int);
        }
        let lexeme = substring(chars, self.start, self.current);
        Token::new(type_, lexeme, Literal::Null, self.line + 1)
    }

    /// Records an error found on reaching the cursor.
    fn report(&mut self, chars: &[char], kind: LexErrorKind)
        requires
            old(self).in_step(chars@),
        ensures
            final(self).start == old(self).start,
            final(self).current == old(self).current,
            final(self).line == old(self).line,
            final(self).diagnostics() == old(self).diagnostics() + optional(
                error_at(chars@, old(self).current as int, kind).error,
            ),
    {
        proof {
            lemma_newlines_bound(chars@, self.current as int);
        }
        let error = LexError { line: self.line + 1, kind };
        self.errors.push(error);
        assert(self.diagnostics() == old(self).diagnostics().push(error@));
    }

    /// Scans a string literal whose opening quote has been read.
    fn new_string_literal_token(&mut self, chars: &[char]) -> (r: Option<Token>)
        requires
            old(self).in_step(chars@),
            old(self).current == old(self).start + 1,
            chars@[old(self).start as int] == '"',
        ensures
            final(self).current == lex_string(chars@, old(self).start as int).end,
            final(self).current <= chars@.len(),
            final(self).line == newlines(chars@, final(self).current as int),
            match r {
                Some(t) => Some(t@),
                None => None,
            } == lex_string(chars@, old(self).start as int).token,
            final(self).diagnostics() == old(self).diagnostics() + optional(
                lex_string(chars@, old(self).start as int).error,
            ),
    {
        loop
            invariant
                self.in_step(chars@),
                self.start == old(self).start,
                self.errors == old(self).errors,
                forall|k: int| self.start < k < self.current ==> #[trigger] chars@[k] != '"',
            decreases chars@.len() - self.current,
        {
            if self.current >= chars.len() {
                proof {
                    lemma_run_len_unique(
                        chars@,
                        self.start + 1,
                        self.current as int,
                        CharClass::Quoted,
                    );
                }
                self.report(chars, LexErrorKind::UnterminatedString);
                return None;
            }
            let c = chars[self.current];
            if c == '"' {
                proof {
                    lemma_run_len_unique(
                        chars@,
                        self.start + 1,
                        self.current as int,
                        CharClass::Quoted,
                    );
                    assert(self.diagnostics() + Seq::<LexErrorView>::empty()
                        == self.diagnostics());
                }
                self.current += 1;
                proof {
                    lemma_newlines_bound(chars@, self.current as int);
                }
                let lexeme = substring(chars, self.start, self.current);
                let string = substring(chars, self.start + 1, self.current - 1);
                return Some(
                    Token::new(TokenType::String_, lexeme, Literal::Str(string), self.line + 1),
                );
            }
            if c == '\n' {
                proof {
                    lemma_newlines_bound(chars@, self.current as int);
                }
                self.line += 1;
            }
            self.current += 1;
        }
    }

    /// Scans a number literal whose first digit has been read.
    fn new_number_literal_token_(&mut self, chars: &[char]) -> (r: Option<Token>)
        requires
            old(self).in_step(chars@),
            old(self).current == old(self).start + 1,
            is_digit(chars@[old(self).start as int]),
        ensures
            final(self).current == lex_number(chars@, old(self).start as int).end,
            final(self).current <= chars@.len(),
            final(self).line == newlines(chars@, final(self).current as int),
            match r {
                Some(t) => Some(t@),
                None => None,
            } == lex_number(chars@, old(self).start as int).token,
            final(self).diagnostics() == old(self).diagnostics() + optional(
                lex_number(chars@, old(self).start as int).error,
            ),
    {
        proof {
            lemma_number_lexeme(chars@, self.start as int);
            lemma_newlines_same_line(chars@, self.start as int, self.current as int);
            lemma_newlines_same_line(
                chars@,
                self.start as int,
                number_end(chars@, self.start as int),
            );
        }
        self.current = run_end(chars, self.current, CharClass::Digit);
        if self.current < chars.len() && chars[self.current] == '.' && self.current + 1
            < chars.len() && CharClass::Digit.contains(chars[self.current + 1]) {
            self.current = run_end(chars, self.current + 1, CharClass::Digit);
        }
        if self.current < chars.len() && chars[self.current] == '.' && !(self.current + 1
            < chars.len() && CharClass::Digit.contains(chars[self.current + 1])) {
            self.report(chars, LexErrorKind::InvalidNumber);
            return None;
        }
        let lexeme = substring(chars, self.start, self.current);
        proof {
            lemma_newlines_bound(chars@, self.current as int);
            assert(self.diagnostics() + Seq::<LexErrorView>::empty() == self.diagnostics());
        }
        let number = Decimal::from_numeral(lexeme.as_str());
        Some(Token::new(TokenType::Number, lexeme, Literal::Num(number), self.line + 1))
    }

    /// Scans a word whose first character has been read.
    fn new_identifier_or_keyword_token(&mut self, chars: &[char]) -> (r: Option<Token>)
        requires
            old(self).in_step(chars@),
            old(self).current == old(self).start + 1,
            is_alpha(chars@[old(self).start as int]),
        ensures
            final(self).current == lex_word(chars@, old(self).start as int).end,
            final(self).current <= chars@.len(),
            final(self).line == newlines(chars@, final(self).current as int),
            match r {
                Some(t) => Some(t@),
                None => None,
            } == lex_word(chars@, old(self).start as int).token,
            final(self).diagnostics() == old(self).diagnostics(),
    {
        proof {
            lemma_run_len(chars@, self.current as int, CharClass::Word);
            lemma_newlines_same_line(chars@, self.start as int, self.current as int);
        }
        self.current = run_end(chars, self.current, CharClass::Word);
        proof {
            lemma_newlines_same_line(chars@, self.start as int, self.current as int);
            lemma_newlines_bound(chars@, self.current as int);
        }
        let lexeme = substring(chars, self.start, self.current);
        let type_ = Scanner::eval_identifier_token_type(lexeme.as_str());
        Some(Token::new(type_, lexeme, Literal::Null, self.line + 1))
    }

    /// The category of a word: that of the keyword it spells, or
    /// `Identifier`.
    pub fn eval_identifier_token_type(lexeme: &str) -> (r: TokenType)
        ensures
            r == keyword(lexeme@),
    {
        let chars_vec = to_chars(lexeme);
        let chars = chars_vec.as_slice();
        if spells(chars, "and") {
            TokenType::And
        } else if spells(chars, "class") {
            TokenType::Class
        } else if spells(chars, "else") {
            TokenType::Else
        } else if spells(chars, "false") {
            TokenType::False
        } else if spells(chars, "for") {
            TokenType::For
        } else if spells(chars, "fun") {
            TokenType::Fun
        } else if spells(chars, "if") {
            TokenType::If
        } else if spells(chars, "nil") {
            TokenType::Nil
        } else if spells(chars, "or") {
            TokenType::Or
        } else if spells(chars, "print") {
            TokenType::Print
        } else if spells(chars, "return") {
            TokenType::Return
        } else if spells(chars, "super") {
            TokenType::Super
        } else if spells(chars, "this") {
            TokenType::This
        } else if spells(chars, "true") {
            TokenType::True
        } else if spells(chars, "var") {
            TokenType::Var
        } else if spells(chars, "while") {
            TokenType::While
        } else {
            TokenType::Identifier
        }
    }
}

} // verus!
