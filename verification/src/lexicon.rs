//! The lexicon: what the tokens and the lexical errors of a text are.
//!
//! A text is read from left to right, lexeme by lexeme. `lex_at` says what
//! the lexeme at a position is and where the next one starts; `scan` gives
//! the tokens and the errors of the whole text.

use crate::number::{decimal_of, is_numeral, lemma_decimal_of_canonical};
use crate::text::{is_alpha, is_digit, lemma_run_len, lemma_run_len_unique, line_at, run_len};
use crate::text::CharClass;
use crate::token::{all_well_formed, eof_token, is_token_sequence, LiteralView, TokenType};
use crate::token::TokenView;
use vstd::prelude::*;

verus! {

/// What can be wrong with a lexeme.
#[derive(Debug, Clone, Copy, PartialEq, Eq, Structural)]
pub enum LexErrorKind {
    /// A character that starts no token.
    UnexpectedCharacter,
    /// A string literal without its closing quote.
    UnterminatedString,
    /// A number literal followed by a point that no digit follows.
    InvalidNumber,
}

impl LexErrorKind {
    /// The message of the error.
    pub open spec fn message_spec(self) -> Seq<char> {
        match self {
            LexErrorKind::UnexpectedCharacter => "Unexpected character."@,
            LexErrorKind::UnterminatedString => "Unterminated string."@,
            LexErrorKind::InvalidNumber => "Invalid literal number"@,
        }
    }

    /// The message of the error.
    pub fn message(self) -> (r: &'static str)
        ensures
            r@ == self.message_spec(),
    {
        match self {
            LexErrorKind::UnexpectedCharacter => "Unexpected character.",
            LexErrorKind::UnterminatedString => "Unterminated string.",
            LexErrorKind::InvalidNumber => "Invalid literal number",
        }
    }
}

/// A lexical error and the line, counted from 1, on which it was found.
pub struct LexErrorView {
    pub line: nat,
    pub kind: LexErrorKind,
}

/// What scanning one lexeme gives: the position at which the next lexeme
/// starts, and the token or the error that the lexeme stands for, if any.
pub struct Lexed {
    pub end: int,
    pub token: Option<TokenView>,
    pub error: Option<LexErrorView>,
}

/// The category of a character that is a token by itself.
pub open spec fn punctuation(c: char) -> Option<TokenType> {
    if c == '(' {
        Some(TokenType::LeftParen)
    } else if c == ')' {
        Some(TokenType::RightParen)
    } else if c == '{' {
        Some(TokenType::LeftBrace)
    } else if c == '}' {
        Some(TokenType::RightBrace)
    } else if c == ',' {
        Some(TokenType::Comma)
    } else if c == '.' {
        Some(TokenType::Dot)
    } else if c == '-' {
        Some(TokenType::Minus)
    } else if c == '+' {
        Some(TokenType::Plus)
    } else if c == ';' {
        Some(TokenType::Semicolon)
    } else if c == '*' {
        Some(TokenType::Star)
    } else {
        None
    }
}

/// The category of an operator that an equals sign may follow: `c` alone
/// where `with_equal` is false, `c` and the equals sign where it is true.
pub open spec fn relational(c: char, with_equal: bool) -> Option<TokenType> {
    if c == '!' {
        Some(if with_equal { TokenType::BangEqual } else { TokenType::Bang })
    } else if c == '=' {
        Some(if with_equal { TokenType::EqualEqual } else { TokenType::Equal })
    } else if c == '<' {
        Some(if with_equal { TokenType::LessEqual } else { TokenType::Less })
    } else if c == '>' {
        Some(if with_equal { TokenType::GreaterEqual } else { TokenType::Greater })
    } else {
        None
    }
}

/// Whether the character `c` stands at position `pos` of `s`.
pub open spec fn at(s: Seq<char>, pos: int, c: char) -> bool {
    0 <= pos < s.len() && s[pos] == c
}

/// Whether a digit stands at position `pos` of `s`.
pub open spec fn digit_at(s: Seq<char>, pos: int) -> bool {
    0 <= pos < s.len() && is_digit(s[pos])
}

/// The category of the word `lexeme`: that of the keyword it spells, or
/// `Identifier`.
pub open spec fn keyword(lexeme: Seq<char>) -> TokenType {
    if lexeme == "and"@ {
        TokenType::And
    } else if lexeme == "class"@ {
        TokenType::Class
    } else if lexeme == "else"@ {
        TokenType::Else
    } else if lexeme == "false"@ {
        TokenType::False
    } else if lexeme == "for"@ {
        TokenType::For
    } else if lexeme == "fun"@ {
        TokenType::Fun
    } else if lexeme == "if"@ {
        TokenType::If
    } else if lexeme == "nil"@ {
        TokenType::Nil
    } else if lexeme == "or"@ {
        TokenType::Or
    } else if lexeme == "print"@ {
        TokenType::Print
    } else if lexeme == "return"@ {
        TokenType::Return
    } else if lexeme == "super"@ {
        TokenType::Super
    } else if lexeme == "this"@ {
        TokenType::This
    } else if lexeme == "true"@ {
        TokenType::True
    } else if lexeme == "var"@ {
        TokenType::Var
    } else if lexeme == "while"@ {
        TokenType::While
    } else {
        TokenType::Identifier
    }
}

/// A token for `s[pos..end]`, on the line on which it ends.
pub open spec fn token_at(
    s: Seq<char>,
    pos: int,
    end: int,
    type_: TokenType,
    literal: LiteralView,
) -> Lexed {
    Lexed {
        end,
        token: Some(
            TokenView { type_, lexeme: s.subrange(pos, end), literal, line: line_at(s, end) },
        ),
        error: None,
    }
}

/// Nothing for the text up to `end`: blanks and comments.
pub open spec fn nothing_at(end: int) -> Lexed {
    Lexed { end, token: None, error: None }
}

/// An error found on reaching `end`.
pub open spec fn error_at(s: Seq<char>, end: int, kind: LexErrorKind) -> Lexed {
    Lexed { end, token: None, error: Some(LexErrorView { line: line_at(s, end), kind }) }
}

/// A string literal starts at `pos`: it runs to the next double quote,
/// across lines. Without one the rest of the text is an error.
pub open spec fn lex_string(s: Seq<char>, pos: int) -> Lexed {
    let close = pos + 1 + run_len(s, pos + 1, CharClass::Quoted);
    if close < s.len() {
        token_at(
            s,
            pos,
            close + 1,
            TokenType::String_,
            LiteralView::Str(s.subrange(pos + 1, close)),
        )
    } else {
        error_at(s, close, LexErrorKind::UnterminatedString)
    }
}

/// Where the number literal that starts at `pos` ends: after its digits
/// and, where a point and a digit follow them, after the digits of the
/// fraction.
pub open spec fn number_end(s: Seq<char>, pos: int) -> int {
    let whole_end = pos + 1 + run_len(s, pos + 1, CharClass::Digit);
    if at(s, whole_end, '.') && digit_at(s, whole_end + 1) {
        whole_end + 1 + run_len(s, whole_end + 1, CharClass::Digit)
    } else {
        whole_end
    }
}

/// A number literal starts at `pos`. A point after it that no digit
/// follows is an error, and the digits before it give no token.
pub open spec fn lex_number(s: Seq<char>, pos: int) -> Lexed {
    let end = number_end(s, pos);
    if at(s, end, '.') && !digit_at(s, end + 1) {
        error_at(s, end, LexErrorKind::InvalidNumber)
    } else {
        token_at(
            s,
            pos,
            end,
            TokenType::Number,
            LiteralView::Num(decimal_of(s.subrange(pos, end))),
        )
    }
}

/// A word starts at `pos`: the longest run of letters, digits and
/// underscores, which is a keyword or an identifier.
pub open spec fn lex_word(s: Seq<char>, pos: int) -> Lexed {
    let end = pos + 1 + run_len(s, pos + 1, CharClass::Word);
    token_at(s, pos, end, keyword(s.subrange(pos, end)), LiteralView::Null)
}

/// The lexeme that starts at position `pos` of `s`.
pub open spec fn lex_at(s: Seq<char>, pos: int) -> Lexed
    recommends
        0 <= pos < s.len(),
{
    let c = s[pos];
    if punctuation(c) is Some {
        token_at(s, pos, pos + 1, punctuation(c)->0, LiteralView::Null)
    } else if relational(c, false) is Some {
        if at(s, pos + 1, '=') {
            token_at(s, pos, pos + 2, relational(c, true)->0, LiteralView::Null)
        } else {
            token_at(s, pos, pos + 1, relational(c, false)->0, LiteralView::Null)
        }
    } else if c == '/' {
        if at(s, pos + 1, '/') {
            nothing_at(pos + 2 + run_len(s, pos + 2, CharClass::Comment))
        } else {
            token_at(s, pos, pos + 1, TokenType::Slash, LiteralView::Null)
        }
    } else if c == ' ' || c == '\t' || c == '\r' || c == '\n' {
        nothing_at(pos + 1)
    } else if c == '"' {
        lex_string(s, pos)
    } else if is_digit(c) {
        lex_number(s, pos)
    } else if is_alpha(c) {
        lex_word(s, pos)
    } else {
        error_at(s, pos + 1, LexErrorKind::UnexpectedCharacter)
    }
}

/// The tokens and the errors of a text.
pub struct Scanned {
    pub tokens: Seq<TokenView>,
    pub errors: Seq<LexErrorView>,
}

/// The sequence of the value of `o`, or the empty sequence.
pub open spec fn optional<A>(o: Option<A>) -> Seq<A> {
    match o {
        Some(a) => seq![a],
        None => Seq::empty(),
    }
}

/// The tokens and the errors of `s` from position `pos` on: those of each
/// lexeme in turn, and the end-of-input token after the last.
pub open spec fn scan_from(s: Seq<char>, pos: int) -> Scanned
    decreases
            if pos < s.len() {
                s.len() - pos
            } else {
                0
            },
{
    if 0 <= pos < s.len() {
        let first = lex_at(s, pos);
        let rest = scan_from(s, first.end);
        Scanned {
            tokens: optional(first.token) + rest.tokens,
            errors: optional(first.error) + rest.errors,
        }
    } else {
        Scanned { tokens: seq![eof_token()], errors: Seq::empty() }
    }
}

/// The tokens and the errors of the source text `s`.
pub open spec fn scan(s: Seq<char>) -> Scanned {
    scan_from(s, 0)
}

/// A token is well formed and is never the end-of-input token; it ends
/// after `pos`, within the text. A lexeme is not both a token and an error.
pub proof fn lemma_lex_at(s: Seq<char>, pos: int)
    requires
        0 <= pos < s.len(),
    ensures
        pos < lex_at(s, pos).end <= s.len(),
        lex_at(s, pos).token matches Some(t) ==> t.well_formed() && t.type_ != TokenType::Eof
            && t.line >= 1,
        !(lex_at(s, pos).token is Some && lex_at(s, pos).error is Some),
{
    let c = s[pos];
    if punctuation(c) is Some {
    } else if relational(c, false) is Some {
    } else if c == '/' {
        if at(s, pos + 1, '/') {
            lemma_run_len(s, pos + 2, CharClass::Comment);
        }
    } else if c == ' ' || c == '\t' || c == '\r' || c == '\n' {
    } else if c == '"' {
        lemma_run_len(s, pos + 1, CharClass::Quoted);
    } else if is_digit(c) {
        lemma_number_lexeme(s, pos);
        lemma_decimal_of_canonical(s.subrange(pos, number_end(s, pos)));
    } else if is_alpha(c) {
        lemma_run_len(s, pos + 1, CharClass::Word);
    } else {
    }
}

/// The text of a number literal is a numeral, without a line feed.
pub proof fn lemma_number_lexeme(s: Seq<char>, pos: int)
    requires
        0 <= pos < s.len(),
        is_digit(s[pos]),
    ensures
        pos < number_end(s, pos) <= s.len(),
        is_numeral(s.subrange(pos, number_end(s, pos))),
        forall|k: int| pos <= k < number_end(s, pos) ==> #[trigger] s[k] != '\n',
{
    let whole_end = pos + 1 + run_len(s, pos + 1, CharClass::Digit);
    let end = number_end(s, pos);
    lemma_run_len(s, pos + 1, CharClass::Digit);
    if end != whole_end {
        lemma_run_len(s, whole_end + 1, CharClass::Digit);
    }
    let lexeme = s.subrange(pos, end);
    assert forall|k: int| 0 <= k < whole_end - pos implies CharClass::Digit.has(
        #[trigger] lexeme[k],
    ) by {
        assert(lexeme[k] == s[pos + k]);
    }
    lemma_run_len_unique(lexeme, 0, whole_end - pos, CharClass::Digit);
    if end != whole_end {
        assert forall|k: int| whole_end - pos + 1 <= k < end - pos implies CharClass::Digit.has(
            #[trigger] lexeme[k],
        ) by {
            assert(lexeme[k] == s[pos + k]);
        }
        lemma_run_len_unique(lexeme, whole_end - pos + 1, end - pos, CharClass::Digit);
    }
}

/// Whatever a text holds, its tokens are a token sequence: they end with
/// the end-of-input token, which occurs nowhere else among them, and each
/// of them is well formed.
pub proof fn law_scan_gives_token_sequence(s: Seq<char>)
    ensures
        is_token_sequence(scan(s).tokens),
{
    lemma_scan_from(s, 0);
}

/// The same, for the tokens from any position on.
pub proof fn lemma_scan_from(s: Seq<char>, pos: int)
    ensures
        is_token_sequence(scan_from(s, pos).tokens),
    decreases
            if pos < s.len() {
                s.len() - pos
            } else {
                0
            },
{
    reveal(all_well_formed);
    if 0 <= pos < s.len() {
        lemma_lex_at(s, pos);
        lemma_scan_from(s, lex_at(s, pos).end);
        let first = optional(lex_at(s, pos).token);
        let rest = scan_from(s, lex_at(s, pos).end).tokens;
        let all = scan_from(s, pos).tokens;
        assert(all == first + rest);
        assert forall|i: int| 0 <= i < all.len() implies (#[trigger] all[i]).well_formed() && (i
            < all.len() - 1 ==> all[i].type_ != TokenType::Eof && all[i].line >= 1) by {
            if i >= first.len() {
                assert(all[i] == rest[i - first.len()]);
            }
        }
    }
}

/// A string literal that is never closed gives one error, on the last
/// line of the text, and no token: the end-of-input token alone follows.
pub proof fn law_unterminated_string(s: Seq<char>, pos: int)
    requires
        0 <= pos < s.len(),
        s[pos] == '"',
        forall|k: int| pos < k < s.len() ==> s[k] != '"',
    ensures
        scan_from(s, pos).tokens == seq![eof_token()],
        scan_from(s, pos).errors == optional(
            error_at(s, s.len() as int, LexErrorKind::UnterminatedString).error,
        ),
{
    lemma_run_len_unique(s, pos + 1, s.len() as int, CharClass::Quoted);
    assert(lex_at(s, pos) == error_at(s, s.len() as int, LexErrorKind::UnterminatedString));
    assert(scan_from(s, s.len() as int).tokens == seq![eof_token()]);
    assert(scan_from(s, pos).tokens =~= seq![eof_token()]);
    assert(scan_from(s, pos).errors =~= optional(
        error_at(s, s.len() as int, LexErrorKind::UnterminatedString).error,
    ));
}

/// A word is scanned whole: the token that starts at a letter or an
/// underscore takes every letter, digit and underscore that follows, and
/// is a keyword only where all of them together spell one.
pub proof fn law_word_is_scanned_whole(s: Seq<char>, pos: int)
    requires
        0 <= pos < s.len(),
        is_alpha(s[pos]),
    ensures
        ({
            let word = lex_at(s, pos);
            &&& word.error is None
            &&& word.token matches Some(t)
            &&& t.lexeme == s.subrange(pos, word.end)
            &&& t.type_ == keyword(t.lexeme)
            &&& pos < word.end <= s.len()
            &&& forall|k: int| pos <= k < word.end ==> CharClass::Word.has(#[trigger] s[k])
            &&& word.end < s.len() ==> !CharClass::Word.has(s[word.end])
        }),
{
    lemma_run_len(s, pos + 1, CharClass::Word);
}

/// No keyword starts another: a keyword with more characters after it is
/// an identifier.
pub proof fn law_keyword_boundary(word: Seq<char>, more: Seq<char>)
    requires
        keyword(word) != TokenType::Identifier,
        more.len() > 0,
    ensures
        keyword(word + more) == TokenType::Identifier,
{
    reveal_strlit("and");
    reveal_strlit("class");
    reveal_strlit("else");
    reveal_strlit("false");
    reveal_strlit("for");
    reveal_strlit("fun");
    reveal_strlit("if");
    reveal_strlit("nil");
    reveal_strlit("or");
    reveal_strlit("print");
    reveal_strlit("return");
    reveal_strlit("super");
    reveal_strlit("this");
    reveal_strlit("true");
    reveal_strlit("var");
    reveal_strlit("while");
    let longer = word + more;
    assert(longer.len() > word.len());
    assert(longer[0] == word[0]);
    assert(longer[1] == word[1]);
}

} // verus!
