use lox::number::Decimal;
use lox::lexicon::LexErrorKind;
use lox::scanner::{LexError, Scanner};
use lox::token::{Literal, Token, TokenType};

fn scan(src: &str) -> (Vec<Token>, Vec<LexError>) {
    let mut scanner = Scanner::new();
    let tokens = scanner.scan_tokens(src);
    (tokens, scanner.errors().clone())
}

fn kinds(tokens: &[Token]) -> Vec<TokenType> {
    tokens.iter().map(|t| t.type_).collect()
}

fn lexemes(tokens: &[Token]) -> Vec<String> {
    tokens.iter().map(|t| t.lexeme.clone()).collect()
}

fn value(token: &Token) -> f64 {
    match &token.literal {
        Literal::Num(n) => n.to_string().parse().unwrap(),
        other => panic!("no number: {:?}", other),
    }
}

#[test]
fn scans_numbers_and_operator() {
    let (tokens, errors) = scan("123 + 45.67");
    assert_eq!(
        kinds(&tokens),
        vec![TokenType::Number, TokenType::Plus, TokenType::Number, TokenType::Eof]
    );
    assert_eq!(lexemes(&tokens), vec!["123", "+", "45.67", ""]);
    assert_eq!(value(&tokens[0]), 123.0);
    assert_eq!(value(&tokens[2]), 45.67);
    assert_eq!(tokens[1].literal, Literal::Null);
    assert_eq!(tokens[3].literal, Literal::Null);
    assert!(errors.is_empty());
}

#[test]
fn unterminated_string_is_one_error_and_no_token() {
    let (tokens, errors) = scan("\"abc");
    assert_eq!(errors, vec![LexError { line: 1, kind: LexErrorKind::UnterminatedString }]);
    assert_eq!(kinds(&tokens), vec![TokenType::Eof]);
    assert!(tokens.iter().all(|t| t.type_ != TokenType::String_));
}

#[test]
fn forest_is_one_identifier() {
    let (tokens, errors) = scan("forest");
    assert_eq!(kinds(&tokens), vec![TokenType::Identifier, TokenType::Eof]);
    assert_eq!(tokens[0].lexeme, "forest");
    assert!(errors.is_empty());
}

#[test]
fn keyword_needs_the_whole_word() {
    let (tokens, _) = scan("for fore _for for1 for");
    assert_eq!(
        kinds(&tokens),
        vec![
            TokenType::For,
            TokenType::Identifier,
            TokenType::Identifier,
            TokenType::Identifier,
            TokenType::For,
            TokenType::Eof
        ]
    );
}

#[test]
fn every_keyword_is_recognised() {
    let (tokens, errors) =
        scan("and class else false for fun if nil or print return super this true var while");
    assert_eq!(
        kinds(&tokens),
        vec![
            TokenType::And,
            TokenType::Class,
            TokenType::Else,
            TokenType::False,
            TokenType::For,
            TokenType::Fun,
            TokenType::If,
            TokenType::Nil,
            TokenType::Or,
            TokenType::Print,
            TokenType::Return,
            TokenType::Super,
            TokenType::This,
            TokenType::True,
            TokenType::Var,
            TokenType::While,
            TokenType::Eof
        ]
    );
    assert!(errors.is_empty());
}

#[test]
fn keyword_lookup_by_name() {
    assert_eq!(Scanner::eval_identifier_token_type("while"), TokenType::While);
    assert_eq!(Scanner::eval_identifier_token_type("While"), TokenType::Identifier);
    assert_eq!(Scanner::eval_identifier_token_type("whil"), TokenType::Identifier);
    assert_eq!(Scanner::eval_identifier_token_type("nil"), TokenType::Nil);
    assert_eq!(Scanner::eval_identifier_token_type(""), TokenType::Identifier);
}

#[test]
fn keyword_at_end_of_input_is_a_keyword() {
    let (tokens, _) = scan("nil");
    assert_eq!(kinds(&tokens), vec![TokenType::Nil, TokenType::Eof]);
}

#[test]
fn token_sequence_always_ends_with_one_eof() {
    let sources =
        ["", " ", "\n\n", "1 + 2", "\"open", "@#^", "// only a comment", "1.", "a.b.c", "!"];
    for src in sources {
        let (tokens, _) = scan(src);
        assert!(!tokens.is_empty());
        let last = tokens.last().unwrap();
        assert_eq!(last.type_, TokenType::Eof);
        assert_eq!(last.lexeme, "");
        assert_eq!(last.literal, Literal::Null);
        assert_eq!(last.line, 0);
        let eofs = tokens.iter().filter(|t| t.type_ == TokenType::Eof).count();
        assert_eq!(eofs, 1);
    }
}

#[test]
fn empty_source_is_only_eof() {
    let (tokens, errors) = scan("");
    assert_eq!(kinds(&tokens), vec![TokenType::Eof]);
    assert!(errors.is_empty());
}

#[test]
fn punctuation_tokens() {
    let (tokens, errors) = scan("(){},.-+;*/");
    assert_eq!(
        kinds(&tokens),
        vec![
            TokenType::LeftParen,
            TokenType::RightParen,
            TokenType::LeftBrace,
            TokenType::RightBrace,
            TokenType::Comma,
            TokenType::Dot,
            TokenType::Minus,
            TokenType::Plus,
            TokenType::Semicolon,
            TokenType::Star,
            TokenType::Slash,
            TokenType::Eof
        ]
    );
    assert_eq!(lexemes(&tokens), vec!["(", ")", "{", "}", ",", ".", "-", "+", ";", "*", "/", ""]);
    assert!(errors.is_empty());
}

#[test]
fn one_and_two_character_operators() {
    let (tokens, errors) = scan("! != = == < <= > >=");
    assert_eq!(
        kinds(&tokens),
        vec![
            TokenType::Bang,
            TokenType::BangEqual,
            TokenType::Equal,
            TokenType::EqualEqual,
            TokenType::Less,
            TokenType::LessEqual,
            TokenType::Greater,
            TokenType::GreaterEqual,
            TokenType::Eof
        ]
    );
    assert_eq!(lexemes(&tokens), vec!["!", "!=", "=", "==", "<", "<=", ">", ">=", ""]);
    assert!(errors.is_empty());
}

#[test]
fn longest_operator_wins() {
    let (tokens, _) = scan("===");
    assert_eq!(kinds(&tokens), vec![TokenType::EqualEqual, TokenType::Equal, TokenType::Eof]);
    let (tokens, _) = scan("!==");
    assert_eq!(kinds(&tokens), vec![TokenType::BangEqual, TokenType::Equal, TokenType::Eof]);
}

#[test]
fn operator_at_end_of_input() {
    for (src, kind) in [
        ("!", TokenType::Bang),
        ("=", TokenType::Equal),
        ("<", TokenType::Less),
        (">", TokenType::Greater),
        ("/", TokenType::Slash),
    ] {
        let (tokens, errors) = scan(src);
        assert_eq!(kinds(&tokens), vec![kind, TokenType::Eof]);
        assert!(errors.is_empty());
    }
}

#[test]
fn comment_runs_to_end_of_line() {
    let (tokens, errors) = scan("1 // two three\n4 // five");
    assert_eq!(kinds(&tokens), vec![TokenType::Number, TokenType::Number, TokenType::Eof]);
    assert_eq!(lexemes(&tokens), vec!["1", "4", ""]);
    assert_eq!(tokens[0].line, 1);
    assert_eq!(tokens[1].line, 2);
    assert!(errors.is_empty());
}

#[test]
fn blanks_give_no_token() {
    let (tokens, errors) = scan(" \t\r\n \t");
    assert_eq!(kinds(&tokens), vec![TokenType::Eof]);
    assert!(errors.is_empty());
}

#[test]
fn lines_are_counted_from_one() {
    let (tokens, _) = scan("a\nb\n\nc d");
    let lines: Vec<usize> = tokens.iter().map(|t| t.line).collect();
    assert_eq!(lines, vec![1, 2, 4, 4, 0]);
}

#[test]
fn string_literal_keeps_quotes_in_lexeme_only() {
    let (tokens, errors) = scan("\"hi there\"");
    assert_eq!(kinds(&tokens), vec![TokenType::String_, TokenType::Eof]);
    assert_eq!(tokens[0].lexeme, "\"hi there\"");
    assert_eq!(tokens[0].literal, Literal::Str(String::from("hi there")));
    assert!(errors.is_empty());
}

#[test]
fn string_has_no_escapes() {
    let (tokens, _) = scan("\"a\\\" b");
    assert_eq!(kinds(&tokens), vec![TokenType::String_, TokenType::Identifier, TokenType::Eof]);
    assert_eq!(tokens[0].literal, Literal::Str(String::from("a\\")));
}

#[test]
fn empty_string_literal() {
    let (tokens, _) = scan("\"\"");
    assert_eq!(tokens[0].lexeme, "\"\"");
    assert_eq!(tokens[0].literal, Literal::Str(String::new()));
}

#[test]
fn string_may_span_lines() {
    let (tokens, errors) = scan("\"one\ntwo\nthree\" x");
    assert_eq!(kinds(&tokens), vec![TokenType::String_, TokenType::Identifier, TokenType::Eof]);
    assert_eq!(tokens[0].literal, Literal::Str(String::from("one\ntwo\nthree")));
    assert_eq!(tokens[0].line, 3);
    assert_eq!(tokens[1].line, 3);
    assert!(errors.is_empty());
}

#[test]
fn unterminated_string_reports_the_last_line() {
    let (tokens, errors) = scan("1\n\"abc\ndef\n");
    assert_eq!(kinds(&tokens), vec![TokenType::Number, TokenType::Eof]);
    assert_eq!(errors, vec![LexError { line: 4, kind: LexErrorKind::UnterminatedString }]);
}

#[test]
fn number_with_trailing_point_is_an_error() {
    let (tokens, errors) = scan("1.");
    assert_eq!(kinds(&tokens), vec![TokenType::Dot, TokenType::Eof]);
    assert_eq!(errors, vec![LexError { line: 1, kind: LexErrorKind::InvalidNumber }]);
}

#[test]
fn number_before_a_name_is_an_error() {
    let (tokens, errors) = scan("12.abs");
    assert_eq!(kinds(&tokens), vec![TokenType::Dot, TokenType::Identifier, TokenType::Eof]);
    assert_eq!(errors, vec![LexError { line: 1, kind: LexErrorKind::InvalidNumber }]);
}

#[test]
fn fraction_with_trailing_point_is_an_error() {
    let (tokens, errors) = scan("1.5.");
    assert_eq!(kinds(&tokens), vec![TokenType::Dot, TokenType::Eof]);
    assert_eq!(errors, vec![LexError { line: 1, kind: LexErrorKind::InvalidNumber }]);
}

#[test]
fn number_has_one_fraction() {
    let (tokens, errors) = scan("1.5.25");
    assert_eq!(
        kinds(&tokens),
        vec![TokenType::Number, TokenType::Dot, TokenType::Number, TokenType::Eof]
    );
    assert_eq!(lexemes(&tokens), vec!["1.5", ".", "25", ""]);
    assert!(errors.is_empty());
}

#[test]
fn number_values_are_exact() {
    let (tokens, _) = scan("0 007 1.50 0.125 10 100.001");
    let values: Vec<f64> = tokens[..6].iter().map(value).collect();
    assert_eq!(values, vec![0.0, 7.0, 1.5, 0.125, 10.0, 100.001]);
    assert_eq!(tokens[1].literal, Literal::Num(Decimal::parse("7").unwrap()));
    assert_eq!(tokens[2].literal, Literal::Num(Decimal::parse("1.5").unwrap()));
    assert_eq!(lexemes(&tokens[..3]), vec!["0", "007", "1.50"]);
}

#[test]
fn minus_is_not_part_of_a_number() {
    let (tokens, _) = scan("-1");
    assert_eq!(kinds(&tokens), vec![TokenType::Minus, TokenType::Number, TokenType::Eof]);
}

#[test]
fn unexpected_character_does_not_stop_the_scan() {
    let (tokens, errors) = scan("1 @ 2\n# 3");
    assert_eq!(
        kinds(&tokens),
        vec![TokenType::Number, TokenType::Number, TokenType::Number, TokenType::Eof]
    );
    assert_eq!(
        errors,
        vec![
            LexError { line: 1, kind: LexErrorKind::UnexpectedCharacter },
            LexError { line: 2, kind: LexErrorKind::UnexpectedCharacter }
        ]
    );
}

#[test]
fn letters_outside_ascii_are_unexpected() {
    let (tokens, errors) = scan("é");
    assert_eq!(kinds(&tokens), vec![TokenType::Eof]);
    assert_eq!(errors.len(), 1);
    assert_eq!(errors[0].kind, LexErrorKind::UnexpectedCharacter);
}

#[test]
fn scanner_starts_afresh_on_each_text() {
    let mut scanner = Scanner::new();
    assert!(!scanner.had_error());
    let first = scanner.scan_tokens("@\n\n1");
    assert!(scanner.had_error());
    assert_eq!(first[0].line, 3);
    let second = scanner.scan_tokens("2");
    assert!(!scanner.had_error());
    assert!(scanner.errors().is_empty());
    assert_eq!(kinds(&second), vec![TokenType::Number, TokenType::Eof]);
    assert_eq!(second[0].line, 1);
    assert!(scanner.into_errors().is_empty());
}

#[test]
fn error_messages() {
    assert_eq!(LexErrorKind::UnexpectedCharacter.message(), "Unexpected character.");
    assert_eq!(LexErrorKind::UnterminatedString.message(), "Unterminated string.");
    assert_eq!(LexErrorKind::InvalidNumber.message(), "Invalid literal number");
    let error = LexError { line: 12, kind: LexErrorKind::UnterminatedString };
    assert_eq!(error.to_string(), "[line 12] Error : Unterminated string.");
}

#[test]
fn scanned_tokens_keep_the_token_invariant() {
    let (tokens, _) = scan("var x = (1.5 + \"s\") != nil; // done\n!x");
    for token in &tokens {
        match &token.literal {
            Literal::Num(_) => assert_eq!(token.type_, TokenType::Number),
            Literal::Str(_) => assert_eq!(token.type_, TokenType::String_),
            Literal::Null => {
                assert_ne!(token.type_, TokenType::Number);
                assert_ne!(token.type_, TokenType::String_);
            }
        }
        assert_eq!(token.lexeme.is_empty(), token.type_ == TokenType::Eof);
    }
}
