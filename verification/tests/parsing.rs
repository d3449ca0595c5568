use lox::expr::Expr;
use lox::grammar::Level;
use lox::parser::{
    comparison, equality, expression, factor, primary, term, unary, ParseError, Parser,
};
use lox::scanner::Scanner;
use lox::token::{is_terminated, Literal, Token, TokenType};

fn tokens_of(src: &str) -> Vec<Token> {
    Scanner::new().scan_tokens(src)
}

fn printed(src: &str) -> String {
    let tokens = tokens_of(src);
    assert!(is_terminated(&tokens));
    let (expr, rest) = expression(&tokens).unwrap();
    assert_eq!(rest.len(), 1);
    assert!(expr.is_printable());
    expr.format_ast()
}

fn failure(src: &str) -> ParseError {
    let tokens = tokens_of(src);
    match expression(&tokens) {
        Ok((expr, _)) => panic!("parsed: {:?}", expr),
        Err(error) => error,
    }
}

#[test]
fn unary_binds_tighter_than_multiplication() {
    assert_eq!(printed("-123 * (45.67)"), "(* (- 123.0) (group 45.67))");
}

#[test]
fn missing_parenthesis_at_end_of_input() {
    let error = failure("(1 + 2");
    assert_eq!(error.token().type_, TokenType::Eof);
    assert_eq!(error.token().lexeme, "");
    assert_eq!(error.message(), "Expect a ')' token at end.");
    assert_eq!(error.line(), 0);
}

#[test]
fn subtraction_associates_to_the_left() {
    assert_eq!(printed("1 - 2 - 3"), "(- (- 1.0 2.0) 3.0)");
    assert_ne!(printed("1 - 2 - 3"), "(- 1.0 (- 2.0 3.0))");
}

#[test]
fn every_level_associates_to_the_left() {
    assert_eq!(printed("1 == 2 != 3"), "(!= (== 1.0 2.0) 3.0)");
    assert_eq!(printed("1 < 2 >= 3 > 4 <= 5"), "(<= (> (>= (< 1.0 2.0) 3.0) 4.0) 5.0)");
    assert_eq!(printed("1 + 2 - 3 + 4"), "(+ (- (+ 1.0 2.0) 3.0) 4.0)");
    assert_eq!(printed("8 / 4 * 2 / 1"), "(/ (* (/ 8.0 4.0) 2.0) 1.0)");
}

#[test]
fn precedence_from_equality_to_factor() {
    assert_eq!(printed("1 + 2 * 3"), "(+ 1.0 (* 2.0 3.0))");
    assert_eq!(printed("1 * 2 + 3"), "(+ (* 1.0 2.0) 3.0)");
    assert_eq!(printed("1 + 2 < 3 * 4 == true"), "(== (< (+ 1.0 2.0) (* 3.0 4.0)) true)");
    assert_eq!(printed("1 == 2 < 3"), "(== 1.0 (< 2.0 3.0))");
    assert_eq!(printed("(1 + 2) * 3"), "(* (group (+ 1.0 2.0)) 3.0)");
}

#[test]
fn unary_is_right_associative() {
    assert_eq!(printed("!!true"), "(! (! true))");
    assert_eq!(printed("--1"), "(- (- 1.0))");
    assert_eq!(printed("-!-1"), "(- (! (- 1.0)))");
    assert_eq!(printed("1 - -2"), "(- 1.0 (- 2.0))");
}

#[test]
fn literals() {
    assert_eq!(printed("nil"), "nil");
    assert_eq!(printed("true"), "true");
    assert_eq!(printed("false"), "false");
    assert_eq!(printed("12"), "12.0");
    assert_eq!(printed("\"hello\""), "\"hello\"");
    assert_eq!(printed("\"a\" == \"b\""), "(== \"a\" \"b\")");
}

#[test]
fn nested_groups() {
    assert_eq!(printed("((1))"), "(group (group 1.0))");
    assert_eq!(printed("(1 + (2 - 3))"), "(group (+ 1.0 (group (- 2.0 3.0))))");
}

#[test]
fn missing_parenthesis_before_another_token() {
    let error = failure("(1 + 2 3)");
    assert_eq!(error.token().type_, TokenType::Number);
    assert_eq!(error.token().lexeme, "3");
    assert_eq!(error.message(), "Expect a ')' token here.");
    assert_eq!(error.line(), 1);
}

#[test]
fn error_carries_the_line_of_its_token() {
    let error = failure("(1 +\n\n 2\n ; 3)");
    assert_eq!(error.token().type_, TokenType::Semicolon);
    assert_eq!(error.line(), 4);
    assert_eq!(error.token().line, 4);
    assert_eq!(error.message(), "Expect a ')' token here.");
}

#[test]
fn operand_expected() {
    let error = failure("");
    assert_eq!(error.token().type_, TokenType::Eof);
    assert_eq!(error.message(), "Cannot parse this token.");
    let error = failure("1 +");
    assert_eq!(error.token().type_, TokenType::Eof);
    assert_eq!(error.message(), "Cannot parse this token.");
    let error = failure("* 2");
    assert_eq!(error.token().type_, TokenType::Star);
    assert_eq!(error.message(), "Cannot parse this token.");
    let error = failure("foo");
    assert_eq!(error.token().type_, TokenType::Identifier);
    assert_eq!(error.token().lexeme, "foo");
    let error = failure("()");
    assert_eq!(error.token().type_, TokenType::RightParen);
    assert_eq!(error.message(), "Cannot parse this token.");
}

#[test]
fn first_error_stops_the_parse() {
    let error = failure("(1 + ) + (2");
    assert_eq!(error.token().type_, TokenType::RightParen);
    assert_eq!(error.message(), "Cannot parse this token.");
}

#[test]
fn remaining_tokens_are_returned() {
    let tokens = tokens_of("1 + 2 3 * 4");
    let (first, rest) = expression(&tokens).unwrap();
    assert_eq!(first.format_ast(), "(+ 1.0 2.0)");
    assert_eq!(rest.len(), 4);
    assert_eq!(rest[0].lexeme, "3");
    let (second, rest) = expression(rest).unwrap();
    assert_eq!(second.format_ast(), "(* 3.0 4.0)");
    assert_eq!(rest.len(), 1);
    assert_eq!(rest[0].type_, TokenType::Eof);
}

#[test]
fn input_is_left_as_it_was() {
    let tokens = tokens_of("(1 + 2) * -3");
    let before = tokens_of("(1 + 2) * -3");
    let _ = expression(&tokens);
    assert_eq!(tokens, before);
}

#[test]
fn each_level_can_be_entered() {
    let tokens = tokens_of("1 + 2 == 3");
    let (e, rest) = equality(&tokens).unwrap();
    assert_eq!((e.format_ast().as_str(), rest.len()), ("(== (+ 1.0 2.0) 3.0)", 1));
    let (e, rest) = comparison(&tokens).unwrap();
    assert_eq!((e.format_ast().as_str(), rest.len()), ("(+ 1.0 2.0)", 3));
    let (e, rest) = term(&tokens).unwrap();
    assert_eq!((e.format_ast().as_str(), rest.len()), ("(+ 1.0 2.0)", 3));
    let (e, rest) = factor(&tokens).unwrap();
    assert_eq!((e.format_ast().as_str(), rest.len()), ("1.0", 5));
    let (e, rest) = unary(&tokens).unwrap();
    assert_eq!((e.format_ast().as_str(), rest.len()), ("1.0", 5));
    let (e, rest) = primary(&tokens).unwrap();
    assert_eq!((e.format_ast().as_str(), rest.len()), ("1.0", 5));
}

#[test]
fn operators_of_each_level() {
    assert!(Level::Equality.accepts(TokenType::BangEqual));
    assert!(Level::Equality.accepts(TokenType::EqualEqual));
    assert!(!Level::Equality.accepts(TokenType::Equal));
    assert!(Level::Comparison.accepts(TokenType::Less));
    assert!(Level::Comparison.accepts(TokenType::GreaterEqual));
    assert!(!Level::Comparison.accepts(TokenType::EqualEqual));
    assert!(Level::Term.accepts(TokenType::Minus));
    assert!(Level::Term.accepts(TokenType::Plus));
    assert!(!Level::Term.accepts(TokenType::Star));
    assert!(Level::Factor.accepts(TokenType::Slash));
    assert!(Level::Factor.accepts(TokenType::Star));
    assert!(!Level::Factor.accepts(TokenType::Bang));
}

#[test]
fn tree_shape() {
    let tokens = tokens_of("-1");
    let (expr, _) = expression(&tokens).unwrap();
    match expr {
        Expr::Unary { operator, right } => {
            assert_eq!(operator.type_, TokenType::Minus);
            match *right {
                Expr::Literal { value } => assert_eq!(value.lexeme, "1"),
                other => panic!("{:?}", other),
            }
        }
        other => panic!("{:?}", other),
    }
}

#[test]
fn terminated_sequences() {
    assert!(is_terminated(&tokens_of("")));
    assert!(is_terminated(&tokens_of("1 +")));
    assert!(!is_terminated(&[]));
    let number = Token::new(TokenType::Number, "1".into(), Literal::Null, 1);
    assert!(!is_terminated(&[number]));
}

#[test]
fn parse_error_as_text() {
    let error = failure("(1 + 2");
    assert_eq!(error.to_string(), "[line 0][token Eof  Null] Expect a ')' token at end.");
    let error = failure("(1 2");
    assert_eq!(
        error.to_string(),
        "[line 1][token Number 2 Num(2.0)] Expect a ')' token here."
    );
    let error = failure("\n\n\n\n\n\n\n\n\n\n\n+");
    assert_eq!(error.to_string(), "[line 12][token Plus + Null] Cannot parse this token.");
}

#[test]
fn parse_error_from_parts() {
    let token = Token::new(TokenType::Comma, ",".into(), Literal::Null, 7);
    let error = ParseError::new(7, token.clone(), "Cannot parse this token.".into());
    assert_eq!(error.line(), 7);
    assert_eq!(error.token(), &token);
    assert_eq!(error.message(), "Cannot parse this token.");
}

fn parser_of(src: &str) -> Parser {
    let parser = Parser::new(tokens_of(src));
    assert!(parser.is_well_formed());
    parser
}

#[test]
fn cursor_reads_expressions_in_turn() {
    let mut parser = parser_of("1 == 2 != 3 4 * 5");
    assert_eq!(parser.expression().unwrap().format_ast(), "(!= (== 1.0 2.0) 3.0)");
    assert_eq!(parser.peek().lexeme, "4");
    assert_eq!(parser.previous().lexeme, "3");
    assert!(!parser.is_at_end());
    assert_eq!(parser.expression().unwrap().format_ast(), "(* 4.0 5.0)");
    assert!(parser.is_at_end());
    assert!(parser.is_well_formed());
}

#[test]
fn cursor_levels() {
    let mut parser = parser_of("1 < 2 == 3 < 4");
    assert_eq!(parser.comparison().unwrap().format_ast(), "(< 1.0 2.0)");
    assert_eq!(parser.peek().type_, TokenType::EqualEqual);
    let mut parser = parser_of("1 < 2 == 3 < 4");
    assert_eq!(parser.equality().unwrap().format_ast(), "(== (< 1.0 2.0) (< 3.0 4.0))");
    assert!(parser.is_at_end());
}

#[test]
fn cursor_stays_in_place_on_error() {
    let mut parser = parser_of("1 == (2");
    let error = parser.expression().unwrap_err();
    assert_eq!(error.message(), "Expect a ')' token at end.");
    assert_eq!(parser.peek().lexeme, "1");
    let mut parser = parser_of("1 2 == +");
    assert_eq!(parser.expression().unwrap().format_ast(), "1.0");
    let error = parser.expression().unwrap_err();
    assert_eq!(error.token().type_, TokenType::Plus);
    assert_eq!(parser.peek().lexeme, "2");
}

#[test]
fn cursor_steps() {
    let mut parser = parser_of("! =");
    assert!(!parser.check(TokenType::Equal));
    assert!(parser.check(TokenType::Bang));
    assert!(!parser.match_type(TokenType::Equal));
    assert_eq!(parser.peek().type_, TokenType::Bang);
    assert!(parser.match_type(TokenType::Bang));
    assert_eq!(parser.previous().type_, TokenType::Bang);
    assert_eq!(parser.peek().type_, TokenType::Equal);
    assert_eq!(parser.advance().type_, TokenType::Equal);
    assert!(parser.is_at_end());
    assert!(!parser.check(TokenType::Eof));
    assert!(!parser.match_type(TokenType::Eof));
    assert_eq!(parser.advance().type_, TokenType::Equal);
    assert!(parser.is_at_end());
    assert_eq!(parser.peek().type_, TokenType::Eof);
}

#[test]
fn cursor_needs_terminated_tokens() {
    assert!(!Parser::new(Vec::new()).is_well_formed());
    let number = Token::new(TokenType::Number, "1".into(), Literal::Null, 1);
    assert!(!Parser::new(vec![number]).is_well_formed());
    assert!(Parser::new(tokens_of("")).is_well_formed());
}
