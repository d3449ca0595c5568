use lox::expr::Expr;
use lox::number::Decimal;
use lox::token::{Literal, Token, TokenType};

fn num(x: f64) -> Literal {
    Literal::Num(Decimal::parse(&format!("{:?}", x)).unwrap())
}

fn literal(type_: TokenType, lexeme: &str, literal: Literal) -> Expr {
    Expr::Literal { value: Token::new(type_, lexeme.into(), literal, 1) }
}

#[test]
fn test_format_ast() {
    let tkn_minus = Token::new(TokenType::Minus, "-".into(), Literal::Null, 1);
    let tkn_star = Token::new(TokenType::Star, "*".into(), Literal::Null, 1);
    let tkn_num1 = Token::new(TokenType::Number, "123".into(), num(123.0), 1);
    let tkn_num2 = Token::new(TokenType::Number, "45.67".into(), num(45.67), 1);
    let expr = Expr::Binary {
        left: Box::new(Expr::Unary {
            operator: tkn_minus,
            right: Box::new(Expr::Literal { value: tkn_num1 }),
        }),
        operator: tkn_star,
        right: Box::new(Expr::Grouping { expression: Box::new(Expr::Literal { value: tkn_num2 }) }),
    };
    let format_ast = expr.format_ast();
    assert_eq!(format_ast, String::from("(* (- 123.0) (group 45.67))"))
}

#[test]
fn keywords_print_as_written() {
    assert_eq!(literal(TokenType::Nil, "nil", Literal::Null).format_ast(), "nil");
    assert_eq!(literal(TokenType::True, "true", Literal::Null).format_ast(), "true");
    assert_eq!(literal(TokenType::False, "false", Literal::Null).format_ast(), "false");
}

#[test]
fn numbers_print_with_a_point() {
    assert_eq!(literal(TokenType::Number, "123", num(123.0)).format_ast(), "123.0");
    assert_eq!(literal(TokenType::Number, "0", num(0.0)).format_ast(), "0.0");
    assert_eq!(literal(TokenType::Number, "45.67", num(45.67)).format_ast(), "45.67");
    assert_eq!(literal(TokenType::Number, "0.5", num(0.5)).format_ast(), "0.5");
}

#[test]
fn strings_print_quoted() {
    let text = Literal::Str(String::from("abc"));
    assert_eq!(literal(TokenType::String_, "\"abc\"", text).format_ast(), "\"abc\"");
    let text = Literal::Str(String::from("a\\b\nc\t\u{7f}"));
    assert_eq!(
        literal(TokenType::String_, "", text).format_ast(),
        format!("{:?}", "a\\b\nc\t\u{7f}")
    );
    let text = Literal::Str(String::new());
    assert_eq!(literal(TokenType::String_, "\"\"", text).format_ast(), "\"\"");
}

#[test]
fn a_value_is_printed_whatever_the_category() {
    assert_eq!(literal(TokenType::Plus, "+", num(1.0)).format_ast(), "1.0");
    assert_eq!(literal(TokenType::Nil, "nil", num(1.0)).format_ast(), "nil");
}

#[test]
fn operators_print_their_lexeme() {
    let bang = Token::new(TokenType::Bang, "!".into(), Literal::Null, 1);
    let expr = Expr::Unary {
        operator: bang,
        right: Box::new(literal(TokenType::True, "true", Literal::Null)),
    };
    assert_eq!(expr.format_ast(), "(! true)");
    let odd = Token::new(TokenType::Plus, "plus".into(), Literal::Null, 1);
    let expr = Expr::Binary {
        left: Box::new(literal(TokenType::Nil, "nil", Literal::Null)),
        operator: odd,
        right: Box::new(literal(TokenType::Nil, "nil", Literal::Null)),
    };
    assert_eq!(expr.format_ast(), "(plus nil nil)");
}

#[test]
fn printable_trees() {
    assert!(literal(TokenType::Nil, "nil", Literal::Null).is_printable());
    assert!(literal(TokenType::Number, "1", num(1.0)).is_printable());
    assert!(!literal(TokenType::Number, "1", Literal::Null).is_printable());
    assert!(!literal(TokenType::Identifier, "x", Literal::Null).is_printable());
    let minus = Token::new(TokenType::Minus, "-".into(), Literal::Null, 1);
    let inside = Expr::Grouping {
        expression: Box::new(Expr::Unary {
            operator: minus,
            right: Box::new(literal(TokenType::Plus, "+", Literal::Null)),
        }),
    };
    assert!(!inside.is_printable());
    let star = Token::new(TokenType::Star, "*".into(), Literal::Null, 1);
    let both = Expr::Binary {
        left: Box::new(literal(TokenType::True, "true", Literal::Null)),
        operator: star,
        right: Box::new(inside),
    };
    assert!(!both.is_printable());
}
