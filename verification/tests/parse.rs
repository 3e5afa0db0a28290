use minicalc::lexer::Lexer;
use minicalc::parser::{Expr, Parser};
use minicalc::token::TokenType;

#[test]
fn display_number() {
    let expr = Expr::Number(53);
    assert_eq!(expr.render(), "53");
}

#[test]
fn display_unary() {
    let expr = Expr::Unary {
        op: TokenType::Minus,
        rhs: Box::new(Expr::Number(43)),
    };
    assert_eq!(expr.render(), "-43");
}

#[test]
fn display_binary() {
    let expr = Expr::Binary {
        lhs: Box::new(Expr::Number(72)),
        op: TokenType::Plus,
        rhs: Box::new(Expr::Number(43)),
    };
    assert_eq!(expr.render(), "(+ 72 43)");
}

#[test]
fn display_nested() {
    // (1 + 2) * -3
    let expr = Expr::Binary {
        lhs: Box::new(Expr::Grouping(Box::new(Expr::Binary {
            lhs: Box::new(Expr::Number(1)),
            op: TokenType::Plus,
            rhs: Box::new(Expr::Number(2)),
        }))),
        op: TokenType::Multiply,
        rhs: Box::new(Expr::Unary {
            op: TokenType::Minus,
            rhs: Box::new(Expr::Number(3)),
        }),
    };
    assert_eq!(expr.render(), "(* (group (+ 1 2)) -3)");
}

#[test]
fn parse_expr_add() {
    let tokens = Lexer::lex_all("1 + 2".to_string());
    let mut p = Parser::new(tokens);
    let expr = p.parse_expr().unwrap();
    assert_eq!(expr.render(), "(+ 1 2)")
}

#[test]
fn parse_expr_mul() {
    let tokens = Lexer::lex_all("41 * 2".to_string());
    let mut p = Parser::new(tokens);
    let expr = p.parse_expr().unwrap();
    assert_eq!(expr.render(), "(* 41 2)")
}

#[test]
fn parse_expr_mul_error() {
    let tokens = Lexer::lex_all("* 41".to_string());
    let mut p = Parser::new(tokens);
    let expr = p.parse_expr();
    assert!(expr.is_err());
    assert!(expr.unwrap_err().contains("Unexpected token"));
}

#[test]
fn parse_expr_unary() {
    let tokens = Lexer::lex_all("- 41".to_string());
    let mut p = Parser::new(tokens);
    let expr = p.parse_expr().unwrap();
    assert_eq!(expr.render(), "-41");
}

#[test]
fn parse_expr_unary_nested() {
    let tokens = Lexer::lex_all("- (31 + 12 + 13)".to_string());
    let mut p = Parser::new(tokens);
    let expr = p.parse_expr().unwrap();
    assert_eq!(expr.render(), "-(group (+ (+ 31 12) 13))");
}

#[test]
fn parse_expr_unary_nested_bracket_err() {
    let tokens = Lexer::lex_all("- (31 + 12 + 13".to_string());
    let mut p = Parser::new(tokens);
    let expr = p.parse_expr();
    assert!(expr.is_err());
    assert!(expr.unwrap_err().contains("Expect ')'"));
}

#[test]
fn parse_precedence() {
    let tokens = Lexer::lex_all("1 + 2 * 3".to_string());
    let mut p = Parser::new(tokens);
    let expr = p.parse_expr().unwrap();
    assert_eq!(expr.render(), "(+ 1 (* 2 3))")
}

#[test]
fn parse_parentheses() {
    let tokens = Lexer::lex_all("(1 + 2) * 3".to_string());
    let mut p = Parser::new(tokens);
    let expr = p.parse_expr().unwrap();
    assert_eq!(expr.render(), "(* (group (+ 1 2)) 3)")
}

#[test]
fn parse_chain_left_associative() {
    let tokens = Lexer::lex_all("1 - 2 - 3".to_string());
    let mut p = Parser::new(tokens);
    let expr = p.parse_expr().unwrap();
    assert_eq!(expr.render(), "(- (- 1 2) 3)");

    let tokens = Lexer::lex_all("8 / 2 / 2".to_string());
    let mut p = Parser::new(tokens);
    let expr = p.parse_expr().unwrap();
    assert_eq!(expr.render(), "(/ (/ 8 2) 2)");
}

#[test]
fn parse_number_render_round_trip() {
    let tokens = Lexer::lex_all("53".to_string());
    let mut p = Parser::new(tokens);
    let expr = p.parse_expr().unwrap();
    let rendered = expr.render();
    assert_eq!(rendered, "53");
    let tokens2 = Lexer::lex_all(rendered);
    let mut p2 = Parser::new(tokens2);
    let expr2 = p2.parse_expr().unwrap();
    assert_eq!(expr2.render(), "53");
}

#[test]
fn parse_error_names_line() {
    let tokens = Lexer::lex_all("\n\n* 41".to_string());
    let mut p = Parser::new(tokens);
    let err = p.parse_expr().unwrap_err();
    assert_eq!(err, "[line 3] Unexpected token '*' in expression");
}

#[test]
fn parse_bracket_error_message_exact() {
    let tokens = Lexer::lex_all("(1 + 2".to_string());
    let mut p = Parser::new(tokens);
    let err = p.parse_expr().unwrap_err();
    assert_eq!(err, "[line 1] Error at '': Expect ')' after expression");
}
