use minicalc::lexer::Lexer;
use minicalc::parser::{Expr, Parser};
use minicalc::token::TokenType;

fn eval_of(source: &str) -> Option<i64> {
    let tokens = Lexer::lex_all(source.to_string());
    let mut p = Parser::new(tokens);
    p.parse_expr().unwrap().eval()
}

#[test]
fn eval_precedence() {
    assert_eq!(eval_of("1 + 2 * 3"), Some(7));
}

#[test]
fn eval_grouping() {
    assert_eq!(eval_of("(1 + 2) * 3"), Some(9));
}

#[test]
fn eval_unary() {
    assert_eq!(eval_of("- (31 + 12 + 13)"), Some(-56));
}

#[test]
fn eval_division_truncates_toward_zero() {
    assert_eq!(eval_of("7 / 2"), Some(3));
    assert_eq!(eval_of("- 7 / 2"), Some(-3));
}

#[test]
fn eval_division_by_zero() {
    assert_eq!(eval_of("1 / 0"), None);
}

#[test]
fn eval_overflow() {
    assert_eq!(eval_of("9223372036854775807 + 1"), None);
    assert_eq!(eval_of("9223372036854775807 * 2"), None);
}

#[test]
fn eval_undefined_operator() {
    let expr = Expr::Binary {
        lhs: Box::new(Expr::Number(1)),
        op: TokenType::Power,
        rhs: Box::new(Expr::Number(2)),
    };
    assert_eq!(expr.eval(), None);
}
