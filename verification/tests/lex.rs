use minicalc::lexer::Lexer;
use minicalc::token::TokenType;

#[test]
fn lex_single_number_max() {
    let tokens = Lexer::lex_all("9223372036854775807".to_string());
    assert_eq!(tokens.len(), 2);
    assert_eq!(tokens[0].token_type, TokenType::Number(9223372036854775807));
    assert_eq!(tokens[0].lexeme, "9223372036854775807");
    assert_eq!(tokens[0].line, 1);
    assert_eq!(tokens[1].token_type, TokenType::EOF);
}

#[test]
fn lex_empty_input() {
    let tokens = Lexer::lex_all("".to_string());
    assert_eq!(tokens.len(), 1);
    assert_eq!(tokens[0].token_type, TokenType::EOF);
    assert_eq!(tokens[0].lexeme, "");
    assert_eq!(tokens[0].line, 1);
}

#[test]
fn lex_whitespace_only() {
    let tokens = Lexer::lex_all("  \t \r  ".to_string());
    assert_eq!(tokens.len(), 1);
    assert_eq!(tokens[0].token_type, TokenType::EOF);
}

#[test]
fn lex_comment_then_number() {
    let tokens = Lexer::lex_all("// comment\n5".to_string());
    assert_eq!(tokens.len(), 2);
    assert_eq!(tokens[0].token_type, TokenType::Number(5));
    assert_eq!(tokens[0].line, 2);
    assert_eq!(tokens[1].token_type, TokenType::EOF);
}

#[test]
fn lex_divide_is_not_comment() {
    let tokens = Lexer::lex_all("8 / 2".to_string());
    assert_eq!(tokens.len(), 4);
    assert_eq!(tokens[0].token_type, TokenType::Number(8));
    assert_eq!(tokens[1].token_type, TokenType::Divide);
    assert_eq!(tokens[1].lexeme, "/");
    assert_eq!(tokens[2].token_type, TokenType::Number(2));
    assert_eq!(tokens[3].token_type, TokenType::EOF);
}

#[test]
fn lex_operators_and_parens() {
    let tokens = Lexer::lex_all("( ) + - * /".to_string());
    let kinds: Vec<TokenType> = tokens.iter().map(|t| t.token_type.clone()).collect();
    assert_eq!(
        kinds,
        vec![
            TokenType::LeftParen,
            TokenType::RightParen,
            TokenType::Plus,
            TokenType::Minus,
            TokenType::Multiply,
            TokenType::Divide,
            TokenType::EOF,
        ]
    );
}

#[test]
fn lex_unrecognized_character() {
    let tokens = Lexer::lex_all("@".to_string());
    assert_eq!(tokens.len(), 2);
    assert_eq!(tokens[0].token_type, TokenType::Error);
    assert_eq!(tokens[0].lexeme, "Unexpected character.");
    assert_eq!(tokens[1].token_type, TokenType::EOF);
}

#[test]
fn lex_continues_after_error() {
    let tokens = Lexer::lex_all("@ 7".to_string());
    assert_eq!(tokens.len(), 3);
    assert_eq!(tokens[0].token_type, TokenType::Error);
    assert_eq!(tokens[1].token_type, TokenType::Number(7));
    assert_eq!(tokens[2].token_type, TokenType::EOF);
}

#[test]
fn lex_number_too_large() {
    let tokens = Lexer::lex_all("99999999999999999999".to_string());
    assert_eq!(tokens.len(), 2);
    assert_eq!(tokens[0].token_type, TokenType::Error);
    assert_eq!(tokens[0].lexeme, "Number literal too large.");
    assert_eq!(tokens[1].token_type, TokenType::EOF);
}

#[test]
fn lex_lexemes_are_exact() {
    let tokens = Lexer::lex_all("41 * 2".to_string());
    assert_eq!(tokens[0].lexeme, "41");
    assert_eq!(tokens[1].lexeme, "*");
    assert_eq!(tokens[2].lexeme, "2");
    assert_eq!(tokens[3].lexeme, "");
}

#[test]
fn lex_newlines_count_lines() {
    let tokens = Lexer::lex_all("1\n2\n3".to_string());
    assert_eq!(tokens[0].line, 1);
    assert_eq!(tokens[1].line, 2);
    assert_eq!(tokens[2].line, 3);
    assert_eq!(tokens[3].token_type, TokenType::EOF);
}

#[test]
fn symbol_text() {
    assert_eq!(TokenType::Plus.symbol(), "+");
    assert_eq!(TokenType::Minus.symbol(), "-");
    assert_eq!(TokenType::Multiply.symbol(), "*");
    assert_eq!(TokenType::Divide.symbol(), "/");
    assert_eq!(TokenType::LeftParen.symbol(), "(");
    assert_eq!(TokenType::EqualEq.symbol(), "==");
    assert_eq!(TokenType::EOF.symbol(), "");
}
