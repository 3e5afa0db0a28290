//! The token vocabulary shared by the lexer and the parser, together with
//! the mathematical view of a token.

use vstd::prelude::*;

verus! {

/// The kind of a token.  The arithmetic grammar uses the number, operator
/// and parenthesis kinds; the remaining kinds are part of the vocabulary
/// but are not wired into any grammar rule.
#[derive(Debug, Clone, PartialEq)]
pub enum TokenType {
    Number(i64),
    Identifier(String),
    StringLiteral(String),
    Plus,
    Minus,
    Multiply,
    Divide,
    Power,
    Less,
    Greater,
    Equal,
    LessEq,
    GreaterEq,
    EqualEq,
    BangEq,
    LeftParen,
    RightParen,
    If,
    Else,
    While,
    For,
    Fn,
    Return,
    Assign,
    Nil,
    EOF,
    Error,
}

/// One lexed token: its kind, the exact source text it was matched from
/// (for an `Error` token, a diagnostic message instead), and the 1-based
/// source line it started on.
#[derive(Debug, Clone, PartialEq)]
pub struct Token {
    pub token_type: TokenType,
    pub lexeme: String,
    pub line: usize,
}

/// The mathematical view of a token: the same kind, the lexeme as a
/// character sequence, and the line as an unbounded natural number.
pub struct TokenView {
    pub kind: TokenType,
    pub lexeme: Seq<char>,
    pub line: nat,
}

impl View for Token {
    type V = TokenView;

    open spec fn view(&self) -> TokenView {
        TokenView { kind: self.token_type, lexeme: self.lexeme@, line: self.line as nat }
    }
}

/// The views of a sequence of tokens.
pub open spec fn tokens_view(ts: Seq<Token>) -> Seq<TokenView> {
    ts.map_values(|t: Token| t@)
}

/// A well-formed token sequence: nonempty, ending with an EOF token, with
/// no EOF token anywhere else.
pub open spec fn wf_tokens(ts: Seq<TokenView>) -> bool {
    &&& ts.len() >= 1
    &&& ts.last().kind == TokenType::EOF
    &&& forall|j: int| 0 <= j < ts.len() - 1 ==> (#[trigger] ts[j].kind) != TokenType::EOF
}

/// The display symbol of a token kind: the operator or parenthesis it
/// stands for, and the empty string for every other kind.
pub open spec fn symbol_spec(t: TokenType) -> Seq<char> {
    match t {
        TokenType::Plus => "+"@,
        TokenType::Minus => "-"@,
        TokenType::Divide => "/"@,
        TokenType::Multiply => "*"@,
        TokenType::Power => "^"@,
        TokenType::Less => "<"@,
        TokenType::Greater => ">"@,
        TokenType::Equal => "="@,
        TokenType::EqualEq => "=="@,
        TokenType::LessEq => "<="@,
        TokenType::GreaterEq => ">="@,
        TokenType::BangEq => "!="@,
        TokenType::LeftParen => "("@,
        TokenType::RightParen => ")"@,
        _ => Seq::empty(),
    }
}

impl TokenType {
    /// The display symbol of this kind, as an owned string.
    pub fn symbol(&self) -> (r: String)
        ensures
            r@ == symbol_spec(*self),
    {
        match self {
            TokenType::Plus => "+".to_owned(),
            TokenType::Minus => "-".to_owned(),
            TokenType::Divide => "/".to_owned(),
            TokenType::Multiply => "*".to_owned(),
            TokenType::Power => "^".to_owned(),
            TokenType::Less => "<".to_owned(),
            TokenType::Greater => ">".to_owned(),
            TokenType::Equal => "=".to_owned(),
            TokenType::EqualEq => "==".to_owned(),
            TokenType::LessEq => "<=".to_owned(),
            TokenType::GreaterEq => ">=".to_owned(),
            TokenType::BangEq => "!=".to_owned(),
            TokenType::LeftParen => "(".to_owned(),
            TokenType::RightParen => ")".to_owned(),
            _ => String::new(),
        }
    }
}

} // verus!
