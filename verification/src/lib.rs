pub mod eval;
pub mod lexer;
pub mod parser;
pub mod numeral;
pub mod token;
