//! Lexing and recursive-descent parsing of arithmetic expressions made of
//! decimal literals and the operators `+ - * /`.

pub mod expr;
pub mod lexer;
pub mod parser;
pub mod token;

pub use expr::{Binary, Expr, Literal, LiteralValue, Tree};
pub use lexer::{tokenize, Lexer, LexerError};
pub use parser::{parse, Parser, ParserError};
pub use token::{Span, Token, TokenKind, TokenValue};
