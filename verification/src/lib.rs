//! A parser and pretty-printer for a small interface-definition language in
//! the style of Protocol-Buffers schemas: nested `message` and `oneof`
//! blocks, `enum` blocks, and typed fields with optional cardinality
//! qualifiers.
//!
//! The parser turns schema text into the AST of [`ast`]; the pretty-printer
//! renders the AST back into canonical text. Both are verified against a
//! common specification of the grammar.
pub mod ast;
pub mod grammar;
pub mod lex;
pub mod parser;
pub mod printer;
pub mod props;
pub mod roundtrip;

pub use ast::Enum;
pub use ast::EnumField;
pub use ast::Frequency;
pub use ast::Message;
pub use ast::MessageField;
pub use ast::Oneof;
pub use ast::Type;
pub use parser::ParseError;
pub use parser::Parser;
pub use parser::str_to_vec;
