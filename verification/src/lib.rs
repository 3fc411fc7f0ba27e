//! A small S-expression arithmetic language: a lexer, a recursive-descent
//! parser, a pretty-printer, a direct evaluator with dynamic-extent `let`
//! bindings and an injectable input source, and a constant-folding partial
//! evaluator. Every stage carries a contract relating it to a mathematical
//! model of the language.

pub mod ast;
pub mod eval;
pub mod fold;
pub mod input;
pub mod lexer;
pub mod numeral;
pub mod parser;
pub mod roundtrip;
pub mod visual;

pub use ast::Binding;
pub use ast::Expression;
pub use ast::LInt;
pub use ast::LVar;
pub use ast::Token;
pub use eval::Env;
pub use eval::Eval;
pub use eval::EvalError;
pub use fold::partially_evaluate;
pub use input::read_int_line;
pub use lexer::tokenize;
pub use parser::ParseError;
pub use parser::parse;
pub use parser::parse_expression;
pub use parser::parse_identifier;
pub use parser::parse_number;
pub use visual::visualize;
