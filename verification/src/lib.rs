//! Syntactic front-end of a template engine: source text is tokenized and
//! parsed into a spanned abstract syntax tree.
//!
//! [`parser::parse`] reads a whole template, [`parser::parse_expr`] a
//! single expression. What they give is specified against [`grammar`], a
//! mathematical model of the language, and [`laws`] states what holds of
//! every parse. The proofs behind the laws are in [`spans`], [`locality`]
//! and [`joining`].

pub mod ast;
pub mod error;
pub mod grammar;
pub mod joining;
pub mod laws;
pub mod lexer;
pub mod locality;
pub mod parser;
pub mod spans;
pub mod text;
pub mod tokens;
pub mod value;

pub use crate::parser::{parse, parse_expr};
