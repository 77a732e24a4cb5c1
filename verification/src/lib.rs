//! A reader for a small Lisp-like language: a scanner that turns source text
//! into tokens, and a recursive-descent parser that turns tokens into an
//! S-expression tree.
//!
//! Every function states what it computes over mathematical models: a source
//! is a `Seq<char>`, a token is a `SpecToken`, a tree is a `SpecExpression`.

pub mod error;
pub mod lexer;
pub mod lexical;
pub mod parser;
pub mod syntax;
pub mod text;
pub mod token;
pub mod writing;
