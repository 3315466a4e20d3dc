//! Arithmetic expressions: from text to tokens, from tokens to a tree, and
//! from the tree to an exact decimal number.
//!
//! An expression is made of decimal numerals, unary minus, and the binary
//! signs `+`, `-` and `*`, separated by whitespace. `*` binds tighter than
//! `+` and `-`, unary minus tighter than `*`, and chains of one level group
//! from the left. [`calculator::calculate`] goes the whole way;
//! [`lexer::tokenise`], [`parser::parse`] and [`ast::evaluate`] are its three
//! steps.

pub mod ast;
pub mod calculator;
pub mod decimal;
pub mod digits;
pub mod grammar;
pub mod laws;
pub mod lexer;
pub mod locality;
pub mod numeral;
pub mod parser;
pub mod text;
pub mod token;
