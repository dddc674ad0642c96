//! A small Scheme runtime: a lexer, a reader, an exact/inexact numeric
//! tower, and a heap-based evaluator with object identity, closures and
//! proper tail calls.

pub mod cell;
pub mod chars;
pub mod lex;
pub mod number;
pub mod parse;
pub mod print;
pub mod vm;
