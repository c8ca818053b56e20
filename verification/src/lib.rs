//! A small dynamically typed expression language: lexical analysis, a
//! recursive-descent parser building an abstract syntax tree, a tree-walking
//! interpreter over that tree, and a bytecode compiler paired with an
//! eight-register virtual machine.

pub mod compiler;
pub mod interpreter;
pub mod lexer;
pub mod number;
pub mod parser;
pub mod vm;
