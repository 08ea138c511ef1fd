//! A register-based scripting language: its lexer, formatter, one-pass
//! compiler, heap and interpreter.
pub mod ast;
pub mod cli;
pub mod compiler;
pub mod context;
pub mod display;
pub mod error;
pub mod escape;
pub mod failing;
pub mod formatter;
pub mod grammar;
pub mod heap;
pub mod interpreter;
pub mod jit;
pub mod lexer;
pub mod lexis;
pub mod lines;
pub mod lsp;
pub mod machine;
pub mod memory;
pub mod natives;
pub mod number;
pub mod parser;
pub mod relex;
pub mod run;
pub mod running;
pub mod serve;
pub mod soundness;
pub mod syntax;
pub mod tables;
pub mod text;
pub mod value;
pub mod vm;
