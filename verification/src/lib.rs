//! Venturi: a DAG-native language — lexer, parser, compiler, bytecode machine,
//! DAG bookkeeping and the surrounding rules, with their contracts.

pub mod error;
pub mod text;
pub mod chars;
pub mod lexer;
pub mod ast;
pub mod parser;
pub mod bytecode;
pub mod compiler;
pub mod vm;
pub mod vcbin;
pub mod graph;
pub mod pits;
pub mod permissions;
pub mod validator;
pub mod codegen;
pub mod runtime;
pub mod gui;
pub mod order;
pub mod chassis;
