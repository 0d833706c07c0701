pub mod ast;
pub mod lexer;
pub mod parser;
pub mod catalog;
pub mod batch;
pub mod eval;
pub mod fmt;
pub mod exec;
pub mod agg;
pub mod sort;
pub mod join;
pub mod plan;
pub mod display;
pub mod laws;
pub mod semantics;
