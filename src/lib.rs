//! Front end for a small indentation-sensitive expression language:
//! a rule-driven lexer, a layout pass that turns indentation into explicit
//! block delimiters, a recursive-descent parser and a constraint-based type
//! solver.

pub mod ast;
pub mod ast2cst;
pub mod cst;
pub mod front;
pub mod graphviz;
pub mod indent;
pub mod parser;
pub mod rules;
pub mod solver;
pub mod text;
pub mod token;
pub mod tokenizer;
