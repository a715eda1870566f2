//! A JSON tokenizer and parser, a line-based text linter, and the decisions
//! of a worker pool.
pub mod text;
pub mod tokenizer;
pub mod parser;
pub mod linter;
pub mod rules;
pub mod pool;
