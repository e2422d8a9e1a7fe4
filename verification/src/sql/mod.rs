//! The query language: the syntax tree of a statement and the shape of an
//! answer.

pub mod ast;
pub mod query_engine;
