//! Unobtrusive construct syntax: a reader for the `ucon` notation of
//! construct assertions and a writer of the CLIPS code they stand for.
pub mod ast;
pub mod outcome;
pub mod lexer;
pub mod grammar;
pub mod parser;
pub mod clips;
pub mod laws;
pub mod locality;
pub mod forms;
