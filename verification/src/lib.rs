//! A small regular-expression engine: a pattern is parsed into a syntax tree,
//! compiled to a program for a backtracking/simulation machine, and run against
//! an input line.

pub mod engine;
