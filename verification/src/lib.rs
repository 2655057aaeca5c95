//! A parser and analyzer for a compact textual notation describing swim
//! training workouts, e.g. `4x { 100m free @ 1:30 }`.
//!
//! The pipeline is: raw text -> lexer -> token sequence -> parser -> abstract
//! syntax tree -> analyzer -> total distance and per-stroke distances.

pub mod analyse;
pub mod ast;
pub mod distribution;
pub mod lexer;
pub mod parser;
pub mod render;
