//! A lexical-analyzer generator: regular-expression rules are compiled into a
//! minimized deterministic automaton that drives a maximal-munch scanner.

pub mod ast;
pub mod common;
pub mod dfa;
pub mod graph;
pub mod language;
pub mod laws;
pub mod lexer;
pub mod minimize;
pub mod nfa;
pub mod render;
pub mod rules;
pub mod simulation;
pub mod subset;
