//! A table-driven shift-reduce recognizer for sums and products of
//! identifiers, with a step-by-step trace of its automaton.
pub mod grammar;
pub mod render;
pub mod lexer;
pub mod automaton;
pub mod invariants;
pub mod analysis;
pub mod language;
