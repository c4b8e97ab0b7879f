//! Nondeterministic finite automata built from symbols by concatenation,
//! union and Kleene closure, with a subset-simulation matcher.

pub mod automaton;
pub mod laws;

pub use automaton::{empty, plus, star, times, unit, NFA};
