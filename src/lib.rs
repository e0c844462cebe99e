//! Thompson-style nondeterministic finite automata, built from symbols by
//! concatenation, alternation, repetition and bounded ranges, over an arena
//! of nodes that refer to each other by index.

pub mod node;
pub mod nfa;
pub mod language;
