//! A small regular-expression engine built on finite-state automata.
//!
//! A pattern string is compiled into a nondeterministic automaton,
//! determinized by subset construction, and then used to test whether
//! any contiguous substring of a text is accepted.

pub mod builder;
pub mod canon;
pub mod determinize;
pub mod machine;
pub mod matcher;
pub mod render;
pub mod statemachines;

pub use builder::PatternError;
pub use machine::Input;
pub use machine::StateMachine;
