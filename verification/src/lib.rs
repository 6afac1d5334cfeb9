//! A lexer-generator core.
//!
//! Regular-expression syntax trees, delivered fully formed by an external
//! parser, are compiled into one deterministic automaton per start
//! condition: each pattern becomes a non-deterministic automaton, the
//! automata of one condition are merged under a shared entry state,
//! determinized by subset construction, and minimized while keeping states
//! with different actions apart.  The automata of all conditions are then
//! renumbered into one contiguous id space and emitted as a combined
//! transition table, an accepting table and a per-condition initial-state
//! list, the format a code emitter consumes.

pub mod action;
pub mod lexer;
pub mod dfa;
pub mod nfa;
pub mod regex;
pub mod trans_table;

pub use lexer::Lexer;
