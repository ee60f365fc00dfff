//! A small regular-expression engine.
//!
//! A restricted regex string (letters `a-z`, digits, space, the operators
//! `|`, `*`, `+`, parentheses, and the escapes `\w` / `\d`) is turned into a
//! deterministic finite automaton in four stages: lexing into tokens,
//! operator-precedence parsing into an arena AST, synthesis of an NFA with
//! eagerly propagated epsilon information, and a lazy subset construction
//! into a DFA that can then test membership of arbitrary strings.

pub mod automata;
pub mod chain_graph;
pub mod graphviz;
pub mod lexer;
pub mod multimap;
pub mod parser;
pub mod pipeline;
pub mod table_dfa;
