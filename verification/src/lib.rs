//! A small interactive shell: a lexer and parser for command lines, alias and
//! variable expansion, command substitution, and the decisions that drive the
//! execution of `&&`, `||`, `|` and `;` chains.

pub mod text;
pub mod outside;
pub mod error;
pub mod parsing;
pub mod table;
pub mod builtins;
pub mod exec;
pub mod rsh;
pub mod input;
pub mod laws;
