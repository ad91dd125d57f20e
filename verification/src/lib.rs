//! A propositional-logic truth table generator.
//!
//! A formula written in a mixed symbolic/word notation is tokenized,
//! parsed by recursive descent into a binary expression tree, evaluated
//! over every boolean assignment of its variables, and rendered as a
//! text table.

pub mod calc;
pub mod lexer;
pub mod parse;
