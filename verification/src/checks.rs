//! Validation passes over the parsed syntax tree.

pub mod typing;
