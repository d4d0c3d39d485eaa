//! A small regular-expression engine: expression trees are compiled into a
//! flat program for a backtracking virtual machine, which decides whether a
//! whole input is matched.

pub mod regex;
pub mod instruction;
pub mod compiler;
pub mod correctness;
pub mod engine;
pub mod laws;
