//! What a program means, and that its translation does the same.
//!
//! [`runs`] says how a graph runs, [`source`] what a program means. A program has gone wrong
//! where it reads a variable without a value or assigns to one that has not been declared.

pub mod call_free;
pub mod declarations;
pub mod determinism;
pub mod distinct;
pub mod expressions;
pub mod names;
pub mod outcomes;
pub mod programs;
pub mod runs;
pub mod source;
pub mod statements;
pub mod whole;
