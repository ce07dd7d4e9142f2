//! Running a program: the state it runs against, and the interpreter.

pub mod correctness;
pub mod interpreter;
pub mod native;
pub mod state;
