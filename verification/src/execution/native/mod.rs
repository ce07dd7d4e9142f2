//! Native execution: lowering a program tree to machine code.

pub mod codegen;
pub mod equivalence;
pub mod machine;
