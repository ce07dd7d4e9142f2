//! A small engine for a tape-and-pointer language: one data pointer into a
//! fixed array of byte cells, instructions that move the pointer, change the
//! current cell, read or write one byte, and loops that repeat while the
//! current cell is not zero.
//!
//! - [`syntax`] holds the program tree, its mathematical model, and the
//!   parser.
//! - [`semantics`] says what a program means.
//! - [`optimize`] holds the rewriting passes, with the proofs that they keep
//!   that meaning.
//! - [`execution`] holds the runtime state, the interpreter, and the code
//!   generator for x86-64, with the proofs that the interpreter follows the
//!   semantics and that the generated routine follows the interpreter.
//!
//! Nothing here touches a device. A run reads from a buffer that its driver
//! feeds and writes to a buffer that its driver drains.

pub mod execution;
pub mod optimize;
pub mod semantics;
pub mod syntax;
