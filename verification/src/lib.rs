//! A compiler and interpreter for a minimal pointer-tape language of eight
//! single-character operations: increment/decrement the current cell, move the
//! tape pointer left/right, output or read one cell, and open/close a
//! zero-test loop.
//!
//! The compile pipeline is lexical filtering ([`lex`]), run-length folding and
//! loop matching into a flat instruction list ([`parse`]), and emission of a
//! stack-machine assembly text whose loop labels are globally unique and
//! properly nested ([`codegen`] over [`bytecode`]). The interpreter
//! ([`interp`]) is an independent backend that scans the source text directly
//! over a fixed 100-cell byte tape.

pub mod bytecode;
pub mod codegen;
pub mod decimal;
pub mod interp;
pub mod lex;
pub mod parse;
