//! A two-phase interpreter for a small line-oriented language.
//!
//! A program is a sequence of lines, each already split into whitespace
//! tokens.  The [`analyzer`] walks the lines once and builds a global symbol
//! table and a function table while collecting diagnostics; the [`executor`]
//! then interprets the same lines over a flat memory array, a call stack of
//! return points and a stack of per-call activation frames.

pub mod analyzer;
pub mod executor;
pub mod instr;
pub mod laws;
