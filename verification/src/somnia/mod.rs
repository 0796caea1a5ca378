//! Somnia Lisp: a small language for numeric calculation, run on a
//! register machine.

pub mod vm;
pub mod compile;
