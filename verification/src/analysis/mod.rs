//! Building blocks for analyses that drive a compiler: the command line,
//! the log of an attempt, and the parsers for what the tools print.

pub mod command;
pub mod kernel;
pub mod loops;
pub mod packing;
pub mod si;
