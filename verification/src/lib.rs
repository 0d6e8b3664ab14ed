//! Pieces of a distributed C++ build tool: splitting and quoting of command lines, and the
//! filter that cuts the preprocessed source of a unit at its precompiled header.

pub mod bytes;
pub mod command;
pub mod grammar;
pub mod laws;
pub mod line_endings;
pub mod postprocess;
pub mod scanner;
pub mod shapes;
