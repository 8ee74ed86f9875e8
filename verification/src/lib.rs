//! Reads the dependencies between the C or C++ files of a project and
//! writes the makefile that builds it.

pub mod cli;
pub mod closure;
pub mod filename_utils;
pub mod generate;
pub mod graph;
pub mod parser;
pub mod partition;
pub mod text;
pub mod visit;
