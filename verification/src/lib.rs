//! Compiler back end of a GPU-accelerated RTL logic simulator.

pub mod aig;
pub mod aigpdk;
pub mod collections;
pub mod elaborate;
pub mod endpoints;
pub mod flatten;
pub mod macros;
pub mod netlist;
mod parallel;
pub mod pe;
mod sorting;
pub mod staging;
pub mod text;
