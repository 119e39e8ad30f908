//! Graph construction from netlists.

pub mod cells;
pub mod clocks;
pub mod connect;
pub mod draft;
pub mod elements;
pub mod fanout;
pub mod graph;
pub mod index;
pub mod kept;
pub mod laws;
pub mod library;
pub mod pins;
pub mod ports;
pub mod rules;
pub mod typing;
pub mod values;

pub use cells::{BuildError, CellKind};
