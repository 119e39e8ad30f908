//! Partition scheduler and flattener.

pub mod activations;
pub mod assemble;
pub mod bits;
pub mod blocks;
pub mod error;
pub mod execute;
pub mod fits;
pub mod found;
pub mod gates;
pub mod lanes;
pub mod laws;
pub mod layout;
pub mod local;
pub mod machine;
pub mod memory;
pub mod outputs;
pub mod part;
pub mod phase;
pub mod reads;
pub mod run;
pub mod runs;
pub mod script;
pub mod semantics;
pub mod stages;
pub mod tables;
pub mod words;

pub use assemble::FlattenedScriptV1;
pub use bits::set_bit_in_u32;
pub use error::FlattenError;
pub use part::FlatteningPart;
pub use phase::{alloc_free_pos, emit_macro_phase};
pub use reads::{map_global_read_to_rounds, NUM_THREADS_V1};
