//! Partition executor.

pub mod blocked;
pub mod budget;
pub mod chains;
pub mod check;
pub mod commits;
pub mod cone;
pub mod fill;
pub mod fold;
pub mod grid;
pub mod hgr;
pub mod levels;
pub mod mergers;
pub mod partition;
pub mod place;
pub mod process;
pub mod reserves;
pub mod rounds;
pub mod schedule;
pub mod stage;
pub mod waves;

pub use blocked::{realized_leaves_of, targets_blocked_by_pending};
pub use check::is_schedulable;
pub use grid::BOOMERANG_NUM_STAGES;
pub use hgr::{parts_from_hgr_lines, process_partitions_from_hgr_lines, HgrError};
pub use partition::{MacroLane, MacroStage, Partition};
pub use process::process_partitions;
pub use stage::{build_one_boomerang_stage, BoomerangStage, BOOMERANG_MAX_WRITEOUTS};
pub use waves::{is_chain_start, order_macro_waves};
