//! The transforms, one file per pass.

pub mod absorb_emissions;
pub mod build;
pub mod escape_collectors;
pub mod limits;
pub mod lower;
pub mod merge_collectors;
pub mod merge_parallel_nodes;
pub mod prune;
pub mod set_virtual_types;
pub mod utils;
pub mod validity;

pub use absorb_emissions::absorb_dressing;
pub use build::build;
pub use lower::build_sampling_graph;
pub use lower::build_template;
pub use lower::lower;
pub use merge_collectors::merge_collectors;
pub use merge_parallel_nodes::merge_parallel_nodes;
pub use prune::prune_unreachable_from_sinks;
pub use prune::prune_unreachable_from_sources;
pub use set_virtual_types::set_virtual_types;
