//! Sampling randomizations of quantum circuits, as a chain of circuit dialects.
//!
//! ```text
//! annotated circuit     annotations on boxes                        annotated_circuit
//!   --build-->
//! emission circuit      emissions, collect boxes, content boxes     emission_circuit
//! + distribution table                                              distributions
//!   --absorb_dressing, merge_collectors-->
//! sampling graph        dataflow over virtual state                 virtual_flow_graph
//! + template circuit    parameterized circuit
//! + parameter table     the symbolic absorbed angles                parameters
//!   --merge_parallel_nodes, prune, set_virtual_types-->
//! ```
//!
//! Most root modules hold one stage's vocabulary, and each file under [`passes`] is one transform. Some root
//! modules are not stages but *readings* of an emission circuit: [`emission_circuit_navigation`] is how a pass
//! walks a nested one, and [`track`] and [`spine`] are the flat readings that lowering resolves propagations
//! along. Both optimizations must precede lowering, which mints the template's parameters.
//!
//! Absorbing dressing should precede merging collectors: two collectors merge only with nothing between them, and
//! absorption is what clears what is. Both orders produce valid circuits, so this is a cost rather than a rule.

pub mod annotated_circuit;
pub mod beads;
pub mod circuit;
pub mod collections;
pub mod distributions;
pub mod emission_circuit;
pub mod emission_circuit_navigation;
pub mod error;
pub mod flat;
pub mod graph;
pub mod order;
pub mod overlap;
pub mod parameters;
pub mod partition;
pub mod passes;
pub mod readout;
pub mod spine;
pub mod standard_gate;
pub mod text;
pub mod track;
pub mod virtual_flow_graph;
pub mod virtual_type;
