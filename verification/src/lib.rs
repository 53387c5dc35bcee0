//! A GPU backend compiler for an abstract tensor computation graph.
//!
//! The crate lowers symbolic tensor views to scalar index expressions in a
//! GPU C dialect, synthesizes kernel source for primitive tensor operators,
//! memoizes compiled kernels by a stable hash of their source, and rewrites
//! an operator graph so that every primitive node carries a device operator
//! and every host/device boundary is bridged by explicit copy nodes.

pub mod compile;
pub mod expr;
pub mod graph;
pub mod kernel;
pub mod optimizer;
pub mod prim;
pub mod shape;
