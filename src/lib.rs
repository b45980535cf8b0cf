//! A small reverse-mode automatic-differentiation engine over scalar values.
//!
//! Nodes live in an arena ([`graph::Arena`]) and refer to their operands by
//! handle. Scalars are 64-bit two's-complement integers: every arithmetic rule
//! of the engine holds exactly in the ring of integers modulo 2^64, and
//! exactly over the integers whenever no intermediate result leaves the `i64`
//! range.
use vstd::prelude::*;

pub mod arith;
pub mod graph;
pub mod topo;
pub mod backprop;
pub mod laws;
pub mod drawing;
pub mod render;

verus! {

} // verus!
