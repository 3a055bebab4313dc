//! A fixed-point dataflow analysis engine over control-flow graphs,
//! parametric over the client's instruction set and lattice of facts.
//!
//! Two addressing schemes are provided: `dataflow` works on a graph of
//! labeled basic blocks, and `pc` works on a graph of single instructions
//! addressed by (region, offset) pairs with nested regions.
pub mod dataflow;
pub mod pc;
