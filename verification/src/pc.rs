//! The per-instruction variant of the engine: a graph of single
//! instructions addressed by (region, offset) pairs, with nested regions
//! introduced by rewrites.
pub mod analysis;
pub mod dominator;
pub mod fact_base;
pub mod graph;
pub mod instruction;
pub mod label_sets;
pub mod lattice;
pub mod risc;

pub use analysis::{forward_analyze, Analysis, AnalysisError, Rewrite};
pub use fact_base::FactBase;
pub use graph::Graph;
pub use instruction::{Instruction, Label, Successors};
pub use lattice::Lattice;
