//! The block-structured variant of the engine: a graph of labeled basic
//! blocks, a forward and a backward fixed-point driver, and the example
//! client analyses that exercise them.
pub mod analysis;
pub mod backward_analysis;
pub mod dominator;
pub mod fact_base;
pub mod graph;
pub mod label_map;
pub mod label_sets;
pub mod lattice;
pub mod liveness;
pub mod risc;

pub use analysis::{
    distribute_facts, forward_analysis, AnalysisError, AnalyzeInstruction, ForwardAnalysis,
    RewriteExit, RewriteInstruction,
};
pub use backward_analysis::{
    backward_analysis, AnalyzeExitBackward, AnalyzeInstructionBackward, BackwardAnalysis,
    RewriteExitBackward, RewriteInstructionBackward,
};
pub use fact_base::FactBase;
pub use graph::{BasicBlock, Entry, Exit, Graph, Instruction, Label, Language};
pub use lattice::Lattice;
