use dataflow::dataflow::backward_analysis::backward_analysis;
use dataflow::dataflow::graph::{BasicBlock, Graph, Label};
use dataflow::dataflow::liveness::{LivenessAnalysis, UsedVars};
use dataflow::dataflow::risc::{
    Arith, Cond, Constant, RiscEntry, RiscExit, RiscInstruction, RiscLanguage, Var,
};

// Backward analysis on a graph with no loops, against liveness computed by
// hand: the fact held for a block is the set of variables live when it
// exits, the union of what its successors read before writing.
#[test]
fn liveness_agrees_with_manual_computation() {
    let block1: BasicBlock<RiscLanguage> = BasicBlock::new(
        RiscEntry::Label(Label(1)),
        vec![RiscInstruction::Load(Var(0), Constant(1))],
        RiscExit::Jump(Label(2)),
    );
    let block2 = BasicBlock::new(
        RiscEntry::Label(Label(2)),
        vec![RiscInstruction::Arith(Arith::Add, Var(3), Var(0), Var(1))],
        RiscExit::Cond(Cond::Lt, Var(3), Var(2), Label(3), Label(4)),
    );
    let block3 = BasicBlock::new(RiscEntry::Label(Label(3)), vec![], RiscExit::Ret);
    let block4 = BasicBlock::new(RiscEntry::Label(Label(4)), vec![], RiscExit::Ret);
    let graph = Graph::from_blocks(vec![block1, block2, block3, block4]);

    let mut analysis = LivenessAnalysis;
    let fact_base = backward_analysis::<RiscLanguage, LivenessAnalysis, UsedVars>(
        &mut analysis,
        &graph,
        Label(1),
    )
    .unwrap();

    // Live out of the first block: everything the second block reads
    // before writing — the addition's operands and the condition's bound,
    // but not the sum, which the second block writes first.
    let out1 = fact_base.get(Label(1)).unwrap();
    assert!(out1.contains_var(Var(0)));
    assert!(out1.contains_var(Var(1)));
    assert!(out1.contains_var(Var(2)));
    assert!(!out1.contains_var(Var(3)));

    // Live out of the branching block: nothing, since both arms return
    // without reading anything.
    let out2 = fact_base.get(Label(2)).unwrap();
    assert!(!out2.contains_var(Var(0)));
    assert!(!out2.contains_var(Var(1)));
    assert!(!out2.contains_var(Var(2)));
    assert!(!out2.contains_var(Var(3)));

    // The returning blocks have no predecessors asking for facts through
    // them beyond the branching block itself; no fact is held for them.
    assert!(fact_base.get(Label(3)).is_none());
    assert!(fact_base.get(Label(4)).is_none());
}
