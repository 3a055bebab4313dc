use dataflow::dataflow::analysis::{
    distribute_facts, forward_analysis, AnalysisError, AnalyzeInstruction, ForwardAnalysis,
    RewriteExit, RewriteInstruction,
};
use dataflow::dataflow::backward_analysis::{
    backward_analysis, AnalyzeExitBackward, AnalyzeInstructionBackward, BackwardAnalysis,
    RewriteExitBackward, RewriteInstructionBackward,
};
use dataflow::dataflow::dominator::DominatorFact;
use dataflow::dataflow::fact_base::FactBase;
use dataflow::dataflow::graph::{BasicBlock, Graph, Label};
use dataflow::dataflow::risc::{
    Constant, RiscEntry, RiscExit, RiscInstruction, RiscLanguage, Var,
};
use dataflow::pc::analysis as pc_analysis;
use dataflow::pc::graph::Graph as PcGraph;
use dataflow::pc::instruction::Label as PcLabel;
use dataflow::pc::risc::{ConstFact as PcConstFact, Risc, Var as PcVar};

// A client that asks the forward engine to splice in a whole sub-graph:
// the one rewrite kind whose semantics are a declared, unimplemented
// extension point.
struct SubGraphRewriter;

impl ForwardAnalysis<RiscLanguage, DominatorFact> for SubGraphRewriter {
    fn analyze_entry(
        &mut self,
        _graph: &Graph<RiscLanguage>,
        _label: Label,
        _entry: &RiscEntry,
        fact: DominatorFact,
    ) -> DominatorFact {
        fact
    }

    fn analyze_instruction(
        &mut self,
        _graph: &Graph<RiscLanguage>,
        _label: Label,
        _instruction: &RiscInstruction,
        analyze: AnalyzeInstruction<DominatorFact>,
    ) -> Option<RewriteInstruction<RiscLanguage>> {
        let sub_graph: Graph<RiscLanguage> = Graph::from_blocks(vec![]);
        Some(analyze.replace_with_graph(
            RiscExit::Jump(Label(9)),
            sub_graph,
            RiscEntry::Label(Label(9)),
        ))
    }

    fn analyze_exit(
        &mut self,
        _graph: &Graph<RiscLanguage>,
        _label: Label,
        exit: &RiscExit,
        fact: &DominatorFact,
    ) -> RewriteExit<RiscLanguage, DominatorFact> {
        RewriteExit::Done(distribute_facts::<RiscLanguage, DominatorFact>(exit, fact))
    }
}

#[test]
fn forward_sub_graph_rewrite_is_unsupported() {
    let block: BasicBlock<RiscLanguage> = BasicBlock::new(
        RiscEntry::Label(Label(1)),
        vec![RiscInstruction::Load(Var(0), Constant(1))],
        RiscExit::Ret,
    );
    let graph = Graph::from_blocks(vec![block]);
    let mut analysis = SubGraphRewriter;
    let r = forward_analysis(
        &mut analysis,
        &graph,
        Label(1),
        DominatorFact { dominates: None },
    );
    assert_eq!(r.err(), Some(AnalysisError::UnsupportedRewrite));
}

// The backward counterpart, requesting the sub-graph rewrite of an exit.
struct BackwardSubGraphRewriter;

impl BackwardAnalysis<RiscLanguage, DominatorFact> for BackwardSubGraphRewriter {
    fn analyze_exit(
        &mut self,
        _graph: &Graph<RiscLanguage>,
        _label: Label,
        _exit: &RiscExit,
        analyze: AnalyzeExitBackward<DominatorFact>,
    ) -> Option<RewriteExitBackward<RiscLanguage>> {
        let sub_graph: Graph<RiscLanguage> = Graph::from_blocks(vec![]);
        Some(analyze.replace_with_graph(RiscExit::Ret, sub_graph))
    }

    fn analyze_instruction(
        &mut self,
        _graph: &Graph<RiscLanguage>,
        _label: Label,
        _instruction: &RiscInstruction,
        _analyze: AnalyzeInstructionBackward<DominatorFact>,
    ) -> Option<RewriteInstructionBackward<RiscLanguage>> {
        None
    }

    fn analyze_entry(
        &mut self,
        _graph: &Graph<RiscLanguage>,
        _label: Label,
        _entry: &RiscEntry,
        _fact: DominatorFact,
    ) -> FactBase<DominatorFact> {
        FactBase::new()
    }
}

#[test]
fn backward_sub_graph_rewrite_is_unsupported() {
    let block: BasicBlock<RiscLanguage> =
        BasicBlock::new(RiscEntry::Label(Label(1)), vec![], RiscExit::Ret);
    let graph = Graph::from_blocks(vec![block]);
    let mut analysis = BackwardSubGraphRewriter;
    let r = backward_analysis(&mut analysis, &graph, Label(1));
    assert_eq!(r.err(), Some(AnalysisError::UnsupportedRewrite));
}

// A per-instruction client that asks for an instruction replacement, which
// that engine declares but does not implement.
struct PcRewriter;

impl pc_analysis::Analysis<Risc, PcConstFact> for PcRewriter {
    fn analyze(
        &mut self,
        _graph: &PcGraph<Risc>,
        _label: PcLabel,
        _instruction: &Risc,
        _fact: &PcConstFact,
    ) -> pc_analysis::Rewrite<Risc, PcConstFact> {
        pc_analysis::Rewrite::Single(Risc::Load(PcVar(0), 1))
    }
}

#[test]
fn pc_instruction_rewrite_is_unsupported() {
    let graph = PcGraph::new(vec![Risc::Ret]);
    let mut analysis = PcRewriter;
    let r = pc_analysis::forward_analyze(&mut analysis, &graph);
    assert_eq!(r.err(), Some(pc_analysis::AnalysisError::UnsupportedRewrite));
}
