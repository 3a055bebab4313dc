//! The backward fixed-point driver: threads facts from exits back toward
//! entries along predecessors.
use vstd::prelude::*;

use crate::dataflow::analysis::AnalysisError;
use crate::dataflow::analysis::STEP_LIMIT;
use crate::dataflow::fact_base::FactBase;
use crate::dataflow::graph::{BasicBlock, Graph, Label, Language};
use crate::dataflow::lattice::Lattice;

verus! {

/// The borrow-scoped token handed to the backward instruction callback.
pub struct AnalyzeInstructionBackward<'a, F> {
    pub fact: &'a mut F,
}

impl<'a, F> AnalyzeInstructionBackward<'a, F> {
    pub fn fact(&self) -> (r: &F)
        ensures
            r == *old(self.fact),
    {
        &*self.fact
    }

    pub fn fact_mut(self) -> (r: &'a mut F)
        ensures
            *r == *old(self.fact),
            *final(self.fact) == *final(r),
    {
        self.fact
    }

    pub fn replace<L: Language>(
        self,
        instruction: L::Instruction,
    ) -> (r: RewriteInstructionBackward<L>)
        ensures
            r.is_single() && r.single_instruction() == instruction,
            *final(self.fact) == *old(self.fact),
    {
        RewriteInstructionBackward(RewriteInstructionBackwardEnum::Single(instruction))
    }

    pub fn replace_many<L: Language>(
        self,
        instructions: Vec<L::Instruction>,
    ) -> (r: RewriteInstructionBackward<L>)
        ensures
            r.is_multiple() && r.multiple_instructions() == instructions@,
            *final(self.fact) == *old(self.fact),
    {
        RewriteInstructionBackward(RewriteInstructionBackwardEnum::Multiple(instructions))
    }

    pub fn replace_with_graph<L: Language>(
        self,
        exit: L::Exit,
        sub_graph: Graph<L>,
        entry: L::Entry,
    ) -> (r: RewriteInstructionBackward<L>)
        ensures
            r.is_graph(),
            *final(self.fact) == *old(self.fact),
    {
        RewriteInstructionBackward(RewriteInstructionBackwardEnum::Graph(exit, sub_graph, entry))
    }
}

/// The borrow-scoped token handed to the backward exit callback.
pub struct AnalyzeExitBackward<'a, F> {
    pub fact: &'a mut F,
}

impl<'a, F> AnalyzeExitBackward<'a, F> {
    pub fn fact(&self) -> (r: &F)
        ensures
            r == *old(self.fact),
    {
        &*self.fact
    }

    pub fn fact_mut(self) -> (r: &'a mut F)
        ensures
            *r == *old(self.fact),
            *final(self.fact) == *final(r),
    {
        self.fact
    }

    pub fn replace<L: Language>(self, exit: L::Exit) -> (r: RewriteExitBackward<L>)
        ensures
            r.is_single() && r.single_exit() == exit,
            *final(self.fact) == *old(self.fact),
    {
        RewriteExitBackward(RewriteExitBackwardEnum::Single(exit))
    }

    pub fn replace_many<L: Language>(
        self,
        instructions: Vec<L::Instruction>,
        exit: L::Exit,
    ) -> (r: RewriteExitBackward<L>)
        ensures
            r.is_extend() && r.extend_instructions() == instructions@ && r.extend_exit() == exit,
            *final(self.fact) == *old(self.fact),
    {
        RewriteExitBackward(RewriteExitBackwardEnum::Extend(instructions, exit))
    }

    pub fn replace_with_graph<L: Language>(
        self,
        exit: L::Exit,
        sub_graph: Graph<L>,
    ) -> (r: RewriteExitBackward<L>)
        ensures
            r.is_graph(),
            *final(self.fact) == *old(self.fact),
    {
        RewriteExitBackward(RewriteExitBackwardEnum::Graph(exit, sub_graph))
    }
}

pub struct RewriteInstructionBackward<L: Language>(RewriteInstructionBackwardEnum<L>);

impl<L: Language> RewriteInstructionBackward<L> {
    /// The request replaces the current instruction with one instruction.
    pub closed spec fn is_single(self) -> bool {
        self.0 is Single
    }

    pub closed spec fn single_instruction(self) -> L::Instruction {
        self.0->Single_0
    }

    /// The request splices a run of instructions in at the current
    /// position.
    pub closed spec fn is_multiple(self) -> bool {
        self.0 is Multiple
    }

    pub closed spec fn multiple_instructions(self) -> Seq<L::Instruction> {
        (self.0->Multiple_0)@
    }

    /// The request splices in a whole sub-graph.
    pub closed spec fn is_graph(self) -> bool {
        self.0 is Graph
    }
}

enum RewriteInstructionBackwardEnum<L: Language> {
    /// Replace the currently analyzed instruction with this single, new
    /// instruction.
    Single(L::Instruction),
    /// Replace the current instruction with this vector of instructions.
    Multiple(Vec<L::Instruction>),
    /// Replace the current instruction with a sub-graph; a declared but
    /// unimplemented extension point.
    Graph(L::Exit, Graph<L>, L::Entry),
}

pub struct RewriteExitBackward<L: Language>(RewriteExitBackwardEnum<L>);

impl<L: Language> RewriteExitBackward<L> {
    /// The request replaces the current exit with this one.
    pub closed spec fn is_single(self) -> bool {
        self.0 is Single
    }

    pub closed spec fn single_exit(self) -> L::Exit {
        self.0->Single_0
    }

    /// The request extends the block with instructions and a new exit.
    pub closed spec fn is_extend(self) -> bool {
        self.0 is Extend
    }

    pub closed spec fn extend_instructions(self) -> Seq<L::Instruction> {
        (self.0->Extend_0)@
    }

    pub closed spec fn extend_exit(self) -> L::Exit {
        self.0->Extend_1
    }

    /// The request splices in a whole sub-graph.
    pub closed spec fn is_graph(self) -> bool {
        self.0 is Graph
    }
}

enum RewriteExitBackwardEnum<L: Language> {
    /// Replace the currently analyzed exit with this single, new exit.
    Single(L::Exit),
    /// Extend the block with these instructions and a new exit.
    Extend(Vec<L::Instruction>, L::Exit),
    /// Replace the exit with a sub-graph; a declared but unimplemented
    /// extension point.
    Graph(L::Exit, Graph<L>),
}

/// A backward analysis: the client's transfer functions, fed the outgoing
/// fact of a block and walked backward through it. The entry handler
/// returns a fact base keyed by the labels of the block's predecessors.
pub trait BackwardAnalysis<L: Language, F>: Sized {
    fn analyze_exit(
        &mut self,
        graph: &Graph<L>,
        label: Label,
        exit: &L::Exit,
        analyze: AnalyzeExitBackward<F>,
    ) -> Option<RewriteExitBackward<L>>;

    fn analyze_instruction(
        &mut self,
        graph: &Graph<L>,
        label: Label,
        instruction: &L::Instruction,
        analyze: AnalyzeInstructionBackward<F>,
    ) -> Option<RewriteInstructionBackward<L>>;

    fn analyze_entry(
        &mut self,
        graph: &Graph<L>,
        label: Label,
        entry: &L::Entry,
        fact: F,
    ) -> FactBase<F>;
}

/// Computes a fact base over the labels reachable from `entry`, with no
/// externally supplied seed: every label starts at bottom, and facts flow
/// from exits toward entries along predecessors.
///
/// On success, every label of the returned fact base is a block of the
/// graph: facts are distributed only to the predecessors the graph shows.
pub fn backward_analysis<L, A, F>(analysis: &mut A, graph: &Graph<L>, entry: Label) -> (r: Result<
    FactBase<F>,
    AnalysisError,
>)
    where L: Language, A: BackwardAnalysis<L, F>, F: Lattice,
    ensures
        match r {
            Ok(fb) => fb.wf() && (!graph@.contains_key(entry) ==> fb@ =~= Map::<
                Label,
                F::V,
            >::empty()) && forall|k: Label|
                #[trigger] fb@.contains_key(k) ==> graph@.contains_key(k),
            Err(_) => graph@.contains_key(entry),
        },
{
    let mut fact_base = FactBase::<F>::new();
    match fixed_point_backward_graph(analysis, graph, entry, &mut fact_base) {
        Ok(()) => Ok(fact_base),
        Err(e) => Err(e),
    }
}

fn fixed_point_backward_graph<L, A, F>(
    analysis: &mut A,
    graph: &Graph<L>,
    entry: Label,
    fact_base: &mut FactBase<F>,
) -> (r: Result<(), AnalysisError>)
    where L: Language, A: BackwardAnalysis<L, F>, F: Lattice,
    requires
        old(fact_base).wf(),
        forall|k: Label|
            #[trigger] old(fact_base)@.contains_key(k) ==> graph@.contains_key(k),
    ensures
        final(fact_base).wf(),
        forall|k: Label|
            #[trigger] final(fact_base)@.contains_key(k) ==> graph@.contains_key(k),
        !graph@.contains_key(entry) ==> r is Ok && final(fact_base)@ == old(fact_base)@,
{
    let forward_order = graph.post_order_traversal(entry);
    // Reverse the traversal, so that the backlog is processed in forward
    // post-order: what forward analysis computes last comes first here.
    let mut to_visit: Vec<Label> = Vec::new();
    let mut ri: usize = forward_order.len();
    while ri > 0
        invariant
            ri <= forward_order@.len(),
            to_visit@.len() == forward_order@.len() - ri,
        decreases ri,
    {
        ri = ri - 1;
        to_visit.push(forward_order[ri]);
    }
    let mut fuel: u64 = STEP_LIMIT;
    while to_visit.len() > 0
        invariant
            fact_base.wf(),
            forall|k: Label|
                #[trigger] fact_base@.contains_key(k) ==> graph@.contains_key(k),
            !graph@.contains_key(entry) ==> to_visit@.len() == 0 && fact_base@ == old(
                fact_base,
            )@,
        decreases fuel,
    {
        if fuel == 0 {
            return Err(AnalysisError::IterationLimit);
        }
        fuel = fuel - 1;
        let label = to_visit[to_visit.len() - 1];
        to_visit.truncate(to_visit.len() - 1);
        match graph.get(label) {
            None => {
                // A label outside this sub-graph: an external target that
                // needs no analysis here.
            },
            Some(block) => {
                let (res, fuel2) = fixed_point_backward_block(
                    analysis,
                    graph,
                    label,
                    block,
                    fact_base,
                    fuel,
                );
                fuel = fuel2;
                let out_fb = match res {
                    Ok(fb) => fb,
                    Err(e) => {
                        return Err(e);
                    },
                };
                let preds = graph.direct_predecessors(label);
                let mut pi: usize = 0;
                while pi < preds.len()
                    invariant
                        pi <= preds@.len(),
                        forall|i: int|
                            0 <= i < preds@.len() ==> graph@.contains_key(#[trigger] preds@[i]),
                        fact_base.wf(),
                        forall|k: Label|
                            #[trigger] fact_base@.contains_key(k) ==> graph@.contains_key(k),
                    decreases preds@.len() - pi,
                {
                    let p = preds[pi];
                    match out_fb.get(p) {
                        None => {
                            // The client handed this predecessor no fact;
                            // nothing to join, as if it had sent bottom.
                        },
                        Some(f) => {
                            let ghost pre = fact_base@;
                            let changed = fact_base.join_at(p, f);
                            proof {
                                assert forall|k: Label|
                                    #[trigger] fact_base@.contains_key(k) implies graph@.contains_key(
                                    k,
                                ) by {
                                    if k != p {
                                        assert(pre.contains_key(k));
                                    }
                                }
                            }
                            if changed {
                                let mut pending = false;
                                let mut qi: usize = 0;
                                while qi < to_visit.len()
                                    invariant
                                        qi <= to_visit@.len(),
                                    decreases to_visit@.len() - qi,
                                {
                                    if to_visit[qi] == p {
                                        pending = true;
                                    }
                                    qi = qi + 1;
                                }
                                if !pending {
                                    to_visit.push(p);
                                }
                            }
                        },
                    }
                    pi = pi + 1;
                }
            },
        }
    }
    Ok(())
}

fn fixed_point_backward_block<L, A, F>(
    analysis: &mut A,
    graph: &Graph<L>,
    label: Label,
    block: &BasicBlock<L>,
    fact_base: &FactBase<F>,
    fuel_in: u64,
) -> (r: (Result<FactBase<F>, AnalysisError>, u64))
    where L: Language, A: BackwardAnalysis<L, F>, F: Lattice,
    requires
        fact_base.wf(),
    ensures
        r.1 <= fuel_in,
{
    let mut fact: F = match fact_base.get(label) {
        Some(f) => f.clone_fact(),
        None => F::bottom(),
    };
    let mut code: Vec<L::Instruction> = block.code.clone();
    let mut exit: L::Exit = block.exit.clone();
    let mut fuel: u64 = fuel_in;
    // Offer the exit for rewriting until the client stops asking; this
    // supports exits that need iterative narrowing.
    loop
        invariant
            fuel <= fuel_in,
        decreases fuel,
    {
        if fuel == 0 {
            return (Err(AnalysisError::IterationLimit), fuel);
        }
        fuel = fuel - 1;
        match analysis.analyze_exit(
            graph,
            label,
            &exit,
            AnalyzeExitBackward { fact: &mut fact },
        ) {
            None => {
                break;
            },
            Some(RewriteExitBackward(RewriteExitBackwardEnum::Single(new_exit))) => {
                exit = new_exit;
            },
            Some(RewriteExitBackward(RewriteExitBackwardEnum::Extend(insts, new_exit))) => {
                let mut k: usize = 0;
                while k < insts.len()
                    decreases insts@.len() - k,
                {
                    code.push(insts[k].clone());
                    k = k + 1;
                }
                exit = new_exit;
            },
            Some(RewriteExitBackward(RewriteExitBackwardEnum::Graph(_, _))) => {
                return (Err(AnalysisError::UnsupportedRewrite), fuel);
            },
        }
    }
    // Walk the instructions in reverse order, feeding the fact backward.
    let mut counter: usize = 0;
    while counter < code.len()
        invariant
            fuel <= fuel_in,
        decreases fuel,
    {
        if fuel == 0 {
            return (Err(AnalysisError::IterationLimit), fuel);
        }
        fuel = fuel - 1;
        let index = code.len() - (counter + 1);
        match analysis.analyze_instruction(
            graph,
            label,
            &code[index],
            AnalyzeInstructionBackward { fact: &mut fact },
        ) {
            Some(RewriteInstructionBackward(RewriteInstructionBackwardEnum::Single(inst))) => {
                code[index] = inst;
            },
            Some(
                RewriteInstructionBackward(RewriteInstructionBackwardEnum::Multiple(insts)),
            ) => {
                // Splice the replacement over the one instruction it
                // replaces, inserting back to front at its position.
                code.remove(index);
                let mut k: usize = insts.len();
                while k > 0
                    invariant
                        index <= code@.len(),
                        k <= insts@.len(),
                    decreases k,
                {
                    k = k - 1;
                    code.insert(index, insts[k].clone());
                }
            },
            Some(RewriteInstructionBackward(RewriteInstructionBackwardEnum::Graph(_, _, _))) => {
                return (Err(AnalysisError::UnsupportedRewrite), fuel);
            },
            None => {
                counter = counter + 1;
            },
        }
    }
    (Ok(analysis.analyze_entry(graph, label, &block.entry, fact)), fuel)
}

} // verus!
