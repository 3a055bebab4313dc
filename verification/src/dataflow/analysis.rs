//! The forward fixed-point driver: threads facts from an entry label
//! forward along successors, letting the client rewrite code as it goes.
use vstd::prelude::*;

use crate::dataflow::fact_base::FactBase;
use crate::dataflow::graph::{successor_in_graph, BasicBlock, Exit, Graph, Label, Language};
use crate::dataflow::lattice::Lattice;

verus! {

/// The ceiling on engine steps; a run that has not converged within this
/// many client callbacks is reported as out of budget rather than looping
/// forever on a lattice with unbounded ascending chains.
pub const STEP_LIMIT: u64 = 0xffff_ffff_ffff_ffff;

/// Why an analysis run was aborted without a result.
#[derive(Copy, Clone, Debug, PartialEq, Eq, Structural)]
pub enum AnalysisError {
    /// The client requested a rewrite kind whose splicing semantics are a
    /// declared but unimplemented extension point (a sub-graph rewrite).
    UnsupportedRewrite,
    /// The run did not converge within the step ceiling.
    IterationLimit,
}

/// The borrow-scoped token handed to the instruction callback: read access
/// to the current fact, exclusive access to update it in place, and the
/// constructors of the rewrite requests.
pub struct AnalyzeInstruction<'a, F> {
    pub fact: &'a mut F,
}

impl<'a, F> AnalyzeInstruction<'a, F> {
    pub fn fact(&self) -> (r: &F)
        ensures
            r == *old(self.fact),
    {
        &*self.fact
    }

    pub fn fact_mut(self) -> (r: &'a mut F)
        ensures
            *r == *old(self.fact),
            *final(self.fact) == *final(r),
    {
        self.fact
    }

    pub fn replace<L: Language>(self, instruction: L::Instruction) -> (r: RewriteInstruction<L>)
        ensures
            r.is_single() && r.single_instruction() == instruction,
            *final(self.fact) == *old(self.fact),
    {
        RewriteInstruction(RewriteInstructionEnum::Single(instruction))
    }

    pub fn replace_many<L: Language>(
        self,
        instructions: Vec<L::Instruction>,
    ) -> (r: RewriteInstruction<L>)
        ensures
            r.is_multiple() && r.multiple_instructions() == instructions@,
            *final(self.fact) == *old(self.fact),
    {
        RewriteInstruction(RewriteInstructionEnum::Multiple(instructions))
    }

    pub fn replace_with_graph<L: Language>(
        self,
        exit: L::Exit,
        sub_graph: Graph<L>,
        entry: L::Entry,
    ) -> (r: RewriteInstruction<L>)
        ensures
            r.is_graph(),
            *final(self.fact) == *old(self.fact),
    {
        RewriteInstruction(RewriteInstructionEnum::Graph(exit, sub_graph, entry))
    }
}

pub struct RewriteInstruction<L: Language>(RewriteInstructionEnum<L>);

impl<L: Language> RewriteInstruction<L> {
    /// The request replaces the current instruction with one instruction.
    pub closed spec fn is_single(self) -> bool {
        self.0 is Single
    }

    pub closed spec fn single_instruction(self) -> L::Instruction {
        self.0->Single_0
    }

    /// The request splices a run of instructions in at the current
    /// position.
    pub closed spec fn is_multiple(self) -> bool {
        self.0 is Multiple
    }

    pub closed spec fn multiple_instructions(self) -> Seq<L::Instruction> {
        (self.0->Multiple_0)@
    }

    /// The request splices in a whole sub-graph.
    pub closed spec fn is_graph(self) -> bool {
        self.0 is Graph
    }
}

enum RewriteInstructionEnum<L: Language> {
    /// Replace the currently analyzed instruction with this single, new
    /// instruction.
    Single(L::Instruction),
    /// Replace the run of instructions at the current position with this
    /// vector of instructions.
    Multiple(Vec<L::Instruction>),
    /// Replace the current instruction with a sub-graph; a declared but
    /// unimplemented extension point.
    Graph(L::Exit, Graph<L>, L::Entry),
}

pub enum RewriteExit<L: Language, F> {
    /// The analysis of this block is done; the outgoing facts are keyed by
    /// the successor labels of the exit just analyzed.
    Done(FactBase<F>),
    /// Replace the currently analyzed exit with this single, new exit.
    Single(L::Exit),
    /// Extend the block with these instructions and a new exit.
    Extend(Vec<L::Instruction>, L::Exit),
    /// Replace the exit with a sub-graph; a declared but unimplemented
    /// extension point.
    Graph(L::Exit, Graph<L>, L::Entry),
}

/// A forward analysis: the client's transfer functions, called once per
/// entry, instruction, and exit encountered.
pub trait ForwardAnalysis<L: Language, F>: Sized {
    fn analyze_entry(&mut self, graph: &Graph<L>, label: Label, entry: &L::Entry, fact: F) -> F;

    fn analyze_instruction(
        &mut self,
        graph: &Graph<L>,
        label: Label,
        instruction: &L::Instruction,
        analyze: AnalyzeInstruction<F>,
    ) -> Option<RewriteInstruction<L>>;

    fn analyze_exit(
        &mut self,
        graph: &Graph<L>,
        label: Label,
        exit: &L::Exit,
        fact: &F,
    ) -> RewriteExit<L, F>;
}

/// The fact base that hands one fact to every successor of an exit: it
/// holds exactly the successor labels, each mapped to a copy of `fact`.
pub fn distribute_facts<L: Language, F: Lattice>(exit: &L::Exit, fact: &F) -> (r: FactBase<F>)
    ensures
        r.wf(),
        forall|l: Label|
            #[trigger] r@.contains_key(l) <==> exit.spec_successors().contains(l),
        forall|l: Label| #[trigger] r@.contains_key(l) ==> r@[l] == fact@,
{
    let succs = exit.successors();
    let mut fact_base = FactBase::<F>::new();
    let mut i: usize = 0;
    while i < succs.len()
        invariant
            i <= succs@.len(),
            succs@ == exit.spec_successors(),
            fact_base.wf(),
            forall|l: Label|
                #[trigger] fact_base@.contains_key(l) <==> succs@.take(i as int).contains(l),
            forall|l: Label| #[trigger] fact_base@.contains_key(l) ==> fact_base@[l] == fact@,
        decreases succs@.len() - i,
    {
        fact_base.insert(succs[i], fact.clone_fact());
        proof {
            assert forall|l: Label| #[trigger] fact_base@.contains_key(l) <==> succs@.take(
                i as int + 1,
            ).contains(l) by {
                if l == succs@[i as int] {
                    assert(succs@.take(i as int + 1)[i as int] == l);
                } else {
                    assert(succs@.take(i as int + 1).contains(l) <==> succs@.take(
                        i as int,
                    ).contains(l)) by {
                        if succs@.take(i as int + 1).contains(l) {
                            let j = choose|j: int|
                                0 <= j < i + 1 && #[trigger] succs@.take(i as int + 1)[j] == l;
                            assert(succs@.take(i as int)[j] == l);
                        } else if succs@.take(i as int).contains(l) {
                            let j = choose|j: int|
                                0 <= j < i && #[trigger] succs@.take(i as int)[j] == l;
                            assert(succs@.take(i as int + 1)[j] == l);
                        }
                    }
                }
            }
        }
        i = i + 1;
    }
    proof {
        assert(succs@.take(succs@.len() as int) =~= succs@);
    }
    fact_base
}

/// Computes a fact base over the labels reachable from `entry`, starting
/// from `entry_fact` there: the worklist fixed point of the client's
/// transfer functions.
///
/// On success the returned fact base holds the entry label, its fact is no
/// lower than the fact the run started from, and every label it mentions is
/// the entry or a successor of some block of the graph.
pub fn forward_analysis<L, A, F>(
    analysis: &mut A,
    graph: &Graph<L>,
    entry: Label,
    entry_fact: F,
) -> (r: Result<FactBase<F>, AnalysisError>)
    where L: Language, A: ForwardAnalysis<L, F>, F: Lattice,
    ensures
        match r {
            Ok(fb) => fb.wf() && fb@.contains_key(entry) && F::leq(entry_fact@, fb@[entry]) && (
            !graph@.contains_key(entry) ==> fb@ =~= Map::<Label, F::V>::empty().insert(
                entry,
                entry_fact@,
            )) && forall|
                k: Label,
            |
                #[trigger] fb@.contains_key(k) ==> k == entry || successor_in_graph(graph@, k),
            Err(_) => graph@.contains_key(entry),
        },
{
    let mut fact_base = FactBase::<F>::new();
    let ghost entry_view = entry_fact@;
    fact_base.insert(entry, entry_fact);
    proof {
        F::lemma_leq_refl(entry_view);
    }
    match fixed_point_forward_graph(analysis, graph, entry, &mut fact_base) {
        Ok(()) => Ok(fact_base),
        Err(e) => Err(e),
    }
}

fn fixed_point_forward_graph<L, A, F>(
    analysis: &mut A,
    graph: &Graph<L>,
    entry: Label,
    fact_base: &mut FactBase<F>,
) -> (r: Result<(), AnalysisError>)
    where L: Language, A: ForwardAnalysis<L, F>, F: Lattice,
    requires
        old(fact_base).wf(),
        old(fact_base)@.contains_key(entry),
        forall|k: Label|
            #[trigger] old(fact_base)@.contains_key(k) ==> k == entry || successor_in_graph(
                graph@,
                k,
            ),
    ensures
        final(fact_base).wf(),
        final(fact_base)@.contains_key(entry),
        F::leq(old(fact_base)@[entry], final(fact_base)@[entry]),
        forall|k: Label|
            #[trigger] final(fact_base)@.contains_key(k) ==> k == entry || successor_in_graph(
                graph@,
                k,
            ),
        !graph@.contains_key(entry) ==> r is Ok && final(fact_base)@ == old(fact_base)@,
{
    let mut to_visit: Vec<Label> = graph.post_order_traversal(entry);
    let mut fuel: u64 = STEP_LIMIT;
    proof {
        F::lemma_leq_refl(old(fact_base)@[entry]);
    }
    while to_visit.len() > 0
        invariant
            fact_base.wf(),
            fact_base@.contains_key(entry),
            F::leq(old(fact_base)@[entry], fact_base@[entry]),
            forall|k: Label|
                #[trigger] fact_base@.contains_key(k) ==> k == entry || successor_in_graph(
                    graph@,
                    k,
                ),
            !graph@.contains_key(entry) ==> to_visit@.len() == 0 && fact_base@ == old(
                fact_base,
            )@,
        decreases fuel,
    {
        if fuel == 0 {
            return Err(AnalysisError::IterationLimit);
        }
        fuel = fuel - 1;
        let label = to_visit[to_visit.len() - 1];
        to_visit.truncate(to_visit.len() - 1);
        match graph.get(label) {
            None => {
                // A label outside this sub-graph: an external target that
                // needs no analysis here.
            },
            Some(block) => {
                let (res, fuel2) = fixed_point_forward_block(
                    analysis,
                    graph,
                    label,
                    block,
                    fact_base,
                    fuel,
                );
                fuel = fuel2;
                let out_fb = match res {
                    Ok(fb) => fb,
                    Err(e) => {
                        return Err(e);
                    },
                };
                let succs = block.successors();
                let mut si: usize = 0;
                while si < succs.len()
                    invariant
                        si <= succs@.len(),
                        graph@.contains_key(label),
                        succs@ == graph@[label].exit.spec_successors(),
                        fact_base.wf(),
                        fact_base@.contains_key(entry),
                        F::leq(old(fact_base)@[entry], fact_base@[entry]),
                        forall|k: Label|
                            #[trigger] fact_base@.contains_key(k) ==> k == entry
                                || successor_in_graph(graph@, k),
                    decreases succs@.len() - si,
                {
                    let s = succs[si];
                    match out_fb.get(s) {
                        None => {
                            // The client handed this successor no fact;
                            // nothing to join, as if it had sent bottom.
                        },
                        Some(f) => {
                            let ghost pre = fact_base@;
                            let changed = fact_base.join_at(s, f);
                            proof {
                                if s == entry {
                                    F::lemma_leq_trans(
                                        old(fact_base)@[entry],
                                        pre[entry],
                                        fact_base@[entry],
                                    );
                                }
                                assert forall|k: Label|
                                    #[trigger] fact_base@.contains_key(k) implies k == entry
                                    || successor_in_graph(graph@, k) by {
                                    if k == s {
                                        assert(graph@[label].exit.spec_successors().contains(
                                            s,
                                        )) by {
                                            assert(succs@[si as int] == s);
                                        }
                                    } else {
                                        assert(pre.contains_key(k));
                                    }
                                }
                            }
                            if changed {
                                let mut pending = false;
                                let mut pi: usize = 0;
                                while pi < to_visit.len()
                                    invariant
                                        pi <= to_visit@.len(),
                                    decreases to_visit@.len() - pi,
                                {
                                    if to_visit[pi] == s {
                                        pending = true;
                                    }
                                    pi = pi + 1;
                                }
                                if !pending {
                                    to_visit.push(s);
                                }
                            }
                        },
                    }
                    si = si + 1;
                }
            },
        }
    }
    Ok(())
}

fn fixed_point_forward_block<L, A, F>(
    analysis: &mut A,
    graph: &Graph<L>,
    label: Label,
    block: &BasicBlock<L>,
    fact_base: &FactBase<F>,
    fuel_in: u64,
) -> (r: (Result<FactBase<F>, AnalysisError>, u64))
    where L: Language, A: ForwardAnalysis<L, F>, F: Lattice,
    requires
        fact_base.wf(),
    ensures
        r.1 <= fuel_in,
{
    let mut fact: F = match fact_base.get(label) {
        Some(f) => f.clone_fact(),
        None => F::bottom(),
    };
    fact = analysis.analyze_entry(graph, label, &block.entry, fact);
    let mut code: Vec<L::Instruction> = block.code.clone();
    let mut exit: L::Exit = block.exit.clone();
    let mut index: usize = 0;
    let mut fuel: u64 = fuel_in;
    loop
        invariant
            fuel <= fuel_in,
            index <= code@.len(),
        decreases fuel,
    {
        let ghost fuel0 = fuel;
        while index < code.len()
            invariant
                fuel <= fuel0,
                fuel0 <= fuel_in,
                index <= code@.len(),
            decreases fuel,
        {
            if fuel == 0 {
                return (Err(AnalysisError::IterationLimit), fuel);
            }
            fuel = fuel - 1;
            match analysis.analyze_instruction(
                graph,
                label,
                &code[index],
                AnalyzeInstruction { fact: &mut fact },
            ) {
                Some(RewriteInstruction(RewriteInstructionEnum::Single(inst))) => {
                    code[index] = inst;
                },
                Some(RewriteInstruction(RewriteInstructionEnum::Multiple(insts))) => {
                    // Splice the replacement over the run it replaces,
                    // growing the block where it runs past the end.
                    let mut k: usize = 0;
                    while k < insts.len()
                        invariant
                            index <= code@.len(),
                        decreases insts@.len() - k,
                    {
                        if k < code.len() - index {
                            code[index + k] = insts[k].clone();
                        } else {
                            code.push(insts[k].clone());
                        }
                        k = k + 1;
                    }
                },
                Some(RewriteInstruction(RewriteInstructionEnum::Graph(_, _, _))) => {
                    return (Err(AnalysisError::UnsupportedRewrite), fuel);
                },
                None => {
                    index = index + 1;
                },
            }
        }
        if fuel == 0 {
            return (Err(AnalysisError::IterationLimit), fuel);
        }
        fuel = fuel - 1;
        match analysis.analyze_exit(graph, label, &exit, &fact) {
            RewriteExit::Done(facts) => {
                return (Ok(facts), fuel);
            },
            RewriteExit::Single(new_exit) => {
                exit = new_exit;
            },
            RewriteExit::Extend(insts, new_exit) => {
                let mut k: usize = 0;
                while k < insts.len()
                    invariant
                        index <= code@.len(),
                    decreases insts@.len() - k,
                {
                    code.push(insts[k].clone());
                    k = k + 1;
                }
                exit = new_exit;
            },
            RewriteExit::Graph(_, _, _) => {
                return (Err(AnalysisError::UnsupportedRewrite), fuel);
            },
        }
    }
}

} // verus!
