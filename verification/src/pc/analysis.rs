//! The per-instruction forward driver: walks paths of instructions from
//! the program entry, joining facts into fallthrough and jump successors
//! until nothing changes.
use vstd::prelude::*;

use crate::pc::fact_base::{holds_label, FactBase};
use crate::pc::graph::{entry_label, Graph};
use crate::pc::instruction::{Instruction, Label};
use crate::pc::lattice::Lattice;

verus! {

/// The ceiling on engine steps; a run that has not converged within this
/// many client callbacks is reported as out of budget rather than looping
/// forever on a lattice with unbounded ascending chains.
pub const STEP_LIMIT: u64 = 0xffff_ffff_ffff_ffff;

/// Why an analysis run was aborted without a result.
#[derive(Copy, Clone, Debug, PartialEq, Eq, Structural)]
pub enum AnalysisError {
    /// The client requested a rewrite kind whose splicing semantics are a
    /// declared but unimplemented extension point.
    UnsupportedRewrite,
    /// The run did not converge within the step ceiling.
    IterationLimit,
    /// Control ran off the program, or a jump names no node of the graph.
    InconsistentGraph,
}

/// What the client asks of the engine after seeing one instruction.
pub enum Rewrite<I, F> {
    /// Keep the instruction and pass the incoming fact on unchanged.
    NoChange,
    /// Keep the instruction and pass this fact on instead.
    Fact(F),
    /// Replace the instruction with this one; a declared but unimplemented
    /// extension point.
    Single(I),
    /// Replace the instruction with these; a declared but unimplemented
    /// extension point.
    Many(Vec<I>),
}

/// A forward analysis over single instructions: one transfer function,
/// called once per instruction visited.
///
/// `spec_transfer` is the mathematical transfer: what the callback hands
/// on for an instruction, given the incoming fact; by default the fact
/// passes through unchanged, and an analysis that computes anything
/// states its own. A callback answering no-change asserts that its
/// transfer leaves the fact as it is; one answering with a fact asserts
/// that it returned exactly its transfer. The rewrite-requesting answers
/// promise nothing, since the engine declares them unimplemented and
/// aborts the run.
pub trait Analysis<I, F>: Sized where I: Instruction, F: Lattice {
    open spec fn spec_transfer(label: Label, instruction: I, fact: F::V) -> F::V {
        fact
    }

    fn analyze(
        &mut self,
        graph: &Graph<I>,
        label: Label,
        instruction: &I,
        fact: &F,
    ) -> (r: Rewrite<I, F>)
        ensures
            match r {
                Rewrite::NoChange => Self::spec_transfer(label, *instruction, fact@) == fact@,
                Rewrite::Fact(f) => f@ == Self::spec_transfer(label, *instruction, fact@),
                _ => true,
            },
    ;
}

/// Every node of the graph is an instruction: no region markers. Every
/// graph the public constructor builds is of this shape; markers arise
/// only from the unimplemented sub-graph rewrites.
pub open spec fn all_instructions<I: Instruction>(g: Graph<I>) -> bool {
    forall|l: Label|
        #[trigger] g.valid_label(l) ==> g.spec_node(
            l.sub_graph as int,
            l.index as int,
        ) is Instruction
}

proof fn lemma_all_instructions_at<I: Instruction>(g: Graph<I>, l: Label)
    requires
        g.wf(),
        all_instructions(g),
        g.valid_label(l),
    ensures
        g.spec_node(l.sub_graph as int, l.index as int) is Instruction,
        g.spec_forward(l) == l,
{
}

/// The table has one slot per node of the graph.
pub open spec fn table_matches<I: Instruction, F: Lattice>(
    g: Graph<I>,
    fb: Seq<Seq<F::V>>,
) -> bool {
    fb.len() == g.region_count() && forall|a: int|
        0 <= a < fb.len() ==> #[trigger] fb[a].len() == g.region_len(a)
}

proof fn lemma_table_slot<I: Instruction, F: Lattice>(g: Graph<I>, fb: Seq<Seq<F::V>>, l: Label)
    requires
        table_matches::<I, F>(g, fb),
        g.valid_label(l),
    ensures
        0 <= l.sub_graph < fb.len(),
        0 <= l.index < fb[l.sub_graph as int].len(),
{
}

/// The table is converged at `l`: joining what the client's transfer
/// hands on for `l`'s instruction into each of `l`'s successors would
/// change nothing, since they already subsume it.
pub open spec fn stable_at<A: Analysis<I, F>, I: Instruction, F: Lattice>(
    g: Graph<I>,
    fb: Seq<Seq<F::V>>,
    l: Label,
) -> bool {
    let inst = g.spec_instruction_at(l);
    let out = A::spec_transfer(l, inst, fb[l.sub_graph as int][l.index as int]);
    &&& (inst.spec_fallthrough() ==> match g.spec_next_pc(l) {
        Option::Some(ft) => g.valid_label(ft) ==> F::leq(
            out,
            fb[ft.sub_graph as int][ft.index as int],
        ),
        Option::None => true,
    })
    &&& (forall|t: Label|
        g.valid_label(t) && #[trigger] inst.spec_jumps().contains(t) ==> F::leq(
            out,
            fb[t.sub_graph as int][t.index as int],
        ))
}

/// Raising one slot of the table preserves convergence at every label
/// whose own slot it is not.
proof fn lemma_stable_raise<A: Analysis<I, F>, I: Instruction, F: Lattice>(
    g: Graph<I>,
    pre: Seq<Seq<F::V>>,
    post: Seq<Seq<F::V>>,
    s: Label,
    l: Label,
)
    requires
        stable_at::<A, I, F>(g, pre, l),
        post =~= pre.update(
            s.sub_graph as int,
            pre[s.sub_graph as int].update(
                s.index as int,
                post[s.sub_graph as int][s.index as int],
            ),
        ),
        table_matches::<I, F>(g, pre),
        g.valid_label(s),
        g.valid_label(l),
        F::leq(
            pre[s.sub_graph as int][s.index as int],
            post[s.sub_graph as int][s.index as int],
        ),
        !(s.sub_graph == l.sub_graph && s.index == l.index),
    ensures
        stable_at::<A, I, F>(g, post, l),
{
    lemma_table_slot::<I, F>(g, pre, s);
    lemma_table_slot::<I, F>(g, pre, l);
    assert forall|a: int, b: int|
        0 <= a < pre.len() && 0 <= b < pre[a].len() && !(a == s.sub_graph as int && b
            == s.index as int) implies post[a][b] == pre[a][b] by {
        if a == s.sub_graph as int {
            assert(post[a] == pre[a].update(s.index as int, post[s.sub_graph as int][
                s.index as int]));
        } else {
            assert(post[a] == pre[a]);
        }
    }
    assert(post[l.sub_graph as int][l.index as int] == pre[l.sub_graph as int][l.index as int]);
    let inst = g.spec_instruction_at(l);
    let out = A::spec_transfer(l, inst, pre[l.sub_graph as int][l.index as int]);
    if inst.spec_fallthrough() {
        match g.spec_next_pc(l) {
            Option::Some(ft) => {
                if g.valid_label(ft) {
                    if ft.sub_graph == s.sub_graph && ft.index == s.index {
                        F::lemma_leq_trans(
                            out,
                            pre[s.sub_graph as int][s.index as int],
                            post[s.sub_graph as int][s.index as int],
                        );
                    } else {
                        lemma_table_slot::<I, F>(g, pre, ft);
                        assert(post[ft.sub_graph as int][ft.index as int]
                            == pre[ft.sub_graph as int][ft.index as int]);
                    }
                }
            },
            Option::None => {},
        }
    }
    assert forall|t: Label|
        g.valid_label(t) && #[trigger] inst.spec_jumps().contains(t) implies F::leq(
        out,
        post[t.sub_graph as int][t.index as int],
    ) by {
        if t.sub_graph == s.sub_graph && t.index == s.index {
            F::lemma_leq_trans(
                out,
                pre[s.sub_graph as int][s.index as int],
                post[s.sub_graph as int][s.index as int],
            );
        } else {
            lemma_table_slot::<I, F>(g, pre, t);
            assert(post[t.sub_graph as int][t.index as int]
                == pre[t.sub_graph as int][t.index as int]);
        }
    }
}

/// Computes a fact table over the whole graph, seeded at the program
/// entry with the lattice's designated entry fact: the worklist fixed
/// point of the client's transfer function, with the backlog seeded from
/// a post-order traversal.
///
/// On success the table holds one fact per node of the graph, the entry
/// slot subsumes the seed, and — on a marker-free graph — the table is
/// converged at every label reachable from the entry: re-running any
/// reachable instruction's transfer and joining the result into its
/// successors would change nothing.
#[verifier::rlimit(100)]
pub fn forward_analyze<A, I, F>(analysis: &mut A, graph: &Graph<I>) -> (r: Result<
    FactBase<F>,
    AnalysisError,
>)
    where A: Analysis<I, F>, I: Instruction, F: Lattice,
    requires
        graph.wf(),
    ensures
        match r {
            Ok(fb) => fb@.len() == graph.region_count() && F::leq(F::spec_top(), fb@[0][0]) && (
            forall|g: int| 0 <= g < fb@.len() ==> #[trigger] fb@[g].len() == graph.region_len(g))
                && (all_instructions(*graph) ==> forall|l: Label, n: nat|
                #[trigger] graph.pc_reaches_in(entry_label(), l, n) && graph.valid_label(l)
                    ==> stable_at::<A, I, F>(*graph, fb@, l)),
            Err(_) => true,
        },
        graph.region_len(0) == 0 ==> r == Err::<FactBase<F>, AnalysisError>(
            AnalysisError::InconsistentGraph,
        ),
{
    let mut fact_base = FactBase::<F>::new(graph);
    let entry = Label::new(0, 0);
    if !graph.node_exists(entry) {
        // An empty program has no entry instruction to start from.
        return Err(AnalysisError::InconsistentGraph);
    }
    if !fact_base.set(entry, F::top()) {
        return Err(AnalysisError::InconsistentGraph);
    }
    proof {
        F::lemma_leq_refl(F::spec_top());
    }
    // Per the worklist discipline, the backlog is a post-order traversal
    // of the reachable graph, popped from the end, so that blocks are
    // first analyzed in reverse post-order and every reachable
    // instruction is analyzed at least once even where its incoming
    // joins report no change.
    let mut to_visit: Vec<Label> = graph.post_order_traversal(entry);
    proof {
        if all_instructions(*graph) {
            assert forall|l: Label, n: nat|
                #[trigger] graph.pc_reaches_in(entry_label(), l, n) && graph.valid_label(
                    l,
                ) implies to_visit@.contains(l) by {
                assert(entry == entry_label());
                lemma_all_instructions_at(*graph, l);
                let i = choose|i: int|
                    0 <= i < to_visit@.len() && #[trigger] graph.spec_forward(to_visit@[i])
                        == graph.spec_forward(l);
                lemma_all_instructions_at(*graph, to_visit@[i]);
                assert(to_visit@[i] == l);
            }
        }
    }
    let mut fuel: u64 = STEP_LIMIT;
    while to_visit.len() > 0
        invariant
            graph.wf(),
            graph.region_len(0) > 0,
            F::leq(F::spec_top(), fact_base@[0][0]),
            table_matches::<I, F>(*graph, fact_base@),
            forall|i: int| 0 <= i < to_visit@.len() ==> graph.valid_label(#[trigger] to_visit@[i]),
            all_instructions(*graph) ==> forall|l: Label, n: nat|
                #[trigger] graph.pc_reaches_in(entry_label(), l, n) && graph.valid_label(l)
                    ==> to_visit@.contains(l) || stable_at::<A, I, F>(*graph, fact_base@, l),
        decreases fuel,
    {
        if fuel == 0 {
            return Err(AnalysisError::IterationLimit);
        }
        fuel = fuel - 1;
        let ghost pre_visit = to_visit@;
        let mut pc: Label = to_visit[to_visit.len() - 1];
        to_visit.truncate(to_visit.len() - 1);
        proof {
            if all_instructions(*graph) {
                assert forall|l: Label, n: nat|
                    #[trigger] graph.pc_reaches_in(entry_label(), l, n) && graph.valid_label(
                        l,
                    ) implies to_visit@.contains(l) || stable_at::<A, I, F>(
                    *graph,
                    fact_base@,
                    l,
                ) || (l.sub_graph == pc.sub_graph && l.index == pc.index) by {
                    if pre_visit.contains(l) && l != pc {
                        let i = choose|i: int|
                            0 <= i < pre_visit.len() && pre_visit[i] == l;
                        assert(to_visit@[i] == l);
                    }
                }
            }
        }
        let ghost fuel0 = fuel;
        // Follow one path of fallthroughs as far as the facts keep
        // changing, then come back for the next pending label.
        loop
            invariant
                graph.wf(),
                graph.region_len(0) > 0,
                F::leq(F::spec_top(), fact_base@[0][0]),
                graph.valid_label(pc),
                fuel <= fuel0,
                table_matches::<I, F>(*graph, fact_base@),
                forall|i: int|
                    0 <= i < to_visit@.len() ==> graph.valid_label(#[trigger] to_visit@[i]),
                all_instructions(*graph) ==> forall|l: Label, n: nat|
                    #[trigger] graph.pc_reaches_in(entry_label(), l, n) && graph.valid_label(l)
                        ==> to_visit@.contains(l) || stable_at::<A, I, F>(*graph, fact_base@, l)
                        || (l.sub_graph == pc.sub_graph && l.index == pc.index),
            ensures
                forall|i: int|
                    0 <= i < to_visit@.len() ==> graph.valid_label(#[trigger] to_visit@[i]),
                all_instructions(*graph) ==> forall|l: Label, n: nat|
                    #[trigger] graph.pc_reaches_in(entry_label(), l, n) && graph.valid_label(l)
                        ==> to_visit@.contains(l) || stable_at::<A, I, F>(*graph, fact_base@, l),
            decreases fuel,
        {
            proof {
                lemma_table_slot::<I, F>(*graph, fact_base@, pc);
            }
            if fuel == 0 {
                return Err(AnalysisError::IterationLimit);
            }
            fuel = fuel - 1;
            let instruction = graph.get_instruction(pc);
            let ghost inst_v = *instruction;
            proof {
                if all_instructions(*graph) {
                    lemma_all_instructions_at(*graph, pc);
                    assert(graph.spec_instruction_at(pc) == inst_v);
                }
            }
            let successors = instruction.successors();
            let mut need_new_pc = !successors.fallthrough;
            proof {
                lemma_table_slot::<I, F>(*graph, fact_base@, pc);
                assert(holds_label(fact_base, pc));
            }
            let current_fact: F = match fact_base.get(pc) {
                Some(f) => f.clone_fact(),
                None => {
                    proof {
                        assert(false);
                    }
                    F::bottom()
                },
            };
            let ghost cur_v = current_fact@;
            let new_fact: F = match analysis.analyze(graph, pc, instruction, &current_fact) {
                Rewrite::NoChange => current_fact,
                Rewrite::Fact(f) => f,
                Rewrite::Single(_) => {
                    return Err(AnalysisError::UnsupportedRewrite);
                },
                Rewrite::Many(_) => {
                    return Err(AnalysisError::UnsupportedRewrite);
                },
            };
            proof {
                assert(new_fact@ == A::spec_transfer(pc, inst_v, cur_v));
            }
            let mut next_pc = pc;
            let ghost mut ft_label: Option<Label> = Option::None;
            let ghost mut ft_raised: bool = false;
            if successors.fallthrough {
                match graph.next_pc(pc) {
                    None => {
                        // Control ran off the end of the program without a
                        // halting instruction.
                        return Err(AnalysisError::InconsistentGraph);
                    },
                    Some(fallthrough_pc) => {
                        let ghost pre_fb = fact_base@;
                        proof {
                            assert(table_matches::<I, F>(*graph, pre_fb));
                        }
                        match fact_base.join_at(fallthrough_pc, &new_fact) {
                            None => {
                                return Err(AnalysisError::InconsistentGraph);
                            },
                            Some(changed) => {
                                proof {
                                    ft_label = Option::Some(fallthrough_pc);
                                    ft_raised = changed;
                                    if fallthrough_pc.sub_graph == 0 && fallthrough_pc.index
                                        == 0 {
                                        F::lemma_leq_trans(
                                            F::spec_top(),
                                            pre_fb[0][0],
                                            fact_base@[0][0],
                                        );
                                    }
                                    if !changed {
                                        assert(fact_base@[fallthrough_pc.sub_graph as int]
                                            =~= pre_fb[fallthrough_pc.sub_graph as int]);
                                        assert(fact_base@ =~= pre_fb);
                                    }
                                    lemma_table_slot::<I, F>(*graph, pre_fb, pc);
                                    lemma_table_slot::<I, F>(*graph, pre_fb, fallthrough_pc);
                                    if !(fallthrough_pc.sub_graph == pc.sub_graph
                                        && fallthrough_pc.index == pc.index) {
                                        if pc.sub_graph == fallthrough_pc.sub_graph {
                                            assert(fact_base@[pc.sub_graph as int] == pre_fb[
                                                pc.sub_graph as int].update(
                                                fallthrough_pc.index as int,
                                                fact_base@[fallthrough_pc.sub_graph as int][
                                                    fallthrough_pc.index as int],
                                            ));
                                        } else {
                                            assert(fact_base@[pc.sub_graph as int] == pre_fb[
                                                pc.sub_graph as int]);
                                        }
                                        assert(fact_base@[pc.sub_graph as int][
                                            pc.index as int] == pre_fb[pc.sub_graph as int][
                                            pc.index as int]);
                                    }
                                    if all_instructions(*graph) {
                                        assert forall|l: Label, n: nat|
                                            #[trigger] graph.pc_reaches_in(entry_label(), l, n)
                                                && graph.valid_label(
                                                l,
                                            ) implies to_visit@.contains(l) || stable_at::<
                                            A,
                                            I,
                                            F,
                                        >(*graph, fact_base@, l) || (l.sub_graph == pc.sub_graph
                                            && l.index == pc.index) || (changed && l.sub_graph
                                            == fallthrough_pc.sub_graph && l.index
                                            == fallthrough_pc.index) by {
                                            if !to_visit@.contains(l) && stable_at::<A, I, F>(
                                                *graph,
                                                pre_fb,
                                                l,
                                            ) && !(l.sub_graph == fallthrough_pc.sub_graph
                                                && l.index == fallthrough_pc.index) {
                                                lemma_stable_raise::<A, I, F>(
                                                    *graph,
                                                    pre_fb,
                                                    fact_base@,
                                                    fallthrough_pc,
                                                    l,
                                                );
                                            }
                                        }
                                    }
                                }
                                if changed {
                                    next_pc = fallthrough_pc;
                                } else {
                                    need_new_pc = true;
                                }
                            },
                        }
                    },
                }
            }
            let jumps = successors.jumps;
            let mut ji: usize = 0;
            while ji < jumps.len()
                invariant
                    graph.wf(),
                    F::leq(F::spec_top(), fact_base@[0][0]),
                    graph.valid_label(pc),
                    table_matches::<I, F>(*graph, fact_base@),
                    forall|i: int|
                        0 <= i < to_visit@.len() ==> graph.valid_label(
                            #[trigger] to_visit@[i],
                        ),
                    jumps@ == inst_v.spec_jumps(),
                    new_fact@ == A::spec_transfer(pc, inst_v, cur_v),
                    all_instructions(*graph) ==> graph.spec_instruction_at(pc) == inst_v,
                    inst_v.spec_fallthrough() == (ft_label is Some),
                    ft_label matches Option::Some(f) ==> f == graph.spec_next_pc(pc)->Some_0
                        && graph.spec_next_pc(pc) is Some && graph.valid_label(f) && F::leq(
                        new_fact@,
                        fact_base@[f.sub_graph as int][f.index as int],
                    ),
                    all_instructions(*graph) ==> (fact_base@[pc.sub_graph as int][pc.index as int]
                        == cur_v || to_visit@.contains(pc) || (ft_raised && (
                    ft_label matches Option::Some(f) && f.sub_graph == pc.sub_graph && f.index
                        == pc.index))),
                    forall|x: int|
                        0 <= x < ji && graph.valid_label(#[trigger] jumps@[x]) ==> F::leq(
                            new_fact@,
                            fact_base@[jumps@[x].sub_graph as int][jumps@[x].index as int],
                        ),
                    all_instructions(*graph) ==> forall|l: Label, n: nat|
                        #[trigger] graph.pc_reaches_in(entry_label(), l, n)
                            && graph.valid_label(l) ==> to_visit@.contains(l) || stable_at::<
                            A,
                            I,
                            F,
                        >(*graph, fact_base@, l) || (l.sub_graph == pc.sub_graph && l.index
                            == pc.index) || (ft_raised && (
                        ft_label matches Option::Some(f) && l.sub_graph == f.sub_graph
                            && l.index == f.index)),
                decreases jumps@.len() - ji,
            {
                let successor = jumps[ji];
                if !graph.node_exists(successor) {
                    // A jump to a label outside the graph.
                    return Err(AnalysisError::InconsistentGraph);
                }
                let ghost pre_fb = fact_base@;
                let ghost pre_visit_j = to_visit@;
                proof {
                    assert(table_matches::<I, F>(*graph, pre_fb));
                }
                match fact_base.join_at(successor, &new_fact) {
                    None => {
                        return Err(AnalysisError::InconsistentGraph);
                    },
                    Some(changed) => {
                        proof {
                            if successor.sub_graph == 0 && successor.index == 0 {
                                F::lemma_leq_trans(
                                    F::spec_top(),
                                    pre_fb[0][0],
                                    fact_base@[0][0],
                                );
                            }
                            if !changed {
                                assert(fact_base@[successor.sub_graph as int] =~= pre_fb[
                                    successor.sub_graph as int]);
                                assert(fact_base@ =~= pre_fb);
                            }
                            lemma_table_slot::<I, F>(*graph, pre_fb, pc);
                            lemma_table_slot::<I, F>(*graph, pre_fb, successor);
                            if !(successor.sub_graph == pc.sub_graph && successor.index
                                == pc.index) {
                                if pc.sub_graph == successor.sub_graph {
                                    assert(fact_base@[pc.sub_graph as int] == pre_fb[
                                        pc.sub_graph as int].update(
                                        successor.index as int,
                                        fact_base@[successor.sub_graph as int][
                                            successor.index as int],
                                    ));
                                } else {
                                    assert(fact_base@[pc.sub_graph as int] == pre_fb[
                                        pc.sub_graph as int]);
                                }
                                assert(fact_base@[pc.sub_graph as int][pc.index as int]
                                    == pre_fb[pc.sub_graph as int][pc.index as int]);
                            }
                        }
                        if changed {
                            // Per the worklist discipline, a changed
                            // successor goes back on the backlog unless
                            // already pending; a label jumping at itself
                            // is re-queued like any other.
                            let mut pending = false;
                            let mut qi: usize = 0;
                            while qi < to_visit.len()
                                invariant
                                    qi <= to_visit@.len(),
                                    pending ==> to_visit@.contains(successor),
                                decreases to_visit@.len() - qi,
                            {
                                if to_visit[qi].sub_graph == successor.sub_graph
                                    && to_visit[qi].index == successor.index {
                                    proof {
                                        assert(to_visit@[qi as int] == successor);
                                    }
                                    pending = true;
                                }
                                qi = qi + 1;
                            }
                            if !pending {
                                to_visit.push(successor);
                            }
                            proof {
                                assert(to_visit@.contains(successor)) by {
                                    if !pending {
                                        assert(to_visit@[to_visit@.len() - 1] == successor);
                                    }
                                }
                            }
                        }
                        proof {
                            assert forall|x: int|
                                0 <= x < ji + 1 && graph.valid_label(
                                    #[trigger] jumps@[x],
                                ) implies F::leq(
                                new_fact@,
                                fact_base@[jumps@[x].sub_graph as int][jumps@[x].index as int],
                            ) by {
                                if x == ji {
                                } else if jumps@[x].sub_graph == successor.sub_graph
                                    && jumps@[x].index == successor.index {
                                    F::lemma_leq_trans(
                                        new_fact@,
                                        pre_fb[successor.sub_graph as int][
                                            successor.index as int],
                                        fact_base@[successor.sub_graph as int][
                                            successor.index as int],
                                    );
                                } else {
                                    assert(fact_base@[jumps@[x].sub_graph as int][
                                        jumps@[x].index as int] == pre_fb[
                                        jumps@[x].sub_graph as int][jumps@[x].index as int]);
                                }
                            }
                            match ft_label {
                                Option::Some(f) => {
                                    if f.sub_graph == successor.sub_graph && f.index
                                        == successor.index {
                                        F::lemma_leq_trans(
                                            new_fact@,
                                            pre_fb[f.sub_graph as int][f.index as int],
                                            fact_base@[f.sub_graph as int][f.index as int],
                                        );
                                    } else {
                                        assert(fact_base@[f.sub_graph as int][f.index as int]
                                            == pre_fb[f.sub_graph as int][f.index as int]);
                                    }
                                },
                                Option::None => {},
                            }
                            if all_instructions(*graph) {
                                if pre_visit_j.contains(pc) && !to_visit@.contains(pc) {
                                    let i = choose|i: int|
                                        0 <= i < pre_visit_j.len() && pre_visit_j[i] == pc;
                                    assert(to_visit@[i] == pc);
                                }
                                assert forall|l: Label, n: nat|
                                    #[trigger] graph.pc_reaches_in(entry_label(), l, n)
                                        && graph.valid_label(l) implies to_visit@.contains(
                                    l,
                                ) || stable_at::<A, I, F>(*graph, fact_base@, l) || (
                                l.sub_graph == pc.sub_graph && l.index == pc.index) || (
                                ft_raised && (ft_label matches Option::Some(f) && l.sub_graph
                                    == f.sub_graph && l.index == f.index)) by {
                                    if pre_visit_j.contains(l) {
                                        let i = choose|i: int|
                                            0 <= i < pre_visit_j.len() && pre_visit_j[i] == l;
                                        assert(to_visit@[i] == l);
                                    } else if stable_at::<A, I, F>(*graph, pre_fb, l) {
                                        if l.sub_graph == successor.sub_graph && l.index
                                            == successor.index {
                                            if changed {
                                                assert(to_visit@.contains(l));
                                            } else {
                                                assert(fact_base@ =~= pre_fb);
                                            }
                                        } else {
                                            lemma_stable_raise::<A, I, F>(
                                                *graph,
                                                pre_fb,
                                                fact_base@,
                                                successor,
                                                l,
                                            );
                                        }
                                    }
                                }
                            }
                        }
                    },
                }
                ji = ji + 1;
            }
            proof {
                if all_instructions(*graph) {
                    // The label just processed is converged unless one of
                    // its own joins raised its own slot, in which case it
                    // is pending again or stays in flight.
                    if fact_base@[pc.sub_graph as int][pc.index as int] == cur_v {
                        assert(stable_at::<A, I, F>(*graph, fact_base@, pc)) by {
                            assert(graph.spec_instruction_at(pc) == inst_v);
                            if inst_v.spec_fallthrough() {
                                assert(ft_label is Some);
                            }
                            assert forall|t: Label|
                                graph.valid_label(t) && #[trigger] inst_v.spec_jumps().contains(
                                    t,
                                ) implies F::leq(
                                new_fact@,
                                fact_base@[t.sub_graph as int][t.index as int],
                            ) by {
                                let x = choose|x: int|
                                    0 <= x < jumps@.len() && jumps@[x] == t;
                                assert(graph.valid_label(jumps@[x]));
                            }
                        }
                    }
                }
            }
            if need_new_pc {
                proof {
                    if all_instructions(*graph) {
                        assert forall|l: Label, n: nat|
                            #[trigger] graph.pc_reaches_in(entry_label(), l, n)
                                && graph.valid_label(l) implies to_visit@.contains(l)
                            || stable_at::<A, I, F>(*graph, fact_base@, l) by {
                            if l.sub_graph == pc.sub_graph && l.index == pc.index {
                                assert(l == pc);
                            }
                        }
                    }
                }
                break;
            }
            proof {
                if all_instructions(*graph) {
                    assert forall|l: Label, n: nat|
                        #[trigger] graph.pc_reaches_in(entry_label(), l, n)
                            && graph.valid_label(l) implies to_visit@.contains(l)
                        || stable_at::<A, I, F>(*graph, fact_base@, l) || (l.sub_graph
                        == next_pc.sub_graph && l.index == next_pc.index) by {
                        if l.sub_graph == pc.sub_graph && l.index == pc.index {
                            assert(l == pc);
                            if !(next_pc.sub_graph == pc.sub_graph && next_pc.index
                                == pc.index) {
                                assert(!(ft_raised && (ft_label matches Option::Some(f)
                                    && f.sub_graph == pc.sub_graph && f.index == pc.index)));
                            }
                        }
                    }
                }
            }
            pc = next_pc;
        }
    }
    proof {
        if all_instructions(*graph) {
            assert forall|l: Label, n: nat|
                #[trigger] graph.pc_reaches_in(entry_label(), l, n) && graph.valid_label(
                    l,
                ) implies stable_at::<A, I, F>(*graph, fact_base@, l) by {
                assert(!to_visit@.contains(l));
            }
        }
    }
    Ok(fact_base)
}

} // verus!
