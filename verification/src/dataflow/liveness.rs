//! Live-variable analysis over the RISC language: the "used variables"
//! backward lattice, where a variable is live when some path onward reads
//! it before writing it.
use vstd::prelude::*;

use crate::dataflow::backward_analysis::{
    AnalyzeExitBackward, AnalyzeInstructionBackward, BackwardAnalysis, RewriteExitBackward,
    RewriteInstructionBackward,
};
use crate::dataflow::fact_base::FactBase;
use crate::dataflow::graph::{Exit, Graph, Label};
use crate::dataflow::lattice::Lattice;
use crate::dataflow::risc::{RiscEntry, RiscExit, RiscInstruction, RiscLanguage, Var};

verus! {

/// The set of variables known to be used onward of a point.
pub struct UsedVars {
    vars: Vec<bool>,
}

impl View for UsedVars {
    type V = Set<u16>;

    closed spec fn view(&self) -> Set<u16> {
        Set::new(|v: u16| v < self.vars@.len() && self.vars@[v as int])
    }
}

impl UsedVars {
    pub fn new() -> (r: UsedVars)
        ensures
            r@ =~= Set::<u16>::empty(),
    {
        let r = UsedVars { vars: Vec::new() };
        proof {
            assert(r@ =~= Set::<u16>::empty());
        }
        r
    }

    /// Marks `var` as used.
    pub fn insert_var(&mut self, var: Var)
        ensures
            final(self)@ =~= old(self)@.insert(var.0),
    {
        while self.vars.len() <= var.0 as usize
            invariant
                self@ =~= old(self)@,
            decreases var.0 as int + 1 - self.vars@.len(),
        {
            self.vars.push(false);
            proof {
                assert(self@ =~= old(self)@);
            }
        }
        self.vars[var.0 as usize] = true;
        proof {
            assert(self@ =~= old(self)@.insert(var.0));
        }
    }

    /// Marks `var` as not used: it is overwritten here.
    pub fn remove_var(&mut self, var: Var)
        ensures
            final(self)@ =~= old(self)@.remove(var.0),
    {
        if (var.0 as usize) < self.vars.len() {
            self.vars[var.0 as usize] = false;
            proof {
                assert(self@ =~= old(self)@.remove(var.0));
            }
        } else {
            proof {
                assert(self@ =~= old(self)@.remove(var.0));
            }
        }
    }

    pub fn contains_var(&self, var: Var) -> (r: bool)
        ensures
            r == self@.contains(var.0),
    {
        (var.0 as usize) < self.vars.len() && self.vars[var.0 as usize]
    }
}

impl Lattice for UsedVars {
    /// Set inclusion: a point that uses fewer variables knows less.
    open spec fn leq(a: Set<u16>, b: Set<u16>) -> bool {
        a.subset_of(b)
    }

    proof fn lemma_leq_refl(a: Set<u16>) {
    }

    proof fn lemma_leq_trans(a: Set<u16>, b: Set<u16>, c: Set<u16>) {
    }

    fn bottom() -> (r: Self) {
        UsedVars::new()
    }

    fn clone_fact(&self) -> (r: Self) {
        let mut vars: Vec<bool> = Vec::new();
        let mut i: usize = 0;
        while i < self.vars.len()
            invariant
                i <= self.vars@.len(),
                vars@ =~= self.vars@.take(i as int),
            decreases self.vars@.len() - i,
        {
            vars.push(self.vars[i]);
            i = i + 1;
        }
        proof {
            assert(self.vars@.take(self.vars@.len() as int) =~= self.vars@);
        }
        let r = UsedVars { vars };
        proof {
            assert(r@ =~= self@);
        }
        r
    }

    /// Set union, reporting a change exactly when a new variable arrived.
    fn join(&mut self, other: &Self, label: Label) -> (changed: bool) {
        let mut changed = false;
        let ghost mut witness: u16 = 0;
        let n: usize = if other.vars.len() > 65536 {
            // Entries past the largest variable number are not visible in
            // any fact's view and cannot arise through this type's own
            // operations.
            65536
        } else {
            other.vars.len()
        };
        let mut i: usize = 0;
        while i < n
            invariant
                i <= n,
                n <= other.vars@.len(),
                n <= 65536,
                old(self)@.subset_of(self@),
                forall|v: u16| v < i && other@.contains(v) ==> self@.contains(v),
                !changed ==> self@ == old(self)@,
                changed ==> other@.contains(witness) && !old(self)@.contains(witness),
            decreases n - i,
        {
            let ghost pre = self@;
            if other.vars[i] {
                let var = Var(i as u16);
                proof {
                    assert(other@.contains(var.0));
                }
                if !self.contains_var(var) {
                    self.insert_var(var);
                    changed = true;
                    proof {
                        witness = var.0;
                        assert(!pre.contains(var.0));
                        assert(!old(self)@.contains(var.0));
                    }
                }
            }
            proof {
                assert forall|v: u16|
                    v < i + 1 && other@.contains(v) implies self@.contains(v) by {
                    if v < i {
                        assert(pre.contains(v) || self@.contains(v));
                    }
                }
            }
            i = i + 1;
        }
        proof {
            assert forall|v: u16| other@.contains(v) implies self@.contains(v) by {
                if v >= n {
                    assert(!other@.contains(v));
                }
            }
        }
        changed
    }
}

/// The liveness client: exits add the variables their condition reads,
/// instructions kill what they write and add what they read, and entry
/// handlers give the incoming live set to every predecessor.
pub struct LivenessAnalysis;

impl BackwardAnalysis<RiscLanguage, UsedVars> for LivenessAnalysis {
    /// Never rewrites; a conditional exit adds the variables its
    /// condition reads, any other exit leaves the live set alone.
    fn analyze_exit(
        &mut self,
        graph: &Graph<RiscLanguage>,
        label: Label,
        exit: &RiscExit,
        analyze: AnalyzeExitBackward<UsedVars>,
    ) -> (r: Option<RewriteExitBackward<RiscLanguage>>)
        ensures
            r is None,
            (*final(analyze.fact))@ == (match *exit {
                RiscExit::Cond(_, s1, s2, _, _) => (*old(analyze.fact))@.insert(s1.0).insert(
                    s2.0,
                ),
                _ => (*old(analyze.fact))@,
            }),
    {
        let fact = analyze.fact_mut();
        match exit {
            RiscExit::Cond(_, src1, src2, _, _) => {
                fact.insert_var(*src1);
                fact.insert_var(*src2);
            },
            RiscExit::Jump(_) => {},
            RiscExit::Ret => {},
        }
        None
    }

    /// Never rewrites; an instruction kills the variable it writes and
    /// adds the variables it reads.
    fn analyze_instruction(
        &mut self,
        graph: &Graph<RiscLanguage>,
        label: Label,
        instruction: &RiscInstruction,
        analyze: AnalyzeInstructionBackward<UsedVars>,
    ) -> (r: Option<RewriteInstructionBackward<RiscLanguage>>)
        ensures
            r is None,
            (*final(analyze.fact))@ == (match *instruction {
                RiscInstruction::Load(dst, _) => (*old(analyze.fact))@.remove(dst.0),
                RiscInstruction::Arith(_, dst, s1, s2) => (*old(analyze.fact))@.remove(
                    dst.0,
                ).insert(s1.0).insert(s2.0),
            }),
    {
        let fact = analyze.fact_mut();
        match instruction {
            RiscInstruction::Load(dst, _) => {
                fact.remove_var(*dst);
            },
            RiscInstruction::Arith(_, dst, src1, src2) => {
                fact.remove_var(*dst);
                fact.insert_var(*src1);
                fact.insert_var(*src2);
            },
        }
        None
    }

    /// Hands the block's live-in set to exactly the predecessors the
    /// graph shows for it.
    fn analyze_entry(
        &mut self,
        graph: &Graph<RiscLanguage>,
        label: Label,
        entry: &RiscEntry,
        fact: UsedVars,
    ) -> (r: FactBase<UsedVars>)
        ensures
            r.wf(),
            forall|l: Label|
                #[trigger] r@.contains_key(l) <==> (graph@.contains_key(l)
                    && graph@[l].exit.spec_successors().contains(label)),
            forall|l: Label| #[trigger] r@.contains_key(l) ==> r@[l] == fact@,
    {
        let preds = graph.direct_predecessors(label);
        let mut facts = FactBase::<UsedVars>::new();
        let mut i: usize = 0;
        while i < preds.len()
            invariant
                i <= preds@.len(),
                facts.wf(),
                forall|j: int|
                    0 <= j < preds@.len() ==> graph@.contains_key(#[trigger] preds@[j])
                        && graph@[preds@[j]].exit.spec_successors().contains(label),
                forall|l: Label|
                    #[trigger] facts@.contains_key(l) <==> preds@.take(i as int).contains(l),
                forall|l: Label| #[trigger] facts@.contains_key(l) ==> facts@[l] == fact@,
            decreases preds@.len() - i,
        {
            facts.insert(preds[i], fact.clone_fact());
            proof {
                assert forall|l: Label| #[trigger] facts@.contains_key(l) <==> preds@.take(
                    i as int + 1,
                ).contains(l) by {
                    if l == preds@[i as int] {
                        assert(preds@.take(i as int + 1)[i as int] == l);
                    } else {
                        if preds@.take(i as int + 1).contains(l) {
                            let j = choose|j: int|
                                0 <= j < i + 1 && #[trigger] preds@.take(i as int + 1)[j] == l;
                            assert(preds@.take(i as int)[j] == l);
                        } else if preds@.take(i as int).contains(l) {
                            let j = choose|j: int|
                                0 <= j < i && #[trigger] preds@.take(i as int)[j] == l;
                            assert(preds@.take(i as int + 1)[j] == l);
                        }
                    }
                }
            }
            i = i + 1;
        }
        proof {
            assert(preds@.take(preds@.len() as int) =~= preds@);
            assert forall|l: Label|
                #[trigger] facts@.contains_key(l) <==> (graph@.contains_key(l)
                    && graph@[l].exit.spec_successors().contains(label)) by {
                if facts@.contains_key(l) {
                    let j = choose|j: int| 0 <= j < preds@.len() && #[trigger] preds@[j] == l;
                }
                if graph@.contains_key(l) && graph@[l].exit.spec_successors().contains(label) {
                    assert(preds@.contains(l));
                }
            }
        }
        facts
    }
}

} // verus!
