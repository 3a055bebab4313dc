//! Dominator analysis: a minimal forward analysis whose fact is the known
//! common path of labels that dominate a point, or none if never visited.
use vstd::prelude::*;

use crate::dataflow::analysis::{
    distribute_facts, AnalyzeInstruction, ForwardAnalysis, RewriteExit, RewriteInstruction,
};
use crate::dataflow::graph::{Entry, Exit, Graph, Label, Language};
use crate::dataflow::lattice::Lattice;

verus! {

/// `q` is a prefix of `p`.
pub open spec fn is_prefix_of(q: Seq<Label>, p: Seq<Label>) -> bool {
    q.len() <= p.len() && forall|i: int| 0 <= i < q.len() ==> p[i] == q[i]
}

/// The length of the longest common prefix of `p` and `q`: the index of
/// the first position where they diverge, or of the end of the shorter.
pub open spec fn divergence(p: Seq<Label>, q: Seq<Label>) -> int
    decreases p.len(),
{
    if p.len() == 0 || q.len() == 0 {
        0
    } else if p[0] != q[0] {
        0
    } else {
        1 + divergence(p.drop_first(), q.drop_first())
    }
}

proof fn lemma_divergence(p: Seq<Label>, q: Seq<Label>, d: int)
    requires
        0 <= d,
        d <= p.len(),
        d <= q.len(),
        forall|i: int| 0 <= i < d ==> p[i] == q[i],
        d == p.len() || d == q.len() || p[d] != q[d],
    ensures
        divergence(p, q) == d,
    decreases d,
{
    if d == 0 {
    } else {
        assert(p[0] == q[0]);
        assert forall|i: int| 0 <= i < d - 1 implies p.drop_first()[i] == q.drop_first()[i] by {
            assert(p[i + 1] == q[i + 1]);
        }
        if d < p.len() && d < q.len() {
            assert(p.drop_first()[d - 1] == p[d]);
            assert(q.drop_first()[d - 1] == q[d]);
        }
        lemma_divergence(p.drop_first(), q.drop_first(), d - 1);
    }
}

/// What joining two dominator facts leaves behind: the other side where
/// one is bottom, else the longest common prefix of the two paths.
pub open spec fn joined_dominators(a: Option<Seq<Label>>, b: Option<Seq<Label>>) -> Option<
    Seq<Label>,
> {
    match (a, b) {
        (Option::None, x) => x,
        (x, Option::None) => x,
        (Option::Some(p), Option::Some(q)) => Option::Some(p.take(divergence(p, q))),
    }
}

/// The labels that are known to dominate a point, in path order from the
/// entry, or none for a point never visited.
#[derive(Debug)]
pub struct DominatorFact {
    pub dominates: Option<Vec<Label>>,
}

impl View for DominatorFact {
    type V = Option<Seq<Label>>;

    open spec fn view(&self) -> Option<Seq<Label>> {
        match self.dominates {
            Option::None => Option::None,
            Option::Some(v) => Option::Some(v@),
        }
    }
}

/// An exact copy of a label path.
fn copy_labels(v: &Vec<Label>) -> (r: Vec<Label>)
    ensures
        r@ == v@,
{
    let mut r: Vec<Label> = Vec::new();
    let mut i: usize = 0;
    while i < v.len()
        invariant
            i <= v@.len(),
            r@ =~= v@.take(i as int),
        decreases v@.len() - i,
    {
        r.push(v[i]);
        i = i + 1;
    }
    proof {
        assert(v@.take(v@.len() as int) =~= v@);
    }
    r
}

impl Lattice for DominatorFact {
    /// Never-visited is below everything; otherwise a path is higher the
    /// shorter it is, and comparable only to its own extensions.
    open spec fn leq(a: Option<Seq<Label>>, b: Option<Seq<Label>>) -> bool {
        match (a, b) {
            (Option::None, _) => true,
            (Option::Some(p), Option::None) => false,
            (Option::Some(p), Option::Some(q)) => is_prefix_of(q, p),
        }
    }

    proof fn lemma_leq_refl(a: Option<Seq<Label>>) {
    }

    proof fn lemma_leq_trans(a: Option<Seq<Label>>, b: Option<Seq<Label>>, c: Option<Seq<Label>>) {
        match (a, b, c) {
            (Option::Some(p), Option::Some(q), Option::Some(r)) => {
                assert forall|i: int| 0 <= i < r.len() implies p[i] == r[i] by {
                    assert(p[i] == q[i]);
                }
            },
            _ => {},
        }
    }

    fn bottom() -> (r: Self) {
        DominatorFact { dominates: None }
    }

    fn clone_fact(&self) -> (r: Self) {
        match &self.dominates {
            None => DominatorFact { dominates: None },
            Some(v) => DominatorFact { dominates: Some(copy_labels(v)) },
        }
    }

    /// Truncates the stored path at the first index where the two paths
    /// diverge, reporting a change whenever truncation occurs or when no
    /// path was stored and one arrives: the result is exactly
    /// `joined_dominators` of the two inputs.
    fn join(&mut self, other: &Self, label: Label) -> (changed: bool)
        ensures
            final(self)@ == joined_dominators(old(self)@, other@),
            changed == (final(self)@ != old(self)@),
    {
        match &other.dominates {
            None => {
                // Nothing arrived: the stored path stands.
                false
            },
            Some(q) => {
                if self.dominates.is_none() {
                    self.dominates = Some(copy_labels(q));
                    return true;
                }
                match &mut self.dominates {
                    Some(p) => {
                        let m: usize = if p.len() < q.len() {
                            p.len()
                        } else {
                            q.len()
                        };
                        let mut d: usize = 0;
                        while d < m && p[d] == q[d]
                            invariant
                                d <= m,
                                m <= p@.len(),
                                m <= q@.len(),
                                forall|i: int| 0 <= i < d ==> p@[i] == q@[i],
                            decreases m - d,
                        {
                            d = d + 1;
                        }
                        proof {
                            lemma_divergence(p@, q@, d as int);
                        }
                        if d < p.len() {
                            // The paths diverge here, or the arriving path
                            // ends here: keep only the common prefix.
                            p.truncate(d);
                            proof {
                                assert(p@.len() != old(self)@->Some_0.len());
                            }
                            true
                        } else {
                            proof {
                                assert(p@.take(d as int) =~= p@);
                            }
                            false
                        }
                    },
                    None => {
                        // Unreachable: the stored path was just tested.
                        proof {
                            assert(false);
                        }
                        false
                    },
                }
            },
        }
    }
}

/// The conformance example client: entry handlers extend the path,
/// instructions change nothing, and exits hand the path unchanged to every
/// successor.
pub struct DominatorAnalysis;

impl<L: Language> ForwardAnalysis<L, DominatorFact> for DominatorAnalysis {
    /// Appends the label of the block just entered to the path.
    fn analyze_entry(
        &mut self,
        graph: &Graph<L>,
        label: Label,
        entry: &L::Entry,
        fact: DominatorFact,
    ) -> (r: DominatorFact)
        ensures
            r@ == Option::Some(
                match fact@ {
                    Option::None => seq![entry.spec_label()],
                    Option::Some(p) => p.push(entry.spec_label()),
                },
            ),
    {
        let mut fact = fact;
        let l = entry.label();
        match &mut fact.dominates {
            Some(path) => {
                path.push(l);
            },
            None => {
                let mut path: Vec<Label> = Vec::new();
                path.push(l);
                fact.dominates = Some(path);
                proof {
                    assert(fact@ =~= Option::Some(seq![entry.spec_label()]));
                }
            },
        }
        fact
    }

    fn analyze_instruction(
        &mut self,
        graph: &Graph<L>,
        label: Label,
        instruction: &L::Instruction,
        analyze: AnalyzeInstruction<DominatorFact>,
    ) -> (r: Option<RewriteInstruction<L>>)
        ensures
            r is None,
    {
        None
    }

    /// Always done: the unmodified fact goes to every successor.
    fn analyze_exit(
        &mut self,
        graph: &Graph<L>,
        label: Label,
        exit: &L::Exit,
        fact: &DominatorFact,
    ) -> (r: RewriteExit<L, DominatorFact>)
        ensures
            match r {
                RewriteExit::Done(fb) => fb.wf() && (forall|l: Label|
                    #[trigger] fb@.contains_key(l) <==> exit.spec_successors().contains(l))
                    && (forall|l: Label| #[trigger] fb@.contains_key(l) ==> fb@[l] == fact@),
                _ => false,
            },
    {
        RewriteExit::Done(distribute_facts::<L, DominatorFact>(exit, fact))
    }
}

} // verus!
