//! The per-instruction fact table: like the graph, a vector of regions,
//! with one fact per node.
use vstd::prelude::*;

use crate::pc::graph::Graph;
use crate::pc::instruction::{Instruction, Label};
use crate::pc::lattice::Lattice;

verus! {

/// One fact per node of a graph, addressed like the graph's own nodes.
#[derive(Debug)]
pub struct FactBase<F> {
    facts: Vec<Vec<F>>,
}

impl<F: View> View for FactBase<F> {
    type V = Seq<Seq<F::V>>;

    closed spec fn view(&self) -> Seq<Seq<F::V>> {
        self.facts@.map_values(|row: Vec<F>| row@.map_values(|f: F| f@))
    }
}

/// The label addresses a fact slot of this table.
pub open spec fn holds_label<F: View>(fb: FactBase<F>, l: Label) -> bool {
    l.sub_graph < fb@.len() && l.index < fb@[l.sub_graph as int].len()
}

impl<F: Lattice> FactBase<F> {
    /// One bottom fact per node of the graph.
    pub fn new<I: Instruction>(graph: &Graph<I>) -> (r: FactBase<F>)
        ensures
            r@.len() == graph.region_count(),
            forall|g: int| 0 <= g < r@.len() ==> #[trigger] r@[g].len() == graph.region_len(g),
            forall|g: int, i: int, x: F::V|
                0 <= g < r@.len() && 0 <= i < r@[g].len() ==> #[trigger] F::leq(r@[g][i], x),
    {
        let mut facts: Vec<Vec<F>> = Vec::new();
        let n = graph.num_regions();
        while facts.len() < n
            invariant
                n == graph.region_count(),
                facts@.len() <= n,
                forall|g: int|
                    0 <= g < facts@.len() ==> (#[trigger] facts@[g])@.len() == graph.region_len(
                        g,
                    ),
                forall|g: int, i: int, x: F::V|
                    0 <= g < facts@.len() && 0 <= i < facts@[g]@.len() ==> #[trigger] F::leq(
                        facts@[g]@[i]@,
                        x,
                    ),
            decreases n - facts@.len(),
        {
            let m = graph.region_size(facts.len());
            let mut row: Vec<F> = Vec::new();
            while row.len() < m
                invariant
                    row@.len() <= m,
                    forall|i: int, x: F::V|
                        0 <= i < row@.len() ==> #[trigger] F::leq(row@[i]@, x),
                decreases m - row@.len(),
            {
                row.push(F::bottom());
            }
            facts.push(row);
        }
        let r = FactBase { facts };
        proof {
            assert(r@.len() == r.facts@.len());
            assert forall|g: int| 0 <= g < r@.len() implies #[trigger] r@[g].len()
                == graph.region_len(g) by {
                assert(r@[g] == r.facts@[g]@.map_values(|f: F| f@));
            }
            assert forall|g: int, i: int, x: F::V|
                0 <= g < r@.len() && 0 <= i < r@[g].len() implies #[trigger] F::leq(
                r@[g][i],
                x,
            ) by {
                assert(r@[g] == r.facts@[g]@.map_values(|f: F| f@));
                assert(r@[g][i] == r.facts@[g]@[i]@);
                assert(F::leq(r.facts@[g]@[i]@, x));
            }
        }
        r
    }

    pub fn get(&self, label: Label) -> (r: Option<&F>)
        ensures
            match r {
                Some(f) => holds_label(*self, label) && f@
                    == self@[label.sub_graph as int][label.index as int],
                None => !holds_label(*self, label),
            },
    {
        let g = label.sub_graph as usize;
        let i = label.index as usize;
        if g < self.facts.len() && i < self.facts[g].len() {
            let f = &self.facts[g][i];
            proof {
                assert(self@[g as int] == self.facts@[g as int]@.map_values(|f: F| f@));
            }
            Some(f)
        } else {
            proof {
                if (label.sub_graph as int) < self@.len() {
                    assert(self@[g as int] == self.facts@[g as int]@.map_values(|f: F| f@));
                }
            }
            None
        }
    }

    /// Replaces the fact at a label it holds; reports whether the label
    /// was held.
    pub fn set(&mut self, label: Label, fact: F) -> (ok: bool)
        ensures
            ok == holds_label(*old(self), label),
            ok ==> final(self)@ =~= old(self)@.update(
                label.sub_graph as int,
                old(self)@[label.sub_graph as int].update(label.index as int, fact@),
            ),
            !ok ==> final(self)@ == old(self)@,
    {
        let g = label.sub_graph as usize;
        let i = label.index as usize;
        if g < self.facts.len() && i < self.facts[g].len() {
            let row = &mut self.facts[g];
            row[i] = fact;
            proof {
                assert(self@[g as int] =~= old(self)@[g as int].update(i as int, fact@)) by {
                    assert(self@[g as int] == self.facts@[g as int]@.map_values(|f: F| f@));
                    assert(old(self)@[g as int] == old(self).facts@[g as int]@.map_values(
                        |f: F| f@,
                    ));
                }
                assert(final(self)@ =~= old(self)@.update(
                    g as int,
                    old(self)@[g as int].update(i as int, fact@),
                ));
            }
            true
        } else {
            proof {
                if (label.sub_graph as int) < self@.len() {
                    assert(self@[g as int] == self.facts@[g as int]@.map_values(|f: F| f@));
                }
            }
            false
        }
    }

    /// Joins `other` into the fact at a label the table holds, reporting
    /// whether that fact changed; hands back nothing when the label is
    /// outside the table. Every other slot is untouched.
    pub fn join_at(&mut self, label: Label, other: &F) -> (r: Option<bool>)
        ensures
            r is Some <==> holds_label(*old(self), label),
            r is None ==> final(self)@ == old(self)@,
            match r {
                Some(changed) => {
                    let g = label.sub_graph as int;
                    let i = label.index as int;
                    &&& final(self)@ =~= old(self)@.update(
                        g,
                        old(self)@[g].update(i, final(self)@[g][i]),
                    )
                    &&& F::leq(old(self)@[g][i], final(self)@[g][i])
                    &&& F::leq(other@, final(self)@[g][i])
                    &&& (!changed ==> final(self)@[g][i] == old(self)@[g][i])
                    &&& (changed ==> !F::leq(other@, old(self)@[g][i]))
                },
                None => true,
            },
    {
        let mut cur: F;
        match self.get(label) {
            Some(f) => {
                cur = f.clone_fact();
            },
            None => {
                return None;
            },
        }
        let changed = cur.join(other, label);
        let ok = self.set(label, cur);
        proof {
            assert(ok);
        }
        Some(changed)
    }
}

} // verus!
