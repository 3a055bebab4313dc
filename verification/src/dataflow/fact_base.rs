//! The mapping from labels to the facts an analysis run has discovered.
use vstd::prelude::*;

use crate::dataflow::graph::Label;
use crate::dataflow::label_map::LabelMap;
use crate::dataflow::lattice::Lattice;

verus! {

/// Owns all facts of one analysis run, keyed by label. Labels are only ever
/// added, and each fact only ever moves up its lattice. Its view is the map
/// from each held label to the view of its fact.
#[derive(Debug)]
pub struct FactBase<F> {
    map: LabelMap<F>,
}

impl<F: View> View for FactBase<F> {
    type V = Map<Label, F::V>;

    closed spec fn view(&self) -> Map<Label, F::V> {
        Map::new(|l: Label| self.map@.contains_key(l), |l: Label| self.map@[l]@)
    }
}

impl<F: View> FactBase<F> {
    pub closed spec fn wf(self) -> bool {
        self.map.wf()
    }

    pub fn new() -> (r: FactBase<F>)
        ensures
            r@ =~= Map::<Label, F::V>::empty(),
            r.wf(),
    {
        FactBase { map: LabelMap::new() }
    }

    pub fn insert(&mut self, label: Label, fact: F)
        requires
            old(self).wf(),
        ensures
            final(self).wf(),
            final(self)@ =~= old(self)@.insert(label, fact@),
    {
        self.map.insert(label, fact);
    }

    pub fn get(&self, label: Label) -> (r: Option<&F>)
        ensures
            self.wf() ==> match r {
                Some(f) => self@.contains_key(label) && f@ == self@[label],
                None => !self@.contains_key(label),
            },
    {
        self.map.get(label)
    }

    pub fn contains_key(&self, label: Label) -> (r: bool)
        ensures
            self.wf() ==> r == self@.contains_key(label),
    {
        self.map.contains_key(label)
    }

    /// The labels a fact is held for.
    pub fn keys(&self) -> (r: Vec<Label>)
        requires
            self.wf(),
        ensures
            forall|i: int| 0 <= i < r@.len() ==> self@.contains_key(#[trigger] r@[i]),
            forall|l: Label| self@.contains_key(l) ==> r@.contains(l),
    {
        proof {
            self.map.lemma_kv_view();
        }
        let ghost kv = self.map.kv_seq();
        let n = self.map.len();
        let mut r: Vec<Label> = Vec::new();
        let mut i: usize = 0;
        while i < n
            invariant
                n == kv.len(),
                i <= n,
                kv == self.map.kv_seq(),
                self.map.wf(),
                r@.len() == i,
                forall|j: int| 0 <= j < i ==> r@[j] == (#[trigger] kv[j]).0,
            decreases n - i,
        {
            r.push(self.map.key_at(i));
            i = i + 1;
        }
        proof {
            self.map.lemma_kv_view();
            assert forall|j: int| 0 <= j < r@.len() implies self@.contains_key(
                #[trigger] r@[j],
            ) by {
                assert(r@[j] == kv[j].0);
                assert(self.map@.contains_key(kv[j].0));
            }
            assert forall|l: Label| self@.contains_key(l) implies r@.contains(l) by {
                assert(self.map@.contains_key(l));
                let j = choose|j: int| 0 <= j < kv.len() && (#[trigger] kv[j]).0 == l;
                assert(r@[j] == l);
            }
        }
        r
    }
}

impl<F: Lattice> FactBase<F> {
    /// Joins `other` into the fact held for `label`, starting that fact at
    /// bottom if the label is new, and reports whether the held fact
    /// changed. Every other label's fact is untouched.
    pub fn join_at(&mut self, label: Label, other: &F) -> (changed: bool)
        requires
            old(self).wf(),
        ensures
            final(self).wf(),
            final(self)@.dom() =~= old(self)@.dom().insert(label),
            forall|k: Label|
                k != label && old(self)@.contains_key(k) ==> #[trigger] final(self)@[k] == old(
                    self,
                )@[k],
            F::leq(other@, final(self)@[label]),
            old(self)@.contains_key(label) ==> F::leq(old(self)@[label], final(self)@[label]),
            old(self)@.contains_key(label) && !changed ==> final(self)@[label] == old(
                self,
            )@[label],
            old(self)@.contains_key(label) && changed ==> !F::leq(other@, old(self)@[label]),
    {
        let mut fact: F;
        match self.map.get(label) {
            Some(f) => {
                fact = f.clone_fact();
            },
            None => {
                fact = F::bottom();
            },
        }
        let changed = fact.join(other, label);
        self.map.insert(label, fact);
        proof {
            assert(self@.dom() =~= old(self)@.dom().insert(label));
            assert forall|k: Label|
                k != label && old(self)@.contains_key(k) implies #[trigger] self@[k] == old(
                self,
            )@[k] by {
                assert(self.map@[k] == old(self).map@[k]);
            }
        }
        changed
    }
}

} // verus!
