//! An association map from labels to values, backed by a vector with
//! distinct keys. Its view is the corresponding mathematical `Map`.
use vstd::prelude::*;

use crate::dataflow::graph::Label;

verus! {

#[derive(Debug)]
pub struct LabelMap<V> {
    entries: Vec<(Label, V)>,
}

/// The mathematical map described by a sequence of key-value pairs;
/// later pairs override earlier ones.
pub open spec fn map_of<V>(s: Seq<(Label, V)>) -> Map<Label, V>
    decreases s.len(),
{
    if s.len() == 0 {
        Map::empty()
    } else {
        map_of(s.drop_last()).insert(s.last().0, s.last().1)
    }
}

pub open spec fn distinct_keys<V>(s: Seq<(Label, V)>) -> bool {
    forall|i: int, j: int| 0 <= i < j < s.len() ==> (#[trigger] s[i]).0 != (#[trigger] s[j]).0
}

pub proof fn lemma_map_of_contains<V>(s: Seq<(Label, V)>, l: Label)
    ensures
        map_of(s).contains_key(l) <==> exists|i: int| 0 <= i < s.len() && (#[trigger] s[i]).0 == l,
    decreases s.len(),
{
    if s.len() > 0 {
        lemma_map_of_contains(s.drop_last(), l);
        if s.last().0 == l {
            assert(s[s.len() - 1].0 == l);
        } else if map_of(s).contains_key(l) {
            let i = choose|i: int| 0 <= i < s.drop_last().len() && (#[trigger] s.drop_last()[i]).0 == l;
            assert(s[i].0 == l);
        } else {
            assert forall|i: int| 0 <= i < s.len() implies (#[trigger] s[i]).0 != l by {
                if i < s.len() - 1 {
                    assert(s.drop_last()[i] == s[i]);
                }
            }
        }
    }
}

pub proof fn lemma_map_of_get<V>(s: Seq<(Label, V)>, i: int)
    requires
        distinct_keys(s),
        0 <= i < s.len(),
    ensures
        map_of(s).contains_key(s[i].0),
        map_of(s)[s[i].0] == s[i].1,
    decreases s.len(),
{
    if i == s.len() - 1 {
    } else {
        assert(s.drop_last()[i] == s[i]);
        assert(distinct_keys(s.drop_last())) by {
            assert forall|p: int, q: int|
                0 <= p < q < s.drop_last().len() implies (#[trigger] s.drop_last()[p]).0 != (
            #[trigger] s.drop_last()[q]).0 by {
                assert(s.drop_last()[p] == s[p]);
                assert(s.drop_last()[q] == s[q]);
            }
        }
        lemma_map_of_get(s.drop_last(), i);
        assert(s[i].0 != s.last().0);
    }
}

pub proof fn lemma_map_of_update<V>(s: Seq<(Label, V)>, i: int, v: V)
    requires
        distinct_keys(s),
        0 <= i < s.len(),
    ensures
        map_of(s.update(i, (s[i].0, v))) =~= map_of(s).insert(s[i].0, v),
        distinct_keys(s.update(i, (s[i].0, v))),
    decreases s.len(),
{
    let t = s.update(i, (s[i].0, v));
    assert(distinct_keys(t)) by {
        assert forall|p: int, q: int| 0 <= p < q < t.len() implies (#[trigger] t[p]).0 != (
        #[trigger] t[q]).0 by {
            assert(t[p].0 == s[p].0);
            assert(t[q].0 == s[q].0);
        }
    }
    if i == s.len() - 1 {
        assert(t.drop_last() =~= s.drop_last());
    } else {
        assert(t.drop_last() =~= s.drop_last().update(i, (s[i].0, v)));
        assert(distinct_keys(s.drop_last())) by {
            assert forall|p: int, q: int|
                0 <= p < q < s.drop_last().len() implies (#[trigger] s.drop_last()[p]).0 != (
            #[trigger] s.drop_last()[q]).0 by {
                assert(s.drop_last()[p] == s[p]);
                assert(s.drop_last()[q] == s[q]);
            }
        }
        assert(s.drop_last()[i] == s[i]);
        lemma_map_of_update(s.drop_last(), i, v);
        assert(s[i].0 != s.last().0);
        assert(t.last() == s.last());
    }
}

pub proof fn lemma_map_of_dom_finite<V>(s: Seq<(Label, V)>)
    ensures
        map_of(s).dom().finite(),
    decreases s.len(),
{
    if s.len() == 0 {
        assert(map_of(s).dom() =~= Set::<Label>::empty());
    } else {
        lemma_map_of_dom_finite(s.drop_last());
        assert(map_of(s).dom() =~= map_of(s.drop_last()).dom().insert(s.last().0));
    }
}

impl<V> View for LabelMap<V> {
    type V = Map<Label, V>;

    closed spec fn view(&self) -> Map<Label, V> {
        map_of(self.entries@)
    }
}

impl<V> LabelMap<V> {
    pub closed spec fn kv_seq(self) -> Seq<(Label, V)> {
        self.entries@
    }

    pub closed spec fn wf(self) -> bool {
        distinct_keys(self.entries@)
    }

    /// Every pair of the backing sequence is in the map, and every key of the
    /// map is the key of some pair.
    pub proof fn lemma_kv_view(self)
        requires
            self.wf(),
        ensures
            forall|i: int|
                0 <= i < self.kv_seq().len() ==> self@.contains_key((#[trigger] self.kv_seq()[i]).0)
                    && self@[self.kv_seq()[i].0] == self.kv_seq()[i].1,
            forall|l: Label|
                self@.contains_key(l) ==> exists|i: int|
                    0 <= i < self.kv_seq().len() && (#[trigger] self.kv_seq()[i]).0 == l,
    {
        assert forall|i: int| 0 <= i < self.kv_seq().len() implies self@.contains_key(
            (#[trigger] self.kv_seq()[i]).0,
        ) && self@[self.kv_seq()[i].0] == self.kv_seq()[i].1 by {
            lemma_map_of_get(self.entries@, i);
        }
        assert forall|l: Label| self@.contains_key(l) implies exists|i: int|
            0 <= i < self.kv_seq().len() && (#[trigger] self.kv_seq()[i]).0 == l by {
            lemma_map_of_contains(self.entries@, l);
            let i = choose|i: int|
                0 <= i < self.entries@.len() && (#[trigger] self.entries@[i]).0 == l;
            assert(self.kv_seq()[i].0 == l);
        }
    }

    pub proof fn lemma_dom_finite(self)
        ensures
            self@.dom().finite(),
    {
        lemma_map_of_dom_finite(self.entries@);
    }

    pub fn new() -> (r: LabelMap<V>)
        ensures
            r@ =~= Map::<Label, V>::empty(),
            r.wf(),
            r.kv_seq().len() == 0,
    {
        LabelMap { entries: Vec::new() }
    }

    pub fn len(&self) -> (r: usize)
        ensures
            r == self.kv_seq().len(),
    {
        self.entries.len()
    }

    pub fn key_at(&self, i: usize) -> (r: Label)
        requires
            i < self.kv_seq().len(),
        ensures
            r == self.kv_seq()[i as int].0,
    {
        self.entries[i].0
    }

    pub fn value_at(&self, i: usize) -> (r: &V)
        requires
            i < self.kv_seq().len(),
        ensures
            *r == self.kv_seq()[i as int].1,
    {
        &self.entries[i].1
    }

    fn index_of(&self, l: Label) -> (r: Option<usize>)
        ensures
            match r {
                Some(i) => i < self.kv_seq().len() && self.kv_seq()[i as int].0 == l,
                None => forall|i: int|
                    0 <= i < self.kv_seq().len() ==> (#[trigger] self.kv_seq()[i]).0 != l,
            },
    {
        let mut i: usize = 0;
        while i < self.entries.len()
            invariant
                i <= self.entries@.len(),
                forall|j: int| 0 <= j < i ==> (#[trigger] self.entries@[j]).0 != l,
            decreases self.entries@.len() - i,
        {
            if self.entries[i].0 == l {
                return Some(i);
            }
            i = i + 1;
        }
        None
    }

    pub fn contains_key(&self, l: Label) -> (r: bool)
        ensures
            self.wf() ==> r == self@.contains_key(l),
    {
        match self.index_of(l) {
            Some(i) => {
                proof {
                    if self.wf() {
                        lemma_map_of_get(self.entries@, i as int);
                    }
                }
                true
            },
            None => {
                proof {
                    lemma_map_of_contains(self.entries@, l);
                    if self@.contains_key(l) {
                        let i = choose|i: int|
                            0 <= i < self.entries@.len() && (#[trigger] self.entries@[i]).0 == l;
                        assert(self.kv_seq()[i].0 == l);
                    }
                }
                false
            },
        }
    }

    pub fn get(&self, l: Label) -> (r: Option<&V>)
        ensures
            self.wf() ==> match r {
                Some(v) => self@.contains_key(l) && *v == self@[l],
                None => !self@.contains_key(l),
            },
    {
        match self.index_of(l) {
            Some(i) => {
                proof {
                    if self.wf() {
                        lemma_map_of_get(self.entries@, i as int);
                    }
                }
                Some(&self.entries[i].1)
            },
            None => {
                proof {
                    lemma_map_of_contains(self.entries@, l);
                    if self@.contains_key(l) {
                        let i = choose|i: int|
                            0 <= i < self.entries@.len() && (#[trigger] self.entries@[i]).0 == l;
                        assert(self.kv_seq()[i].0 == l);
                    }
                }
                None
            },
        }
    }

    pub fn insert(&mut self, l: Label, v: V)
        requires
            old(self).wf(),
        ensures
            final(self).wf(),
            final(self)@ =~= old(self)@.insert(l, v),
    {
        match self.index_of(l) {
            Some(i) => {
                proof {
                    lemma_map_of_update(self.entries@, i as int, v);
                    assert(self.entries@[i as int].0 == l);
                }
                self.entries[i] = (l, v);
                proof {
                    assert(self.entries@ =~= old(self).entries@.update(
                        i as int,
                        (old(self).entries@[i as int].0, v),
                    ));
                }
            },
            None => {
                self.entries.push((l, v));
                proof {
                    let s = self.entries@;
                    let olds = old(self).entries@;
                    assert(s.drop_last() =~= olds);
                    assert(s.last() == (l, v));
                    assert((*old(self)).kv_seq() == olds);
                    assert(distinct_keys(s)) by {
                        assert forall|p: int, q: int|
                            0 <= p < q < s.len() implies (#[trigger] s[p]).0 != (
                        #[trigger] s[q]).0 by {
                            assert(s[p] == olds[p]);
                            if q < s.len() - 1 {
                                assert(s[q] == olds[q]);
                            } else {
                                assert((*old(self)).kv_seq()[p] == olds[p]);
                                assert(olds[p].0 != l);
                            }
                        }
                    }
                    assert(map_of(s) == map_of(olds).insert(l, v));
                }
            },
        }
    }
}

} // verus!
