//! A set of labels backed by the fnv crate's hash set, used for the
//! visited set of the post-order traversal.
use vstd::prelude::*;

verus! {

/// What a `LabelSet` holds, as the set of its label numbers.
pub uninterp spec fn label_set_contents(s: LabelSet) -> Set<u32>;

/// A hash set of label numbers. The set itself lives in the fnv crate;
/// Verus sees it only through `label_set_contents`.
#[verifier::external_body]
pub struct LabelSet {
    items: fnv::FnvHashSet<u32>,
}

impl LabelSet {
    /// Relies on fnv's FnvHashSet::default: the new set is empty.
    #[verifier::external_body]
    pub fn new() -> (r: LabelSet)
        ensures
            label_set_contents(r) =~= Set::<u32>::empty(),
    {
        LabelSet { items: fnv::FnvHashSet::default() }
    }

    /// Relies on HashSet::insert, reached through fnv's FnvHashSet: the
    /// element is added, and the call reports whether it was absent before.
    #[verifier::external_body]
    pub fn insert(&mut self, x: u32) -> (newly: bool)
        ensures
            label_set_contents(*final(self)) =~= label_set_contents(*old(self)).insert(x),
            newly == !label_set_contents(*old(self)).contains(x),
    {
        self.items.insert(x)
    }
}

} // verus!
