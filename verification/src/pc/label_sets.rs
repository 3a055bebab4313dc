//! A set of instruction labels backed by the fnv crate's hash set, used
//! for the traversal's visited set.
use vstd::prelude::*;

verus! {

/// What a `PcLabelSet` holds, as the set of its (region, offset) pairs.
pub uninterp spec fn pc_label_set_contents(s: PcLabelSet) -> Set<(u32, u32)>;

/// A hash set of (region, offset) pairs. The set itself lives in the fnv
/// crate; Verus sees it only through `pc_label_set_contents`.
#[verifier::external_body]
pub struct PcLabelSet {
    items: fnv::FnvHashSet<(u32, u32)>,
}

impl PcLabelSet {
    /// Relies on fnv's FnvHashSet::default: the new set is empty.
    #[verifier::external_body]
    pub fn new() -> (r: PcLabelSet)
        ensures
            pc_label_set_contents(r) =~= Set::<(u32, u32)>::empty(),
    {
        PcLabelSet { items: fnv::FnvHashSet::default() }
    }

    /// Relies on HashSet::insert, reached through fnv's FnvHashSet: the
    /// element is added, and the call reports whether it was absent before.
    #[verifier::external_body]
    pub fn insert(&mut self, x: (u32, u32)) -> (newly: bool)
        ensures
            pc_label_set_contents(*final(self)) =~= pc_label_set_contents(*old(self)).insert(x),
            newly == !pc_label_set_contents(*old(self)).contains(x),
    {
        self.items.insert(x)
    }
}

} // verus!
