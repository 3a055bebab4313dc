//! Labels addressing single instructions, and the instruction contract of
//! the per-instruction graph.
use vstd::prelude::*;

verus! {

/// Addresses one instruction: which region it is in, and the offset of its
/// node within that region.
#[derive(Copy, Clone, PartialEq, Eq, Hash, Structural, Debug)]
pub struct Label {
    pub sub_graph: u32,
    pub index: u32,
}

impl Label {
    pub fn new(sub_graph: u32, index: u32) -> (r: Label)
        ensures
            r == (Label { sub_graph, index }),
    {
        Label { sub_graph, index }
    }

    pub fn sub_graph(self) -> (r: usize)
        ensures
            r == self.sub_graph,
    {
        self.sub_graph as usize
    }

    pub fn index(self) -> (r: usize)
        ensures
            r == self.index,
    {
        self.index as usize
    }
}

/// Where control may go after an instruction: on to the next instruction,
/// to explicit jump targets, or both; neither for a halt.
#[derive(Clone, Debug)]
pub struct Successors {
    pub fallthrough: bool,
    pub jumps: Vec<Label>,
}

impl Successors {
    pub fn fallthrough() -> (r: Successors)
        ensures
            r.fallthrough,
            r.jumps@ =~= Seq::<Label>::empty(),
    {
        Successors { fallthrough: true, jumps: vec![] }
    }

    pub fn conditional(jumps: Vec<Label>) -> (r: Successors)
        ensures
            r.fallthrough,
            r.jumps == jumps,
    {
        Successors { fallthrough: true, jumps }
    }

    pub fn halt() -> (r: Successors)
        ensures
            !r.fallthrough,
            r.jumps@ =~= Seq::<Label>::empty(),
    {
        Successors { fallthrough: false, jumps: vec![] }
    }

    pub fn goto(jumps: Vec<Label>) -> (r: Successors)
        ensures
            !r.fallthrough,
            r.jumps == jumps,
    {
        Successors { fallthrough: false, jumps }
    }
}

/// One instruction of the client's set: it knows where control may go
/// after it.
pub trait Instruction: Sized + Clone {
    spec fn spec_fallthrough(&self) -> bool;

    spec fn spec_jumps(&self) -> Seq<Label>;

    fn successors(&self) -> (r: Successors)
        ensures
            r.fallthrough == self.spec_fallthrough(),
            r.jumps@ == self.spec_jumps(),
    ;
}

} // verus!
