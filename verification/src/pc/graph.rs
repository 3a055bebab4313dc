//! The per-instruction graph: an ordered forest of regions, each an
//! ordered list of instruction-or-subregion nodes, with the forwarding
//! rules that make a nested region behave as if substituted in place.
use vstd::prelude::*;

use crate::pc::instruction::{Instruction, Label};
use crate::pc::label_sets::{pc_label_set_contents, PcLabelSet};

verus! {

/// One node of a region: an instruction, or the marker of the region that
/// a rewrite put in its place.
#[derive(Clone, Debug)]
pub enum Node<I: Instruction> {
    Instruction(I),
    SubGraph(u32),
}

pub struct SubGraph<I: Instruction> {
    number: u32,
    entry: Label,
    nodes: Vec<Node<I>>,
}

/// The label of the first instruction of the root region.
pub open spec fn entry_label() -> Label {
    Label { sub_graph: 0, index: 0 }
}

pub struct Graph<I: Instruction> {
    sub_graphs: Vec<SubGraph<I>>,
}

/// How much child-processing work the traversal's open frames still hold.
spec fn frames_potential(s: Seq<(Label, Vec<Label>, usize)>) -> int
    decreases s.len(),
{
    if s.len() == 0 {
        0
    } else {
        frames_potential(s.drop_last()) + s.last().1@.len() - s.last().2
    }
}

proof fn lemma_frames_potential_nonneg(s: Seq<(Label, Vec<Label>, usize)>)
    requires
        forall|j: int| 0 <= j < s.len() ==> (#[trigger] s[j]).2 <= s[j].1@.len(),
    ensures
        frames_potential(s) >= 0,
    decreases s.len(),
{
    if s.len() > 0 {
        assert forall|j: int|
            0 <= j < s.drop_last().len() implies (#[trigger] s.drop_last()[j]).2
            <= s.drop_last()[j].1@.len() by {
            assert(s.drop_last()[j] == s[j]);
        }
        lemma_frames_potential_nonneg(s.drop_last());
        assert(s[s.len() - 1].2 <= s[s.len() - 1].1@.len());
    }
}

impl<I: Instruction> Graph<I> {
    pub closed spec fn region_count(self) -> nat {
        self.sub_graphs@.len()
    }

    pub closed spec fn region_len(self, g: int) -> nat {
        self.sub_graphs@[g].nodes@.len()
    }

    pub closed spec fn spec_node(self, g: int, i: int) -> Node<I> {
        self.sub_graphs@[g].nodes@[i]
    }

    pub closed spec fn region_entry(self, g: int) -> Label {
        self.sub_graphs@[g].entry
    }

    pub closed spec fn region_number(self, g: int) -> u32 {
        self.sub_graphs@[g].number
    }

    /// The label names a node that exists.
    pub open spec fn valid_label(self, l: Label) -> bool {
        l.sub_graph < self.region_count() && l.index < self.region_len(l.sub_graph as int)
    }

    /// The shape every graph of this module keeps: regions are numbered by
    /// their position; the root region heads the forest and is entered at
    /// its first node; every other region's entry points at a node of an
    /// earlier region; and every sub-region marker points forward to a
    /// nonempty region. Pointing forward is what bounds the forwarding
    /// chains.
    pub open spec fn wf(self) -> bool {
        &&& 1 <= self.region_count()
        &&& forall|g: int|
            0 <= g < self.region_count() ==> #[trigger] self.region_number(g) == g
        &&& forall|g: int|
            0 <= g < self.region_count() ==> #[trigger] self.region_len(g) <= u32::MAX
        &&& self.region_entry(0) == entry_label()
        &&& forall|g: int|
            1 <= g < self.region_count() ==> (#[trigger] self.region_entry(g)).sub_graph < g
                && self.valid_label(self.region_entry(g))
        &&& forall|g: int, i: int|
            0 <= g < self.region_count() && 0 <= i < self.region_len(g) && (
            #[trigger] self.spec_node(g, i)) is SubGraph ==> g < self.spec_node(g, i)->SubGraph_0
                < self.region_count() && self.region_len(self.spec_node(g, i)->SubGraph_0 as int)
                > 0
    }

    /// Builds a graph of one root region holding the given instructions.
    pub fn new(code: Vec<I>) -> (r: Graph<I>)
        requires
            code@.len() <= u32::MAX,
        ensures
            r.wf(),
            r.region_count() == 1,
            r.region_len(0) == code@.len(),
            forall|i: int|
                0 <= i < code@.len() ==> #[trigger] r.spec_node(0, i) == Node::<I>::Instruction(
                    code@[i],
                ),
    {
        let ghost all = code@;
        let mut code = code;
        let mut nodes: Vec<Node<I>> = Vec::new();
        let ghost n = all.len();
        while code.len() > 0
            invariant
                code@ =~= all.skip(nodes@.len() as int),
                nodes@.len() <= n,
                all.len() == n,
                forall|i: int|
                    0 <= i < nodes@.len() ==> #[trigger] nodes@[i] == Node::<I>::Instruction(
                        all[i],
                    ),
            decreases code@.len(),
        {
            let ghost k = nodes@.len();
            let inst = code.remove(0);
            proof {
                assert(all.skip(k as int)[0] == all[k as int]);
                assert(code@ =~= all.skip(k as int + 1));
            }
            nodes.push(Node::Instruction(inst));
        }
        let sub_graph = SubGraph { number: 0, entry: Label::new(0, 0), nodes };
        Graph { sub_graphs: vec![sub_graph] }
    }

    pub fn num_regions(&self) -> (r: usize)
        ensures
            r == self.region_count(),
    {
        self.sub_graphs.len()
    }

    pub fn region_size(&self, g: usize) -> (r: usize)
        requires
            g < self.region_count(),
        ensures
            r == self.region_len(g as int),
    {
        self.sub_graphs[g].nodes.len()
    }

    /// Whether the label names a node of this graph.
    pub fn node_exists(&self, label: Label) -> (r: bool)
        ensures
            r == self.valid_label(label),
    {
        (label.sub_graph as usize) < self.sub_graphs.len() && (label.index as usize)
            < self.sub_graphs[label.sub_graph as usize].nodes.len()
    }

    /// The entry label of the region a label lives in.
    fn backward_label(&self, label: Label) -> (r: Label)
        requires
            label.sub_graph < self.region_count(),
        ensures
            r == self.region_entry(label.sub_graph as int),
    {
        self.sub_graphs[label.sub_graph as usize].entry
    }

    /// Where a label lands after following sub-region markers: itself if
    /// its node is an instruction, else the landing point of the first
    /// node of the region the marker names.
    pub open spec fn spec_forward(self, l: Label) -> Label
        recommends
            self.wf(),
            self.valid_label(l),
        decreases self.region_count() - l.sub_graph when self.wf() && self.valid_label(l)
    {
        match self.spec_node(l.sub_graph as int, l.index as int) {
            Node::Instruction(_) => l,
            Node::SubGraph(n) => self.spec_forward(Label { sub_graph: n, index: 0 }),
        }
    }

    /// Forwarding lands on an instruction node of the graph.
    pub proof fn lemma_spec_forward(self, l: Label)
        requires
            self.wf(),
            self.valid_label(l),
        ensures
            self.valid_label(self.spec_forward(l)),
            self.spec_node(
                self.spec_forward(l).sub_graph as int,
                self.spec_forward(l).index as int,
            ) is Instruction,
        decreases self.region_count() - l.sub_graph,
    {
        match self.spec_node(l.sub_graph as int, l.index as int) {
            Node::Instruction(_) => {},
            Node::SubGraph(n) => {
                self.lemma_spec_forward(Label { sub_graph: n, index: 0 });
            },
        }
    }

    /// Follows sub-region markers until an instruction is reached. The
    /// well-formed shape makes the chain strictly forward, so it needs no
    /// iteration ceiling: its termination is checked.
    fn forward_label_completely(&self, label: Label) -> (r: Label)
        requires
            self.wf(),
            self.valid_label(label),
        ensures
            r == self.spec_forward(label),
            self.valid_label(r),
            self.spec_node(r.sub_graph as int, r.index as int) is Instruction,
    {
        proof {
            self.lemma_spec_forward(label);
        }
        let mut cur = label;
        loop
            invariant
                self.wf(),
                self.valid_label(cur),
                self.spec_forward(cur) == self.spec_forward(label),
            decreases self.region_count() - cur.sub_graph,
        {
            match &self.sub_graphs[cur.sub_graph as usize].nodes[cur.index as usize] {
                Node::Instruction(_) => {
                    proof {
                        self.lemma_spec_forward(cur);
                    }
                    return cur;
                },
                Node::SubGraph(n) => {
                    cur = Label::new(*n, 0);
                },
            }
        }
    }

    /// The instruction a label resolves to after forwarding.
    pub fn get_instruction(&self, label: Label) -> (r: &I)
        requires
            self.wf(),
            self.valid_label(label),
        ensures
            self.spec_node(
                self.spec_forward(label).sub_graph as int,
                self.spec_forward(label).index as int,
            ) == Node::<I>::Instruction(*r),
    {
        let fw = self.forward_label_completely(label);
        match &self.sub_graphs[fw.sub_graph as usize].nodes[fw.index as usize] {
            Node::Instruction(i) => i,
            Node::SubGraph(_) => {
                // Unreachable: forwarding always lands on an instruction.
                proof {
                    assert(false);
                }
                unreached()
            },
        }
    }

    /// The next sequential label after `l`: the following offset if it
    /// holds a node, forwarded through markers; off the end of a nested
    /// region, control returns past the marker in the enclosing region;
    /// off the end of the root region there is no next label.
    pub open spec fn spec_next_pc(self, l: Label) -> Option<Label>
        recommends
            self.wf(),
            l.sub_graph < self.region_count(),
        decreases l.sub_graph when self.wf() && l.sub_graph < self.region_count()
    {
        let cand = Label { sub_graph: l.sub_graph, index: (l.index + 1) as u32 };
        if l.index < u32::MAX && self.valid_label(cand) {
            Option::Some(self.spec_forward(cand))
        } else if l.sub_graph == 0 {
            Option::None
        } else {
            self.spec_next_pc(self.region_entry(l.sub_graph as int))
        }
    }

    pub fn next_pc(&self, label: Label) -> (r: Option<Label>)
        requires
            self.wf(),
            label.sub_graph < self.region_count(),
        ensures
            r == self.spec_next_pc(label),
            match r {
                Some(next) => self.valid_label(next) && self.spec_node(
                    next.sub_graph as int,
                    next.index as int,
                ) is Instruction,
                None => true,
            },
    {
        let mut cur = label;
        loop
            invariant
                self.wf(),
                cur.sub_graph < self.region_count(),
                self.spec_next_pc(cur) == self.spec_next_pc(label),
            decreases cur.sub_graph,
        {
            if cur.index < u32::MAX {
                let cand = Label::new(cur.sub_graph, cur.index + 1);
                if self.node_exists(cand) {
                    return Some(self.forward_label_completely(cand));
                }
            }
            if cur.sub_graph == 0 {
                return None;
            }
            // Off the end of this nested region: control returns to the
            // enclosing region, past the marker the entry names.
            cur = self.backward_label(cur);
        }
    }

    /// The instruction held at a label whose node is an instruction.
    pub open spec fn spec_instruction_at(self, l: Label) -> I
        recommends
            self.valid_label(l),
            self.spec_node(l.sub_graph as int, l.index as int) is Instruction,
    {
        self.spec_node(l.sub_graph as int, l.index as int)->Instruction_0
    }

    /// The labels the instruction at a forwarded position may pass
    /// control to: its fallthrough neighbour, if any, then its jump
    /// targets.
    pub open spec fn spec_children(self, fw: Label) -> Seq<Label>
        recommends
            self.wf(),
            self.valid_label(fw),
            self.spec_node(fw.sub_graph as int, fw.index as int) is Instruction,
    {
        (if self.spec_instruction_at(fw).spec_fallthrough() && self.spec_next_pc(fw) is Some {
            seq![self.spec_next_pc(fw)->Some_0]
        } else {
            Seq::<Label>::empty()
        }) + self.spec_instruction_at(fw).spec_jumps()
    }

    /// Control may pass directly from `b`'s instruction to `c`.
    pub open spec fn pc_child(self, b: Label, c: Label) -> bool {
        self.spec_children(self.spec_forward(b)).contains(c)
    }

    /// Control can reach `to` from `from` within `n` steps: the two
    /// resolve to the same instruction, or a step leads from a reachable
    /// label's instruction to `to`.
    pub open spec fn pc_reaches_in(self, from: Label, to: Label, n: nat) -> bool
        decreases n,
    {
        self.spec_forward(from) == self.spec_forward(to) || (n > 0 && exists|mid: Label|
            self.valid_label(mid) && self.pc_reaches_in(from, mid, (n - 1) as nat) && (
            #[trigger] self.pc_child(mid, to)))
    }

    /// Some member of `s` resolves to the same instruction as every valid
    /// label a member's instruction passes control to.
    pub open spec fn pc_closed(self, s: Seq<Label>) -> bool {
        forall|b: Label, c: Label|
            #![trigger s.contains(b), self.pc_child(b, c)]
            s.contains(b) && self.pc_child(b, c) && self.valid_label(c) ==> exists|i: int|
                0 <= i < s.len() && #[trigger] self.spec_forward(s[i]) == self.spec_forward(c)
    }

    /// A child-closed sequence holding the start holds, up to forwarding,
    /// every valid label reachable from it.
    pub proof fn lemma_closed_contains_reachable(
        self,
        start: Label,
        s: Seq<Label>,
        l: Label,
        n: nat,
    )
        requires
            self.wf(),
            self.valid_label(start),
            exists|i: int|
                0 <= i < s.len() && #[trigger] self.spec_forward(s[i]) == self.spec_forward(
                    start,
                ),
            self.pc_closed(s),
            self.pc_reaches_in(start, l, n),
            self.valid_label(l),
        ensures
            exists|i: int|
                0 <= i < s.len() && #[trigger] self.spec_forward(s[i]) == self.spec_forward(l),
        decreases n,
    {
        if self.spec_forward(start) == self.spec_forward(l) {
            let i = choose|i: int|
                0 <= i < s.len() && #[trigger] self.spec_forward(s[i]) == self.spec_forward(
                    start,
                );
            assert(self.spec_forward(s[i]) == self.spec_forward(l));
        } else {
            let mid = choose|mid: Label|
                self.valid_label(mid) && self.pc_reaches_in(start, mid, (n - 1) as nat) && (
                #[trigger] self.pc_child(mid, l));
            self.lemma_closed_contains_reachable(start, s, mid, (n - 1) as nat);
            let i = choose|i: int|
                0 <= i < s.len() && #[trigger] self.spec_forward(s[i]) == self.spec_forward(
                    mid,
                );
            assert(s.contains(s[i]));
            assert(self.pc_child(s[i], l));
        }
    }

    /// The labels of indices below `n` in the region at position `g`.
    spec fn region_row(g: int, n: int) -> Set<Label> {
        Set::new(|l: Label| l.sub_graph == g && l.index < n)
    }

    proof fn lemma_region_row_finite(g: int, n: int)
        requires
            0 <= n <= u32::MAX,
        ensures
            Self::region_row(g, n).finite(),
        decreases n,
    {
        if g < 0 || g > u32::MAX {
            // No label's region number equals such a position.
            assert(Self::region_row(g, n) =~= Set::<Label>::empty());
        } else if n == 0 {
            assert(Self::region_row(g, 0) =~= Set::<Label>::empty());
        } else {
            Self::lemma_region_row_finite(g, n - 1);
            assert(Self::region_row(g, n) =~= Self::region_row(g, n - 1).insert(
                Label { sub_graph: g as u32, index: (n - 1) as u32 },
            ));
        }
    }

    /// The valid labels of the regions at positions below `g`.
    spec fn labels_upto(self, g: int) -> Set<Label> {
        Set::new(|l: Label| l.sub_graph < g && l.index < self.region_len(l.sub_graph as int))
    }

    proof fn lemma_labels_upto_finite(self, g: int)
        requires
            self.wf(),
            0 <= g <= self.region_count(),
        ensures
            self.labels_upto(g).finite(),
        decreases g,
    {
        if g == 0 {
            assert(self.labels_upto(0) =~= Set::<Label>::empty());
        } else {
            self.lemma_labels_upto_finite(g - 1);
            Self::lemma_region_row_finite(g - 1, self.region_len(g - 1) as int);
            assert(self.labels_upto(g) =~= self.labels_upto(g - 1).union(
                Self::region_row(g - 1, self.region_len(g - 1) as int),
            ));
        }
    }

    /// The set of labels naming nodes of this graph.
    pub open spec fn valid_labels(self) -> Set<Label> {
        Set::new(|l: Label| self.valid_label(l))
    }

    pub proof fn lemma_valid_labels_finite(self)
        requires
            self.wf(),
        ensures
            self.valid_labels().finite(),
    {
        self.lemma_labels_upto_finite(self.region_count() as int);
        assert(self.valid_labels() =~= self.labels_upto(self.region_count() as int));
    }

    /// A depth-first post-order traversal from `start`: the successors of
    /// a visited instruction — its fallthrough neighbour and its jump
    /// targets — are visited, recursively, before its own label is
    /// appended, and a visited set of forwarded positions keeps cycles
    /// from recursing. Labels that name no node are skipped. No label
    /// appears twice, every label that appears names a node of the graph,
    /// the start label comes last, the result is child-closed, and every
    /// valid label reachable from the start is represented, up to
    /// forwarding.
    pub fn post_order_traversal(&self, start: Label) -> (r: Vec<Label>)
        requires
            self.wf(),
        ensures
            forall|i: int, j: int| 0 <= i < j < r@.len() ==> r@[i] != r@[j],
            forall|i: int| 0 <= i < r@.len() ==> self.valid_label(#[trigger] r@[i]),
            self.valid_label(start) ==> r@.len() > 0 && r@[r@.len() - 1] == start,
            !self.valid_label(start) ==> r@ =~= Seq::<Label>::empty(),
            self.pc_closed(r@),
            forall|l: Label, n: nat|
                self.valid_label(start) && #[trigger] self.pc_reaches_in(start, l, n)
                    && self.valid_label(l) ==> exists|i: int|
                    0 <= i < r@.len() && #[trigger] self.spec_forward(r@[i])
                        == self.spec_forward(l),
    {
        proof {
            self.lemma_valid_labels_finite();
        }
        let ghost mut unvisited: Set<Label> = self.valid_labels();
        let mut visited = PcLabelSet::new();
        let mut output: Vec<Label> = Vec::new();
        let mut stack: Vec<(Label, Vec<Label>, usize)> = Vec::new();
        if !self.node_exists(start) {
            return output;
        }
        let start_fw = self.forward_label_completely(start);
        visited.insert((start_fw.sub_graph, start_fw.index));
        proof {
            vstd::set::axiom_set_remove_len(unvisited, start_fw);
            unvisited = unvisited.remove(start_fw);
        }
        stack.push((start, self.children_of(start_fw), 0));
        proof {
            assert(stack@[0].0 == start);
        }
        while stack.len() > 0
            invariant
                self.wf(),
                self.valid_label(start),
                forall|i: int, j: int|
                    0 <= i < j < output@.len() ==> #[trigger] self.spec_forward(output@[i])
                        != #[trigger] self.spec_forward(output@[j]),
                forall|i: int, j: int|
                    0 <= i < output@.len() && 0 <= j < stack@.len() ==> self.spec_forward(
                        #[trigger] output@[i],
                    ) != self.spec_forward((#[trigger] stack@[j]).0),
                forall|i: int, j: int|
                    0 <= i < j < stack@.len() ==> self.spec_forward((#[trigger] stack@[i]).0)
                        != self.spec_forward((#[trigger] stack@[j]).0),
                forall|i: int|
                    0 <= i < output@.len() ==> self.valid_label(#[trigger] output@[i]),
                forall|j: int|
                    0 <= j < stack@.len() ==> self.valid_label((#[trigger] stack@[j]).0),
                forall|i: int|
                    0 <= i < output@.len() ==> pc_label_set_contents(visited).contains(
                        ((#[trigger] self.spec_forward(output@[i])).sub_graph,
                        self.spec_forward(output@[i]).index),
                    ),
                forall|j: int|
                    0 <= j < stack@.len() ==> pc_label_set_contents(visited).contains(
                        ((#[trigger] self.spec_forward(stack@[j].0)).sub_graph,
                        self.spec_forward(stack@[j].0).index),
                    ),
                forall|i: int|
                    0 <= i < output@.len() ==> #[trigger] self.spec_forward(output@[i])
                        != self.spec_forward(start),
                forall|j: int|
                    0 <= j < stack@.len() ==> ((#[trigger] stack@[j]).0 == start
                        || self.spec_forward(stack@[j].0) != self.spec_forward(start)),
                forall|j: int|
                    0 <= j < stack@.len() ==> (#[trigger] stack@[j]).1@ == self.spec_children(
                        self.spec_forward(stack@[j].0),
                    ) && stack@[j].2 <= stack@[j].1@.len(),
                forall|i: int, c: Label|
                    0 <= i < output@.len() && #[trigger] self.pc_child(output@[i], c)
                        && self.valid_label(c) ==> pc_label_set_contents(visited).contains(
                        ((self.spec_forward(c)).sub_graph, self.spec_forward(c).index),
                    ),
                forall|j: int, cx: int|
                    0 <= j < stack@.len() && 0 <= cx < stack@[j].2 && self.valid_label(
                        #[trigger] stack@[j].1@[cx],
                    ) ==> pc_label_set_contents(visited).contains(
                        ((self.spec_forward(stack@[j].1@[cx])).sub_graph,
                        self.spec_forward(stack@[j].1@[cx]).index),
                    ),
                forall|x: (u32, u32)|
                    #[trigger] pc_label_set_contents(visited).contains(x) ==> x == ((
                    self.spec_forward(start)).sub_graph, self.spec_forward(start).index) || (
                    exists|i: int|
                        0 <= i < output@.len() && ((#[trigger] self.spec_forward(
                            output@[i],
                        )).sub_graph, self.spec_forward(output@[i]).index) == x) || (exists|
                        j: int,
                    |
                        0 <= j < stack@.len() && ((#[trigger] self.spec_forward(
                            stack@[j].0,
                        )).sub_graph, self.spec_forward(stack@[j].0).index) == x),
                (exists|j: int| 0 <= j < stack@.len() && (#[trigger] stack@[j]).0 == start) || (
                forall|c: Label|
                    #[trigger] self.pc_child(start, c) && self.valid_label(c)
                        ==> pc_label_set_contents(visited).contains(
                        ((self.spec_forward(c)).sub_graph, self.spec_forward(c).index),
                    )),
                unvisited.finite(),
                forall|l: Label|
                    self.valid_label(l) ==> (#[trigger] pc_label_set_contents(visited).contains(
                        (l.sub_graph, l.index),
                    ) <==> !unvisited.contains(l)),
                pc_label_set_contents(visited).contains(
                    ((self.spec_forward(start)).sub_graph, self.spec_forward(start).index),
                ),
            decreases unvisited.len(), frames_potential(stack@), stack@.len(),
        {
            let ghost pre_contents = pc_label_set_contents(visited);
            let ghost pre_stack = stack@;
            let ghost pre_output = output@;
            let ghost pre_unvisited = unvisited;
            let ghost mut added: Option<Label> = Option::None;
            let frame = match stack.pop() {
                Some(f) => f,
                None => {
                    proof {
                        assert(false);
                    }
                    unreached()
                },
            };
            let (label, children, k) = frame;
            proof {
                assert(pre_stack.last().0 == label);
                assert(pre_stack.last().1@ == children@);
                assert(pre_stack.last().2 == k);
                assert(stack@ =~= pre_stack.drop_last());
            }
            if k < children.len() {
                let child = children[k];
                stack.push((label, children, k + 1));
                proof {
                    assert(stack@.drop_last() =~= pre_stack.drop_last());
                    assert(frames_potential(stack@) == frames_potential(pre_stack) - 1);
                }
                if self.node_exists(child) {
                    let fw = self.forward_label_completely(child);
                    if visited.insert((fw.sub_graph, fw.index)) {
                        stack.push((child, self.children_of(fw), 0));
                        proof {
                            added = Option::Some(child);
                            assert(pc_label_set_contents(visited) =~= pre_contents.insert(
                                (fw.sub_graph, fw.index),
                            ));
                            assert(!pre_contents.contains((fw.sub_graph, fw.index)));
                            assert(pre_unvisited.contains(fw));
                            vstd::set::axiom_set_remove_len(pre_unvisited, fw);
                            unvisited = pre_unvisited.remove(fw);
                            assert(unvisited.len() < pre_unvisited.len());
                            assert forall|l: Label|
                                self.valid_label(l) implies (#[trigger] pc_label_set_contents(
                                visited,
                            ).contains((l.sub_graph, l.index)) <==> !unvisited.contains(l)) by {
                                if l != fw {
                                    assert((l.sub_graph, l.index) != (fw.sub_graph, fw.index));
                                }
                            }
                        }
                    } else {
                        proof {
                            assert(pc_label_set_contents(visited) =~= pre_contents.insert(
                                (fw.sub_graph, fw.index),
                            ));
                            assert(pre_contents.contains((fw.sub_graph, fw.index)));
                            assert(pc_label_set_contents(visited) =~= pre_contents);
                            assert forall|j: int|
                                0 <= j < stack@.len() implies (#[trigger] stack@[j]).2
                                <= stack@[j].1@.len() by {}
                            lemma_frames_potential_nonneg(stack@);
                        }
                    }
                } else {
                    proof {
                        assert forall|j: int|
                            0 <= j < stack@.len() implies (#[trigger] stack@[j]).2
                            <= stack@[j].1@.len() by {}
                        lemma_frames_potential_nonneg(stack@);
                    }
                }
            } else {
                // Every child of this frame has been visited; the
                // instruction's own label is appended, except the start,
                // which closes the whole traversal instead.
                if !(label.sub_graph == start.sub_graph && label.index == start.index) {
                    output.push(label);
                }
                proof {
                    assert(frames_potential(pre_stack) == frames_potential(stack@));
                    assert forall|j: int|
                        0 <= j < stack@.len() implies (#[trigger] stack@[j]).2
                        <= stack@[j].1@.len() by {}
                    lemma_frames_potential_nonneg(stack@);
                }
            }
            proof {
                assert forall|x: (u32, u32)|
                    pre_contents.contains(x) implies pc_label_set_contents(visited).contains(
                    x,
                ) by {}
                assert forall|j: int|
                    0 <= j < pre_stack.len() - 1 implies stack@[j] == pre_stack[j] by {}
                // Every visited position still belongs to the start, an
                // output, or an open frame.
                assert forall|x: (u32, u32)|
                    #[trigger] pc_label_set_contents(visited).contains(x) implies x == ((
                    self.spec_forward(start)).sub_graph, self.spec_forward(start).index) || (
                    exists|i: int|
                        0 <= i < output@.len() && ((#[trigger] self.spec_forward(
                            output@[i],
                        )).sub_graph, self.spec_forward(output@[i]).index) == x) || (exists|
                        j: int,
                    |
                        0 <= j < stack@.len() && ((#[trigger] self.spec_forward(
                            stack@[j].0,
                        )).sub_graph, self.spec_forward(stack@[j].0).index) == x) by {
                    if pre_contents.contains(x) {
                        if x == ((self.spec_forward(start)).sub_graph, self.spec_forward(
                            start,
                        ).index) {
                        } else if exists|i: int|
                            0 <= i < pre_output.len() && ((#[trigger] self.spec_forward(
                                pre_output[i],
                            )).sub_graph, self.spec_forward(pre_output[i]).index) == x {
                            let i = choose|i: int|
                                0 <= i < pre_output.len() && ((#[trigger] self.spec_forward(
                                    pre_output[i],
                                )).sub_graph, self.spec_forward(pre_output[i]).index) == x;
                            assert(output@[i] == pre_output[i]);
                        } else {
                            let j = choose|j: int|
                                0 <= j < pre_stack.len() && ((#[trigger] self.spec_forward(
                                    pre_stack[j].0,
                                )).sub_graph, self.spec_forward(pre_stack[j].0).index) == x;
                            if j < pre_stack.len() - 1 {
                                assert(stack@[j] == pre_stack[j]);
                            } else {
                                if k < children@.len() {
                                    assert(stack@[pre_stack.len() - 1].0 == label);
                                } else {
                                    if label.sub_graph == start.sub_graph && label.index
                                        == start.index {
                                        assert(label == start);
                                    } else {
                                        assert(output@[output@.len() - 1] == label);
                                    }
                                }
                            }
                        }
                    } else {
                        match added {
                            Option::Some(c) => {
                                assert(stack@[stack@.len() - 1].0 == c);
                                assert(((self.spec_forward(c)).sub_graph, self.spec_forward(
                                    c,
                                ).index) == x);
                            },
                            Option::None => {
                                assert(pc_label_set_contents(visited) =~= pre_contents);
                            },
                        }
                    }
                }
                // The start frame stays pending, or the start's children
                // are all visited.
                if !(exists|j: int| 0 <= j < stack@.len() && (#[trigger] stack@[j]).0 == start) {
                    let had_frame = exists|j: int|
                        0 <= j < pre_stack.len() && (#[trigger] pre_stack[j]).0 == start;
                    if had_frame {
                        let j = choose|j: int|
                            0 <= j < pre_stack.len() && (#[trigger] pre_stack[j]).0 == start;
                        if j < pre_stack.len() - 1 {
                            assert(stack@[j] == pre_stack[j]);
                            assert(false);
                        } else {
                            assert(label == start);
                            if k < children@.len() {
                                assert(stack@[pre_stack.len() - 1].0 == start);
                                assert(false);
                            } else {
                                assert forall|c: Label|
                                    #[trigger] self.pc_child(start, c) && self.valid_label(
                                    c,
                                ) implies pc_label_set_contents(visited).contains(
                                    ((self.spec_forward(c)).sub_graph,
                                    self.spec_forward(c).index),
                                ) by {
                                    let cx = choose|cx: int|
                                        0 <= cx < children@.len() && children@[cx] == c;
                                    assert(pre_stack[pre_stack.len() - 1].1@[cx] == c);
                                    assert(pre_contents.contains(
                                        ((self.spec_forward(c)).sub_graph,
                                        self.spec_forward(c).index),
                                    ));
                                }
                            }
                        }
                    } else {
                        assert forall|c: Label|
                            #[trigger] self.pc_child(start, c) && self.valid_label(
                            c,
                        ) implies pc_label_set_contents(visited).contains(
                            ((self.spec_forward(c)).sub_graph, self.spec_forward(c).index),
                        ) by {
                            assert(pre_contents.contains(
                                ((self.spec_forward(c)).sub_graph, self.spec_forward(c).index),
                            ));
                        }
                    }
                }
            }
        }
        let ghost pre_output = output@;
        output.push(start);
        proof {
            assert forall|i: int, j: int|
                0 <= i < j < output@.len() implies output@[i] != output@[j] by {
                if j < output@.len() - 1 {
                    assert(pre_output[i] == output@[i]);
                    assert(pre_output[j] == output@[j]);
                    assert(self.spec_forward(output@[i]) != self.spec_forward(output@[j]));
                } else {
                    assert(self.spec_forward(pre_output[i]) != self.spec_forward(start));
                }
            }
            assert(self.pc_closed(output@)) by {
                assert forall|b: Label, c: Label|
                    output@.contains(b) && self.pc_child(b, c) && self.valid_label(
                    c,
                ) implies exists|i: int|
                    0 <= i < output@.len() && #[trigger] self.spec_forward(output@[i])
                        == self.spec_forward(c) by {
                    let bi = choose|bi: int| 0 <= bi < output@.len() && output@[bi] == b;
                    if bi < output@.len() - 1 {
                        assert(self.pc_child(pre_output[bi], c));
                        assert(pc_label_set_contents(visited).contains(
                            ((self.spec_forward(c)).sub_graph, self.spec_forward(c).index),
                        ));
                    } else {
                        assert(b == start);
                        assert(pc_label_set_contents(visited).contains(
                            ((self.spec_forward(c)).sub_graph, self.spec_forward(c).index),
                        ));
                    }
                    let x = ((self.spec_forward(c)).sub_graph, self.spec_forward(c).index);
                    if x == ((self.spec_forward(start)).sub_graph, self.spec_forward(
                        start,
                    ).index) {
                        assert(self.spec_forward(start) == self.spec_forward(c));
                        assert(self.spec_forward(output@[output@.len() - 1])
                            == self.spec_forward(c));
                    } else {
                        let i = choose|i: int|
                            0 <= i < pre_output.len() && ((#[trigger] self.spec_forward(
                                pre_output[i],
                            )).sub_graph, self.spec_forward(pre_output[i]).index) == x;
                        assert(self.spec_forward(output@[i]) == self.spec_forward(c));
                    }
                }
            }
            assert forall|l: Label, n: nat|
                self.valid_label(start) && #[trigger] self.pc_reaches_in(start, l, n)
                    && self.valid_label(l) implies exists|i: int|
                0 <= i < output@.len() && #[trigger] self.spec_forward(output@[i])
                    == self.spec_forward(l) by {
                assert(self.spec_forward(output@[output@.len() - 1]) == self.spec_forward(
                    start,
                ));
                self.lemma_closed_contains_reachable(start, output@, l, n);
            }
        }
        output
    }

    /// Labels whose forwarded positions differ are themselves distinct.
    proof fn lemma_outputs_distinct(self, output: Seq<Label>)
        requires
            forall|i: int, j: int|
                0 <= i < j < output.len() ==> #[trigger] self.spec_forward(output[i])
                    != #[trigger] self.spec_forward(output[j]),
        ensures
            forall|i: int, j: int| 0 <= i < j < output.len() ==> output[i] != output[j],
    {
        assert forall|i: int, j: int|
            0 <= i < j < output.len() implies output[i] != output[j] by {
            assert(self.spec_forward(output[i]) != self.spec_forward(output[j]));
        }
    }

    /// The labels the instruction at a forwarded label may pass control
    /// to: its fallthrough neighbour, if any, then its jump targets.
    fn children_of(&self, fw: Label) -> (r: Vec<Label>)
        requires
            self.wf(),
            self.valid_label(fw),
            self.spec_node(fw.sub_graph as int, fw.index as int) is Instruction,
        ensures
            r@ == self.spec_children(fw),
    {
        proof {
            assert(self.spec_forward(fw) == fw);
        }
        let inst = self.get_instruction(fw);
        let succs = inst.successors();
        let mut children: Vec<Label> = Vec::new();
        if succs.fallthrough {
            match self.next_pc(fw) {
                Some(next) => {
                    children.push(next);
                },
                None => {},
            }
        }
        let ghost base = children@;
        let mut i: usize = 0;
        let jumps = succs.jumps;
        while i < jumps.len()
            invariant
                i <= jumps@.len(),
                children@ =~= base + jumps@.take(i as int),
            decreases jumps@.len() - i,
        {
            children.push(jumps[i]);
            proof {
                assert(base + jumps@.take(i as int + 1) =~= (base + jumps@.take(
                    i as int,
                )).push(jumps@[i as int]));
            }
            i = i + 1;
        }
        proof {
            assert(jumps@.take(jumps@.len() as int) =~= jumps@);
            assert(children@ =~= self.spec_children(fw));
        }
        children
    }
}

} // verus!
