//! Labels, the instruction-set traits, basic blocks, and the block graph.
use vstd::prelude::*;

use crate::dataflow::label_map::LabelMap;
use crate::dataflow::label_sets::{label_set_contents, LabelSet};

verus! {

/// A label is an unsigned integer, used to identify a block.
#[derive(Copy, Clone, PartialEq, Eq, Hash, Structural, Debug)]
pub struct Label(pub u32);

/// The marker that heads a block; it knows the label of its block.
pub trait Entry: Sized + Clone {
    spec fn spec_label(&self) -> Label;

    fn label(&self) -> (r: Label)
        ensures
            r == self.spec_label(),
    ;
}

/// A body instruction; opaque to the engine.
pub trait Instruction: Sized + Clone {
}

/// The control transfer that ends a block; it knows the labels it may
/// transfer control to (none for a terminal exit).
pub trait Exit: Sized + Clone {
    spec fn spec_successors(&self) -> Seq<Label>;

    fn successors(&self) -> (r: Vec<Label>)
        ensures
            r@ == self.spec_successors(),
    ;
}

/// The vocabulary of one intermediate representation: its entry markers,
/// its body instructions, and its exits.
pub trait Language: Sized {
    type Entry: Entry;
    type Instruction: Instruction;
    type Exit: Exit;
}

pub struct BasicBlock<L: Language> {
    pub entry: L::Entry,
    pub code: Vec<L::Instruction>,
    pub exit: L::Exit,
}

impl<L: Language> BasicBlock<L> {
    pub fn new(entry: L::Entry, code: Vec<L::Instruction>, exit: L::Exit) -> (r: BasicBlock<L>)
        ensures
            r.entry == entry,
            r.code == code,
            r.exit == exit,
    {
        BasicBlock { entry, code, exit }
    }

    pub fn label(&self) -> (r: Label)
        ensures
            r == self.entry.spec_label(),
    {
        self.entry.label()
    }

    pub fn successors(&self) -> (r: Vec<Label>)
        ensures
            r@ == self.exit.spec_successors(),
    {
        self.exit.successors()
    }
}

/// The mathematical map described by a sequence of blocks, each keyed by its
/// own label; later blocks override earlier ones with the same label.
pub open spec fn blocks_to_map<L: Language>(s: Seq<BasicBlock<L>>) -> Map<Label, BasicBlock<L>>
    decreases s.len(),
{
    if s.len() == 0 {
        Map::empty()
    } else {
        blocks_to_map(s.drop_last()).insert(s.last().entry.spec_label(), s.last())
    }
}

/// Some block of the graph lists `k` among the successors of its exit.
pub open spec fn successor_in_graph<L: Language>(g: Map<Label, BasicBlock<L>>, k: Label) -> bool {
    exists|b: Label| g.contains_key(b) && (#[trigger] g[b]).exit.spec_successors().contains(k)
}

/// Control can reach `to` from `from` within `n` steps, each step taken
/// from a block of `g` to one of that block's exit's successors.
pub open spec fn reaches_in<L: Language>(
    g: Map<Label, BasicBlock<L>>,
    from: Label,
    to: Label,
    n: nat,
) -> bool
    decreases n,
{
    from == to || (n > 0 && exists|mid: Label|
        g.contains_key(mid) && reaches_in(g, from, mid, (n - 1) as nat) && (
        #[trigger] g[mid]).exit.spec_successors().contains(to))
}

/// Every in-graph successor of an in-graph member of `s` is in `s`.
pub open spec fn successor_closed<L: Language>(
    g: Map<Label, BasicBlock<L>>,
    s: Seq<Label>,
) -> bool {
    forall|b: Label, t: Label|
        #![trigger s.contains(b), g[b].exit.spec_successors().contains(t)]
        s.contains(b) && g.contains_key(b) && g[b].exit.spec_successors().contains(t)
            && g.contains_key(t) ==> s.contains(t)
}

/// A successor-closed sequence that holds the entry holds every in-graph
/// label reachable from it.
pub proof fn lemma_closed_contains_reachable<L: Language>(
    g: Map<Label, BasicBlock<L>>,
    entry: Label,
    s: Seq<Label>,
    l: Label,
    n: nat,
)
    requires
        g.contains_key(entry) ==> s.contains(entry),
        successor_closed(g, s),
        reaches_in(g, entry, l, n),
        g.contains_key(l),
    ensures
        s.contains(l),
    decreases n,
{
    if l == entry {
    } else {
        let mid = choose|mid: Label|
            g.contains_key(mid) && reaches_in(g, entry, mid, (n - 1) as nat) && (
            #[trigger] g[mid]).exit.spec_successors().contains(l);
        lemma_closed_contains_reachable(g, entry, s, mid, (n - 1) as nat);
    }
}

/// How much child-processing work the traversal's open frames still hold.
spec fn frames_potential(s: Seq<(Label, Vec<Label>, usize)>) -> int
    decreases s.len(),
{
    if s.len() == 0 {
        0
    } else {
        frames_potential(s.drop_last()) + s.last().1@.len() - s.last().2
    }
}

proof fn lemma_frames_potential_nonneg(s: Seq<(Label, Vec<Label>, usize)>)
    requires
        forall|j: int| 0 <= j < s.len() ==> (#[trigger] s[j]).2 <= s[j].1@.len(),
    ensures
        frames_potential(s) >= 0,
    decreases s.len(),
{
    if s.len() > 0 {
        assert forall|j: int|
            0 <= j < s.drop_last().len() implies (#[trigger] s.drop_last()[j]).2
            <= s.drop_last()[j].1@.len() by {
            assert(s.drop_last()[j] == s[j]);
        }
        lemma_frames_potential_nonneg(s.drop_last());
        assert(s[s.len() - 1].2 <= s[s.len() - 1].1@.len());
    }
}

pub struct Graph<L: Language> {
    blocks: LabelMap<BasicBlock<L>>,
}

impl<L: Language> View for Graph<L> {
    type V = Map<Label, BasicBlock<L>>;

    closed spec fn view(&self) -> Map<Label, BasicBlock<L>> {
        self.blocks@
    }
}

impl<L: Language> Graph<L> {
    #[verifier::type_invariant]
    closed spec fn type_inv(self) -> bool {
        self.blocks.wf()
    }

    /// Every block of a graph heads the label it is stored under.
    pub open spec fn wf(self) -> bool {
        forall|l: Label|
            self@.contains_key(l) ==> (#[trigger] self@[l]).entry.spec_label() == l
    }

    pub fn from_blocks(blocks: Vec<BasicBlock<L>>) -> (r: Graph<L>)
        ensures
            r@ =~= blocks_to_map(blocks@),
            r.wf(),
    {
        let ghost all = blocks@;
        let mut map: LabelMap<BasicBlock<L>> = LabelMap::new();
        let mut blocks = blocks;
        let ghost n = all.len();
        let len0 = blocks.len();
        proof {
            assert(n == len0);
            assert(all.take(0) =~= Seq::<BasicBlock<L>>::empty());
        }
        let mut i: usize = 0;
        while blocks.len() > 0
            invariant
                blocks@ =~= all.skip(i as int),
                i <= n,
                n <= usize::MAX,
                all.len() == n,
                map.wf(),
                map@ =~= blocks_to_map(all.take(i as int)),
                forall|l: Label|
                    map@.contains_key(l) ==> (#[trigger] map@[l]).entry.spec_label() == l,
            decreases blocks@.len(),
        {
            let block = blocks.remove(0);
            proof {
                assert(all.skip(i as int)[0] == all[i as int]);
            }
            assert(block == all[i as int]);
            let l = block.label();
            map.insert(l, block);
            proof {
                assert(all.take(i as int + 1).drop_last() =~= all.take(i as int));
                assert(all.take(i as int + 1).last() == all[i as int]);
                assert(blocks@ =~= all.skip(i as int + 1));
            }
            i = i + 1;
        }
        proof {
            assert(all.take(n as int) =~= all);
        }
        Graph { blocks: map }
    }

    pub fn contains(&self, label: Label) -> (r: bool)
        ensures
            r == self@.contains_key(label),
    {
        proof {
            use_type_invariant(self);
        }
        self.blocks.contains_key(label)
    }

    /// Looks the block up at a label; the label of a graph built by
    /// `from_blocks` resolves to the block that carries it.
    pub fn get(&self, label: Label) -> (r: Option<&BasicBlock<L>>)
        ensures
            match r {
                Some(b) => self@.contains_key(label) && *b == self@[label],
                None => !self@.contains_key(label),
            },
    {
        proof {
            use_type_invariant(self);
        }
        self.blocks.get(label)
    }

    /// A depth-first post-order traversal from `entry`: every in-graph
    /// successor of a visited block is visited, recursively, before the
    /// block's own label is appended, and a visited set keeps cycles from
    /// recursing. A label that resolves to no block of this graph is an
    /// already-processed external target: it is neither recursed into nor
    /// listed. The result holds every in-graph label reachable from the
    /// entry, each exactly once, is successor-closed, and ends with the
    /// entry itself.
    pub fn post_order_traversal(&self, entry: Label) -> (r: Vec<Label>)
        ensures
            forall|i: int, j: int| 0 <= i < j < r@.len() ==> r@[i] != r@[j],
            forall|i: int| 0 <= i < r@.len() ==> self@.contains_key(#[trigger] r@[i]),
            self@.contains_key(entry) ==> r@.len() > 0 && r@[r@.len() - 1] == entry,
            !self@.contains_key(entry) ==> r@ =~= Seq::<Label>::empty(),
            successor_closed(self@, r@),
            forall|l: Label, n: nat|
                reaches_in(self@, entry, l, n) && self@.contains_key(l) ==> r@.contains(l),
    {
        proof {
            use_type_invariant(self);
            self.blocks.lemma_dom_finite();
        }
        let ghost mut unvisited: Set<Label> = self@.dom();
        let mut visited = LabelSet::new();
        let mut output: Vec<Label> = Vec::new();
        let mut stack: Vec<(Label, Vec<Label>, usize)> = Vec::new();
        visited.insert(entry.0);
        proof {
            if self@.contains_key(entry) {
                vstd::set::axiom_set_remove_len(unvisited, entry);
                unvisited = unvisited.remove(entry);
            }
        }
        match self.get(entry) {
            Some(b) => {
                stack.push((entry, b.successors(), 0));
            },
            None => {},
        }
        proof {
            if self@.contains_key(entry) {
                assert(stack@[0].0 == entry);
            }
        }
        while stack.len() > 0
            invariant
                forall|i: int, j: int| 0 <= i < j < output@.len() ==> output@[i] != output@[j],
                forall|i: int, j: int|
                    0 <= i < output@.len() && 0 <= j < stack@.len() ==> (#[trigger] output@[i])
                        != (#[trigger] stack@[j]).0,
                forall|i: int, j: int|
                    0 <= i < j < stack@.len() ==> (#[trigger] stack@[i]).0 != (
                    #[trigger] stack@[j]).0,
                forall|i: int|
                    0 <= i < output@.len() ==> label_set_contents(visited).contains(
                        (#[trigger] output@[i]).0,
                    ),
                forall|j: int|
                    0 <= j < stack@.len() ==> label_set_contents(visited).contains(
                        (#[trigger] stack@[j]).0.0,
                    ),
                forall|j: int|
                    0 <= j < stack@.len() ==> self@.contains_key((#[trigger] stack@[j]).0)
                        && stack@[j].1@ == self@[stack@[j].0].exit.spec_successors()
                        && stack@[j].2 <= stack@[j].1@.len(),
                forall|i: int|
                    0 <= i < output@.len() ==> self@.contains_key(#[trigger] output@[i]),
                forall|i: int| 0 <= i < output@.len() ==> (#[trigger] output@[i]) != entry,
                forall|i: int, t: Label|
                    #![trigger self@[output@[i]].exit.spec_successors().contains(t)]
                    0 <= i < output@.len() && self@[output@[i]].exit.spec_successors().contains(
                        t,
                    ) && self@.contains_key(t) ==> label_set_contents(visited).contains(t.0),
                forall|j: int, c: int|
                    0 <= j < stack@.len() && 0 <= c < stack@[j].2 && self@.contains_key(
                        (#[trigger] stack@[j].1@[c]),
                    ) ==> label_set_contents(visited).contains(stack@[j].1@[c].0),
                forall|l: Label|
                    self@.contains_key(l) && #[trigger] label_set_contents(visited).contains(
                        l.0,
                    ) ==> l == entry || output@.contains(l) || exists|j: int|
                        0 <= j < stack@.len() && (#[trigger] stack@[j]).0 == l,
                unvisited.finite(),
                forall|l: Label|
                    self@.contains_key(l) ==> (#[trigger] label_set_contents(visited).contains(
                        l.0,
                    ) <==> !unvisited.contains(l)),
                self@.contains_key(entry) ==> ((exists|j: int|
                    0 <= j < stack@.len() && (#[trigger] stack@[j]).0 == entry) || (forall|
                    t: Label,
                |
                    self@[entry].exit.spec_successors().contains(t) && self@.contains_key(t)
                        ==> #[trigger] label_set_contents(visited).contains(t.0))),
                !self@.contains_key(entry) ==> output@.len() == 0 && stack@.len() == 0,
                label_set_contents(visited).contains(entry.0),
            decreases unvisited.len(), frames_potential(stack@), stack@.len(),
        {
            let ghost pre_contents = label_set_contents(visited);
            let ghost pre_stack = stack@;
            let ghost pre_output = output@;
            let ghost pre_unvisited = unvisited;
            let ghost mut added: Option<Label> = Option::None;
            let frame = match stack.pop() {
                Some(f) => f,
                None => {
                    proof {
                        assert(false);
                    }
                    unreached()
                },
            };
            let (label, succs, k) = frame;
            proof {
                assert(pre_stack.last().0 == label);
                assert(pre_stack.last().1@ == succs@);
                assert(pre_stack.last().2 == k);
                assert(stack@ =~= pre_stack.drop_last());
            }
            if k < succs.len() {
                let child = succs[k];
                stack.push((label, succs, k + 1));
                let ghost mid_stack = stack@;
                proof {
                    assert(mid_stack.drop_last() =~= pre_stack.drop_last());
                    assert(frames_potential(mid_stack) == frames_potential(pre_stack) - 1);
                }
                match self.get(child) {
                    None => {
                        // An external target outside this sub-graph:
                        // already processed elsewhere, so it is skipped.
                        proof {
                            assert forall|j: int|
                                0 <= j < stack@.len() implies (#[trigger] stack@[j]).2
                                <= stack@[j].1@.len() by {}
                            lemma_frames_potential_nonneg(stack@);
                        }
                    },
                    Some(b) => {
                        if visited.insert(child.0) {
                            stack.push((child, b.successors(), 0));
                            proof {
                                added = Option::Some(child);
                                assert(label_set_contents(visited) =~= pre_contents.insert(
                                    child.0,
                                ));
                                assert(!pre_unvisited.contains(child) ==> pre_contents.contains(
                                    child.0,
                                ));
                                assert(pre_unvisited.contains(child));
                                vstd::set::axiom_set_remove_len(pre_unvisited, child);
                                unvisited = pre_unvisited.remove(child);
                                assert(unvisited.len() < pre_unvisited.len());
                                assert forall|l: Label|
                                    self@.contains_key(l) implies (
                                #[trigger] label_set_contents(visited).contains(l.0)
                                    <==> !unvisited.contains(l)) by {
                                    if l == child {
                                    } else {
                                        assert(l.0 != child.0 ==> (label_set_contents(
                                            visited,
                                        ).contains(l.0) <==> pre_contents.contains(l.0)));
                                        assert(l.0 == child.0 ==> l == child);
                                    }
                                }
                            }
                        } else {
                            proof {
                                assert(label_set_contents(visited) =~= pre_contents.insert(
                                    child.0,
                                ));
                                assert(pre_contents.contains(child.0));
                                assert(label_set_contents(visited) =~= pre_contents);
                                assert forall|j: int|
                                    0 <= j < stack@.len() implies (#[trigger] stack@[j]).2
                                    <= stack@[j].1@.len() by {}
                                lemma_frames_potential_nonneg(stack@);
                            }
                        }
                    },
                }
            } else {
                // Every child of this frame has been visited; the block
                // itself is appended, except the entry, which closes the
                // whole traversal instead.
                if !(label.0 == entry.0) {
                    output.push(label);
                }
                proof {
                    assert(frames_potential(pre_stack) == frames_potential(stack@));
                    assert forall|j: int|
                        0 <= j < stack@.len() implies (#[trigger] stack@[j]).2
                        <= stack@[j].1@.len() by {}
                    lemma_frames_potential_nonneg(stack@);
                    if label.0 == entry.0 {
                        assert(label == entry);
                        assert forall|t: Label|
                            self@[entry].exit.spec_successors().contains(t)
                                && self@.contains_key(t) implies #[trigger] label_set_contents(
                            visited,
                        ).contains(t.0) by {
                            let c = choose|c: int|
                                0 <= c < pre_stack.last().1@.len() && pre_stack.last().1@[c]
                                    == t;
                            assert(pre_stack.last().1@[c] == t);
                        }
                    }
                }
            }
            proof {
                assert forall|x: u32|
                    pre_contents.contains(x) implies label_set_contents(visited).contains(
                    x,
                ) by {}
                assert forall|j: int|
                    0 <= j < pre_stack.len() - 1 implies stack@[j] == pre_stack[j] by {}
                assert forall|l: Label|
                    self@.contains_key(l) && #[trigger] label_set_contents(visited).contains(
                        l.0,
                    ) implies l == entry || output@.contains(l) || (exists|j: int|
                        0 <= j < stack@.len() && (#[trigger] stack@[j]).0 == l) by {
                    if pre_contents.contains(l.0) {
                        if pre_output.contains(l) {
                            let m = choose|m: int|
                                0 <= m < pre_output.len() && pre_output[m] == l;
                            assert(output@[m] == l);
                        } else if l != entry {
                            let j = choose|j: int|
                                0 <= j < pre_stack.len() && (#[trigger] pre_stack[j]).0 == l;
                            if j < pre_stack.len() - 1 {
                                assert(stack@[j] == pre_stack[j]);
                            } else {
                                assert(l == label);
                                if k < succs@.len() {
                                    assert(stack@[pre_stack.len() - 1].0 == label);
                                } else {
                                    assert(output@[output@.len() - 1] == label);
                                }
                            }
                        }
                    } else {
                        match added {
                            Option::Some(c) => {
                                assert(label_set_contents(visited) =~= pre_contents.insert(
                                    c.0,
                                ));
                                assert(l.0 == c.0);
                                assert(l == c);
                                assert(stack@[stack@.len() - 1].0 == c);
                            },
                            Option::None => {
                                assert(label_set_contents(visited) =~= pre_contents);
                            },
                        }
                    }
                }
                if self@.contains_key(entry) {
                    let had_frame = exists|j: int|
                        0 <= j < pre_stack.len() && (#[trigger] pre_stack[j]).0 == entry;
                    if had_frame {
                        let j = choose|j: int|
                            0 <= j < pre_stack.len() && (#[trigger] pre_stack[j]).0 == entry;
                        if j < pre_stack.len() - 1 {
                            assert(stack@[j] == pre_stack[j]);
                        } else {
                            assert(label == entry);
                            if k < succs@.len() {
                                assert(stack@[pre_stack.len() - 1].0 == entry);
                            }
                        }
                    } else {
                        assert forall|t: Label|
                            self@[entry].exit.spec_successors().contains(t)
                                && self@.contains_key(t) implies #[trigger] label_set_contents(
                            visited,
                        ).contains(t.0) by {
                            assert(pre_contents.contains(t.0));
                        }
                    }
                }
            }
        }
        if self.contains(entry) {
            let ghost pre_output = output@;
            output.push(entry);
            proof {
                assert forall|i: int, j: int|
                    0 <= i < j < output@.len() implies output@[i] != output@[j] by {
                    if j < output@.len() - 1 {
                        assert(pre_output[i] == output@[i]);
                        assert(pre_output[j] == output@[j]);
                    } else {
                        assert(pre_output[i] != entry);
                    }
                }
                assert(successor_closed(self@, output@)) by {
                    assert forall|b: Label, t: Label|
                        output@.contains(b) && self@.contains_key(b)
                            && self@[b].exit.spec_successors().contains(t) && self@.contains_key(
                            t,
                        ) implies output@.contains(t) by {
                        if b == entry {
                            assert(label_set_contents(visited).contains(t.0));
                        } else {
                            let i = choose|i: int|
                                0 <= i < pre_output.len() && pre_output[i] == b;
                            assert(self@[output@[i]].exit.spec_successors().contains(t));
                            assert(label_set_contents(visited).contains(t.0));
                        }
                        if t == entry {
                            assert(output@[output@.len() - 1] == entry);
                        } else {
                            assert(pre_output.contains(t));
                            let m = choose|m: int|
                                0 <= m < pre_output.len() && pre_output[m] == t;
                            assert(output@[m] == t);
                        }
                    }
                }
                assert forall|l: Label, n: nat|
                    reaches_in(self@, entry, l, n) && self@.contains_key(l) implies output@.contains(
                    l,
                ) by {
                    assert(output@[output@.len() - 1] == entry);
                    lemma_closed_contains_reachable(self@, entry, output@, l, n);
                }
            }
        } else {
            proof {
                assert(output@ =~= Seq::<Label>::empty());
                assert forall|l: Label, n: nat|
                    reaches_in(self@, entry, l, n) && self@.contains_key(l) implies output@.contains(
                    l,
                ) by {
                    assert(successor_closed(self@, output@));
                    lemma_closed_contains_reachable(self@, entry, output@, l, n);
                }
            }
        }
        output
    }

    /// The labels of the blocks whose exits may transfer control to `label`:
    /// exactly the keys of the graph that list `label` among their successors.
    pub fn direct_predecessors(&self, label: Label) -> (r: Vec<Label>)
        ensures
            forall|i: int|
                0 <= i < r@.len() ==> self@.contains_key(#[trigger] r@[i])
                    && self@[r@[i]].exit.spec_successors().contains(label),
            forall|l: Label|
                self@.contains_key(l) && (#[trigger] self@[l]).exit.spec_successors().contains(
                    label,
                ) ==> r@.contains(l),
    {
        proof {
            use_type_invariant(self);
            self.blocks.lemma_kv_view();
        }
        let ghost kv = self.blocks.kv_seq();
        let mut r: Vec<Label> = Vec::new();
        let n = self.blocks.len();
        let mut i: usize = 0;
        while i < n
            invariant
                n == kv.len(),
                i <= n,
                kv == self.blocks.kv_seq(),
                self@ == self.blocks@,
                self.blocks.wf(),
                forall|j: int|
                    0 <= j < r@.len() ==> self@.contains_key(#[trigger] r@[j])
                        && self@[r@[j]].exit.spec_successors().contains(label),
                forall|j: int|
                    0 <= j < i && (#[trigger] kv[j]).1.exit.spec_successors().contains(label)
                        ==> r@.contains(kv[j].0),
            decreases n - i,
        {
            let block = self.blocks.value_at(i);
            let succs = block.successors();
            let mut found = false;
            let mut k: usize = 0;
            while k < succs.len()
                invariant
                    k <= succs@.len(),
                    succs@ == kv[i as int].1.exit.spec_successors(),
                    found <==> exists|m: int| 0 <= m < k && succs@[m] == label,
                decreases succs@.len() - k,
            {
                if succs[k] == label {
                    found = true;
                }
                k = k + 1;
            }
            let ghost r_before = r@;
            if found {
                let l = self.blocks.key_at(i);
                proof {
                    self.blocks.lemma_kv_view();
                }
                r.push(l);
            }
            proof {
                assert forall|j: int|
                    0 <= j < i + 1 && (#[trigger] kv[j]).1.exit.spec_successors().contains(label)
                        implies r@.contains(kv[j].0) by {
                    if j < i {
                        assert(r_before.contains(kv[j].0));
                        let m = choose|m: int| 0 <= m < r_before.len() && r_before[m] == kv[j].0;
                        assert(r@[m] == kv[j].0);
                    } else {
                        assert(found);
                        assert(r@[r@.len() - 1] == kv[j].0);
                    }
                }
            }
            i = i + 1;
        }
        proof {
            assert forall|l: Label|
                self@.contains_key(l) && (#[trigger] self@[l]).exit.spec_successors().contains(
                    label,
                ) implies r@.contains(l) by {
                let j = choose|j: int| 0 <= j < kv.len() && (#[trigger] kv[j]).0 == l;
                assert(kv[j].1 == self@[l]);
            }
        }
        r
    }
}

} // verus!
