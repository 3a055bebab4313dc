//! A small RISC-like instruction set over the per-instruction graph, and
//! a constant-propagation analysis for it.
use vstd::prelude::*;

use crate::pc::analysis::{Analysis, Rewrite};
use crate::pc::graph::Graph;
use crate::pc::instruction::{Instruction, Label, Successors};
use crate::pc::lattice::Lattice;

verus! {

#[derive(Copy, Clone, Debug, PartialEq, Eq, Hash, Structural)]
pub struct Var(pub usize);

#[derive(Copy, Clone, Debug)]
pub enum Risc {
    /// var := constant
    Load(Var, i64),
    /// dst := src1 + src2
    Add(Var, Var, Var),
    /// dst := if src1 < src2 { 1 } else { 0 }
    Lt(Var, Var, Var),
    /// goto l
    Goto(Label),
    /// if src == 0 { goto l }
    JumpZ(Var, Label),
    /// do nothing
    NoOp,
    /// halt
    Ret,
}

impl Instruction for Risc {
    open spec fn spec_fallthrough(&self) -> bool {
        match *self {
            Risc::Load(_, _) => true,
            Risc::Add(_, _, _) => true,
            Risc::Lt(_, _, _) => true,
            Risc::Goto(_) => false,
            Risc::JumpZ(_, _) => true,
            Risc::NoOp => true,
            Risc::Ret => false,
        }
    }

    open spec fn spec_jumps(&self) -> Seq<Label> {
        match *self {
            Risc::Goto(l) => seq![l],
            Risc::JumpZ(_, l) => seq![l],
            _ => Seq::empty(),
        }
    }

    fn successors(&self) -> (r: Successors) {
        match self {
            Risc::Load(_, _) => Successors::fallthrough(),
            Risc::Add(_, _, _) => Successors::fallthrough(),
            Risc::Lt(_, _, _) => Successors::fallthrough(),
            Risc::Goto(l) => {
                let mut jumps: Vec<Label> = Vec::new();
                jumps.push(*l);
                proof {
                    assert(jumps@ =~= self.spec_jumps());
                }
                Successors::goto(jumps)
            },
            Risc::JumpZ(_, l) => {
                let mut jumps: Vec<Label> = Vec::new();
                jumps.push(*l);
                proof {
                    assert(jumps@ =~= self.spec_jumps());
                }
                Successors::conditional(jumps)
            },
            Risc::NoOp => Successors::fallthrough(),
            Risc::Ret => Successors::halt(),
        }
    }
}

/// What a fact knows of one variable: a constant, or that the variable is
/// not constant.
pub open spec fn pc_var_leq(a: Option<Option<i64>>, b: Option<Option<i64>>) -> bool {
    match (a, b) {
        (Option::None, _) => true,
        (Option::Some(x), Option::None) => false,
        (Option::Some(x), Option::Some(y)) => x == y || y is None,
    }
}

pub open spec fn pc_fact_at(m: Map<usize, Option<i64>>, v: usize) -> Option<Option<i64>> {
    if m.contains_key(v) {
        Option::Some(m[v])
    } else {
        Option::None
    }
}

/// What constant propagation knows at one point: per variable, nothing
/// yet, a constant `Some(c)`, or `None` for a variable that is not
/// constant.
#[derive(Debug)]
pub struct ConstFact {
    vars: Vec<Option<Option<i64>>>,
}

impl View for ConstFact {
    type V = Map<usize, Option<i64>>;

    closed spec fn view(&self) -> Map<usize, Option<i64>> {
        Map::new(
            |v: usize| v < self.vars@.len() && self.vars@[v as int] is Some,
            |v: usize| self.vars@[v as int]->Some_0,
        )
    }
}

impl ConstFact {
    pub fn new() -> (r: ConstFact)
        ensures
            r@ =~= Map::<usize, Option<i64>>::empty(),
    {
        let r = ConstFact { vars: Vec::new() };
        proof {
            assert(r@ =~= Map::<usize, Option<i64>>::empty());
        }
        r
    }

    pub fn get(&self, var: Var) -> (r: Option<Option<i64>>)
        ensures
            r == pc_fact_at(self@, var.0),
    {
        if var.0 < self.vars.len() {
            self.vars[var.0]
        } else {
            None
        }
    }

    fn put(&mut self, var: Var, val: Option<i64>)
        ensures
            final(self)@ =~= old(self)@.insert(var.0, val),
    {
        while self.vars.len() <= var.0
            invariant
                self@ =~= old(self)@,
            decreases var.0 as int + 1 - self.vars@.len(),
        {
            self.vars.push(None);
            proof {
                assert(self@ =~= old(self)@);
            }
        }
        self.vars[var.0] = Some(val);
        proof {
            assert(self@ =~= old(self)@.insert(var.0, val));
        }
    }

    /// The fact that knows only that `var` holds `constant` (or, for
    /// `None`, that `var` is not constant).
    pub fn pair(var: Var, constant: Option<i64>) -> (r: ConstFact)
        ensures
            r@ =~= Map::<usize, Option<i64>>::empty().insert(var.0, constant),
    {
        let mut r = ConstFact::new();
        r.put(var, constant);
        r
    }

    /// This fact overwritten by everything the other fact knows.
    pub fn merge(&self, other: &ConstFact) -> (r: ConstFact)
        ensures
            r@ =~= self@.union_prefer_right(other@),
    {
        let mut r = self.clone_fact();
        let mut i: usize = 0;
        while i < other.vars.len()
            invariant
                i <= other.vars@.len(),
                forall|k: usize|
                    #[trigger] r@.contains_key(k) <==> (self@.contains_key(k) || (
                    other@.contains_key(k) && k < i)),
                forall|k: usize|
                    r@.contains_key(k) ==> #[trigger] r@[k] == if other@.contains_key(k) && k
                        < i {
                        other@[k]
                    } else {
                        self@[k]
                    },
            decreases other.vars@.len() - i,
        {
            let ghost pre = r@;
            match other.vars[i] {
                None => {},
                Some(val) => {
                    proof {
                        assert(other@.contains_key(i) && other@[i] == val);
                    }
                    r.put(Var(i), val);
                },
            }
            proof {
                if !(other@.contains_key(i)) {
                    assert(r@ == pre);
                }
            }
            i = i + 1;
        }
        proof {
            assert forall|k: usize|
                #[trigger] r@.contains_key(k) <==> self@.union_prefer_right(
                other@,
            ).contains_key(k) by {
                if other@.contains_key(k) {
                    assert(k < other.vars@.len());
                }
            }
            assert forall|k: usize|
                r@.contains_key(k) implies #[trigger] r@[k] == self@.union_prefer_right(
                other@,
            )[k] by {
                if other@.contains_key(k) {
                    assert(k < other.vars@.len());
                }
            }
            assert(r@ =~= self@.union_prefer_right(other@));
        }
        r
    }
}

impl Lattice for ConstFact {
    /// Pointwise: per variable, nothing is below everything, a constant is
    /// below itself and not-constant, and not-constant only below itself.
    open spec fn leq(a: Map<usize, Option<i64>>, b: Map<usize, Option<i64>>) -> bool {
        forall|v: usize| pc_var_leq(#[trigger] pc_fact_at(a, v), pc_fact_at(b, v))
    }

    proof fn lemma_leq_refl(a: Map<usize, Option<i64>>) {
    }

    proof fn lemma_leq_trans(
        a: Map<usize, Option<i64>>,
        b: Map<usize, Option<i64>>,
        c: Map<usize, Option<i64>>,
    ) {
        assert forall|v: usize| pc_var_leq(#[trigger] pc_fact_at(a, v), pc_fact_at(c, v)) by {
            assert(pc_var_leq(pc_fact_at(a, v), pc_fact_at(b, v)));
            assert(pc_var_leq(pc_fact_at(b, v), pc_fact_at(c, v)));
        }
    }

    fn bottom() -> (r: Self) {
        ConstFact::new()
    }

    /// The seed for the entry point; this analysis has no true top, so it
    /// starts from the bottom fact.
    open spec fn spec_top() -> Map<usize, Option<i64>> {
        Map::empty()
    }

    fn top() -> (r: Self)
        ensures
            forall|x: Map<usize, Option<i64>>| Self::leq(r@, x),
    {
        ConstFact::new()
    }

    fn clone_fact(&self) -> (r: Self) {
        let mut vars: Vec<Option<Option<i64>>> = Vec::new();
        let mut i: usize = 0;
        while i < self.vars.len()
            invariant
                i <= self.vars@.len(),
                vars@ =~= self.vars@.take(i as int),
            decreases self.vars@.len() - i,
        {
            vars.push(self.vars[i]);
            i = i + 1;
        }
        proof {
            assert(self.vars@.take(self.vars@.len() as int) =~= self.vars@);
        }
        let r = ConstFact { vars };
        proof {
            assert(r@ =~= self@);
        }
        r
    }

    /// For each variable the other fact knows of: take its value where
    /// this fact knows nothing, keep an agreed constant, and mark the
    /// variable not constant where the two sides disagree.
    fn join(&mut self, other: &Self, label: Label) -> (changed: bool) {
        let mut changed = false;
        let ghost mut witness: usize = 0;
        let n: usize = other.vars.len();
        let mut i: usize = 0;
        while i < n
            invariant
                i <= n,
                n == other.vars@.len(),
                forall|v: usize|
                    pc_var_leq(#[trigger] pc_fact_at(old(self)@, v), pc_fact_at(self@, v)),
                forall|v: usize|
                    v < i ==> pc_var_leq(#[trigger] pc_fact_at(other@, v), pc_fact_at(self@, v)),
                !changed ==> self@ == old(self)@,
                changed ==> !pc_var_leq(
                    pc_fact_at(other@, witness),
                    pc_fact_at(old(self)@, witness),
                ),
            decreases n - i,
        {
            let ghost pre = self@;
            match other.vars[i] {
                None => {},
                Some(val) => {
                    let var = Var(i);
                    proof {
                        assert(pc_fact_at(other@, var.0) == Option::Some(val));
                    }
                    match self.get(var) {
                        None => {
                            self.put(var, val);
                            changed = true;
                            proof {
                                witness = var.0;
                            }
                        },
                        Some(Some(c)) => {
                            match val {
                                Some(d) => {
                                    if c != d {
                                        self.put(var, None);
                                        changed = true;
                                        proof {
                                            witness = var.0;
                                        }
                                    }
                                },
                                None => {
                                    self.put(var, None);
                                    changed = true;
                                    proof {
                                        witness = var.0;
                                    }
                                },
                            }
                        },
                        Some(None) => {
                            // Already known not constant: no change
                            // possible.
                        },
                    }
                },
            }
            proof {
                assert forall|v: usize|
                    pc_var_leq(#[trigger] pc_fact_at(old(self)@, v), pc_fact_at(self@, v)) by {
                    assert(pc_var_leq(pc_fact_at(old(self)@, v), pc_fact_at(pre, v)));
                }
                assert forall|v: usize|
                    v < i + 1 implies pc_var_leq(
                    #[trigger] pc_fact_at(other@, v),
                    pc_fact_at(self@, v),
                ) by {
                    if v < i {
                        assert(pc_var_leq(pc_fact_at(other@, v), pc_fact_at(pre, v)));
                    } else {
                        assert(v == i);
                    }
                }
            }
            i = i + 1;
        }
        proof {
            assert forall|v: usize|
                pc_var_leq(#[trigger] pc_fact_at(other@, v), pc_fact_at(self@, v)) by {
                if v >= n {
                    assert(!other@.contains_key(v));
                }
            }
            if changed {
                assert(!Self::leq(other@, old(self)@)) by {
                    assert(!pc_var_leq(
                        pc_fact_at(other@, witness),
                        pc_fact_at(old(self)@, witness),
                    ));
                }
            }
        }
        changed
    }
}

/// The two folds the analysis performs over known constants.
pub enum FoldOp {
    Add,
    Lt,
}

pub open spec fn spec_fold_add(a: i64, b: i64) -> i64 {
    a.wrapping_add(b)
}

pub open spec fn spec_fold_lt(a: i64, b: i64) -> i64 {
    if a < b {
        1
    } else {
        0
    }
}

/// The fact an arithmetic instruction hands on: the folded constant when
/// both operands are known constants, bottom when both are known not
/// constant, and a not-constant destination otherwise. Addition wraps
/// around.
pub open spec fn spec_lift(
    m: Map<usize, Option<i64>>,
    op: FoldOp,
    dst: Var,
    src1: Var,
    src2: Var,
) -> Map<usize, Option<i64>> {
    match (pc_fact_at(m, src1.0), pc_fact_at(m, src2.0)) {
        (Option::Some(Option::Some(v1)), Option::Some(Option::Some(v2))) => Map::<
            usize,
            Option<i64>,
        >::empty().insert(
            dst.0,
            Option::Some(
                match op {
                    FoldOp::Add => spec_fold_add(v1, v2),
                    FoldOp::Lt => spec_fold_lt(v1, v2),
                },
            ),
        ),
        (Option::Some(Option::None), Option::Some(Option::None)) => Map::<
            usize,
            Option<i64>,
        >::empty(),
        _ => Map::<usize, Option<i64>>::empty().insert(dst.0, Option::None),
    }
}

fn lift(fact: &ConstFact, op: FoldOp, dst: Var, src1: Var, src2: Var) -> (r: ConstFact)
    ensures
        r@ =~= spec_lift(fact@, op, dst, src1, src2),
{
    match (fact.get(src1), fact.get(src2)) {
        (Some(Some(v1)), Some(Some(v2))) => {
            let folded = match op {
                FoldOp::Add => v1.wrapping_add(v2),
                FoldOp::Lt => if v1 < v2 {
                    1
                } else {
                    0
                },
            };
            ConstFact::pair(dst, Some(folded))
        },
        (Some(None), Some(None)) => ConstFact::new(),
        _ => ConstFact::pair(dst, None),
    }
}

/// The constant-propagation client over the per-instruction graph: loads
/// hand on their constant, arithmetic hands on what follows from its
/// operands, and control transfers change nothing.
pub struct ConstAnalysis;

impl Analysis<Risc, ConstFact> for ConstAnalysis {
    /// A load hands on the fact that knows only its own constant;
    /// arithmetic hands on the incoming fact overwritten with what
    /// follows from its operands; control transfers change nothing.
    open spec fn spec_transfer(
        label: Label,
        instruction: Risc,
        fact: Map<usize, Option<i64>>,
    ) -> Map<usize, Option<i64>> {
        match instruction {
            Risc::Load(var, c) => Map::<usize, Option<i64>>::empty().insert(
                var.0,
                Option::Some(c),
            ),
            Risc::Add(dst, s1, s2) => fact.union_prefer_right(
                spec_lift(fact, FoldOp::Add, dst, s1, s2),
            ),
            Risc::Lt(dst, s1, s2) => fact.union_prefer_right(
                spec_lift(fact, FoldOp::Lt, dst, s1, s2),
            ),
            _ => fact,
        }
    }

    fn analyze(
        &mut self,
        graph: &Graph<Risc>,
        label: Label,
        instruction: &Risc,
        fact: &ConstFact,
    ) -> (r: Rewrite<Risc, ConstFact>)
        ensures
            match *instruction {
                Risc::Load(var, c) => r matches Rewrite::Fact(f) && f@ =~= Map::<
                    usize,
                    Option<i64>,
                >::empty().insert(var.0, Option::Some(c)),
                Risc::Add(dst, s1, s2) => r matches Rewrite::Fact(f) && f@
                    =~= fact@.union_prefer_right(spec_lift(fact@, FoldOp::Add, dst, s1, s2)),
                Risc::Lt(dst, s1, s2) => r matches Rewrite::Fact(f) && f@
                    =~= fact@.union_prefer_right(spec_lift(fact@, FoldOp::Lt, dst, s1, s2)),
                _ => r is NoChange,
            },
    {
        match instruction {
            Risc::Load(var, constant) => Rewrite::Fact(ConstFact::pair(*var, Some(*constant))),
            Risc::Add(dst, src1, src2) => Rewrite::Fact(
                fact.merge(&lift(fact, FoldOp::Add, *dst, *src1, *src2)),
            ),
            Risc::Lt(dst, src1, src2) => Rewrite::Fact(
                fact.merge(&lift(fact, FoldOp::Lt, *dst, *src1, *src2)),
            ),
            Risc::Goto(_) => Rewrite::NoChange,
            Risc::JumpZ(_, _) => Rewrite::NoChange,
            Risc::NoOp => Rewrite::NoChange,
            Risc::Ret => Rewrite::NoChange,
        }
    }
}

} // verus!
