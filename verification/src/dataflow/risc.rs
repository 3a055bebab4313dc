//! A small RISC-like instruction set and a constant-propagation analysis
//! over it: the example client that folds arithmetic over known constants
//! into loads through the rewrite protocol.
use vstd::prelude::*;

use crate::dataflow::analysis::{
    AnalyzeInstruction, ForwardAnalysis, RewriteExit, RewriteInstruction,
};
use crate::dataflow::fact_base::FactBase;
use crate::dataflow::graph::{Entry, Exit, Graph, Instruction, Label, Language};
use crate::dataflow::lattice::Lattice;

verus! {

#[derive(Copy, Clone, Debug, PartialEq, Eq, Hash, Structural)]
pub struct Var(pub u16);

#[derive(Copy, Clone, Debug, PartialEq, Eq, Hash, Structural)]
pub struct Constant(pub usize);

#[derive(Copy, Clone, Debug, PartialEq, Eq, Structural)]
pub enum Arith {
    Add,
    Sub,
    And,
    Or,
}

#[derive(Copy, Clone, Debug, PartialEq, Eq, Structural)]
pub enum Cond {
    Eq,
    Neq,
    Lt,
    Lte,
}

#[derive(Copy, Clone, Debug)]
pub enum RiscEntry {
    Label(Label),
}

#[derive(Copy, Clone, Debug)]
pub enum RiscInstruction {
    /// var := constant
    Load(Var, Constant),
    /// dst := src1 op src2
    Arith(Arith, Var, Var, Var),
}

#[derive(Copy, Clone, Debug)]
pub enum RiscExit {
    /// if src1 cond src2 { goto the first label } else { goto the second }
    Cond(Cond, Var, Var, Label, Label),
    /// goto l
    Jump(Label),
    /// halt
    Ret,
}

pub struct RiscLanguage;

impl Language for RiscLanguage {
    type Entry = RiscEntry;

    type Instruction = RiscInstruction;

    type Exit = RiscExit;
}

impl Entry for RiscEntry {
    open spec fn spec_label(&self) -> Label {
        match *self {
            RiscEntry::Label(l) => l,
        }
    }

    fn label(&self) -> (r: Label) {
        match self {
            RiscEntry::Label(l) => *l,
        }
    }
}

impl Instruction for RiscInstruction {
}

impl Exit for RiscExit {
    open spec fn spec_successors(&self) -> Seq<Label> {
        match *self {
            RiscExit::Cond(_, _, _, l1, l2) => seq![l1, l2],
            RiscExit::Jump(l) => seq![l],
            RiscExit::Ret => Seq::empty(),
        }
    }

    fn successors(&self) -> (r: Vec<Label>) {
        match self {
            RiscExit::Cond(_, _, _, l1, l2) => {
                let mut v: Vec<Label> = Vec::new();
                v.push(*l1);
                v.push(*l2);
                proof {
                    assert(v@ =~= self.spec_successors());
                }
                v
            },
            RiscExit::Jump(l) => {
                let mut v: Vec<Label> = Vec::new();
                v.push(*l);
                proof {
                    assert(v@ =~= self.spec_successors());
                }
                v
            },
            RiscExit::Ret => {
                let v: Vec<Label> = Vec::new();
                proof {
                    assert(v@ =~= self.spec_successors());
                }
                v
            },
        }
    }
}

/// A value with an added greatest element.
#[derive(Copy, Clone, Debug, PartialEq, Eq, Structural)]
pub enum WithTop<T> {
    Top,
    Elem(T),
}

/// What a fact knows of one variable: nothing yet, a constant, or that the
/// variable is not constant.
pub open spec fn var_leq(a: Option<WithTop<Constant>>, b: Option<WithTop<Constant>>) -> bool {
    match (a, b) {
        (Option::None, _) => true,
        (Option::Some(x), Option::None) => false,
        (Option::Some(x), Option::Some(y)) => x == y || y == WithTop::<Constant>::Top,
    }
}

pub open spec fn fact_at(m: Map<u16, WithTop<Constant>>, v: u16) -> Option<WithTop<Constant>> {
    if m.contains_key(v) {
        Option::Some(m[v])
    } else {
        Option::None
    }
}

/// What constant propagation knows at one point: per variable, nothing yet
/// (the variable was never assigned on any path seen), a constant, or top
/// (assigned, but to no single constant).
#[derive(Debug)]
pub struct ConstFact {
    vars: Vec<Option<WithTop<Constant>>>,
}

impl View for ConstFact {
    type V = Map<u16, WithTop<Constant>>;

    closed spec fn view(&self) -> Map<u16, WithTop<Constant>> {
        Map::new(
            |v: u16| v < self.vars@.len() && self.vars@[v as int] is Some,
            |v: u16| self.vars@[v as int]->Some_0,
        )
    }
}

impl ConstFact {
    pub fn new() -> (r: ConstFact)
        ensures
            r@ =~= Map::<u16, WithTop<Constant>>::empty(),
    {
        let r = ConstFact { vars: Vec::new() };
        proof {
            assert(r@ =~= Map::<u16, WithTop<Constant>>::empty());
        }
        r
    }

    fn at(&self, var: Var) -> (r: Option<WithTop<Constant>>)
        ensures
            r == fact_at(self@, var.0),
    {
        if (var.0 as usize) < self.vars.len() {
            self.vars[var.0 as usize]
        } else {
            None
        }
    }

    pub fn get(&self, var: Var) -> (r: Option<WithTop<Constant>>)
        ensures
            r == fact_at(self@, var.0),
    {
        self.at(var)
    }

    /// The constant this fact pins `var` to, if any.
    pub fn get_const(&self, var: Var) -> (r: Option<Constant>)
        ensures
            r == match fact_at(self@, var.0) {
                Option::Some(WithTop::Elem(c)) => Option::Some(c),
                _ => Option::<Constant>::None,
            },
    {
        match self.at(var) {
            Some(WithTop::Elem(c)) => Some(c),
            _ => None,
        }
    }

    fn put(&mut self, var: Var, val: WithTop<Constant>)
        ensures
            final(self)@ =~= old(self)@.insert(var.0, val),
    {
        while self.vars.len() <= var.0 as usize
            invariant
                self@ =~= old(self)@,
            decreases var.0 as int + 1 - self.vars@.len(),
        {
            self.vars.push(None);
            proof {
                assert(self@ =~= old(self)@);
            }
        }
        self.vars[var.0 as usize] = Some(val);
        proof {
            assert(self@ =~= old(self)@.insert(var.0, val));
        }
    }

    /// Records that `var` holds `constant` here.
    pub fn set(&mut self, var: Var, constant: Constant)
        ensures
            final(self)@ =~= old(self)@.insert(var.0, WithTop::Elem(constant)),
    {
        self.put(var, WithTop::Elem(constant));
    }
}

impl Lattice for ConstFact {
    /// Pointwise: per variable, nothing is below everything, a constant is
    /// below itself and top, and top only below top.
    open spec fn leq(a: Map<u16, WithTop<Constant>>, b: Map<u16, WithTop<Constant>>) -> bool {
        forall|v: u16| var_leq(#[trigger] fact_at(a, v), fact_at(b, v))
    }

    proof fn lemma_leq_refl(a: Map<u16, WithTop<Constant>>) {
    }

    proof fn lemma_leq_trans(
        a: Map<u16, WithTop<Constant>>,
        b: Map<u16, WithTop<Constant>>,
        c: Map<u16, WithTop<Constant>>,
    ) {
        assert forall|v: u16| var_leq(#[trigger] fact_at(a, v), fact_at(c, v)) by {
            assert(var_leq(fact_at(a, v), fact_at(b, v)));
            assert(var_leq(fact_at(b, v), fact_at(c, v)));
        }
    }

    fn bottom() -> (r: Self) {
        ConstFact::new()
    }

    fn clone_fact(&self) -> (r: Self) {
        let mut vars: Vec<Option<WithTop<Constant>>> = Vec::new();
        let mut i: usize = 0;
        while i < self.vars.len()
            invariant
                i <= self.vars@.len(),
                vars@ =~= self.vars@.take(i as int),
            decreases self.vars@.len() - i,
        {
            vars.push(self.vars[i]);
            i = i + 1;
        }
        proof {
            assert(self.vars@.take(self.vars@.len() as int) =~= self.vars@);
        }
        let r = ConstFact { vars };
        proof {
            assert(r@ =~= self@);
        }
        r
    }

    /// For each variable the other fact knows of: take its value where this
    /// fact knows nothing, keep an agreed constant, and go to top where the
    /// two disagree or the other side is already top.
    fn join(&mut self, other: &Self, label: Label) -> (changed: bool) {
        let mut changed = false;
        let ghost mut witness: u16 = 0;
        let n: usize = if other.vars.len() > 65536 {
            // Entries past the largest variable number are not visible in
            // any fact's view and cannot arise through this type's own
            // operations.
            65536
        } else {
            other.vars.len()
        };
        let mut i: usize = 0;
        while i < n
            invariant
                i <= n,
                n <= other.vars@.len(),
                n <= 65536,
                forall|v: u16|
                    var_leq(#[trigger] fact_at(old(self)@, v), fact_at(self@, v)),
                forall|v: u16|
                    v < i ==> var_leq(#[trigger] fact_at(other@, v), fact_at(self@, v)),
                !changed ==> self@ == old(self)@,
                changed ==> !var_leq(fact_at(other@, witness), fact_at(old(self)@, witness)),
            decreases n - i,
        {
            let ghost pre = self@;
            match other.vars[i] {
                None => {},
                Some(val) => {
                    let var = Var(i as u16);
                    proof {
                        assert(fact_at(other@, var.0) == Option::Some(val));
                    }
                    match self.at(var) {
                        None => {
                            self.put(var, val);
                            changed = true;
                            proof {
                                witness = var.0;
                            }
                        },
                        Some(WithTop::Elem(c)) => {
                            match val {
                                WithTop::Elem(d) => {
                                    if c.0 != d.0 {
                                        self.put(var, WithTop::Top);
                                        changed = true;
                                        proof {
                                            witness = var.0;
                                        }
                                    }
                                },
                                WithTop::Top => {
                                    self.put(var, WithTop::Top);
                                    changed = true;
                                    proof {
                                        witness = var.0;
                                    }
                                },
                            }
                        },
                        Some(WithTop::Top) => {
                            // Already top: no change possible.
                        },
                    }
                },
            }
            proof {
                assert forall|v: u16|
                    var_leq(#[trigger] fact_at(old(self)@, v), fact_at(self@, v)) by {
                    assert(var_leq(fact_at(old(self)@, v), fact_at(pre, v)));
                }
                assert forall|v: u16|
                    v < i + 1 implies var_leq(#[trigger] fact_at(other@, v), fact_at(self@, v)) by {
                    if v < i {
                        assert(var_leq(fact_at(other@, v), fact_at(pre, v)));
                    } else {
                        assert(v == i as u16);
                    }
                }
            }
            i = i + 1;
        }
        proof {
            assert forall|v: u16|
                var_leq(#[trigger] fact_at(other@, v), fact_at(self@, v)) by {
                if v >= n {
                    assert(!other@.contains_key(v));
                }
            }
            if changed {
                assert(!Self::leq(other@, old(self)@)) by {
                    assert(!var_leq(fact_at(other@, witness), fact_at(old(self)@, witness)));
                }
            }
        }
        changed
    }
}

pub open spec fn spec_arith(op: Arith, a: usize, b: usize) -> usize {
    match op {
        Arith::Add => a.wrapping_add(b),
        Arith::Sub => a.wrapping_sub(b),
        Arith::And => a & b,
        Arith::Or => a | b,
    }
}

/// Folds one arithmetic operation over two known constants; addition and
/// subtraction wrap around.
pub fn eval_arith(op: Arith, a: usize, b: usize) -> (r: usize)
    ensures
        r == spec_arith(op, a, b),
{
    match op {
        Arith::Add => a.wrapping_add(b),
        Arith::Sub => a.wrapping_sub(b),
        Arith::And => a & b,
        Arith::Or => a | b,
    }
}

/// The constant-propagation client: loads record constants, arithmetic
/// whose operands are both known constants is rewritten to a load of the
/// folded value, and exits hand the fact unchanged to every successor.
pub struct ConstantPropagation;

impl ForwardAnalysis<RiscLanguage, ConstFact> for ConstantPropagation {
    fn analyze_entry(
        &mut self,
        graph: &Graph<RiscLanguage>,
        label: Label,
        entry: &RiscEntry,
        fact: ConstFact,
    ) -> (r: ConstFact)
        ensures
            r@ == fact@,
    {
        fact
    }

    /// A load records its constant in the fact; arithmetic over two
    /// variables the fact pins to constants requests its own replacement
    /// by a load of the folded value, and otherwise changes nothing.
    fn analyze_instruction(
        &mut self,
        graph: &Graph<RiscLanguage>,
        label: Label,
        instruction: &RiscInstruction,
        analyze: AnalyzeInstruction<ConstFact>,
    ) -> (r: Option<RewriteInstruction<RiscLanguage>>)
        ensures
            match *instruction {
                RiscInstruction::Load(var, constant) => r is None && (*final(analyze.fact))@
                    =~= (*old(analyze.fact))@.insert(var.0, WithTop::Elem(constant)),
                RiscInstruction::Arith(op, dst, src1, src2) => (*final(analyze.fact))@ == (*old(
                    analyze.fact,
                ))@ && match (
                    fact_at((*old(analyze.fact))@, src1.0),
                    fact_at((*old(analyze.fact))@, src2.0),
                ) {
                    (
                        Option::Some(WithTop::Elem(c1)),
                        Option::Some(WithTop::Elem(c2)),
                    ) => r is Some && r->Some_0.is_single() && r->Some_0.single_instruction()
                        == RiscInstruction::Load(dst, Constant(spec_arith(op, c1.0, c2.0))),
                    _ => r is None,
                },
            },
    {
        match instruction {
            RiscInstruction::Load(var, constant) => {
                analyze.fact_mut().set(*var, *constant);
                None
            },
            RiscInstruction::Arith(arith, dst, src1, src2) => {
                let c1 = analyze.fact().get_const(*src1);
                let c2 = analyze.fact().get_const(*src2);
                match (c1, c2) {
                    (Some(Constant(a)), Some(Constant(b))) => {
                        let result = eval_arith(*arith, a, b);
                        Some(analyze.replace(RiscInstruction::Load(*dst, Constant(result))))
                    },
                    _ => None,
                }
            },
        }
    }

    /// Always done: the fact goes unchanged to every successor the exit
    /// names.
    fn analyze_exit(
        &mut self,
        graph: &Graph<RiscLanguage>,
        label: Label,
        exit: &RiscExit,
        fact: &ConstFact,
    ) -> (r: RewriteExit<RiscLanguage, ConstFact>)
        ensures
            match r {
                RewriteExit::Done(fb) => fb.wf() && fb@ =~= (match *exit {
                    RiscExit::Cond(_, _, _, l1, l2) => Map::<
                        Label,
                        Map<u16, WithTop<Constant>>,
                    >::empty().insert(l1, fact@).insert(l2, fact@),
                    RiscExit::Jump(l) => Map::<Label, Map<u16, WithTop<Constant>>>::empty().insert(
                        l,
                        fact@,
                    ),
                    RiscExit::Ret => Map::<Label, Map<u16, WithTop<Constant>>>::empty(),
                }),
                _ => false,
            },
    {
        let mut facts = FactBase::<ConstFact>::new();
        match exit {
            RiscExit::Cond(_, _, _, l1, l2) => {
                facts.insert(*l1, fact.clone_fact());
                facts.insert(*l2, fact.clone_fact());
                RewriteExit::Done(facts)
            },
            RiscExit::Jump(l1) => {
                facts.insert(*l1, fact.clone_fact());
                RewriteExit::Done(facts)
            },
            RiscExit::Ret => RewriteExit::Done(facts),
        }
    }
}

} // verus!
