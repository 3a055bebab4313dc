use dataflow::dataflow::analysis::distribute_facts;
use dataflow::dataflow::dominator::DominatorFact;
use dataflow::dataflow::graph::Label;
use dataflow::dataflow::lattice::Lattice;
use dataflow::dataflow::liveness::UsedVars;
use dataflow::dataflow::risc::{
    eval_arith, Arith, Constant, ConstFact, RiscExit, RiscLanguage, Var, WithTop,
};

#[test]
fn dominator_join_is_idempotent() {
    let a = DominatorFact { dominates: Some(vec![Label(1), Label(2)]) };
    let mut copy = a.clone_fact();
    assert!(!copy.join(&a, Label(0)));
    assert_eq!(copy.dominates, Some(vec![Label(1), Label(2)]));

    let bottom = DominatorFact { dominates: None };
    let mut bottom_copy = bottom.clone_fact();
    assert!(!bottom_copy.join(&bottom, Label(0)));
    assert!(bottom_copy.dominates.is_none());
}

#[test]
fn dominator_join_is_monotone() {
    // `a` is below `b`: `b`'s path is a prefix of `a`'s. Joining `b` in
    // yields an element no lower than `b`.
    let a = DominatorFact { dominates: Some(vec![Label(1), Label(2), Label(3)]) };
    let b = DominatorFact { dominates: Some(vec![Label(1), Label(2)]) };
    let mut joined = a.clone_fact();
    assert!(joined.join(&b, Label(0)));
    assert_eq!(joined.dominates, Some(vec![Label(1), Label(2)]));

    // Joining bottom changes nothing.
    let bottom = DominatorFact { dominates: None };
    let mut unchanged = a.clone_fact();
    assert!(!unchanged.join(&bottom, Label(0)));
    assert_eq!(unchanged.dominates, Some(vec![Label(1), Label(2), Label(3)]));

    // Joining into bottom takes the arriving path over.
    let mut from_bottom = DominatorFact { dominates: None };
    assert!(from_bottom.join(&b, Label(0)));
    assert_eq!(from_bottom.dominates, Some(vec![Label(1), Label(2)]));
}

#[test]
fn dominator_join_truncates_at_divergence() {
    let mut left = DominatorFact { dominates: Some(vec![Label(1), Label(2), Label(5)]) };
    let right = DominatorFact { dominates: Some(vec![Label(1), Label(9)]) };
    assert!(left.join(&right, Label(0)));
    assert_eq!(left.dominates, Some(vec![Label(1)]));
}

#[test]
fn const_fact_join_agrees_and_disagrees() {
    let mut base = ConstFact::new();
    base.set(Var(0), Constant(1));

    // An agreed constant: no change.
    let mut agreeing = ConstFact::new();
    agreeing.set(Var(0), Constant(1));
    assert!(!agreeing.join(&base, Label(0)));
    assert_eq!(agreeing.get_const(Var(0)), Some(Constant(1)));

    // Joining a copy of itself: no change.
    let mut copy = base.clone_fact();
    assert!(!copy.join(&base, Label(0)));

    // A disagreeing constant goes to top.
    let mut disagreeing = ConstFact::new();
    disagreeing.set(Var(0), Constant(2));
    assert!(disagreeing.join(&base, Label(0)));
    assert_eq!(disagreeing.get(Var(0)), Some(WithTop::Top));
    assert_eq!(disagreeing.get_const(Var(0)), None);

    // A fresh fact takes the arriving value over.
    let mut fresh = ConstFact::new();
    assert!(fresh.join(&base, Label(0)));
    assert_eq!(fresh.get_const(Var(0)), Some(Constant(1)));
}

#[test]
fn used_vars_join_is_union() {
    let mut left = UsedVars::new();
    left.insert_var(Var(0));
    let mut right = UsedVars::new();
    right.insert_var(Var(1));

    assert!(left.join(&right, Label(0)));
    assert!(left.contains_var(Var(0)));
    assert!(left.contains_var(Var(1)));
    assert!(!left.contains_var(Var(2)));

    // Joining something already included: no change.
    assert!(!left.join(&right, Label(0)));

    let mut copy = left.clone_fact();
    assert!(!copy.join(&left, Label(0)));
}

#[test]
fn used_vars_remove_kills() {
    let mut vars = UsedVars::new();
    vars.insert_var(Var(3));
    assert!(vars.contains_var(Var(3)));
    vars.remove_var(Var(3));
    assert!(!vars.contains_var(Var(3)));
    // Removing what was never there changes nothing.
    vars.remove_var(Var(9));
    assert!(!vars.contains_var(Var(9)));
}

#[test]
fn arithmetic_folds_exactly() {
    assert_eq!(eval_arith(Arith::Add, 2, 3), 5);
    assert_eq!(eval_arith(Arith::Add, usize::MAX, 1), 0);
    assert_eq!(eval_arith(Arith::Sub, 7, 5), 2);
    assert_eq!(eval_arith(Arith::Sub, 0, 1), usize::MAX);
    assert_eq!(eval_arith(Arith::And, 6, 3), 2);
    assert_eq!(eval_arith(Arith::Or, 6, 3), 7);
}

#[test]
fn distribute_facts_covers_every_successor() {
    let mut fact = ConstFact::new();
    fact.set(Var(1), Constant(4));

    let cond = RiscExit::Cond(
        dataflow::dataflow::risc::Cond::Eq,
        Var(0),
        Var(1),
        Label(3),
        Label(4),
    );
    let fb = distribute_facts::<RiscLanguage, ConstFact>(&cond, &fact);
    assert_eq!(fb.get(Label(3)).unwrap().get_const(Var(1)), Some(Constant(4)));
    assert_eq!(fb.get(Label(4)).unwrap().get_const(Var(1)), Some(Constant(4)));
    assert!(fb.get(Label(5)).is_none());

    let ret = RiscExit::Ret;
    let none = distribute_facts::<RiscLanguage, ConstFact>(&ret, &fact);
    assert_eq!(none.keys().len(), 0);
}
