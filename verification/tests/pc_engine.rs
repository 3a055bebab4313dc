use dataflow::pc::analysis::{forward_analyze, AnalysisError};
use dataflow::pc::dominator::{DominatorAnalysis, DominatorFact};
use dataflow::pc::graph::Graph;
use dataflow::pc::instruction::{Label, Successors};
use dataflow::pc::risc::{ConstAnalysis, ConstFact, Risc, Var};

#[test]
fn constant_prop() {
    let code = vec![
        /* 00 */ Risc::Load(Var(0), 0),
        /* 01 */ Risc::Load(Var(1), 1),
        /* 02 */ Risc::Load(Var(2), 10),
        /* 03 */ Risc::Lt(Var(3), Var(0), Var(2)),
        /* 04 */ Risc::JumpZ(Var(3), Label::new(0, 0x08)),
        /* 05 */ Risc::Add(Var(4), Var(1), Var(1)),
        /* 06 */ Risc::Add(Var(0), Var(0), Var(4)),
        /* 07 */ Risc::Goto(Label::new(0, 0x03)),
        /* 08 */ Risc::Ret,
    ];

    let graph = Graph::new(code);
    let mut analysis = ConstAnalysis;

    let fact_base = forward_analyze(&mut analysis, &graph).unwrap();

    println!("{:?}", fact_base);
}

#[test]
fn constant_prop_loop_facts() {
    let code = vec![
        Risc::Load(Var(0), 0),
        Risc::Load(Var(1), 1),
        Risc::Load(Var(2), 10),
        Risc::Lt(Var(3), Var(0), Var(2)),
        Risc::JumpZ(Var(3), Label::new(0, 0x08)),
        Risc::Add(Var(4), Var(1), Var(1)),
        Risc::Add(Var(0), Var(0), Var(4)),
        Risc::Goto(Label::new(0, 0x03)),
        Risc::Ret,
    ];
    let graph = Graph::new(code);
    let mut analysis = ConstAnalysis;
    let fact_base = forward_analyze(&mut analysis, &graph).unwrap();

    // At the loop's comparison, the loop counter has seen two different
    // values, so it is known not constant; the bound keeps its loaded
    // constant, and nothing has said anything about the step's source,
    // since this client's loads hand on single-variable facts.
    let at_loop = fact_base.get(Label::new(0, 3)).unwrap();
    assert_eq!(at_loop.get(Var(0)), Some(None));
    assert_eq!(at_loop.get(Var(1)), None);
    assert_eq!(at_loop.get(Var(2)), Some(Some(10)));
}

#[test]
fn pc_dominators_follow_the_straight_line() {
    let code = vec![Risc::NoOp, Risc::NoOp, Risc::Ret];
    let graph = Graph::new(code);
    let mut analysis = DominatorAnalysis;
    let fact_base: dataflow::pc::fact_base::FactBase<DominatorFact> =
        forward_analyze(&mut analysis, &graph).unwrap();
    let at2 = fact_base.get(Label::new(0, 2)).unwrap();
    assert_eq!(at2.dominates, Some(vec![Label::new(0, 0), Label::new(0, 1)]));
}

#[test]
fn empty_program_is_inconsistent() {
    let graph: Graph<Risc> = Graph::new(vec![]);
    let mut analysis = ConstAnalysis;
    let r = forward_analyze::<ConstAnalysis, Risc, ConstFact>(&mut analysis, &graph);
    assert_eq!(r.err(), Some(AnalysisError::InconsistentGraph));
}

#[test]
fn running_off_the_program_is_inconsistent() {
    // The last instruction falls through past the end of the program.
    let graph = Graph::new(vec![Risc::NoOp]);
    let mut analysis = ConstAnalysis;
    let r = forward_analyze::<ConstAnalysis, Risc, ConstFact>(&mut analysis, &graph);
    assert_eq!(r.err(), Some(AnalysisError::InconsistentGraph));
}

#[test]
fn jump_outside_the_program_is_inconsistent() {
    let graph = Graph::new(vec![Risc::Goto(Label::new(0, 9))]);
    let mut analysis = ConstAnalysis;
    let r = forward_analyze::<ConstAnalysis, Risc, ConstFact>(&mut analysis, &graph);
    assert_eq!(r.err(), Some(AnalysisError::InconsistentGraph));
}

#[test]
fn every_reachable_instruction_is_analyzed() {
    // The first join reports no change, but the backlog still carries the
    // load, whose constant must reach the final instruction.
    let graph = Graph::new(vec![Risc::NoOp, Risc::Load(Var(0), 7), Risc::Ret]);
    let mut analysis = ConstAnalysis;
    let fact_base = forward_analyze(&mut analysis, &graph).unwrap();
    assert_eq!(fact_base.get(Label::new(0, 2)).unwrap().get(Var(0)), Some(Some(7)));
    assert_eq!(fact_base.get(Label::new(0, 1)).unwrap().get(Var(0)), None);
}

#[test]
fn next_pc_walks_the_root_region() {
    let graph = Graph::new(vec![Risc::NoOp, Risc::NoOp, Risc::Ret]);
    assert_eq!(graph.next_pc(Label::new(0, 0)), Some(Label::new(0, 1)));
    assert_eq!(graph.next_pc(Label::new(0, 1)), Some(Label::new(0, 2)));
    assert_eq!(graph.next_pc(Label::new(0, 2)), None);
}

#[test]
fn pc_traversal_visits_each_instruction_once() {
    let code = vec![
        Risc::Lt(Var(3), Var(0), Var(2)),
        Risc::JumpZ(Var(3), Label::new(0, 3)),
        Risc::Goto(Label::new(0, 0)),
        Risc::Ret,
    ];
    let graph = Graph::new(code);
    let order = graph.post_order_traversal(Label::new(0, 0));
    assert_eq!(order.len(), 4);
    for i in 0..order.len() {
        for j in 0..i {
            assert_ne!(order[i], order[j]);
        }
    }
}

#[test]
fn label_accessors() {
    let l = Label::new(3, 7);
    assert_eq!(l.sub_graph(), 3);
    assert_eq!(l.index(), 7);
}

#[test]
fn successor_constructors() {
    let f = Successors::fallthrough();
    assert!(f.fallthrough);
    assert!(f.jumps.is_empty());
    let c = Successors::conditional(vec![Label::new(0, 1)]);
    assert!(c.fallthrough);
    assert_eq!(c.jumps, vec![Label::new(0, 1)]);
    let h = Successors::halt();
    assert!(!h.fallthrough);
    assert!(h.jumps.is_empty());
    let g = Successors::goto(vec![Label::new(0, 2)]);
    assert!(!g.fallthrough);
    assert_eq!(g.jumps, vec![Label::new(0, 2)]);
}
