use dataflow::dataflow::analysis::forward_analysis;
use dataflow::dataflow::dominator::{DominatorAnalysis, DominatorFact};
use dataflow::dataflow::graph::{BasicBlock, Graph, Label};
use dataflow::dataflow::lattice::Lattice;
use dataflow::dataflow::risc::{
    Arith, Cond, Constant, ConstantPropagation, ConstFact, RiscEntry, RiscExit, RiscInstruction,
    RiscLanguage, Var, WithTop,
};

fn loop_graph() -> (Graph<RiscLanguage>, Label, Label, Label) {
    let entry = Label(0);
    let loop_body = Label(1);
    let exit = Label(2);

    let block0: BasicBlock<RiscLanguage> = BasicBlock::new(
        RiscEntry::Label(entry),
        vec![
            RiscInstruction::Load(Var(0), Constant(0)),
            RiscInstruction::Load(Var(1), Constant(1)),
            RiscInstruction::Load(Var(2), Constant(5)),
        ],
        RiscExit::Jump(loop_body),
    );

    let block1 = BasicBlock::new(
        RiscEntry::Label(loop_body),
        vec![RiscInstruction::Arith(Arith::Sub, Var(2), Var(2), Var(1))],
        RiscExit::Cond(Cond::Eq, Var(2), Var(0), exit, loop_body),
    );

    let block2 = BasicBlock::new(RiscEntry::Label(exit), vec![], RiscExit::Ret);

    (Graph::from_blocks(vec![block0, block1, block2]), entry, loop_body, exit)
}

fn diamond_graph() -> Graph<RiscLanguage> {
    let block1: BasicBlock<RiscLanguage> =
        BasicBlock::new(RiscEntry::Label(Label(1)), vec![], RiscExit::Jump(Label(2)));

    let block2: BasicBlock<RiscLanguage> = BasicBlock::new(
        RiscEntry::Label(Label(2)),
        vec![],
        RiscExit::Cond(Cond::Eq, Var(0), Var(1), Label(3), Label(4)),
    );

    let block3: BasicBlock<RiscLanguage> =
        BasicBlock::new(RiscEntry::Label(Label(3)), vec![], RiscExit::Jump(Label(5)));

    let block4: BasicBlock<RiscLanguage> =
        BasicBlock::new(RiscEntry::Label(Label(4)), vec![], RiscExit::Jump(Label(5)));

    let block5: BasicBlock<RiscLanguage> =
        BasicBlock::new(RiscEntry::Label(Label(5)), vec![], RiscExit::Jump(Label(2)));

    Graph::from_blocks(vec![block1, block2, block3, block4, block5])
}

#[test]
fn constant_test() {
    let (graph, entry, _, _) = loop_graph();
    let mut analysis = ConstantPropagation;
    // Strictly speaking, we'd want an entry fact that had all vars as Top..
    let fact_base = forward_analysis(&mut analysis, &graph, entry, ConstFact::bottom()).unwrap();
    println!("{:?}", fact_base);
}

#[test]
fn dominator_test() {
    let graph = diamond_graph();
    let mut dom_analysis = DominatorAnalysis;
    let dominators =
        forward_analysis(&mut dom_analysis, &graph, Label(1), DominatorFact::bottom()).unwrap();

    println!("dominators {{");
    for label in dominators.keys() {
        println!("\t{:?}: {:?}", label, dominators.get(label).unwrap().dominates);
    }
    println!("}}");
}

#[test]
fn constant_propagation_loop_fixed_point() {
    let (graph, entry, loop_body, exit) = loop_graph();
    let mut analysis = ConstantPropagation;
    let fact_base = forward_analysis(&mut analysis, &graph, entry, ConstFact::bottom()).unwrap();

    // The accumulator is redefined each iteration, so it is not constant
    // at the loop body, while the loop's other variables keep their
    // loaded constants everywhere.
    let at_loop = fact_base.get(loop_body).unwrap();
    assert_eq!(at_loop.get_const(Var(0)), Some(Constant(0)));
    assert_eq!(at_loop.get_const(Var(1)), Some(Constant(1)));
    assert_eq!(at_loop.get(Var(2)), Some(WithTop::Top));

    let at_exit = fact_base.get(exit).unwrap();
    assert_eq!(at_exit.get_const(Var(0)), Some(Constant(0)));
    assert_eq!(at_exit.get_const(Var(1)), Some(Constant(1)));
    assert_eq!(at_exit.get(Var(2)), Some(WithTop::Top));
}

#[test]
fn dominator_diamond_paths() {
    let graph = diamond_graph();
    let mut dom_analysis = DominatorAnalysis;
    let fact_base =
        forward_analysis(&mut dom_analysis, &graph, Label(1), DominatorFact::bottom()).unwrap();

    // The merge point is reached through both arms, so only the common
    // path dominates it.
    let at5 = fact_base.get(Label(5)).unwrap();
    assert_eq!(at5.dominates, Some(vec![Label(1), Label(2)]));

    // A block on one arm is dominated by the path through it and itself.
    let at3 = fact_base.get(Label(3)).unwrap();
    let mut dominators_of_3 = at3.dominates.clone().unwrap();
    dominators_of_3.push(Label(3));
    assert_eq!(dominators_of_3, vec![Label(1), Label(2), Label(3)]);

    // The loop header is dominated by the entry and itself: the back edge
    // from the merge point cannot add to that.
    let at2 = fact_base.get(Label(2)).unwrap();
    let mut dominators_of_2 = at2.dominates.clone().unwrap();
    dominators_of_2.push(Label(2));
    assert_eq!(dominators_of_2, vec![Label(1), Label(2)]);
}

#[test]
fn rewrite_folds_known_constants() {
    // The arithmetic instruction's operands are both known constants, so
    // the client requests its replacement by a load of the folded value;
    // the engine re-analyzes the new load in place, and only that load
    // can have put the folded constant into the outgoing fact.
    let entry = Label(0);
    let stop = Label(1);
    let block0: BasicBlock<RiscLanguage> = BasicBlock::new(
        RiscEntry::Label(entry),
        vec![
            RiscInstruction::Load(Var(0), Constant(2)),
            RiscInstruction::Load(Var(1), Constant(3)),
            RiscInstruction::Arith(Arith::Add, Var(2), Var(0), Var(1)),
        ],
        RiscExit::Jump(stop),
    );
    let block1 = BasicBlock::new(RiscEntry::Label(stop), vec![], RiscExit::Ret);
    let graph = Graph::from_blocks(vec![block0, block1]);
    let mut analysis = ConstantPropagation;
    let fact_base = forward_analysis(&mut analysis, &graph, entry, ConstFact::bottom()).unwrap();

    let at_stop = fact_base.get(stop).unwrap();
    assert_eq!(at_stop.get_const(Var(2)), Some(Constant(5)));
}

#[test]
fn forward_terminates_on_cycle() {
    // Two blocks jumping at each other: the run still converges.
    let block1: BasicBlock<RiscLanguage> =
        BasicBlock::new(RiscEntry::Label(Label(1)), vec![], RiscExit::Jump(Label(2)));
    let block2: BasicBlock<RiscLanguage> =
        BasicBlock::new(RiscEntry::Label(Label(2)), vec![], RiscExit::Jump(Label(1)));
    let graph = Graph::from_blocks(vec![block1, block2]);
    let mut dom_analysis = DominatorAnalysis;
    let fact_base =
        forward_analysis(&mut dom_analysis, &graph, Label(1), DominatorFact::bottom()).unwrap();
    assert_eq!(fact_base.get(Label(2)).unwrap().dominates, Some(vec![Label(1)]));
}

#[test]
fn analysis_skips_labels_outside_the_graph() {
    // The exit jumps to a label no block of this sub-graph carries: the
    // engine treats it as an external target and still converges.
    let block1: BasicBlock<RiscLanguage> =
        BasicBlock::new(RiscEntry::Label(Label(1)), vec![], RiscExit::Jump(Label(9)));
    let graph = Graph::from_blocks(vec![block1]);
    let mut dom_analysis = DominatorAnalysis;
    let fact_base =
        forward_analysis(&mut dom_analysis, &graph, Label(1), DominatorFact::bottom()).unwrap();
    assert_eq!(fact_base.get(Label(9)).unwrap().dominates, Some(vec![Label(1)]));
}

#[test]
fn from_blocks_keeps_the_last_of_equal_labels() {
    let first: BasicBlock<RiscLanguage> =
        BasicBlock::new(RiscEntry::Label(Label(1)), vec![], RiscExit::Jump(Label(2)));
    let second: BasicBlock<RiscLanguage> =
        BasicBlock::new(RiscEntry::Label(Label(1)), vec![], RiscExit::Ret);
    let graph = Graph::from_blocks(vec![first, second]);
    let block = graph.get(Label(1)).unwrap();
    assert_eq!(block.successors(), Vec::<Label>::new());
}

#[test]
fn traversal_visits_each_label_once() {
    let graph = diamond_graph();
    let order = graph.post_order_traversal(Label(1));
    assert_eq!(order.len(), 5);
    for i in 0..order.len() {
        for j in 0..i {
            assert_ne!(order[i], order[j]);
        }
    }
    // Post-order: the start label comes last.
    assert_eq!(order[order.len() - 1], Label(1));
}

#[test]
fn direct_predecessors_of_the_merge_point() {
    let graph = diamond_graph();
    let mut preds = graph.direct_predecessors(Label(5));
    preds.sort_by_key(|l| l.0);
    assert_eq!(preds, vec![Label(3), Label(4)]);
    let preds_of_2 = graph.direct_predecessors(Label(2));
    assert_eq!(preds_of_2.len(), 2);
}

#[test]
fn entry_without_a_block_still_keeps_its_fact() {
    let graph: Graph<RiscLanguage> = Graph::from_blocks(vec![]);
    let mut dom_analysis = DominatorAnalysis;
    let fact_base =
        forward_analysis(&mut dom_analysis, &graph, Label(7), DominatorFact::bottom()).unwrap();
    assert!(fact_base.get(Label(7)).unwrap().dominates.is_none());
    assert_eq!(fact_base.keys().len(), 1);
}
