use bril_passes::basic_block::{BasicBlock, ControlFlow};
use bril_passes::bb_function::BBFunction;
use bril_passes::call_graph::CallGraph;
use bril_passes::canonical::RemoveUnlabeledBlocks;
use bril_passes::cfg::{FlowEdge, CFG};
use bril_passes::dom_check::DomChecker;
use bril_passes::dominator_tree::DominatorTree;
use bril_passes::instr::InstrExt;
use bril_passes::ir::{
    Argument, Code, ConstOps, EffectOps, Function, Instruction, Literal, Program, Type, ValueOps,
};
use bril_passes::passes::PassError;
use bril_passes::tools::{CallDrawer, SubgraphTypes};
use linked_hash_set::LinkedHashSet;

fn s(x: &str) -> String {
    x.to_string()
}

fn names(xs: &[&str]) -> Vec<String> {
    xs.iter().map(|x| x.to_string()).collect()
}

fn konst(dest: &str, value: i64) -> Instruction {
    Instruction::Constant {
        dest: s(dest),
        op: ConstOps::Const,
        pos: None,
        const_type: Type::Int,
        value: Literal::Int(value),
    }
}

fn value(op: ValueOps, dest: &str, ty: Type, args: &[&str]) -> Instruction {
    Instruction::Value {
        args: names(args),
        dest: s(dest),
        funcs: vec![],
        labels: vec![],
        op,
        pos: None,
        op_type: ty,
    }
}

fn effect(op: EffectOps, args: &[&str], labels: &[&str]) -> Instruction {
    Instruction::Effect { args: names(args), funcs: vec![], labels: names(labels), op, pos: None }
}

fn call(dest: &str, callee: &str) -> Instruction {
    Instruction::Value {
        args: vec![],
        dest: s(dest),
        funcs: names(&[callee]),
        labels: vec![],
        op: ValueOps::Call,
        pos: None,
        op_type: Type::Int,
    }
}

fn label(l: &str) -> Code {
    Code::Label { label: s(l), pos: None }
}

fn ins(i: Instruction) -> Code {
    Code::Instruction(i)
}

fn func(name: &str, args: &[&str], codes: Vec<Code>) -> Function {
    Function {
        args: args.iter().map(|a| Argument { name: s(a), arg_type: Type::Bool }).collect(),
        instrs: codes,
        name: s(name),
        pos: None,
        return_type: None,
    }
}

fn set(xs: &[usize]) -> LinkedHashSet<usize> {
    xs.iter().copied().collect()
}

/// entry -> header -> body -> header, header -> exit
fn loop_function() -> Function {
    func(
        "main",
        &["c"],
        vec![
            label("entry"),
            ins(effect(EffectOps::Jump, &[], &["header"])),
            label("header"),
            ins(effect(EffectOps::Branch, &["c"], &["body", "exit"])),
            label("body"),
            ins(effect(EffectOps::Jump, &[], &["header"])),
            label("exit"),
            ins(effect(EffectOps::Return, &[], &[])),
        ],
    )
}

fn diamond() -> Function {
    func(
        "main",
        &["c"],
        vec![
            ins(konst("x", 1)),
            ins(effect(EffectOps::Branch, &["c"], &["L1", "L2"])),
            label("L1"),
            ins(konst("x", 2)),
            ins(effect(EffectOps::Jump, &[], &["L3"])),
            label("L2"),
            ins(konst("x", 3)),
            ins(effect(EffectOps::Jump, &[], &["L3"])),
            label("L3"),
            ins(effect(EffectOps::Print, &["x"], &[])),
        ],
    )
}

#[test]
fn instruction_facade_reads_and_writes_parts() {
    let mut i = value(ValueOps::Add, "c", Type::Int, &["a", "b"]);
    assert_eq!(i.args(), Some(names(&["a", "b"])));
    assert_eq!(i.dest(), Some(s("c")));
    assert_eq!(i.get_type(), Some(Type::Int));
    assert!(i.is_pure());
    assert!(i.is_commutative());
    i.set_args(names(&["x"]));
    i.set_dest(s("d"));
    assert_eq!(i, value(ValueOps::Add, "d", Type::Int, &["x"]));
    let k = konst("a", 1);
    assert_eq!(k.args(), None);
    assert!(k.is_pure());
    assert!(!k.is_commutative());
    let p = effect(EffectOps::Print, &["a"], &[]);
    assert_eq!(p.dest(), None);
    assert_eq!(p.get_type(), None);
    assert!(!p.is_pure());
    assert_eq!(p.branch(), None);
    assert_eq!(effect(EffectOps::Jump, &[], &["l"]).branch(), Some(names(&["l"])));
    assert_eq!(effect(EffectOps::Return, &["a"], &[]).branch(), Some(vec![]));
    assert!(!value(ValueOps::Sub, "c", Type::Int, &["a", "b"]).is_commutative());
    assert!(!value(ValueOps::Call, "c", Type::Int, &[]).is_pure());
}

#[test]
fn control_flow_becomes_a_terminator() {
    assert_eq!(
        ControlFlow::Jump(s("l")).into_instruction(),
        Some(effect(EffectOps::Jump, &[], &["l"]))
    );
    assert_eq!(
        ControlFlow::Branch(s("t"), s("f")).into_instruction(),
        Some(effect(EffectOps::Branch, &[], &["t", "f"]))
    );
    assert_eq!(
        ControlFlow::Return(s("v")).into_instruction(),
        Some(effect(EffectOps::Return, &["v"], &[]))
    );
    assert_eq!(ControlFlow::Fallthrough.into_instruction(), None);
    assert_eq!(ControlFlow::default(), ControlFlow::Fallthrough);
}

#[test]
fn block_keeps_the_terminator_apart() {
    let bb = BasicBlock::new(
        0,
        None,
        vec![konst("a", 1), effect(EffectOps::Jump, &[], &["l"]), konst("b", 2)],
    );
    assert_eq!(bb.instrs(), &vec![konst("a", 1), konst("b", 2)]);
    assert_eq!(bb.control_flow(), Some(&effect(EffectOps::Jump, &[], &["l"])));
    assert_eq!(
        bb.iter(),
        vec![konst("a", 1), konst("b", 2), effect(EffectOps::Jump, &[], &["l"])]
    );
    assert!(!bb.is_empty());
    assert!(bb.is_entry());
    assert_eq!(bb.label_or_default(), "entry");
    assert_eq!(bb.node_label(), "\"entry\"");
    assert_eq!(
        bb.flatten(),
        vec![ins(konst("a", 1)), ins(konst("b", 2)), ins(effect(EffectOps::Jump, &[], &["l"]))]
    );
}

#[test]
fn block_labels_and_insertion() {
    let mut bb = BasicBlock::new(3, None, vec![]);
    assert!(bb.is_empty());
    assert!(!bb.is_entry());
    assert_eq!(bb.label_or_default(), "?");
    bb.push(konst("a", 1));
    bb.insert(0, konst("b", 2));
    bb.insert(5, effect(EffectOps::Return, &[], &[]));
    assert_eq!(bb.instrs(), &vec![konst("b", 2), konst("a", 1)]);
    assert_eq!(bb.control_flow(), Some(&effect(EffectOps::Return, &[], &[])));
    let named = BasicBlock::new(2, Some(s("loop")), vec![]);
    assert_eq!(named.label_or_default(), "loop");
    assert_eq!(named.flatten(), vec![label("loop")]);
}

#[test]
fn function_is_cut_into_blocks() {
    let bb = BBFunction::new(diamond());
    assert_eq!(bb.len(), 4);
    assert!(!bb.is_empty());
    assert_eq!(bb.get(0).label, None);
    assert_eq!(bb.get(1).label, Some(s("L1")));
    assert_eq!(bb.get(3).idx, 3);
    assert_eq!(bb.get(0).instrs(), &vec![konst("x", 1)]);
    assert_eq!(bb.get(3).control_flow(), None);
    assert_eq!(bb.get_block_idx(&s("L2")), Some(2));
    assert_eq!(bb.get_block_idx(&s("nowhere")), None);
}

#[test]
fn cutting_and_flattening_gives_the_function_back() {
    let f = diamond();
    assert_eq!(BBFunction::from(f.clone()).into_function(), f);
    let g = loop_function();
    assert_eq!(BBFunction::from(g.clone()).into_function(), g);
}

#[test]
fn terminator_without_open_block_is_a_block_of_its_own() {
    let f = func(
        "f",
        &[],
        vec![
            ins(effect(EffectOps::Return, &[], &[])),
            ins(effect(EffectOps::Return, &[], &[])),
            ins(konst("a", 1)),
        ],
    );
    let bb = BBFunction::new(f);
    assert_eq!(bb.len(), 3);
    assert!(bb.get(0).is_empty());
    assert!(bb.get(1).is_empty());
    assert_eq!(bb.get(2).instrs(), &vec![konst("a", 1)]);
}

#[test]
fn later_block_wins_a_shared_label() {
    let f = func("f", &[], vec![label("a"), ins(konst("x", 1)), label("a"), ins(konst("y", 1))]);
    assert_eq!(BBFunction::new(f).get_block_idx(&s("a")), Some(1));
}

#[test]
fn flow_edge_lists_its_targets() {
    assert_eq!(FlowEdge::Exit.vec(), Vec::<usize>::new());
    assert_eq!(FlowEdge::Branch(1, 2).vec(), vec![1, 2]);
    assert_eq!(FlowEdge::Jump(7).vec(), vec![7]);
}

#[test]
fn graph_has_edges_and_their_reverse() {
    let cfg = CFG::from_function(diamond()).unwrap();
    assert_eq!(cfg.len(), 4);
    assert_eq!(cfg.name(), "main");
    assert_eq!(cfg.succs(0), vec![1, 2]);
    assert_eq!(cfg.succs(1), vec![3]);
    assert_eq!(cfg.succs(3), Vec::<usize>::new());
    assert_eq!(cfg.preds(3), vec![1, 2]);
    assert_eq!(cfg.preds(0), Vec::<usize>::new());
    assert!(cfg.is_entry(0));
    assert!(!cfg.is_entry(3));
    assert_eq!(cfg.exits(), vec![3]);
    assert!(!cfg.reversed());
    for i in 0..cfg.len() {
        for j in 0..cfg.len() {
            assert_eq!(cfg.succs(i).contains(&j), cfg.preds(j).contains(&i));
        }
    }
    let back = cfg.reverse();
    assert!(back.reversed());
    assert_eq!(back.succs(3), vec![1, 2]);
    assert_eq!(back.preds(0), vec![1, 2]);
    assert!(back.is_entry(3));
    assert!(!back.is_entry(0));
    assert_eq!(back.exits(), vec![3]);
}

#[test]
fn branch_to_one_block_counts_twice() {
    let f = func(
        "f",
        &["c"],
        vec![ins(effect(EffectOps::Branch, &["c"], &["a", "a"])), label("a"), ins(konst("x", 1))],
    );
    let cfg = CFG::from_function(f).unwrap();
    assert_eq!(cfg.preds(1), vec![0, 0]);
}

#[test]
fn block_without_terminator_falls_through() {
    let f = func("f", &[], vec![ins(konst("x", 1)), label("a"), ins(konst("y", 1))]);
    let cfg = CFG::from_function(f).unwrap();
    assert_eq!(cfg.succs(0), vec![1]);
    assert_eq!(cfg.succs(1), Vec::<usize>::new());
}

#[test]
fn unknown_label_is_reported() {
    let f = func("f", &[], vec![ins(konst("x", 1)), ins(effect(EffectOps::Jump, &[], &["gone"]))]);
    let e = CFG::from_function(f).unwrap_err();
    assert_eq!(e.block, 0);
    assert_eq!(e.label, Some(s("gone")));
    let g = func("f", &["c"], vec![label("a"), ins(effect(EffectOps::Branch, &["c"], &["a"]))]);
    let e = CFG::from_function(g).unwrap_err();
    assert_eq!(e.block, 0);
    assert_eq!(e.label, None);
}

#[test]
fn loop_has_the_expected_dominators() {
    let tree = DominatorTree::new(CFG::from_function(loop_function()).unwrap()).unwrap();
    assert_eq!(tree.len(), 4);
    assert_eq!(tree.immediate_dom(0), None);
    assert_eq!(tree.immediate_dom(1), Some(0));
    assert_eq!(tree.immediate_dom(2), Some(1));
    assert_eq!(tree.immediate_dom(3), Some(1));
    assert_eq!(tree.immediate_dom(4), Some(3));
    assert_eq!(tree.dominance_frontier(2), &set(&[1]));
    assert_eq!(tree.dominance_frontier(1), &set(&[1]));
    assert_eq!(tree.dominance_frontier(0), &set(&[]));
    assert_eq!(tree.dominance_frontier(3), &set(&[]));
    assert_eq!(tree.strict_doms(2), &set(&[0, 1]));
    assert_eq!(tree.dominators(2), set(&[0, 1, 2]));
    assert_eq!(tree.strict_doms(4), &set(&[0, 1, 3]));
    for i in 0..5 {
        assert!(!tree.strictly_dominates(i, i));
        assert!(tree.dominates(i, i));
    }
    assert!(tree.strictly_dominates(1, 2));
    assert!(tree.strictly_dominated_by(2, 1));
    assert!(!tree.strictly_dominates(2, 3));
    assert!(tree.dominates(0, 3));
    assert!(tree.dominated_by(3, 0));
    assert!(!tree.dominates(3, 0));
}

#[test]
fn diamond_has_the_expected_frontiers() {
    let tree = DominatorTree::new(CFG::from_function(diamond()).unwrap()).unwrap();
    assert_eq!(tree.dominance_frontier(1), &set(&[3]));
    assert_eq!(tree.dominance_frontier(2), &set(&[3]));
    assert_eq!(tree.dominance_frontier(0), &set(&[]));
    assert_eq!(tree.immediate_dom(3), Some(0));
    assert_eq!(tree.cfg().len(), 4);
}

#[test]
fn several_nearest_dominators_are_reported() {
    // Block 3 loops on itself and nothing leads to it: every block is in
    // its set, and two of them, 1 and 2, are nearest.
    let f = func(
        "f",
        &["c"],
        vec![
            ins(effect(EffectOps::Branch, &["c"], &["a", "b"])),
            label("a"),
            ins(effect(EffectOps::Return, &[], &[])),
            label("b"),
            ins(effect(EffectOps::Return, &[], &[])),
            label("d"),
            ins(effect(EffectOps::Jump, &[], &["d"])),
        ],
    );
    let r = DominatorTree::new(CFG::from_function(f).unwrap());
    assert!(matches!(r, Err(PassError::Tangled(3))));
}

#[test]
fn every_path_leads_through_the_dominators() {
    let tree = DominatorTree::new(CFG::from_function(loop_function()).unwrap()).unwrap();
    assert_eq!(DomChecker::check_tree(&tree), Ok(()));
    for i in 0..tree.len() {
        assert_eq!(DomChecker::check_paths(i, tree.cfg(), &tree.dominators(i)), Ok(()));
    }
    let wrong = set(&[0, 2, 3]);
    assert_eq!(
        DomChecker::check_paths(3, tree.cfg(), &wrong),
        Err(s("Not all dominators visited for path from 3 to 3"))
    );
}

#[test]
fn unlabelled_blocks_go() {
    let f = func(
        "f",
        &[],
        vec![
            ins(konst("a", 1)),
            ins(effect(EffectOps::Return, &[], &[])),
            ins(konst("dead", 2)),
            label("l"),
            ins(konst("b", 3)),
        ],
    );
    let out = RemoveUnlabeledBlocks::remove(f);
    assert_eq!(
        out.instrs,
        vec![
            ins(konst("a", 1)),
            ins(effect(EffectOps::Return, &[], &[])),
            label("l"),
            ins(konst("b", 3)),
        ]
    );
}

#[test]
fn call_graph_lists_callers_and_callees() {
    let main = func(
        "main",
        &[],
        vec![ins(call("a", "f")), ins(call("b", "g")), ins(call("c", "f"))],
    );
    let f = func("f", &[], vec![ins(call("a", "g"))]);
    let g = func("g", &[], vec![ins(konst("a", 1))]);
    let cg = CallGraph::new(Program { functions: vec![main, f, g] }).unwrap();
    assert_eq!(cg.len(), 3);
    assert!(!cg.is_empty());
    assert_eq!(cg.succs(&s("main")), &vec![1, 2]);
    assert_eq!(cg.succs(&s("f")), &vec![2]);
    assert_eq!(cg.succs(&s("g")), &Vec::<usize>::new());
    assert_eq!(cg.preds(&s("g")), &vec![0, 1]);
    assert_eq!(cg.preds(&s("main")), &Vec::<usize>::new());
    assert_eq!(cg.get(&s("f")).name, "f");
    assert_eq!(cg.index(&s("h")), None);
    assert_eq!(cg.prog().functions.len(), 3);
}

#[test]
fn call_of_a_missing_function_is_reported() {
    let main = func("main", &[], vec![ins(call("a", "nobody"))]);
    let e = CallGraph::new(Program { functions: vec![main] }).unwrap_err();
    assert_eq!(e.caller, 0);
    assert_eq!(e.name, "nobody");
}

#[test]
fn subgraph_kinds_are_read_from_words() {
    assert_eq!(SubgraphTypes::from_str("none"), Ok(SubgraphTypes::Plain));
    assert_eq!(SubgraphTypes::from_str("cfg"), Ok(SubgraphTypes::CFG));
    assert_eq!(SubgraphTypes::from_str("domtree"), Ok(SubgraphTypes::DominatorTree));
    assert_eq!(SubgraphTypes::from_str("dominatortree"), Ok(SubgraphTypes::DominatorTree));
    assert_eq!(SubgraphTypes::from_str("domsets"), Ok(SubgraphTypes::DominatorSets));
    assert_eq!(SubgraphTypes::from_str("dominatorsets"), Ok(SubgraphTypes::DominatorSets));
    assert_eq!(SubgraphTypes::from_str("tree"), Err(s("Unknown subgraph type: tree")));
    assert_eq!(CallDrawer::new(SubgraphTypes::CFG).sg_ty, SubgraphTypes::CFG);
}

#[test]
fn second_way_in_leaves_the_first_block_as_the_only_dominator() {
    let f = func(
        "main",
        &[],
        vec![
            ins(effect(EffectOps::Jump, &[], &["A"])),
            label("A"),
            ins(effect(EffectOps::Jump, &[], &["B"])),
            label("U"),
            ins(effect(EffectOps::Jump, &[], &["B"])),
            label("B"),
            ins(effect(EffectOps::Return, &[], &[])),
        ],
    );
    let tree = DominatorTree::new(CFG::from_function(f).unwrap()).unwrap();
    assert_eq!(tree.dominators(1), set(&[0, 1]));
    assert_eq!(tree.dominators(2), set(&[0, 2]));
    assert_eq!(tree.dominators(3), set(&[0, 3]));
    assert_eq!(tree.immediate_dom(0), None);
    assert_eq!(tree.immediate_dom(1), Some(0));
    assert_eq!(tree.immediate_dom(2), Some(0));
    assert_eq!(tree.immediate_dom(3), Some(0));
}
