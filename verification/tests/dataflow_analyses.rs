use bril_passes::available_expr::{AvailableExpr, Expr, ExprSet};
use bril_passes::basic_block::BasicBlock;
use bril_passes::cfg::CFG;
use bril_passes::const_prop::{ConstMap, ConstProp, Value};
use bril_passes::dataflow::{solve, solve_from, DataflowEngine, DataflowPass};
use bril_passes::dominators::DominatorPass;
use bril_passes::float::FloatQuery;
use bril_passes::ir::{
    Argument, Code, ConstOps, EffectOps, Function, Instruction, Literal, Type, ValueOps,
};
use bril_passes::live_vars::LiveVars;
use bril_passes::names::NameSet;
use bril_passes::passes::PassError;
use bril_passes::reaching_defs::{Definition, ReachingDefs};
use bril_passes::vec_set::VecSet;
use linked_hash_set::LinkedHashSet;

fn s(x: &str) -> String {
    x.to_string()
}

fn names(xs: &[&str]) -> Vec<String> {
    xs.iter().map(|x| x.to_string()).collect()
}

fn konst(dest: &str, value: i64) -> Instruction {
    Instruction::Constant {
        dest: s(dest),
        op: ConstOps::Const,
        pos: None,
        const_type: Type::Int,
        value: Literal::Int(value),
    }
}

fn value(op: ValueOps, dest: &str, args: &[&str]) -> Instruction {
    Instruction::Value {
        args: names(args),
        dest: s(dest),
        funcs: vec![],
        labels: vec![],
        op,
        pos: None,
        op_type: Type::Int,
    }
}

fn effect(op: EffectOps, args: &[&str], labels: &[&str]) -> Instruction {
    Instruction::Effect { args: names(args), funcs: vec![], labels: names(labels), op, pos: None }
}

fn label(l: &str) -> Code {
    Code::Label { label: s(l), pos: None }
}

fn ins(i: Instruction) -> Code {
    Code::Instruction(i)
}

fn func(args: &[&str], codes: Vec<Code>) -> Function {
    Function {
        args: args.iter().map(|a| Argument { name: s(a), arg_type: Type::Bool }).collect(),
        instrs: codes,
        name: s("main"),
        pos: None,
        return_type: None,
    }
}

fn no_floats(_q: FloatQuery) -> Literal {
    Literal::Float(0)
}

fn diamond() -> Function {
    func(
        &["c"],
        vec![
            ins(konst("x", 1)),
            ins(effect(EffectOps::Branch, &["c"], &["L1", "L2"])),
            label("L1"),
            ins(konst("x", 2)),
            ins(effect(EffectOps::Jump, &[], &["L3"])),
            label("L2"),
            ins(konst("x", 3)),
            ins(effect(EffectOps::Jump, &[], &["L3"])),
            label("L3"),
            ins(effect(EffectOps::Print, &["x"], &[])),
        ],
    )
}

fn has_def(v: &VecSet<Definition>, name: &str, block: usize) -> bool {
    v.contains(&Definition { name: s(name), block })
}

fn name_set(xs: &[&str]) -> NameSet {
    let mut r = NameSet::new();
    for x in xs {
        r.insert(s(x));
    }
    r
}

fn set(xs: &[usize]) -> LinkedHashSet<usize> {
    xs.iter().copied().collect()
}

#[test]
fn reaching_definitions_meet_at_the_join() {
    let df = solve(&ReachingDefs, CFG::from_function(diamond()).unwrap(), 1000).unwrap();
    let at_join = &df.in_vals[3];
    assert!(has_def(at_join, "x", 1));
    assert!(has_def(at_join, "x", 2));
    assert!(!has_def(at_join, "x", 0));
    assert!(has_def(at_join, "c", 0));
    assert_eq!(at_join.items.len(), 3);
    assert!(has_def(&df.in_vals[0], "c", 0));
    assert_eq!(df.in_vals[0].items.len(), 1);
    assert!(has_def(&df.out_vals[0], "x", 0));
    assert!(has_def(&df.exit_val, "x", 1));
    assert_eq!(df.exit_val.items.len(), 3);
}

#[test]
fn reaching_definitions_kill_and_generate() {
    let block = BasicBlock::new(4, None, vec![konst("x", 1), effect(EffectOps::Print, &["y"], &[])]);
    let mut input: VecSet<Definition> = VecSet::new();
    input.insert(Definition { name: s("x"), block: 0 });
    input.insert(Definition { name: s("y"), block: 1 });
    let out = ReachingDefs.transfer(&block, &input).unwrap();
    assert!(has_def(&out, "x", 4));
    assert!(has_def(&out, "y", 1));
    assert!(!has_def(&out, "x", 0));
    assert_eq!(out.items.len(), 2);
}

#[test]
fn live_variables_flow_backwards() {
    let f = func(
        &["c"],
        vec![
            ins(konst("a", 1)),
            ins(konst("b", 2)),
            ins(effect(EffectOps::Branch, &["c"], &["L1", "L2"])),
            label("L1"),
            ins(effect(EffectOps::Print, &["a"], &[])),
            ins(effect(EffectOps::Return, &[], &[])),
            label("L2"),
            ins(effect(EffectOps::Print, &["b"], &[])),
            ins(effect(EffectOps::Return, &[], &[])),
        ],
    );
    let df = solve(&LiveVars, CFG::from_function(f).unwrap(), 1000).unwrap();
    assert!(df.cfg.reversed());
    // For a backward analysis the value after transfer is the one at the
    // top of the block.
    assert!(df.out_vals[1].same_set(&name_set(&["a"])));
    assert!(df.out_vals[2].same_set(&name_set(&["b"])));
    assert!(df.in_vals[0].same_set(&name_set(&["a", "b"])));
    assert!(df.out_vals[0].same_set(&name_set(&["c"])));
}

#[test]
fn live_variables_of_one_block() {
    let block = BasicBlock::new(
        0,
        None,
        vec![value(ValueOps::Add, "x", &["x", "y"]), konst("z", 1), effect(EffectOps::Print, &["z"], &[])],
    );
    let out = LiveVars.transfer(&block, &name_set(&["w", "z"])).unwrap();
    assert!(out.same_set(&name_set(&["w", "x", "y"])));
}

#[test]
fn constants_propagate_and_conflicts_become_any() {
    let pass = ConstProp { float: no_floats };
    let df = solve(&pass, CFG::from_function(diamond()).unwrap(), 1000).unwrap();
    assert_eq!(df.out_vals[0].get(&s("x")), Some(Value::Const(Literal::Int(1))));
    assert_eq!(df.out_vals[1].get(&s("x")), Some(Value::Const(Literal::Int(2))));
    assert_eq!(df.in_vals[3].get(&s("x")), Some(Value::Any));
    assert_eq!(df.in_vals[3].get(&s("c")), None);
}

#[test]
fn constants_fold_from_what_is_known_at_the_instruction() {
    let pass = ConstProp { float: no_floats };
    let mut input = ConstMap::new();
    input.insert(s("a"), Value::Const(Literal::Int(2)));
    input.insert(s("b"), Value::Const(Literal::Int(3)));
    input.insert(s("u"), Value::Any);
    let block = BasicBlock::new(
        0,
        None,
        vec![
            value(ValueOps::Add, "c", &["a", "b"]),
            value(ValueOps::Add, "d", &["a", "u"]),
            value(ValueOps::Add, "e", &["c", "a"]),
        ],
    );
    let out = pass.transfer(&block, &input).unwrap();
    assert_eq!(out.get(&s("c")), Some(Value::Const(Literal::Int(5))));
    assert_eq!(out.get(&s("d")), Some(Value::Any));
    assert_eq!(out.get(&s("e")), Some(Value::Const(Literal::Int(7))));
    assert_eq!(out.get(&s("a")), Some(Value::Const(Literal::Int(2))));
}

#[test]
fn constants_of_one_block_build_on_each_other() {
    let pass = ConstProp { float: no_floats };
    let block = BasicBlock::new(0, None, vec![konst("a", 1), value(ValueOps::Add, "b", &["a", "a"])]);
    let out = pass.transfer(&block, &ConstMap::new()).unwrap();
    assert_eq!(out.get(&s("a")), Some(Value::Const(Literal::Int(1))));
    assert_eq!(out.get(&s("b")), Some(Value::Const(Literal::Int(2))));
}

#[test]
fn new_binding_takes_the_place_of_the_one_that_entered() {
    let pass = ConstProp { float: no_floats };
    let mut input = ConstMap::new();
    input.insert(s("a"), Value::Const(Literal::Int(1)));
    let block = BasicBlock::new(0, None, vec![konst("a", 2), value(ValueOps::Id, "b", &["a"])]);
    let out = pass.transfer(&block, &input).unwrap();
    assert_eq!(out.get(&s("a")), Some(Value::Const(Literal::Int(2))));
    assert_eq!(out.get(&s("b")), Some(Value::Const(Literal::Int(2))));
}

#[test]
fn constant_propagation_reports_a_failed_fold() {
    let pass = ConstProp { float: no_floats };
    let mut input = ConstMap::new();
    input.insert(s("a"), Value::Const(Literal::Int(2)));
    input.insert(s("z"), Value::Const(Literal::Int(0)));
    let block = BasicBlock::new(0, None, vec![value(ValueOps::Div, "c", &["a", "z"])]);
    assert!(matches!(
        pass.transfer(&block, &input),
        Err(PassError::Fold(bril_passes::fold::FoldError::DivisionByZero))
    ));
}

#[test]
fn join_of_maps_keeps_what_agrees() {
    let pass = ConstProp { float: no_floats };
    let mut a = ConstMap::new();
    a.insert(s("x"), Value::Const(Literal::Int(1)));
    a.insert(s("y"), Value::Const(Literal::Int(2)));
    let mut b = ConstMap::new();
    b.insert(s("x"), Value::Const(Literal::Int(1)));
    b.insert(s("y"), Value::Const(Literal::Int(3)));
    b.insert(s("z"), Value::Any);
    let m = pass.meet(&vec![a, b]);
    assert_eq!(m.get(&s("x")), Some(Value::Const(Literal::Int(1))));
    assert_eq!(m.get(&s("y")), Some(Value::Any));
    assert_eq!(m.get(&s("z")), Some(Value::Any));
    assert_eq!(m.get(&s("w")), None);
}

#[test]
fn available_expressions_come_and_go() {
    let first = BasicBlock::new(
        0,
        None,
        vec![value(ValueOps::Add, "a", &["x", "y"]), value(ValueOps::Add, "b", &["x", "y"])],
    );
    let out = AvailableExpr.transfer(&first, &ExprSet::empty()).unwrap();
    let add = Expr::Op(ValueOps::Add, names(&["x", "y"]));
    match &out {
        ExprSet::Finite(set) => {
            assert!(set.contains(&add));
            assert_eq!(set.items.len(), 1);
        }
        ExprSet::Full => panic!("the set is finite"),
    }
    let second = BasicBlock::new(1, None, vec![konst("x", 1)]);
    let after = AvailableExpr.transfer(&second, &out).unwrap();
    match &after {
        ExprSet::Finite(set) => {
            assert!(!set.contains(&add));
            assert!(set.contains(&Expr::Const(Literal::Int(1))));
        }
        ExprSet::Full => panic!("the set is finite"),
    }
}

#[test]
fn available_expressions_meet_by_intersection() {
    let mut a = ExprSet::empty();
    a.insert(Expr::Op(ValueOps::Add, names(&["x", "y"])));
    a.insert(Expr::Op(ValueOps::Mul, names(&["x", "y"])));
    let mut b = ExprSet::empty();
    b.insert(Expr::Op(ValueOps::Add, names(&["x", "y"])));
    let m = AvailableExpr.meet(&vec![ExprSet::full(), a, b]);
    match &m {
        ExprSet::Finite(set) => {
            assert!(set.contains(&Expr::Op(ValueOps::Add, names(&["x", "y"]))));
            assert!(!set.contains(&Expr::Op(ValueOps::Mul, names(&["x", "y"]))));
        }
        ExprSet::Full => panic!("the set is finite"),
    }
    assert!(matches!(AvailableExpr.meet(&vec![]), ExprSet::Full));
    assert!(Expr::Op(ValueOps::Add, names(&["x", "y"])).contains(&s("y")));
    assert!(!Expr::Const(Literal::Int(1)).contains(&s("y")));
}

#[test]
fn impure_instructions_are_no_expressions() {
    assert_eq!(Expr::new(&effect(EffectOps::Print, &["x"], &[])), None);
    assert_eq!(Expr::new(&value(ValueOps::Call, "a", &[])), None);
    assert_eq!(Expr::new(&konst("a", 4)), Some(Expr::Const(Literal::Int(4))));
}

#[test]
fn dominator_sets_of_the_diamond() {
    let df = solve(&DominatorPass, CFG::from_function(diamond()).unwrap(), 1000).unwrap();
    assert_eq!(df.out_vals[0], set(&[0]));
    assert_eq!(df.out_vals[1], set(&[0, 1]));
    assert_eq!(df.out_vals[3], set(&[0, 3]));
    assert_eq!(df.in_vals[3], set(&[0]));
    assert_eq!(df.exit_val, set(&[0, 3]));
}

#[test]
fn fixed_point_does_not_depend_on_the_order() {
    let orders: Vec<Vec<usize>> =
        vec![vec![0, 1, 2, 3], vec![3, 2, 1, 0], vec![2, 0, 3, 1], vec![1, 3, 0, 2, 1]];
    let base = solve(&DominatorPass, CFG::from_function(diamond()).unwrap(), 1000).unwrap();
    for order in orders {
        let cfg = CFG::from_function(diamond()).unwrap();
        let df = solve_from(&DominatorPass, cfg, order, 1000).unwrap();
        assert_eq!(df.in_vals, base.in_vals);
        assert_eq!(df.out_vals, base.out_vals);
        assert_eq!(df.exit_val, base.exit_val);
    }
}

#[test]
fn budget_ends_an_iteration_that_does_not_settle() {
    // x and y exchange what is known of them on every turn of the loop.
    let f = func(
        &[],
        vec![
            ins(konst("x", 1)),
            label("loop"),
            ins(value(ValueOps::Id, "t", &["x"])),
            ins(value(ValueOps::Id, "x", &["y"])),
            ins(value(ValueOps::Id, "y", &["t"])),
            ins(effect(EffectOps::Jump, &[], &["loop"])),
        ],
    );
    let pass = ConstProp { float: no_floats };
    let r = solve(&pass, CFG::from_function(f.clone()).unwrap(), 0);
    assert!(matches!(r, Err(PassError::Diverged)));
    let r = solve(&pass, CFG::from_function(f).unwrap(), 1);
    assert!(matches!(r, Err(PassError::Diverged)));
}

#[test]
fn empty_function_settles_at_once() {
    let df = solve(&ReachingDefs, CFG::from_function(func(&["a"], vec![])).unwrap(), 0).unwrap();
    assert_eq!(df.in_vals.len(), 0);
    assert!(df.exit_val.items.is_empty());
}

#[test]
fn reaching_definitions_start_from_nothing() {
    let f = func(
        &["a"],
        vec![
            ins(effect(EffectOps::Jump, &[], &["B1"])),
            label("B1"),
            ins(konst("a", 1)),
            ins(effect(EffectOps::Jump, &[], &["L"])),
            label("L"),
            ins(effect(EffectOps::Jump, &[], &["L2"])),
            label("L2"),
            ins(effect(EffectOps::Jump, &[], &["L"])),
        ],
    );
    let cfg = CFG::from_function(f).unwrap();
    assert_eq!(ReachingDefs.init(cfg.func()).items.len(), 0);
    let entry = ReachingDefs.entry(cfg.func());
    assert!(has_def(&entry, "a", 0));
    assert_eq!(entry.items.len(), 1);
    let df = solve(&ReachingDefs, cfg, 1000).unwrap();
    assert!(has_def(&df.in_vals[0], "a", 0));
    assert!(has_def(&df.out_vals[1], "a", 1));
    assert!(!has_def(&df.out_vals[1], "a", 0));
    for at in [&df.in_vals[2], &df.out_vals[2], &df.in_vals[3], &df.out_vals[3]] {
        assert!(has_def(at, "a", 1));
        assert!(!has_def(at, "a", 0));
        assert_eq!(at.items.len(), 1);
    }
}

#[test]
fn engine_runs_as_a_method_of_the_analysis() {
    let by_method = ReachingDefs.cfg(CFG::from_function(diamond()).unwrap(), 1000).unwrap();
    let by_function = solve(&ReachingDefs, CFG::from_function(diamond()).unwrap(), 1000).unwrap();
    assert_eq!(by_method.in_vals.len(), 4);
    for i in 0..4 {
        assert_eq!(by_method.in_vals[i].items.len(), by_function.in_vals[i].items.len());
        assert_eq!(by_method.out_vals[i].items.len(), by_function.out_vals[i].items.len());
    }
    assert!(has_def(&by_method.in_vals[3], "x", 1));
    assert!(has_def(&by_method.in_vals[3], "x", 2));
}
