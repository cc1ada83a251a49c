use bril_passes::cfg::CFG;
use bril_passes::dominator_tree::DominatorTree;
use bril_passes::float::FloatQuery;
use bril_passes::ir::{
    Argument, Code, ConstOps, EffectOps, Function, Instruction, Literal, Program, Type, ValueOps,
};
use bril_passes::name_stack::NameStack;
use bril_passes::names::{NameMap, NameSet};
use bril_passes::passes::{run_analysis_pass, run_pass, PassError};
use bril_passes::phi::PhiNodes;
use bril_passes::splice::splice;
use bril_passes::ssa::ToSSA;
use bril_passes::ssa_lower::{FromSSA, SSACheck};
use bril_passes::text::{decimal_string, join_strings, starts_with};
use bril_passes::trace::{Trace, TraceError};

fn s(x: &str) -> String {
    x.to_string()
}

fn names(xs: &[&str]) -> Vec<String> {
    xs.iter().map(|x| x.to_string()).collect()
}

fn konst(dest: &str, value: i64) -> Instruction {
    Instruction::Constant {
        dest: s(dest),
        op: ConstOps::Const,
        pos: None,
        const_type: Type::Int,
        value: Literal::Int(value),
    }
}

fn value(op: ValueOps, dest: &str, ty: Type, args: &[&str]) -> Instruction {
    Instruction::Value {
        args: names(args),
        dest: s(dest),
        funcs: vec![],
        labels: vec![],
        op,
        pos: None,
        op_type: ty,
    }
}

fn int_op(op: ValueOps, dest: &str, args: &[&str]) -> Instruction {
    value(op, dest, Type::Int, args)
}

fn effect(op: EffectOps, args: &[&str], labels: &[&str]) -> Instruction {
    Instruction::Effect { args: names(args), funcs: vec![], labels: names(labels), op, pos: None }
}

fn call(dest: &str, callee: &str, args: &[&str]) -> Instruction {
    Instruction::Value {
        args: names(args),
        dest: s(dest),
        funcs: names(&[callee]),
        labels: vec![],
        op: ValueOps::Call,
        pos: None,
        op_type: Type::Int,
    }
}

fn label(l: &str) -> Code {
    Code::Label { label: s(l), pos: None }
}

fn ins(i: Instruction) -> Code {
    Code::Instruction(i)
}

fn arg(name: &str, ty: Type) -> Argument {
    Argument { name: s(name), arg_type: ty }
}

fn func(args: Vec<Argument>, codes: Vec<Code>) -> Function {
    Function { args, instrs: codes, name: s("main"), pos: None, return_type: None }
}

fn no_floats(_q: FloatQuery) -> Literal {
    Literal::Float(0)
}

fn diamond() -> Function {
    func(
        vec![arg("c", Type::Bool)],
        vec![
            ins(konst("x", 1)),
            ins(effect(EffectOps::Branch, &["c"], &["L1", "L2"])),
            label("L1"),
            ins(konst("x", 2)),
            ins(effect(EffectOps::Jump, &[], &["L3"])),
            label("L2"),
            ins(konst("x", 3)),
            ins(effect(EffectOps::Jump, &[], &["L3"])),
            label("L3"),
            ins(effect(EffectOps::Print, &["x"], &[])),
        ],
    )
}

fn diamond_in_ssa() -> Vec<Code> {
    vec![
        ins(konst("x.0.0", 1)),
        ins(effect(EffectOps::Branch, &["c"], &["L1", "L2"])),
        label("L1"),
        ins(konst("x.1.0", 2)),
        ins(effect(EffectOps::SetVar, &["x.3.shadow", "x.1.0"], &[])),
        ins(effect(EffectOps::Jump, &[], &["L3"])),
        label("L2"),
        ins(konst("x.2.0", 3)),
        ins(effect(EffectOps::SetVar, &["x.3.shadow", "x.2.0"], &[])),
        ins(effect(EffectOps::Jump, &[], &["L3"])),
        label("L3"),
        ins(value(ValueOps::Get, "x.3.shadow", Type::Int, &[])),
        ins(effect(EffectOps::Print, &["x.3.shadow"], &[])),
    ]
}

#[test]
fn made_up_names_are_spelt_out() {
    assert_eq!(NameStack::shadow_name(&s("x"), 3), "x.3.shadow");
    assert_eq!(NameStack::unique_name(&s("x"), 12, 0), "x.12.0");
    assert_eq!(decimal_string(0), "0");
    assert_eq!(decimal_string(907), "907");
    assert_eq!(decimal_string(usize::MAX), usize::MAX.to_string());
    assert_eq!(join_strings(&names(&["a", "b", "c"]), "_"), "a_b_c");
    assert_eq!(join_strings(&names(&["a"]), "_"), "a");
    assert_eq!(join_strings(&vec![], "_"), "");
    assert!(starts_with("__trace_x", "__trace"));
    assert!(!starts_with("_trace", "__trace"));
    assert!(starts_with("abc", ""));
}

#[test]
fn name_stack_gives_the_last_name() {
    let mut st = NameStack::new(&vec![arg("a", Type::Int)]);
    assert_eq!(st.get(&s("a")), Some(s("a")));
    assert_eq!(st.get(&s("b")), None);
    assert_eq!(st.push(&s("b"), s("b.0.0")), "b.0.0");
    assert_eq!(st.push(&s("a"), s("a.0.1")), "a.0.1");
    let saved = st.clone();
    st.push(&s("a"), s("a.1.0"));
    assert_eq!(st.get(&s("a")), Some(s("a.1.0")));
    assert_eq!(saved.get(&s("a")), Some(s("a.0.1")));
    assert_eq!(saved.get(&s("b")), Some(s("b.0.0")));
}

#[test]
fn named_collections_keep_their_order() {
    let mut m: NameMap<usize> = NameMap::new();
    assert!(m.insert(s("b"), 1));
    assert!(m.insert(s("a"), 2));
    assert!(!m.insert(s("b"), 3));
    assert_eq!(m.len(), 2);
    assert_eq!(m.key(0), "b");
    assert_eq!(m.value(0), &3);
    assert_eq!(m.get(&s("a")), Some(&2));
    assert_eq!(m.get(&s("c")), None);
    assert_eq!(m.index_of(&s("a")), Some(1));
    assert!(m.contains_key(&s("b")));
    let mut set = NameSet::new();
    assert!(set.insert(s("x")));
    assert!(set.insert(s("y")));
    assert!(!set.insert(s("x")));
    assert_eq!(set.len(), 2);
    assert_eq!(set.get(1), "y");
    assert!(set.contains(&s("x")));
    assert!(set.remove(&s("x")));
    assert!(!set.remove(&s("x")));
    assert_eq!(set.index_of(&s("y")), Some(0));
    assert!(set.subset_of(&set.dup()));
}

#[test]
fn merge_reader_is_placed_at_the_join() {
    let tree = DominatorTree::new(CFG::from_function(diamond()).unwrap()).unwrap();
    let phi = PhiNodes::new(&tree);
    assert_eq!(phi.get(3), vec![(s("x"), Type::Int)]);
    assert_eq!(phi.get(0), vec![]);
    assert_eq!(phi.get(1), vec![]);
    assert_eq!(phi.get(2), vec![]);
}

#[test]
fn loop_header_reads_what_the_loop_writes() {
    let f = func(
        vec![arg("c", Type::Bool)],
        vec![
            ins(konst("i", 0)),
            label("header"),
            ins(int_op(ValueOps::Add, "i", &["i", "i"])),
            ins(effect(EffectOps::Branch, &["c"], &["header", "exit"])),
            label("exit"),
            ins(effect(EffectOps::Print, &["i"], &[])),
        ],
    );
    let tree = DominatorTree::new(CFG::from_function(f.clone()).unwrap()).unwrap();
    let phi = PhiNodes::new(&tree);
    assert_eq!(phi.get(1), vec![(s("i"), Type::Int)]);
    assert_eq!(phi.get(2), vec![]);
    let out = ToSSA::to_ssa(f).unwrap();
    assert_eq!(
        out.instrs,
        vec![
            ins(konst("i.0.0", 0)),
            ins(effect(EffectOps::SetVar, &["i.1.shadow", "i.0.0"], &[])),
            label("header"),
            ins(value(ValueOps::Get, "i.1.shadow", Type::Int, &[])),
            ins(int_op(ValueOps::Add, "i.1.0", &["i.1.shadow", "i.1.shadow"])),
            ins(effect(EffectOps::SetVar, &["i.1.shadow", "i.1.0"], &[])),
            ins(effect(EffectOps::Branch, &["c"], &["header", "exit"])),
            label("exit"),
            ins(effect(EffectOps::Print, &["i.1.0"], &[])),
        ]
    );
    assert_eq!(SSACheck::check(&out), Ok(()));
}

#[test]
fn diamond_goes_into_ssa_form_and_out_again() {
    let out = ToSSA::to_ssa(diamond()).unwrap();
    assert_eq!(out.instrs, diamond_in_ssa());
    assert_eq!(out.args, vec![arg("c", Type::Bool)]);
    assert_eq!(SSACheck::check(&out), Ok(()));
    let back = FromSSA::from_ssa(out).unwrap();
    assert_eq!(
        back.instrs,
        vec![
            ins(konst("x.0.0", 1)),
            ins(effect(EffectOps::Branch, &["c"], &["L1", "L2"])),
            label("L1"),
            ins(konst("x.1.0", 2)),
            ins(int_op(ValueOps::Id, "x.3.shadow", &["x.1.0"])),
            ins(effect(EffectOps::Jump, &[], &["L3"])),
            label("L2"),
            ins(konst("x.2.0", 3)),
            ins(int_op(ValueOps::Id, "x.3.shadow", &["x.2.0"])),
            ins(effect(EffectOps::Jump, &[], &["L3"])),
            label("L3"),
            ins(effect(EffectOps::Print, &["x.3.shadow"], &[])),
        ]
    );
}

#[test]
fn labelled_entry_gets_an_empty_block_before_it() {
    let f = func(
        vec![],
        vec![
            label("top"),
            ins(konst("a", 1)),
            ins(effect(EffectOps::Jump, &[], &["top"])),
        ],
    );
    let out = ToSSA::to_ssa(f).unwrap();
    assert_eq!(
        out.instrs,
        vec![
            ins(value(ValueOps::Undef, "a", Type::Int, &[])),
            ins(effect(EffectOps::SetVar, &["a.1.shadow", "a"], &[])),
            label("top"),
            ins(value(ValueOps::Get, "a.1.shadow", Type::Int, &[])),
            ins(konst("a.1.0", 1)),
            ins(effect(EffectOps::SetVar, &["a.1.shadow", "a.1.0"], &[])),
            ins(effect(EffectOps::Jump, &[], &["top"])),
        ]
    );
}

#[test]
fn read_before_write_is_seeded_as_undefined() {
    let f = func(
        vec![],
        vec![ins(effect(EffectOps::Print, &["late"], &[])), ins(konst("late", 1))],
    );
    let out = ToSSA::to_ssa(f).unwrap();
    assert_eq!(
        out.instrs,
        vec![
            ins(value(ValueOps::Undef, "late", Type::Int, &[])),
            ins(effect(EffectOps::Print, &["late"], &[])),
            ins(konst("late.0.1", 1)),
        ]
    );
}

#[test]
fn ssa_construction_refuses_what_it_cannot_do() {
    assert_eq!(ToSSA::to_ssa(func(vec![], vec![])), Err(PassError::Malformed));
    let lost = func(vec![], vec![ins(konst("a", 1)), ins(effect(EffectOps::Jump, &[], &["gone"]))]);
    assert_eq!(ToSSA::to_ssa(lost), Err(PassError::Label(0)));
    let untyped = func(vec![], vec![ins(effect(EffectOps::Print, &["never"], &[]))]);
    assert_eq!(ToSSA::to_ssa(untyped), Err(PassError::Untyped));
}

#[test]
fn leaving_ssa_form_refuses_bad_writes() {
    let short = func(vec![], vec![ins(effect(EffectOps::SetVar, &["a"], &[]))]);
    assert_eq!(FromSSA::from_ssa(short), Err(PassError::Malformed));
    let untyped = func(vec![], vec![ins(effect(EffectOps::SetVar, &["a", "b"], &[]))]);
    assert_eq!(FromSSA::from_ssa(untyped), Err(PassError::Untyped));
}

#[test]
fn second_write_is_reported() {
    let f = func(vec![], vec![ins(konst("a", 1)), ins(konst("b", 1)), ins(konst("a", 2))]);
    assert_eq!(SSACheck::check(&f), Err(s("Variable a was assigned more than once")));
    let mut check = SSACheck;
    let prog = Program { functions: vec![diamond_as_function(), f] };
    assert_eq!(
        run_analysis_pass(&mut check, &prog),
        Err(s("Variable a was assigned more than once"))
    );
    let good = Program { functions: vec![diamond_as_function()] };
    assert_eq!(run_analysis_pass(&mut check, &good), Ok(()));
}

fn diamond_as_function() -> Function {
    func(vec![arg("c", Type::Bool)], diamond_in_ssa())
}

#[test]
fn passes_over_a_program_stop_at_the_first_failure() {
    let mut pass = ToSSA;
    let bad = func(vec![], vec![]);
    let prog = Program { functions: vec![diamond(), bad, diamond()] };
    assert_eq!(run_pass(&mut pass, prog), Err(PassError::Malformed));
    let prog = Program { functions: vec![diamond()] };
    assert_eq!(run_pass(&mut pass, prog).unwrap().functions[0].instrs, diamond_in_ssa());
}

#[test]
fn names_under_calls_are_marked() {
    assert_eq!(Trace::prefix_name(&s("x"), &vec![]), "x");
    assert_eq!(Trace::prefix_name(&s("x"), &names(&["f"])), "__trace_f_x");
    assert_eq!(Trace::prefix_name(&s("x"), &names(&["f", "g"])), "__trace_f_g_x");
}

#[test]
fn branch_becomes_a_guard_that_holds() {
    let mut t = Trace::new(10);
    let br = effect(EffectOps::Branch, &["c"], &["then", "else"]);
    assert_eq!(t.push(&konst("x", 3), false, &vec![]), Ok(()));
    assert_eq!(t.push(&br, true, &vec![]), Ok(()));
    assert_eq!(t.push(&br, false, &vec![]), Ok(()));
    assert_eq!(
        t.instrs,
        vec![
            konst("x", 3),
            value(ValueOps::Id, "__trace1_cond", Type::Bool, &["c"]),
            effect(EffectOps::Guard, &["__trace1_cond"], &["__trace_failed"]),
            value(ValueOps::Not, "__trace3_cond", Type::Bool, &["c"]),
            effect(EffectOps::Guard, &["__trace3_cond"], &["__trace_failed"]),
        ]
    );
    assert!(!t.done());
}

#[test]
fn calls_are_inlined_under_their_names() {
    let mut t = Trace::new(100);
    let formals = vec![arg("n", Type::Int), arg("m", Type::Bool)];
    assert_eq!(t.push(&call("r", "f", &["a", "b", "extra"]), false, &formals), Ok(()));
    assert_eq!(t.prefix, names(&["f"]));
    assert_eq!(t.return_destinations, vec![(s("r"), Type::Int)]);
    assert_eq!(t.push(&int_op(ValueOps::Add, "s", &["n", "n"]), false, &vec![]), Ok(()));
    assert_eq!(t.push(&effect(EffectOps::Jump, &[], &["l"]), false, &vec![]), Ok(()));
    assert_eq!(t.push(&effect(EffectOps::Nop, &[], &[]), false, &vec![]), Ok(()));
    assert_eq!(t.push(&effect(EffectOps::Return, &["s"], &[]), false, &vec![]), Ok(()));
    assert_eq!(
        t.instrs,
        vec![
            value(ValueOps::Id, "__trace_f_n", Type::Int, &["a"]),
            value(ValueOps::Id, "__trace_f_m", Type::Bool, &["b"]),
            int_op(ValueOps::Add, "__trace_f_s", &["__trace_f_n", "__trace_f_n"]),
            effect(EffectOps::Nop, &[], &[]),
            int_op(ValueOps::Id, "r", &["__trace_f_s"]),
        ]
    );
    assert!(t.prefix.is_empty());
    assert!(t.return_destinations.is_empty());
}

#[test]
fn recorder_refuses_what_cannot_be_traced() {
    let refused = |i: Instruction| {
        let mut t = Trace::new(10);
        let r = t.push(&i, false, &vec![]);
        assert!(t.done());
        assert!(t.instrs.is_empty());
        r
    };
    assert_eq!(refused(effect(EffectOps::Print, &["a"], &[])), Err(TraceError::Impure));
    assert_eq!(refused(effect(EffectOps::Call, &[], &[])), Err(TraceError::Impure));
    assert_eq!(refused(value(ValueOps::Alloc, "p", Type::Int, &["n"])), Err(TraceError::Impure));
    assert_eq!(refused(effect(EffectOps::Store, &["p", "v"], &[])), Err(TraceError::Memory));
    assert_eq!(refused(effect(EffectOps::Free, &["p"], &[])), Err(TraceError::Memory));
    assert_eq!(refused(effect(EffectOps::Return, &["a"], &[])), Err(TraceError::Malformed));
    assert_eq!(refused(effect(EffectOps::Branch, &[], &["a", "b"])), Err(TraceError::Malformed));
    assert_eq!(refused(effect(EffectOps::Speculate, &[], &[])), Err(TraceError::Malformed));
    assert_eq!(refused(effect(EffectOps::Commit, &[], &[])), Err(TraceError::Malformed));
    assert_eq!(refused(effect(EffectOps::Guard, &["c"], &["l"])), Err(TraceError::Malformed));
}

#[test]
fn full_trace_and_ended_trace_take_nothing() {
    let mut t = Trace::new(1);
    assert_eq!(t.push(&konst("a", 1), false, &vec![]), Ok(()));
    assert_eq!(t.push(&konst("b", 1), false, &vec![]), Err(TraceError::Full));
    assert!(t.done());
    assert_eq!(t.instrs, vec![konst("a", 1)]);
    let mut u = Trace::new(5);
    assert_eq!(u.push(&effect(EffectOps::Print, &[], &[]), false, &vec![]), Err(TraceError::Impure));
    assert_eq!(u.push(&konst("a", 1), false, &vec![]), Err(TraceError::Done));
    assert!(u.instrs.is_empty());
    let mut z = Trace::new(0);
    assert_eq!(z.push(&konst("a", 1), false, &vec![]), Err(TraceError::Full));
}

#[test]
fn failures_are_reported_in_words() {
    assert_eq!(TraceError::Full.message(), "Trace is full");
    assert_eq!(TraceError::Done.message(), "Trace is already done");
    assert_eq!(TraceError::Impure.message(), "Attempted to trace non-pure instruction");
    assert_eq!(TraceError::Memory.message(), "Memory operations cannot be traced");
    assert_eq!(TraceError::Malformed.message(), "Instruction cannot be traced");
}

#[test]
fn trace_of_the_taken_branch_is_cleaned_and_spliced() {
    let main = vec![
        ins(konst("x", 3)),
        ins(effect(EffectOps::Branch, &["c"], &["then", "else"])),
        label("then"),
        ins(int_op(ValueOps::Add, "y", &["x", "x"])),
        ins(effect(EffectOps::Return, &["y"], &[])),
        label("else"),
        ins(effect(EffectOps::Return, &["x"], &[])),
    ];
    let mut t = Trace::new(100);
    assert_eq!(t.push(&konst("x", 3), true, &vec![]), Ok(()));
    assert_eq!(
        t.push(&effect(EffectOps::Branch, &["c"], &["then", "else"]), true, &vec![]),
        Ok(())
    );
    assert_eq!(t.push(&int_op(ValueOps::Add, "y", &["x", "x"]), true, &vec![]), Ok(()));
    // The interpreter halts at `ret y`: one label on, one line into the block.
    assert_eq!(
        t.push(&effect(EffectOps::Return, &["y"], &[]), true, &vec![]),
        Err(TraceError::Malformed)
    );
    let trace = t.take(no_floats).unwrap();
    let expected = vec![
        ins(effect(EffectOps::Speculate, &[], &[])),
        ins(konst("x", 3)),
        ins(value(ValueOps::Id, "__trace1_cond", Type::Bool, &["c"])),
        ins(effect(EffectOps::Guard, &["__trace1_cond"], &["__trace_failed"])),
        ins(konst("y", 6)),
        ins(effect(EffectOps::Commit, &[], &[])),
        ins(effect(EffectOps::Jump, &[], &["__trace_succeeded"])),
        label("__trace_failed"),
    ];
    assert_eq!(trace, expected);
    let out = splice(main.clone(), trace, 1, 1);
    let mut whole = expected;
    whole.extend(main[..4].to_vec());
    whole.push(label("__trace_succeeded"));
    whole.extend(main[4..].to_vec());
    assert_eq!(out, whole);
}

#[test]
fn intermediate_names_of_the_trace_are_swept() {
    let mut t = Trace::new(100);
    let formals = vec![arg("n", Type::Int)];
    assert_eq!(t.push(&call("r", "f", &["a"]), false, &formals), Ok(()));
    assert_eq!(t.push(&int_op(ValueOps::Mul, "unused", &["n", "n"]), false, &vec![]), Ok(()));
    assert_eq!(t.push(&effect(EffectOps::Return, &["n"], &[]), false, &vec![]), Ok(()));
    let trace = t.take(no_floats).unwrap();
    assert_eq!(
        trace,
        vec![
            ins(effect(EffectOps::Speculate, &[], &[])),
            ins(int_op(ValueOps::Id, "__trace_f_n", &["a"])),
            ins(int_op(ValueOps::Id, "r", &["__trace_f_n"])),
            ins(effect(EffectOps::Commit, &[], &[])),
            ins(effect(EffectOps::Jump, &[], &["__trace_succeeded"])),
            label("__trace_failed"),
        ]
    );
}

#[test]
fn free_name_read_by_an_effect_has_no_type() {
    let mut t = Trace::new(100);
    assert_eq!(t.push(&effect(EffectOps::SetVar, &["s", "v"], &[]), false, &vec![]), Ok(()));
    assert_eq!(t.take(no_floats), Err(PassError::Untyped));
}

#[test]
fn label_goes_where_the_trace_leaves_off() {
    let main = vec![label("a"), ins(konst("x", 1)), label("b"), ins(konst("y", 2)), ins(konst("z", 3))];
    let mark = label("__trace_succeeded");
    let at = |bb: usize, ii: usize| splice(main.clone(), vec![], bb, ii);
    let with = |k: usize| {
        let mut v = main.clone();
        v.insert(k, mark.clone());
        v
    };
    assert_eq!(at(0, 0), with(0));
    assert_eq!(at(1, 0), with(1));
    assert_eq!(at(2, 0), with(3));
    assert_eq!(at(2, 1), with(4));
    // No line is left after two labels and two lines.
    assert_eq!(at(2, 2), main);
    // A label comes before the lines counted in the first block are through.
    assert_eq!(at(0, 1), main);
    assert_eq!(at(9, 0), main);
    assert_eq!(splice(vec![], vec![mark.clone()], 0, 0), vec![mark]);
}

#[test]
fn every_loop_variable_is_written_once_in_ssa_form() {
    let f = func(
        vec![arg("n", Type::Int)],
        vec![
            ins(konst("i", 0)),
            ins(konst("acc", 0)),
            label("head"),
            ins(value(ValueOps::Lt, "go", Type::Bool, &["i", "n"])),
            ins(effect(EffectOps::Branch, &["go"], &["body", "done"])),
            label("body"),
            ins(int_op(ValueOps::Add, "acc", &["acc", "i"])),
            ins(int_op(ValueOps::Add, "i", &["i", "i"])),
            ins(effect(EffectOps::Jump, &[], &["head"])),
            label("done"),
            ins(effect(EffectOps::Print, &["acc"], &[])),
        ],
    );
    assert_eq!(
        SSACheck::check(&f),
        Err(s("Variable acc was assigned more than once"))
    );
    let out = ToSSA::to_ssa(f).unwrap();
    assert_eq!(SSACheck::check(&out), Ok(()));
}

#[test]
fn block_without_a_way_in_is_renamed_below_the_first_block() {
    let f = func(
        vec![],
        vec![
            ins(konst("a", 1)),
            ins(effect(EffectOps::Return, &[], &[])),
            label("dead"),
            ins(konst("x", 1)),
            ins(konst("x", 2)),
        ],
    );
    let out = ToSSA::to_ssa(f).unwrap();
    assert_eq!(
        out.instrs,
        vec![
            ins(konst("a.0.0", 1)),
            ins(effect(EffectOps::Return, &[], &[])),
            label("dead"),
            ins(konst("x.1.0", 1)),
            ins(konst("x.1.1", 2)),
        ]
    );
    assert_eq!(SSACheck::check(&out), Ok(()));
}

#[test]
fn blocks_that_only_lead_to_each_other_keep_their_names() {
    let f = func(
        vec![],
        vec![
            ins(effect(EffectOps::Return, &[], &[])),
            label("a"),
            ins(konst("x", 1)),
            ins(konst("x", 2)),
            ins(effect(EffectOps::Jump, &[], &["b"])),
            label("b"),
            ins(effect(EffectOps::Jump, &[], &["a"])),
        ],
    );
    let tree = DominatorTree::new(CFG::from_function(f.clone()).unwrap()).unwrap();
    assert_eq!(tree.immediate_dom(0), None);
    assert_eq!(tree.immediate_dom(1), Some(2));
    assert_eq!(tree.immediate_dom(2), Some(1));
    let out = ToSSA::to_ssa(f.clone()).unwrap();
    assert_eq!(out.instrs, f.instrs);
    assert_eq!(
        SSACheck::check(&out),
        Err(s("Variable x was assigned more than once"))
    );
}

#[test]
fn name_with_dots_may_meet_a_made_up_name() {
    let f = func(
        vec![],
        vec![
            ins(konst("x", 1)),
            ins(effect(EffectOps::Print, &["x.0.0"], &[])),
            ins(konst("x.0.0", 2)),
        ],
    );
    let out = ToSSA::to_ssa(f).unwrap();
    assert_eq!(
        out.instrs,
        vec![
            ins(value(ValueOps::Undef, "x.0.0", Type::Int, &[])),
            ins(konst("x.0.0", 1)),
            ins(effect(EffectOps::Print, &["x.0.0"], &[])),
            ins(konst("x.0.0.0.2", 2)),
        ]
    );
    assert_eq!(
        SSACheck::check(&out),
        Err(s("Variable x.0.0 was assigned more than once"))
    );
}

#[test]
fn merge_readers_keep_the_order_and_the_types_of_the_definitions() {
    let flag = |dest: &str, value: bool| Instruction::Constant {
        dest: s(dest),
        op: ConstOps::Const,
        pos: None,
        const_type: Type::Bool,
        value: Literal::Bool(value),
    };
    let f = func(
        vec![arg("c", Type::Bool)],
        vec![
            ins(konst("x", 1)),
            ins(flag("b", true)),
            ins(effect(EffectOps::Branch, &["c"], &["L1", "L2"])),
            label("L1"),
            ins(flag("b", false)),
            ins(konst("x", 2)),
            ins(effect(EffectOps::Jump, &[], &["L3"])),
            label("L2"),
            ins(konst("x", 3)),
            ins(flag("b", true)),
            ins(effect(EffectOps::Jump, &[], &["L3"])),
            label("L3"),
            ins(effect(EffectOps::Print, &["x", "b"], &[])),
        ],
    );
    let tree = DominatorTree::new(CFG::from_function(f.clone()).unwrap()).unwrap();
    let phi = PhiNodes::new(&tree);
    assert_eq!(phi.get(0), vec![]);
    assert_eq!(phi.get(1), vec![]);
    assert_eq!(phi.get(3), vec![(s("x"), Type::Int), (s("b"), Type::Bool)]);
    let out = ToSSA::to_ssa(f).unwrap();
    assert_eq!(
        out.instrs,
        vec![
            ins(konst("x.0.0", 1)),
            ins(flag("b.0.1", true)),
            ins(effect(EffectOps::Branch, &["c"], &["L1", "L2"])),
            label("L1"),
            ins(flag("b.1.0", false)),
            ins(konst("x.1.1", 2)),
            ins(effect(EffectOps::SetVar, &["x.3.shadow", "x.1.1"], &[])),
            ins(effect(EffectOps::SetVar, &["b.3.shadow", "b.1.0"], &[])),
            ins(effect(EffectOps::Jump, &[], &["L3"])),
            label("L2"),
            ins(konst("x.2.0", 3)),
            ins(flag("b.2.1", true)),
            ins(effect(EffectOps::SetVar, &["x.3.shadow", "x.2.0"], &[])),
            ins(effect(EffectOps::SetVar, &["b.3.shadow", "b.2.1"], &[])),
            ins(effect(EffectOps::Jump, &[], &["L3"])),
            label("L3"),
            ins(value(ValueOps::Get, "b.3.shadow", Type::Bool, &[])),
            ins(value(ValueOps::Get, "x.3.shadow", Type::Int, &[])),
            ins(effect(EffectOps::Print, &["x.3.shadow", "b.3.shadow"], &[])),
        ]
    );
}

#[test]
fn later_type_of_a_variable_takes_the_place_of_the_reader() {
    let flag = |dest: &str, value: bool| Instruction::Constant {
        dest: s(dest),
        op: ConstOps::Const,
        pos: None,
        const_type: Type::Bool,
        value: Literal::Bool(value),
    };
    let f = func(
        vec![arg("c", Type::Bool)],
        vec![
            ins(konst("y", 0)),
            ins(effect(EffectOps::Branch, &["c"], &["L1", "L2"])),
            label("L1"),
            ins(konst("x", 2)),
            ins(konst("y", 2)),
            ins(effect(EffectOps::Jump, &[], &["L3"])),
            label("L2"),
            ins(konst("y", 3)),
            ins(flag("x", true)),
            ins(effect(EffectOps::Jump, &[], &["L3"])),
            label("L3"),
            ins(effect(EffectOps::Return, &[], &[])),
        ],
    );
    let tree = DominatorTree::new(CFG::from_function(f).unwrap()).unwrap();
    let phi = PhiNodes::new(&tree);
    assert_eq!(phi.get(3), vec![(s("y"), Type::Int), (s("x"), Type::Bool)]);
}

#[test]
fn name_with_dots_that_meets_no_made_up_name_is_no_harm() {
    let f = func(
        vec![arg("c.d", Type::Bool)],
        vec![
            ins(konst("x.y", 1)),
            ins(effect(EffectOps::Branch, &["c.d"], &["L1", "L2"])),
            label("L1"),
            ins(konst("x.y", 2)),
            ins(effect(EffectOps::Jump, &[], &["L2"])),
            label("L2"),
            ins(effect(EffectOps::Print, &["x.y"], &[])),
        ],
    );
    let out = ToSSA::to_ssa(f).unwrap();
    assert_eq!(SSACheck::check(&out), Ok(()));
    assert_eq!(
        out.instrs[out.instrs.len() - 1],
        ins(effect(EffectOps::Print, &["x.y.2.shadow"], &[]))
    );
}
