use bril_passes::basic_block::BasicBlock;
use bril_passes::bb_function::BBFunction;
use bril_passes::canonical::CanonicalizeLiterals;
use bril_passes::float::FloatQuery;
use bril_passes::fold::{
    div_trunc, fold_literals, fold_values, FoldError, Foldable, ValueTable,
};
use bril_passes::instr::LiteralExt;
use bril_passes::ir::{
    Argument, Code, ColRow, ConstOps, EffectOps, Function, Instruction, Literal, Position,
    Program, Type, ValueOps,
};
use bril_passes::lvn::LVNPass;
use bril_passes::lvn_table::{sort_ids, LVNTable, LVNValue};
use bril_passes::passes::{run_function_pass, run_on_flat, run_pass, Pass, PassError};
use bril_passes::tdce::{clean_function, sweep_function, sweep_round, TDCEPass};

fn s(x: &str) -> String {
    x.to_string()
}

fn names(xs: &[&str]) -> Vec<String> {
    xs.iter().map(|x| x.to_string()).collect()
}

fn lit(dest: &str, ty: Type, value: Literal) -> Instruction {
    Instruction::Constant { dest: s(dest), op: ConstOps::Const, pos: None, const_type: ty, value }
}

fn konst(dest: &str, value: i64) -> Instruction {
    lit(dest, Type::Int, Literal::Int(value))
}

fn value(op: ValueOps, dest: &str, ty: Type, args: &[&str]) -> Instruction {
    Instruction::Value {
        args: names(args),
        dest: s(dest),
        funcs: vec![],
        labels: vec![],
        op,
        pos: None,
        op_type: ty,
    }
}

fn int_op(op: ValueOps, dest: &str, args: &[&str]) -> Instruction {
    value(op, dest, Type::Int, args)
}

fn effect(op: EffectOps, args: &[&str], labels: &[&str]) -> Instruction {
    Instruction::Effect { args: names(args), funcs: vec![], labels: names(labels), op, pos: None }
}

fn print(args: &[&str]) -> Instruction {
    effect(EffectOps::Print, args, &[])
}

fn ins(i: Instruction) -> Code {
    Code::Instruction(i)
}

fn func(args: &[&str], instrs: Vec<Instruction>) -> Function {
    Function {
        args: args.iter().map(|a| Argument { name: s(a), arg_type: Type::Int }).collect(),
        instrs: instrs.into_iter().map(Code::Instruction).collect(),
        name: s("main"),
        pos: None,
        return_type: None,
    }
}

fn body(f: &Function) -> Vec<Instruction> {
    f.instrs
        .iter()
        .map(|c| match c {
            Code::Instruction(i) => i.clone(),
            Code::Label { .. } => panic!("a label"),
        })
        .collect()
}

/// The floating-point unit of the tests: the machine's own arithmetic.
fn unit(q: FloatQuery) -> Literal {
    match q {
        FloatQuery::FromInt(i) => Literal::Float((i as f64).to_bits()),
        FloatQuery::Binary(op, a, b) => {
            let (x, y) = (f64::from_bits(a), f64::from_bits(b));
            match op {
                ValueOps::Fadd => Literal::Float((x + y).to_bits()),
                ValueOps::Fsub => Literal::Float((x - y).to_bits()),
                ValueOps::Fmul => Literal::Float((x * y).to_bits()),
                ValueOps::Fdiv => Literal::Float((x / y).to_bits()),
                ValueOps::Feq => Literal::Bool(x == y),
                ValueOps::Flt => Literal::Bool(x < y),
                ValueOps::Fgt => Literal::Bool(x > y),
                ValueOps::Fle => Literal::Bool(x <= y),
                ValueOps::Fge => Literal::Bool(x >= y),
                _ => Literal::Bool(false),
            }
        }
    }
}

fn float(x: f64) -> Literal {
    Literal::Float(x.to_bits())
}

fn lvn(f: Function) -> Result<Function, PassError> {
    let mut pass = LVNPass::new(unit);
    pass.function(f)
}

fn tdce(f: Function) -> Function {
    let mut pass = TDCEPass;
    Pass::function(&mut pass, f).unwrap()
}

fn fold(op: ValueOps, vals: Vec<Literal>) -> Result<Option<Literal>, FoldError> {
    fold_values(op, &vals, &unit)
}

#[test]
fn integer_opcodes_fold() {
    let (a, b) = (Literal::Int(7), Literal::Int(-2));
    assert_eq!(fold(ValueOps::Add, vec![a, b]), Ok(Some(Literal::Int(5))));
    assert_eq!(fold(ValueOps::Sub, vec![a, b]), Ok(Some(Literal::Int(9))));
    assert_eq!(fold(ValueOps::Mul, vec![a, b]), Ok(Some(Literal::Int(-14))));
    assert_eq!(fold(ValueOps::Div, vec![a, b]), Ok(Some(Literal::Int(-3))));
    assert_eq!(fold(ValueOps::Eq, vec![a, b]), Ok(Some(Literal::Bool(false))));
    assert_eq!(fold(ValueOps::Gt, vec![a, b]), Ok(Some(Literal::Bool(true))));
    assert_eq!(fold(ValueOps::Ge, vec![a, a]), Ok(Some(Literal::Bool(true))));
    assert_eq!(fold(ValueOps::Lt, vec![a, b]), Ok(Some(Literal::Bool(false))));
    assert_eq!(fold(ValueOps::Le, vec![b, a]), Ok(Some(Literal::Bool(true))));
}

#[test]
fn integer_sums_wrap_round() {
    assert_eq!(
        fold(ValueOps::Add, vec![Literal::Int(i64::MAX), Literal::Int(1)]),
        Ok(Some(Literal::Int(i64::MIN)))
    );
    assert_eq!(
        fold(ValueOps::Sub, vec![Literal::Int(i64::MIN), Literal::Int(1)]),
        Ok(Some(Literal::Int(i64::MAX)))
    );
    assert_eq!(
        fold(ValueOps::Mul, vec![Literal::Int(i64::MAX), Literal::Int(2)]),
        Ok(Some(Literal::Int(-2)))
    );
}

#[test]
fn division_rounds_towards_zero() {
    assert_eq!(div_trunc(7, 2), 3);
    assert_eq!(div_trunc(-7, 2), -3);
    assert_eq!(div_trunc(7, -2), -3);
    assert_eq!(div_trunc(-7, -2), 3);
    assert_eq!(div_trunc(i64::MIN, 1), i64::MIN);
    assert_eq!(div_trunc(i64::MIN, 2), i64::MIN / 2);
    assert_eq!(div_trunc(i64::MIN, i64::MIN), 1);
    assert_eq!(div_trunc(0, -5), 0);
}

#[test]
fn fold_errors_are_told_apart() {
    assert_eq!(
        fold(ValueOps::Div, vec![Literal::Int(1), Literal::Int(0)]),
        Err(FoldError::DivisionByZero)
    );
    assert_eq!(
        fold(ValueOps::Div, vec![Literal::Int(i64::MIN), Literal::Int(-1)]),
        Err(FoldError::Overflow)
    );
    assert_eq!(fold(ValueOps::Add, vec![Literal::Int(1), Literal::Bool(true)]), Err(FoldError::Mismatch));
    assert_eq!(fold(ValueOps::Add, vec![Literal::Int(1)]), Err(FoldError::Mismatch));
    assert_eq!(fold(ValueOps::Not, vec![Literal::Int(1)]), Err(FoldError::Mismatch));
    assert_eq!(fold(ValueOps::Id, vec![]), Err(FoldError::Mismatch));
    assert_eq!(fold(ValueOps::And, vec![Literal::Bool(true)]), Err(FoldError::Mismatch));
    assert_eq!(fold(ValueOps::Ceq, vec![Literal::Char('a'), Literal::Int(1)]), Err(FoldError::Mismatch));
    assert_eq!(fold(ValueOps::Fadd, vec![float(1.0), Literal::Int(1)]), Err(FoldError::Mismatch));
}

#[test]
fn boolean_and_character_opcodes_fold() {
    let (t, f) = (Literal::Bool(true), Literal::Bool(false));
    assert_eq!(fold(ValueOps::And, vec![t, f]), Ok(Some(f)));
    assert_eq!(fold(ValueOps::Or, vec![t, f]), Ok(Some(t)));
    assert_eq!(fold(ValueOps::Not, vec![f]), Ok(Some(t)));
    assert_eq!(fold(ValueOps::Id, vec![Literal::Char('q')]), Ok(Some(Literal::Char('q'))));
    let (a, b) = (Literal::Char('a'), Literal::Char('b'));
    assert_eq!(fold(ValueOps::Ceq, vec![a, a]), Ok(Some(t)));
    assert_eq!(fold(ValueOps::Clt, vec![a, b]), Ok(Some(t)));
    assert_eq!(fold(ValueOps::Cle, vec![b, a]), Ok(Some(f)));
    assert_eq!(fold(ValueOps::Cgt, vec![b, a]), Ok(Some(t)));
    assert_eq!(fold(ValueOps::Cge, vec![a, b]), Ok(Some(f)));
}

#[test]
fn float_opcodes_are_put_to_the_unit() {
    assert_eq!(fold(ValueOps::Fadd, vec![float(1.5), float(2.25)]), Ok(Some(float(3.75))));
    assert_eq!(fold(ValueOps::Fsub, vec![float(1.5), float(2.0)]), Ok(Some(float(-0.5))));
    assert_eq!(fold(ValueOps::Fmul, vec![float(1.5), float(2.0)]), Ok(Some(float(3.0))));
    assert_eq!(fold(ValueOps::Fdiv, vec![float(1.0), float(0.0)]), Ok(Some(float(f64::INFINITY))));
    assert_eq!(fold(ValueOps::Flt, vec![float(1.0), float(2.0)]), Ok(Some(Literal::Bool(true))));
    assert_eq!(
        fold(ValueOps::Feq, vec![float(f64::NAN), float(f64::NAN)]),
        Ok(Some(Literal::Bool(false)))
    );
    assert_eq!(fold(ValueOps::Fmul, vec![float(-1.0), float(0.0)]), Ok(Some(float(-0.0))));
}

#[test]
fn other_opcodes_do_not_fold() {
    assert_eq!(fold(ValueOps::Call, vec![Literal::Int(1)]), Ok(None));
    assert_eq!(fold(ValueOps::Alloc, vec![Literal::Int(1)]), Ok(None));
    assert_eq!(fold(ValueOps::Get, vec![]), Ok(None));
}

#[test]
fn instructions_fold_by_their_shape() {
    let add = int_op(ValueOps::Add, "c", &["a", "b"]);
    assert_eq!(
        fold_literals(&add, &vec![Some(Literal::Int(2)), Some(Literal::Int(3))], &unit),
        Ok(Some((s("c"), Some(Literal::Int(5)))))
    );
    assert_eq!(
        fold_literals(&add, &vec![Some(Literal::Int(2)), None], &unit),
        Ok(Some((s("c"), None)))
    );
    assert_eq!(fold_literals(&konst("k", 9), &vec![], &unit), Ok(Some((s("k"), Some(Literal::Int(9))))));
    assert_eq!(fold_literals(&print(&["a"]), &vec![Some(Literal::Int(2))], &unit), Ok(None));
    let known = |k: &String| if k == "a" { Some(Literal::Int(4)) } else { None };
    assert_eq!(
        int_op(ValueOps::Id, "c", &["a"]).fold(&known, &unit),
        Ok(Some((s("c"), Some(Literal::Int(4)))))
    );
    assert_eq!(add.fold(&known, &unit), Ok(Some((s("c"), None))));
}

#[test]
fn value_table_records_what_folds() {
    let mut t = ValueTable::new();
    assert_eq!(t.intern(&konst("a", 2), &unit), Ok(()));
    assert_eq!(t.intern(&konst("b", 3), &unit), Ok(()));
    assert_eq!(t.intern(&int_op(ValueOps::Mul, "c", &["a", "b"]), &unit), Ok(()));
    assert_eq!(t.intern(&int_op(ValueOps::Mul, "d", &["a", "x"]), &unit), Ok(()));
    assert_eq!(t.get(&s("c")), Some(&Literal::Int(6)));
    assert_eq!(t.get(&s("d")), None);
    assert_eq!(
        t.intern(&int_op(ValueOps::Not, "e", &["a"]), &unit),
        Err(FoldError::Mismatch)
    );
}

#[test]
fn literals_are_cast_to_the_declared_type() {
    assert_eq!(Literal::Int(3).implicit_cast(&Type::Float, &unit), float(3.0));
    assert_eq!(Literal::Int(3).implicit_cast(&Type::Int, &unit), Literal::Int(3));
    assert_eq!(Literal::Bool(true).implicit_cast(&Type::Bool, &unit), Literal::Bool(true));
    assert_eq!(Literal::Char('x').get_type(), Type::Char);
    let pass = CanonicalizeLiterals { float: unit };
    let f = func(&[], vec![lit("a", Type::Float, Literal::Int(2)), konst("b", 1), print(&["a"])]);
    let out = pass.canonicalize(f).unwrap();
    assert_eq!(
        body(&out),
        vec![lit("a", Type::Float, float(2.0)), konst("b", 1), print(&["a"])]
    );
    let bad = func(&[], vec![lit("a", Type::Bool, Literal::Int(2))]);
    assert_eq!(pass.canonicalize(bad), Err(PassError::Type));
}

#[test]
fn sum_of_constants_becomes_a_constant() {
    let f = func(&[], vec![konst("a", 2), konst("b", 3), int_op(ValueOps::Add, "c", &["a", "b"])]);
    let out = lvn(f).unwrap();
    assert_eq!(body(&out), vec![konst("a", 2), konst("b", 3), konst("c", 5)]);
}

#[test]
fn folded_constant_keeps_type_and_position() {
    let pos = Position { pos: ColRow { col: 3, row: 7 }, pos_end: None, src: Some(s("a.bril")) };
    let add = Instruction::Value {
        args: names(&["a", "a"]),
        dest: s("c"),
        funcs: vec![],
        labels: vec![],
        op: ValueOps::Add,
        pos: Some(pos.clone()),
        op_type: Type::Int,
    };
    let out = lvn(func(&[], vec![konst("a", 2), add])).unwrap();
    assert_eq!(
        body(&out)[1],
        Instruction::Constant {
            dest: s("c"),
            op: ConstOps::Const,
            pos: Some(pos),
            const_type: Type::Int,
            value: Literal::Int(4),
        }
    );
}

#[test]
fn repeated_value_becomes_a_copy() {
    let f = func(
        &["x", "y"],
        vec![
            int_op(ValueOps::Add, "a", &["x", "y"]),
            int_op(ValueOps::Add, "b", &["y", "x"]),
            int_op(ValueOps::Sub, "c", &["x", "y"]),
            int_op(ValueOps::Sub, "d", &["y", "x"]),
            int_op(ValueOps::Mul, "e", &["b", "c"]),
        ],
    );
    let out = lvn(f).unwrap();
    assert_eq!(
        body(&out),
        vec![
            int_op(ValueOps::Add, "a", &["x", "y"]),
            int_op(ValueOps::Id, "b", &["a"]),
            int_op(ValueOps::Sub, "c", &["x", "y"]),
            int_op(ValueOps::Sub, "d", &["y", "x"]),
            int_op(ValueOps::Mul, "e", &["a", "c"]),
        ]
    );
}

#[test]
fn repeated_constant_refers_to_the_first() {
    let out = lvn(func(&[], vec![konst("a", 2), konst("b", 2), print(&["b"])])).unwrap();
    assert_eq!(body(&out), vec![konst("a", 2), konst("b", 2), print(&["a"])]);
}

#[test]
fn copy_forwards_the_value_of_its_source() {
    let f = func(
        &["x"],
        vec![int_op(ValueOps::Id, "a", &["x"]), int_op(ValueOps::Id, "b", &["x"]), print(&["b"])],
    );
    let out = lvn(f).unwrap();
    assert_eq!(
        body(&out),
        vec![int_op(ValueOps::Id, "a", &["x"]), int_op(ValueOps::Id, "b", &["x"]), print(&["a"])]
    );
}

#[test]
fn name_written_again_gets_a_fresh_name() {
    let f = func(
        &["a", "b"],
        vec![
            int_op(ValueOps::Add, "x", &["a", "b"]),
            int_op(ValueOps::Mul, "y", &["x", "x"]),
            int_op(ValueOps::Mul, "x", &["a", "b"]),
            print(&["x", "y"]),
        ],
    );
    let out = lvn(f).unwrap();
    assert_eq!(
        body(&out),
        vec![
            int_op(ValueOps::Add, "_x_0", &["a", "b"]),
            int_op(ValueOps::Mul, "y", &["_x_0", "_x_0"]),
            int_op(ValueOps::Mul, "x", &["a", "b"]),
            print(&["x", "y"]),
        ]
    );
}

#[test]
fn fresh_names_avoid_the_names_of_the_function() {
    let mut pass = LVNPass::new(unit);
    let f = func(&["_x_0", "_x_1"], vec![konst("x", 1)]);
    pass.note_function(&BBFunction::new(f));
    assert_eq!(pass.unique_name(&s("x")), Ok(s("_x_2")));
    assert_eq!(pass.unique_name(&s("x")), Ok(s("_x_3")));
    assert_eq!(pass.unique_name(&s("y")), Ok(s("_y_4")));
    pass.nid = usize::MAX;
    assert_eq!(pass.unique_name(&s("y")), Err(PassError::Capacity));
}

#[test]
fn impure_values_are_never_shared() {
    let call = |d: &str| Instruction::Value {
        args: vec![],
        dest: s(d),
        funcs: names(&["f"]),
        labels: vec![],
        op: ValueOps::Call,
        pos: None,
        op_type: Type::Int,
    };
    let f = func(&[], vec![call("a"), call("b"), print(&["a", "b"])]);
    let out = lvn(f.clone()).unwrap();
    assert_eq!(out, f);
}

#[test]
fn value_numbering_reports_a_failed_fold() {
    let f = func(&[], vec![konst("a", 1), konst("z", 0), int_op(ValueOps::Div, "c", &["a", "z"])]);
    assert_eq!(lvn(f), Err(PassError::Fold(FoldError::DivisionByZero)));
    let g = func(&["a"], vec![int_op(ValueOps::Id, "c", &["a", "a"])]);
    assert_eq!(lvn(g), Err(PassError::Fold(FoldError::Mismatch)));
}

#[test]
fn float_sums_fold_with_the_unit() {
    let f = func(
        &[],
        vec![
            lit("a", Type::Float, float(0.5)),
            lit("b", Type::Float, float(0.25)),
            value(ValueOps::Fadd, "c", Type::Float, &["a", "b"]),
            value(ValueOps::Flt, "d", Type::Bool, &["a", "b"]),
        ],
    );
    let out = lvn(f).unwrap();
    assert_eq!(body(&out)[2], lit("c", Type::Float, float(0.75)));
    assert_eq!(body(&out)[3], lit("d", Type::Bool, Literal::Bool(false)));
}

#[test]
fn table_interns_by_value() {
    let mut t = LVNTable::new(&vec![Argument { name: s("x"), arg_type: Type::Int }]);
    assert_eq!(t.idx(&s("x")), Some(0));
    assert_eq!(t.idx(&s("y")), None);
    assert_eq!(t.idx_or_insert(&s("y")), 1);
    assert_eq!(t.representative(1), "y");
    assert!(t.value(0).same(&LVNValue::Unknown(0)));
    assert!(!t.value(1).same(&LVNValue::Unknown(0)));
    let add = int_op(ValueOps::Add, "a", &["x", "y"]);
    assert_eq!(t.intern(&add, &unit), Ok(Some((false, 2))));
    assert_eq!(t.intern(&int_op(ValueOps::Add, "b", &["y", "x"]), &unit), Ok(Some((true, 2))));
    assert_eq!(t.intern(&print(&["a"]), &unit), Ok(None));
    assert_eq!(t.build_ref(&s("b")), Some(int_op(ValueOps::Id, "b", &["a"])));
    assert_eq!(t.build_ref(&s("x")), None);
    t.clobber(2, &s("fresh"));
    assert_eq!(t.representative(2), "fresh");
    assert_eq!(t.idx(&s("fresh")), Some(2));
    assert_eq!(t.transform(print(&["a", "new"])), print(&["fresh", "new"]));
    assert_eq!(sort_ids(vec![3, 1, 2, 1]), vec![1, 1, 2, 3]);
}

#[test]
fn unused_results_are_swept_until_none_is_left() {
    let f = func(
        &[],
        vec![
            konst("a", 1),
            int_op(ValueOps::Id, "b", &["a"]),
            int_op(ValueOps::Id, "c", &["b"]),
            konst("d", 2),
            print(&["d"]),
        ],
    );
    let out = sweep_function(f);
    assert_eq!(body(&out), vec![konst("d", 2), print(&["d"])]);
    assert_eq!(sweep_function(out.clone()), out);
}

#[test]
fn overwritten_write_is_swept_from_its_block() {
    let bb = BasicBlock::new(
        0,
        None,
        vec![
            konst("a", 1),
            konst("a", 2),
            int_op(ValueOps::Add, "a", &["a", "a"]),
            konst("b", 3),
            konst("b", 4),
            print(&["a"]),
        ],
    );
    let out = TDCEPass::sweep_block(bb);
    assert_eq!(
        out.instrs(),
        &vec![konst("a", 2), int_op(ValueOps::Add, "a", &["a", "a"]), konst("b", 4), print(&["a"])]
    );
    let again = TDCEPass::sweep_block(out.clone());
    assert_eq!(again, out);
}

#[test]
fn whole_pass_sweeps_function_then_blocks() {
    let f = func(&[], vec![konst("a", 1), konst("a", 2), konst("unused", 3), print(&["a"])]);
    assert_eq!(body(&tdce(f)), vec![konst("a", 2), print(&["a"])]);
}

#[test]
fn whole_pass_goes_on_until_nothing_is_removed() {
    // The sweep of the block removes the copy that read `x`, so only a
    // second round finds that nothing reads `x`.
    let f = func(
        &[],
        vec![konst("x", 1), int_op(ValueOps::Id, "y", &["x"]), konst("y", 2), print(&["y"])],
    );
    let round = sweep_round(f.clone());
    assert_eq!(body(&round), vec![konst("x", 1), konst("y", 2), print(&["y"])]);
    let once = tdce(f);
    assert_eq!(body(&once), vec![konst("y", 2), print(&["y"])]);
    let twice = tdce(once.clone());
    assert_eq!(twice, once);
}

#[test]
fn whole_pass_run_twice_changes_nothing_more() {
    let f = func(
        &[],
        vec![
            konst("a", 1),
            int_op(ValueOps::Id, "x", &["a"]),
            konst("x", 2),
            konst("unused", 3),
            int_op(ValueOps::Add, "s", &["x", "x"]),
            int_op(ValueOps::Add, "s", &["x", "a"]),
            print(&["x"]),
        ],
    );
    let once = clean_function(f);
    assert_eq!(body(&once), vec![konst("x", 2), print(&["x"])]);
    assert_eq!(clean_function(once.clone()), once);
}

#[test]
fn drivers_run_the_hooks_in_order() {
    let f = func(&[], vec![konst("a", 2), konst("b", 3), int_op(ValueOps::Add, "c", &["a", "b"]), print(&["c"])]);
    let mut lvn_pass = LVNPass::new(unit);
    let numbered = run_function_pass(&mut lvn_pass, BBFunction::new(f.clone())).unwrap();
    assert_eq!(numbered.get(0).instrs()[2], konst("c", 5));
    let mut sweep = TDCEPass;
    let flat = run_on_flat(&mut sweep, numbered.into_function()).unwrap();
    assert_eq!(body(&flat), vec![konst("c", 5), print(&["c"])]);
    let prog = Program { functions: vec![f.clone(), f] };
    let out = run_pass(&mut sweep, prog).unwrap();
    assert_eq!(out.functions.len(), 2);
    assert_eq!(out.functions[1].instrs.len(), 4);
    assert_eq!(ins(konst("a", 2)), out.functions[0].instrs[0]);
}

#[test]
fn copy_of_an_impure_result_shares_its_row() {
    let call = Instruction::Value {
        args: vec![],
        dest: s("x"),
        funcs: names(&["f"]),
        labels: vec![],
        op: ValueOps::Call,
        pos: None,
        op_type: Type::Int,
    };
    let f = func(&[], vec![call.clone(), int_op(ValueOps::Id, "y", &["x"]), print(&["y"])]);
    let out = lvn(f).unwrap();
    assert_eq!(
        body(&out),
        vec![call, int_op(ValueOps::Id, "y", &["x"]), print(&["x"])]
    );
}
