//! SSA destruction, and the test for SSA form: the writes to merge readers
//! become copies and the merge readers go; a function is in SSA form if no
//! name is written twice.
use crate::ir::{
    lemma_deep_index, lemma_deep_push, Code, CodeView, EffectOps, Function, FunctionView,
    InstrView, Instruction, Program, ProgramView, Type, ValueOps,
};
use crate::instr::InstrExt;
use crate::names::{NameMap, NameSet};
use crate::passes::{flat_result, Pass, PassError};
use crate::ssa::{to_ssa_rel, types_of, ToSSA};
use vstd::prelude::*;
use vstd::string::StringExecFns;

verus! {

/// The copy that a write to a merge reader becomes.
pub open spec fn copy_instr(dest: Seq<char>, src: Seq<char>, ty: Type) -> InstrView {
    InstrView::Value {
        dest,
        op: ValueOps::Id,
        args: seq![src],
        funcs: seq![],
        labels: seq![],
        pos: None,
        op_type: ty,
    }
}

/// What a line becomes when the function leaves SSA form: a write to a
/// merge reader becomes a copy of the type of its source, a merge reader
/// goes, any other line stays. A write of another shape than `set dest
/// src` is refused, and so is one whose source has no type.
pub open spec fn lower(c: CodeView, types: Map<Seq<char>, Type>) -> Result<
    Option<CodeView>,
    PassError,
> {
    match c {
        CodeView::Instruction(InstrView::Effect { op: EffectOps::SetVar, args, .. }) => if args.len()
            != 2 {
            Err(PassError::Malformed)
        } else if !types.contains_key(args[1]) {
            Err(PassError::Untyped)
        } else {
            Ok(Some(CodeView::Instruction(copy_instr(args[0], args[1], types[args[1]]))))
        },
        CodeView::Instruction(InstrView::Value { op: ValueOps::Get, .. }) => Ok(None),
        _ => Ok(Some(c)),
    }
}

/// The lines of a function out of SSA form, or the first failure.
pub open spec fn lower_all(codes: Seq<CodeView>, types: Map<Seq<char>, Type>) -> Result<
    Seq<CodeView>,
    PassError,
>
    decreases codes.len(),
{
    if codes.len() == 0 {
        Ok(seq![])
    } else {
        match lower_all(codes.drop_last(), types) {
            Err(e) => Err(e),
            Ok(done) => match lower(codes.last(), types) {
                Err(e) => Err(e),
                Ok(Some(c)) => Ok(done.push(c)),
                Ok(None) => Ok(done),
            },
        }
    }
}

/// A lowering that failed on some lines fails in the same way on more.
pub proof fn lemma_lower_failed(codes: Seq<CodeView>, types: Map<Seq<char>, Type>, k: int)
    requires
        0 <= k <= codes.len(),
        lower_all(codes.take(k), types).is_err(),
    ensures
        lower_all(codes, types) == lower_all(codes.take(k), types),
    decreases codes.len() - k,
{
    if k < codes.len() {
        assert(codes.take(k + 1).drop_last() =~= codes.take(k));
        lemma_lower_failed(codes, types, k + 1);
    } else {
        assert(codes.take(k) =~= codes);
    }
}

/// The function out of SSA form.
pub open spec fn from_ssa_spec(f: FunctionView) -> Result<FunctionView, PassError> {
    match lower_all(f.instrs, types_of(f.instrs)) {
        Err(e) => Err(e),
        Ok(instrs) => Ok(FunctionView { instrs, ..f }),
    }
}

/// The pass that takes a function out of SSA form.
#[derive(Clone, Copy, Debug, PartialEq, Eq, Structural)]
pub struct FromSSA;

impl FromSSA {
    /// Takes a function out of SSA form.
    pub fn from_ssa(func: Function) -> (r: Result<Function, PassError>)
        ensures
            flat_result(r) == from_ssa_spec(func@),
    {
        let mut types: NameMap<Type> = NameMap::new();
        let ghost codes = func@.instrs;
        let mut i: usize = 0;
        assert(codes.take(0) =~= seq![]);
        while i < func.instrs.len()
            invariant
                i <= func.instrs.len(),
                codes == func.instrs.deep_view(),
                types.wf(),
                types@ == types_of(codes.take(i as int)),
            decreases func.instrs.len() - i,
        {
            proof {
                let next = codes.take(i + 1);
                assert(next.drop_last() =~= codes.take(i as int));
                lemma_deep_index(func.instrs);
                assert(next.last() == func.instrs[i as int]@);
            }
            match &func.instrs[i] {
                Code::Instruction(instr) => {
                    match (instr.dest(), instr.get_type()) {
                        (Some(d), Some(t)) => {
                            types.insert(d, t);
                        },
                        _ => {},
                    }
                },
                _ => {},
            }
            i += 1;
        }
        assert(codes.take(func.instrs.len() as int) =~= codes);
        let mut out: Vec<Code> = Vec::new();
        let mut i: usize = 0;
        assert(out.deep_view() =~= seq![]);
        while i < func.instrs.len()
            invariant
                i <= func.instrs.len(),
                codes == func.instrs.deep_view(),
                types.wf(),
                types@ == types_of(codes),
                lower_all(codes.take(i as int), types@) == Ok::<Seq<CodeView>, PassError>(
                    out.deep_view(),
                ),
            decreases func.instrs.len() - i,
        {
            proof {
                let next = codes.take(i + 1);
                assert(next.drop_last() =~= codes.take(i as int));
                lemma_deep_index(func.instrs);
                assert(next.last() == func.instrs[i as int]@);
            }
            let ghost before = out;
            let lowered: Result<Option<Code>, PassError> = match &func.instrs[i] {
                Code::Instruction(Instruction::Effect { op: EffectOps::SetVar, args, .. }) => {
                    proof {
                        lemma_deep_index(*args);
                    }
                    if args.len() != 2 {
                        Err(PassError::Malformed)
                    } else {
                        match types.get(&args[1]) {
                            None => Err(PassError::Untyped),
                            Some(t) => {
                                let mut a: Vec<String> = Vec::new();
                                a.push(args[1].clone());
                                let funcs: Vec<String> = Vec::new();
                                let labels: Vec<String> = Vec::new();
                                proof {
                                    assert(a.deep_view() =~= seq![args[1]@]);
                                    assert(funcs.deep_view() =~= seq![]);
                                    assert(labels.deep_view() =~= seq![]);
                                }
                                Ok(
                                    Some(
                                        Code::Instruction(
                                            Instruction::Value {
                                                dest: args[0].clone(),
                                                op: ValueOps::Id,
                                                args: a,
                                                funcs,
                                                labels,
                                                pos: None,
                                                op_type: t.clone(),
                                            },
                                        ),
                                    ),
                                )
                            },
                        }
                    }
                },
                Code::Instruction(Instruction::Value { op: ValueOps::Get, .. }) => Ok(None),
                c => Ok(Some(c.clone())),
            };
            match lowered {
                Err(e) => {
                    proof {
                        assert(lower_all(codes.take(i + 1), types@).is_err());
                        lemma_lower_failed(codes, types@, i + 1);
                    }
                    return Err(e);
                },
                Ok(Some(c)) => {
                    out.push(c);
                    proof {
                        lemma_deep_push(before, out, c);
                    }
                },
                Ok(None) => {},
            }
            i += 1;
        }
        assert(codes.take(func.instrs.len() as int) =~= codes);
        Ok(
            Function {
                args: func.args,
                instrs: out,
                name: func.name,
                pos: func.pos,
                return_type: func.return_type,
            },
        )
    }
}

impl Pass for FromSSA {
    open spec fn ready(&self) -> bool {
        true
    }

    open spec fn function_rel(
        &self,
        f: FunctionView,
        post: &Self,
        out: Result<FunctionView, PassError>,
    ) -> bool {
        out == from_ssa_spec(f)
    }

    open spec fn start_rel(&self, p: ProgramView, post: &Self, out: Result<ProgramView, PassError>) -> bool {
        out == Ok::<ProgramView, PassError>(p)
    }

    open spec fn finish_rel(&self, p: ProgramView, post: &Self, out: Result<ProgramView, PassError>) -> bool {
        out == Ok::<ProgramView, PassError>(p)
    }

    fn function(&mut self, func: Function) -> (r: Result<Function, PassError>) {
        Self::from_ssa(func)
    }

    fn before(&mut self, prog: Program) -> (r: Result<Program, PassError>) {
        Ok(prog)
    }

    fn after(&mut self, prog: Program) -> (r: Result<Program, PassError>) {
        Ok(prog)
    }
}

impl Pass for ToSSA {
    open spec fn ready(&self) -> bool {
        true
    }

    open spec fn function_rel(
        &self,
        f: FunctionView,
        post: &Self,
        out: Result<FunctionView, PassError>,
    ) -> bool {
        to_ssa_rel(f, out)
    }

    open spec fn start_rel(&self, p: ProgramView, post: &Self, out: Result<ProgramView, PassError>) -> bool {
        out == Ok::<ProgramView, PassError>(p)
    }

    open spec fn finish_rel(&self, p: ProgramView, post: &Self, out: Result<ProgramView, PassError>) -> bool {
        out == Ok::<ProgramView, PassError>(p)
    }

    fn function(&mut self, func: Function) -> (r: Result<Function, PassError>) {
        Self::to_ssa(func)
    }

    fn before(&mut self, prog: Program) -> (r: Result<Program, PassError>) {
        Ok(prog)
    }

    fn after(&mut self, prog: Program) -> (r: Result<Program, PassError>) {
        Ok(prog)
    }
}

/// The names that the lines of a function write, in order.
pub open spec fn dests(codes: Seq<CodeView>) -> Seq<Seq<char>>
    decreases codes.len(),
{
    if codes.len() == 0 {
        seq![]
    } else {
        match codes.last() {
            CodeView::Instruction(i) => match i.dest() {
                Some(d) => dests(codes.drop_last()).push(d),
                None => dests(codes.drop_last()),
            },
            _ => dests(codes.drop_last()),
        }
    }
}

/// Whether a function is in SSA form: no name is written twice.
pub open spec fn is_ssa(f: FunctionView) -> bool {
    dests(f.instrs).no_duplicates()
}

/// The report that a name was written twice.
pub open spec fn twice_message(name: Seq<char>) -> Seq<char> {
    "Variable "@ + name + " was assigned more than once"@
}

/// The test for SSA form.
#[derive(Clone, Copy, Debug, PartialEq, Eq, Structural)]
pub struct SSACheck;

impl SSACheck {
    /// Tests whether a function is in SSA form; if it is not, the report
    /// names the first name that is written a second time.
    pub fn check(func: &Function) -> (r: Result<(), String>)
        ensures
            match r {
                Ok(_) => is_ssa(func@),
                Err(m) => !is_ssa(func@) && exists|j: int|
                    0 <= j < dests(func@.instrs).len() && dests(func@.instrs).take(
                        j,
                    ).no_duplicates() && dests(func@.instrs).take(j).contains(
                        #[trigger] dests(func@.instrs)[j],
                    ) && m@ == twice_message(dests(func@.instrs)[j]),
            },
    {
        let mut vars = NameSet::new();
        let ghost codes = func@.instrs;
        let mut i: usize = 0;
        assert(codes.take(0) =~= seq![]);
        while i < func.instrs.len()
            invariant
                i <= func.instrs.len(),
                codes == func.instrs.deep_view(),
                vars.wf(),
                vars.elems() == dests(codes.take(i as int)),
            decreases func.instrs.len() - i,
        {
            proof {
                let next = codes.take(i + 1);
                assert(next.drop_last() =~= codes.take(i as int));
                lemma_deep_index(func.instrs);
                assert(next.last() == func.instrs[i as int]@);
            }
            match &func.instrs[i] {
                Code::Instruction(instr) => {
                    match instr.dest_ref() {
                        Some(dest) => {
                            if vars.contains(dest) {
                                let mut m = "Variable ".to_owned();
                                m.append(dest.as_str());
                                m.append(" was assigned more than once");
                                proof {
                                    let all = dests(codes);
                                    let part = dests(codes.take(i + 1));
                                    let j = part.len() - 1;
                                    lemma_dests_prefix(codes, i + 1);
                                    assert(part.take(j) =~= dests(codes.take(i as int)));
                                    assert(all.take(part.len() as int) == part);
                                    assert(all.take(j) =~= part.take(j));
                                    assert(part[j] == dest@);
                                    assert(all.take(part.len() as int)[j] == all[j]);
                                    assert(all[j] == dest@);
                                    let k = choose|k: int|
                                        0 <= k < all.take(j).len() && all.take(j)[k] == dest@;
                                    assert(all[k] == all[j] && k != j);
                                }
                                return Err(m);
                            }
                            vars.insert(dest.clone());
                        },
                        None => {},
                    }
                },
                _ => {},
            }
            i += 1;
        }
        assert(codes.take(func.instrs.len() as int) =~= codes);
        Ok(())
    }
}

/// The names written by the first lines of a function are the first names
/// written by the function.
pub proof fn lemma_dests_prefix(codes: Seq<CodeView>, k: int)
    requires
        0 <= k <= codes.len(),
    ensures
        dests(codes.take(k)).len() <= dests(codes).len(),
        dests(codes).take(dests(codes.take(k)).len() as int) == dests(codes.take(k)),
    decreases codes.len() - k,
{
    if k < codes.len() {
        lemma_dests_prefix(codes, k + 1);
        assert(codes.take(k + 1).drop_last() =~= codes.take(k));
        let a = dests(codes.take(k));
        let b = dests(codes.take(k + 1));
        assert(b.take(a.len() as int) =~= a);
        assert(dests(codes).take(a.len() as int) =~= dests(codes).take(b.len() as int).take(
            a.len() as int,
        ));
    } else {
        assert(codes.take(k) =~= codes);
        assert(dests(codes).take(dests(codes).len() as int) =~= dests(codes));
    }
}

} // verus!
