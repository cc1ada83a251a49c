//! The end of a trace: the recorded instructions are wrapped as speculation
//! with a way out on failure, cleaned by value numbering and dead-code
//! elimination, and put before the program, which gets a label where the
//! trace leaves off.
use crate::bb_function::{block_form, BBFunction, BBFunctionView};
use crate::float::{unit_ok, FloatQuery};
use crate::ir::{
    lemma_deep_index, lemma_deep_push, ArgView, Argument, Code, CodeView, EffectOps, Function,
    FunctionView, InstrView, Instruction, Literal, Type,
};
use crate::lvn::LVNPass;
use crate::names::NameSet;
use crate::passes::{func_rel, func_result, midway, run_function_pass, PassError};
use crate::tdce::TDCEPass;
use crate::text::{has_prefix, starts_with};
use crate::trace::{plain_effect, Trace};
use vstd::prelude::*;

verus! {

/// The names among `names` that are not yet written, as arguments of the
/// type `ty`, after the arguments found so far; it is an error if there is
/// such a name and no type.
pub open spec fn free_names(
    found: Seq<ArgView>,
    written: Set<Seq<char>>,
    names: Seq<Seq<char>>,
    ty: Option<Type>,
) -> Result<Seq<ArgView>, PassError>
    decreases names.len(),
{
    if names.len() == 0 {
        Ok(found)
    } else {
        match free_names(found, written, names.drop_last(), ty) {
            Err(e) => Err(e),
            Ok(f) => if written.contains(names.last()) {
                Ok(f)
            } else {
                match ty {
                    Some(t) => Ok(f.push(ArgView { name: names.last(), arg_type: t })),
                    None => Err(PassError::Untyped),
                }
            },
        }
    }
}

/// What a scan of the trace has found: the arguments, and the names
/// written.
pub struct Scanned {
    pub args: Seq<ArgView>,
    pub written: Set<Seq<char>>,
}

/// The scan of the trace for the names that are read before they are
/// written: each becomes an argument, of the type of the instruction that
/// reads it, once for each such read.
pub open spec fn scan_args(instrs: Seq<InstrView>) -> Result<Scanned, PassError>
    decreases instrs.len(),
{
    if instrs.len() == 0 {
        Ok(Scanned { args: seq![], written: Set::empty() })
    } else {
        match scan_args(instrs.drop_last()) {
            Err(e) => Err(e),
            Ok(s) => match free_names(
                s.args,
                s.written,
                instrs.last().arg_list(),
                instrs.last().get_type(),
            ) {
                Err(e) => Err(e),
                Ok(args) => Ok(
                    Scanned {
                        args,
                        written: match instrs.last().dest() {
                            Some(d) => s.written.insert(d),
                            None => s.written,
                        },
                    },
                ),
            },
        }
    }
}

/// The names that must outlive the trace: those written by the trace that
/// do not begin with `__trace`, each once, in the order of their first
/// writes.
pub open spec fn escaping(instrs: Seq<InstrView>) -> Seq<Seq<char>>
    decreases instrs.len(),
{
    if instrs.len() == 0 {
        seq![]
    } else {
        let e = escaping(instrs.drop_last());
        match instrs.last().dest() {
            Some(d) => if !has_prefix(d, "__trace"@) && !e.contains(d) {
                e.push(d)
            } else {
                e
            },
            None => e,
        }
    }
}

/// The trace wrapped as a function: speculation, the trace, the commit and
/// the jump to where the program goes on; then the label that a failed
/// guard jumps to, and a print of the escaping names, which keeps them
/// alive through the cleaning.
pub open spec fn wrapped(instrs: Seq<InstrView>, args: Seq<ArgView>) -> FunctionView {
    FunctionView {
        args,
        instrs: seq![CodeView::Instruction(plain_effect(EffectOps::Speculate, seq![], seq![]))]
            + instrs.map_values(|i: InstrView| CodeView::Instruction(i)) + seq![
            CodeView::Instruction(plain_effect(EffectOps::Commit, seq![], seq![])),
            CodeView::Instruction(
                plain_effect(EffectOps::Jump, seq![], seq!["__trace_succeeded"@]),
            ),
            CodeView::Label { label: "__trace_failed"@, pos: None },
            CodeView::Instruction(plain_effect(EffectOps::Print, escaping(instrs), seq![])),
        ],
        name: "__trace"@,
        pos: None,
        return_type: None,
    }
}

/// A list without its last item, if it has one.
pub open spec fn without_last<A>(s: Seq<A>) -> Seq<A> {
    if s.len() > 0 {
        s.drop_last()
    } else {
        s
    }
}

/// Whether a pass of value numbering has seen no function yet.
pub open spec fn fresh_lvn<F: Fn(FloatQuery) -> Literal>(p: &LVNPass<F>, fl: F) -> bool {
    &&& p.nid == 0
    &&& p.names.wf()
    &&& p.names@ == Set::<Seq<char>>::empty()
    &&& p.args.deep_view() == Seq::<ArgView>::empty()
    &&& p.float == fl
}

/// What `take` may return: the lines of the wrapped trace after value
/// numbering and dead-code elimination, without the last line, or the
/// first failure.
pub open spec fn take_rel<F: Fn(FloatQuery) -> Literal>(
    instrs: Seq<InstrView>,
    fl: F,
    out: Result<Seq<CodeView>, PassError>,
) -> bool {
    match scan_args(instrs) {
        Err(e) => out == Err::<Seq<CodeView>, PassError>(e),
        Ok(s) => exists|start: LVNPass<F>, end: LVNPass<F>, r1: Result<BBFunctionView, PassError>|
            #![trigger midway(start, r1), midway(end, r1)]
            fresh_lvn(&start, fl) && func_rel(
                &start,
                block_form(wrapped(instrs, s.args)),
                &end,
                r1,
            ) && match r1 {
                Err(e) => out == Err::<Seq<CodeView>, PassError>(e),
                Ok(f1) => exists|r2: Result<BBFunctionView, PassError>|
                    #![trigger func_rel(&TDCEPass, f1, &TDCEPass, r2)]
                    func_rel(&TDCEPass, f1, &TDCEPass, r2) && match r2 {
                        Err(e) => out == Err::<Seq<CodeView>, PassError>(e),
                        Ok(f2) => out == Ok::<Seq<CodeView>, PassError>(
                            without_last(f2.flatten().instrs),
                        ),
                    },
            },
    }
}

/// The value of what `take` returns.
pub open spec fn code_result(r: Result<Vec<Code>, PassError>) -> Result<Seq<CodeView>, PassError> {
    match r {
        Ok(c) => Ok(c.deep_view()),
        Err(e) => Err(e),
    }
}

/// An effect without functions or position.
fn effect_code(op: EffectOps, args: Vec<String>, labels: Vec<String>) -> (r: Code)
    ensures
        r@ == CodeView::Instruction(plain_effect(op, args.deep_view(), labels.deep_view())),
{
    let funcs: Vec<String> = Vec::new();
    assert(funcs.deep_view() =~= Seq::<Seq<char>>::empty());
    Code::Instruction(Instruction::Effect { op, args, funcs, labels, pos: None })
}

/// A list of no names.
fn no_names() -> (v: Vec<String>)
    ensures
        v.deep_view() == Seq::<Seq<char>>::empty(),
{
    let v: Vec<String> = Vec::new();
    assert(v.deep_view() =~= Seq::<Seq<char>>::empty());
    v
}

/// The arguments of the trace: the names read before they are written.
fn find_args(instrs: &Vec<Instruction>) -> (r: Result<Vec<Argument>, PassError>)
    ensures
        match scan_args(instrs.deep_view()) {
            Ok(s) => r.is_ok() && r.unwrap().deep_view() == s.args,
            Err(e) => r matches Err(x) && x == e,
        },
{
    let ghost all = instrs.deep_view();
    let mut written = NameSet::new();
    let mut args: Vec<Argument> = Vec::new();
    let mut i: usize = 0;
    assert(all.take(0) =~= seq![]);
    assert(args.deep_view() =~= seq![]);
    while i < instrs.len()
        invariant
            i <= instrs.len(),
            all == instrs.deep_view(),
            written.wf(),
            scan_args(all.take(i as int)) == Ok::<Scanned, PassError>(
                Scanned { args: args.deep_view(), written: written@ },
            ),
        decreases instrs.len() - i,
    {
        proof {
            let next = all.take(i + 1);
            assert(next.drop_last() =~= all.take(i as int));
            lemma_deep_index(*instrs);
            assert(next.last() == instrs[i as int]@);
        }
        let ghost found = args.deep_view();
        let ty = crate::instr::InstrExt::get_type(&instrs[i]);
        match instrs[i].args_ref() {
            Some(names) => {
                let ghost nv = names.deep_view();
                let mut j: usize = 0;
                assert(nv.take(0) =~= seq![]);
                while j < names.len()
                    invariant
                        j <= names.len(),
                        nv == names.deep_view(),
                        written.wf(),
                        i < instrs.len(),
                        all == instrs.deep_view(),
                        scan_args(all.take(i as int)) == Ok::<Scanned, PassError>(
                            Scanned { args: found, written: written@ },
                        ),
                        all.take(i + 1).drop_last() == all.take(i as int),
                        all.take(i + 1).last().arg_list() == nv,
                        all.take(i + 1).last().get_type() == ty,
                        free_names(found, written@, nv.take(j as int), ty) == Ok::<
                            Seq<ArgView>,
                            PassError,
                        >(args.deep_view()),
                    decreases names.len() - j,
                {
                    proof {
                        let next = nv.take(j + 1);
                        assert(next.drop_last() =~= nv.take(j as int));
                        lemma_deep_index(*names);
                        assert(next.last() == names[j as int]@);
                    }
                    if !written.contains(&names[j]) {
                        match &ty {
                            Some(t) => {
                                let ghost before = args;
                                let a = Argument { name: names[j].clone(), arg_type: t.clone() };
                                args.push(a);
                                proof {
                                    lemma_deep_push(before, args, a);
                                }
                            },
                            None => {
                                proof {
                                    assert(free_names(found, written@, nv.take(j + 1), ty).is_err());
                                    lemma_free_failed(found, written@, nv, ty, j + 1);
                                    assert(scan_args(all.take(i + 1)).is_err());
                                    lemma_scan_failed(all, i + 1);
                                }
                                return Err(PassError::Untyped);
                            },
                        }
                    }
                    j += 1;
                }
                assert(nv.take(names.len() as int) =~= nv);
            },
            None => {
                assert(instrs[i as int]@.arg_list() =~= seq![]);
            },
        }
        match instrs[i].dest_ref() {
            Some(d) => {
                written.insert(d.clone());
            },
            None => {},
        }
        i += 1;
    }
    assert(all.take(instrs.len() as int) =~= all);
    Ok(args)
}

/// A search for free names that failed on some names fails on more.
pub proof fn lemma_free_failed(
    found: Seq<ArgView>,
    written: Set<Seq<char>>,
    names: Seq<Seq<char>>,
    ty: Option<Type>,
    k: int,
)
    requires
        0 <= k <= names.len(),
        free_names(found, written, names.take(k), ty).is_err(),
    ensures
        free_names(found, written, names, ty) == free_names(found, written, names.take(k), ty),
    decreases names.len() - k,
{
    if k < names.len() {
        assert(names.take(k + 1).drop_last() =~= names.take(k));
        lemma_free_failed(found, written, names, ty, k + 1);
    } else {
        assert(names.take(k) =~= names);
    }
}

/// A scan that failed on some instructions fails on more.
pub proof fn lemma_scan_failed(instrs: Seq<InstrView>, k: int)
    requires
        0 <= k <= instrs.len(),
        scan_args(instrs.take(k)).is_err(),
    ensures
        scan_args(instrs) == scan_args(instrs.take(k)),
    decreases instrs.len() - k,
{
    if k < instrs.len() {
        assert(instrs.take(k + 1).drop_last() =~= instrs.take(k));
        lemma_scan_failed(instrs, k + 1);
    } else {
        assert(instrs.take(k) =~= instrs);
    }
}

/// The names that must outlive the trace.
fn find_escaping(instrs: &Vec<Instruction>) -> (r: Vec<String>)
    ensures
        r.deep_view() == escaping(instrs.deep_view()),
{
    let ghost all = instrs.deep_view();
    let mut names = NameSet::new();
    let mut out: Vec<String> = Vec::new();
    let mut i: usize = 0;
    assert(all.take(0) =~= seq![]);
    assert(out.deep_view() =~= seq![]);
    while i < instrs.len()
        invariant
            i <= instrs.len(),
            all == instrs.deep_view(),
            names.wf(),
            names.elems() == escaping(all.take(i as int)),
            out.deep_view() == escaping(all.take(i as int)),
        decreases instrs.len() - i,
    {
        proof {
            let next = all.take(i + 1);
            assert(next.drop_last() =~= all.take(i as int));
            lemma_deep_index(*instrs);
            assert(next.last() == instrs[i as int]@);
        }
        match instrs[i].dest_ref() {
            Some(d) => {
                if !starts_with(d.as_str(), "__trace") {
                    if names.insert(d.clone()) {
                        let ghost before = out;
                        let c = d.clone();
                        out.push(c);
                        proof {
                            lemma_deep_push(before, out, c);
                        }
                    }
                }
            },
            None => {},
        }
        i += 1;
    }
    assert(all.take(instrs.len() as int) =~= all);
    out
}

/// The trace wrapped as a function.
fn wrap(instrs: &Vec<Instruction>, args: Vec<Argument>) -> (f: Function)
    ensures
        f@ == wrapped(instrs.deep_view(), args.deep_view()),
{
    let names = find_escaping(instrs);
    let ghost all = instrs.deep_view();
    let ghost wrap_fn = |i: InstrView| CodeView::Instruction(i);
    let mut codes: Vec<Code> = Vec::new();
    let first = effect_code(EffectOps::Speculate, no_names(), no_names());
    codes.push(first);
    let ghost head = seq![first@];
    proof {
        lemma_deep_index(codes);
        assert(codes.deep_view() =~= head);
        assert(all.take(0) =~= seq![]);
        assert(head + all.take(0).map_values(wrap_fn) =~= head);
    }
    let mut i: usize = 0;
    while i < instrs.len()
        invariant
            i <= instrs.len(),
            all == instrs.deep_view(),
            forall|x: InstrView| #[trigger] wrap_fn(x) == CodeView::Instruction(x),
            codes.deep_view() == head + all.take(i as int).map_values(wrap_fn),
        decreases instrs.len() - i,
    {
        let ghost before = codes;
        let c = Code::Instruction(instrs[i].clone());
        codes.push(c);
        proof {
            lemma_deep_push(before, codes, c);
            lemma_deep_index(*instrs);
            assert(all.take(i + 1) =~= all.take(i as int).push(instrs[i as int]@));
            assert(wrap_fn(instrs[i as int]@) == c@);
            assert(all.take(i + 1).map_values(wrap_fn) =~= all.take(i as int).map_values(
                wrap_fn,
            ).push(c@));
            assert(head + all.take(i + 1).map_values(wrap_fn) =~= (head + all.take(
                i as int,
            ).map_values(wrap_fn)).push(c@));
        }
        i += 1;
    }
    assert(all.take(instrs.len() as int) =~= all);
    let mut target: Vec<String> = Vec::new();
    target.push("__trace_succeeded".to_owned());
    assert(target.deep_view() =~= seq!["__trace_succeeded"@]);
    let c1 = effect_code(EffectOps::Commit, no_names(), no_names());
    let c2 = effect_code(EffectOps::Jump, no_names(), target);
    let c3 = Code::Label { label: "__trace_failed".to_owned(), pos: None };
    let c4 = effect_code(EffectOps::Print, names, no_names());
    let ghost body = codes.deep_view();
    let ghost b0 = codes;
    codes.push(c1);
    let ghost b1 = codes;
    codes.push(c2);
    let ghost b2 = codes;
    codes.push(c3);
    let ghost b3 = codes;
    codes.push(c4);
    proof {
        lemma_deep_push(b0, b1, c1);
        lemma_deep_push(b1, b2, c2);
        lemma_deep_push(b2, b3, c3);
        lemma_deep_push(b3, codes, c4);
        assert(all.map_values(wrap_fn) =~= all.map_values(|i: InstrView| CodeView::Instruction(i)));
        assert(codes.deep_view() =~= body + seq![c1@, c2@, c3@, c4@]);
    }
    Function { args, instrs: codes, name: "__trace".to_owned(), pos: None, return_type: None }
}

impl Trace {
    /// Ends the trace: wraps it, cleans it by value numbering and
    /// dead-code elimination, and returns its lines without the print
    /// that kept the escaping names alive. `fl` is the floating-point unit
    /// that value numbering folds with.
    pub fn take<F: Fn(FloatQuery) -> Literal>(self, fl: F) -> (r: Result<Vec<Code>, PassError>)
        requires
            unit_ok(&fl),
        ensures
            take_rel(self@.instrs, fl, code_result(r)),
    {
        let args = match find_args(&self.instrs) {
            Ok(a) => a,
            Err(e) => {
                return Err(e);
            },
        };
        let func = wrap(&self.instrs, args);
        let bb = BBFunction::from(func);
        let mut lvn = LVNPass::new(fl);
        let ghost start = lvn;
        let res1 = run_function_pass(&mut lvn, bb);
        let ghost r1 = func_result(res1);
        proof {
            assert(midway(start, r1) && midway(lvn, r1));
        }
        let bb = match res1 {
            Ok(b) => b,
            Err(e) => {
                return Err(e);
            },
        };
        let mut tdce = TDCEPass;
        let res2 = run_function_pass(&mut tdce, bb);
        let bb = match res2 {
            Ok(b) => b,
            Err(e) => {
                return Err(e);
            },
        };
        let mut instrs = bb.into_function().instrs;
        let ghost before = instrs;
        instrs.pop();
        proof {
            lemma_deep_index(before);
            lemma_deep_index(instrs);
            assert(instrs.deep_view() =~= without_last(before.deep_view()));
        }
        Ok(instrs)
    }
}

/// Where the label goes that the trace jumps to at its end: before the
/// line at which, counting from line `k`, `bb` labels have gone by and
/// then `ii` lines; nowhere if a label comes before those lines are
/// through.
pub open spec fn anchor(codes: Seq<CodeView>, k: int, bb: int, ii: int) -> Option<int>
    decreases codes.len() - k,
{
    if k < 0 || k >= codes.len() {
        None
    } else if bb == 0 && ii == 0 {
        Some(k)
    } else {
        let ii2 = if bb == 0 {
            ii - 1
        } else {
            ii
        };
        if codes[k] is Label {
            if bb == 0 {
                None
            } else {
                anchor(codes, k + 1, bb - 1, ii2)
            }
        } else {
            anchor(codes, k + 1, bb, ii2)
        }
    }
}

/// The label that the trace jumps to at its end.
pub open spec fn succeeded_label() -> CodeView {
    CodeView::Label { label: "__trace_succeeded"@, pos: None }
}

/// The program with the trace before it, and the label at the place where
/// the trace leaves off.
pub open spec fn spliced(main: Seq<CodeView>, trace: Seq<CodeView>, bb: int, ii: int) -> Seq<CodeView> {
    trace + match anchor(main, 0, bb, ii) {
        Some(k) => main.insert(k, succeeded_label()),
        None => main,
    }
}

/// Puts the trace before the lines of the main function, and the label
/// that the trace jumps to at the line where the interpreter halted:
/// `bbidx` labels on, and then `iidx` lines.
pub fn splice(main: Vec<Code>, trace: Vec<Code>, bbidx: usize, iidx: usize) -> (r: Vec<Code>)
    ensures
        r.deep_view() == spliced(main.deep_view(), trace.deep_view(), bbidx as int, iidx as int),
{
    let ghost mv = main.deep_view();
    let mut bb = bbidx;
    let mut ii = iidx;
    let mut found: Option<usize> = None;
    let mut idx: usize = 0;
    while idx < main.len()
        invariant_except_break
            found.is_none(),
            anchor(mv, 0, bbidx as int, iidx as int) == anchor(mv, idx as int, bb as int, ii as int),
        invariant
            idx <= main.len(),
            mv == main.deep_view(),
        ensures
            match found {
                Some(k) => k < main.len() && anchor(mv, 0, bbidx as int, iidx as int) == Some(
                    k as int,
                ),
                None => anchor(mv, 0, bbidx as int, iidx as int).is_none(),
            },
        decreases main.len() - idx,
    {
        proof {
            lemma_deep_index(main);
        }
        if bb == 0 && ii == 0 {
            found = Some(idx);
            break;
        }
        let is_label = match &main[idx] {
            Code::Label { .. } => true,
            _ => false,
        };
        assert(is_label == (mv[idx as int] is Label));
        if is_label && bb == 0 {
            break;
        }
        if bb == 0 {
            ii -= 1;
        }
        if is_label {
            bb -= 1;
        }
        idx += 1;
    }
    let mut out = trace;
    let ghost tv = out.deep_view();
    let mut main = main;
    match found {
        Some(k) => {
            let ghost before = main;
            let label = Code::Label { label: "__trace_succeeded".to_owned(), pos: None };
            main.insert(k, label);
            proof {
                lemma_deep_index(before);
                lemma_deep_index(main);
                assert(main.deep_view() =~= mv.insert(k as int, succeeded_label()));
            }
        },
        None => {},
    }
    let ghost rest = main.deep_view();
    let mut i: usize = 0;
    assert(rest.take(0) =~= seq![]);
    assert(tv + Seq::<CodeView>::empty() =~= tv);
    while i < main.len()
        invariant
            i <= main.len(),
            rest == main.deep_view(),
            out.deep_view() == tv + rest.take(i as int),
        decreases main.len() - i,
    {
        let ghost before = out;
        let c = main[i].clone();
        out.push(c);
        proof {
            lemma_deep_push(before, out, c);
            lemma_deep_index(main);
            assert(rest.take(i + 1) =~= rest.take(i as int).push(c@));
            assert(tv + rest.take(i as int).push(c@) =~= (tv + rest.take(i as int)).push(c@));
        }
        i += 1;
    }
    assert(rest.take(main.len() as int) =~= rest);
    out
}

} // verus!
