//! The trace recorder: it takes the instructions that an interpreter
//! executes, one by one, and records a straight line of pure instructions,
//! with a guard where the program branched, and the calls inlined under
//! names of their own.
use crate::bb_function::{block_form, BBFunction, BBFunctionView};
use crate::float::{unit_ok, FloatQuery};
use crate::instr::InstrExt;
use crate::ir::{
    clone_instrs, lemma_deep_index, lemma_deep_push, ArgView, Argument, Code, CodeView, EffectOps,
    Function, FunctionView, InstrView, Instruction, Literal, Type, ValueOps,
};
use crate::lvn::LVNPass;
use crate::names::NameSet;
use crate::passes::{func_rel, func_result, run_function_pass, PassError};
use crate::tdce::TDCEPass;
use crate::text::{decimal, decimal_string, has_prefix, join, join_strings, starts_with};
use vstd::prelude::*;
use vstd::string::StringExecFns;

verus! {

/// Why the recorder did not take an instruction.
#[derive(Clone, Copy, Debug, PartialEq, Eq, Structural)]
pub enum TraceError {
    /// The trace has reached its greatest length.
    Full,
    /// The trace was ended by an earlier failure.
    Done,
    /// The instruction is not pure.
    Impure,
    /// The instruction touches memory.
    Memory,
    /// The instruction lacks what its opcode needs, returns from no call,
    /// or is one that only a trace holds.
    Malformed,
}

impl TraceError {
    /// The report of the failure, in words.
    pub open spec fn message_spec(self) -> Seq<char> {
        match self {
            TraceError::Full => "Trace is full"@,
            TraceError::Done => "Trace is already done"@,
            TraceError::Impure => "Attempted to trace non-pure instruction"@,
            TraceError::Memory => "Memory operations cannot be traced"@,
            TraceError::Malformed => "Instruction cannot be traced"@,
        }
    }

    /// The report of the failure, in words.
    pub fn message(&self) -> (r: String)
        ensures
            r@ == self.message_spec(),
    {
        match self {
            TraceError::Full => "Trace is full".to_owned(),
            TraceError::Done => "Trace is already done".to_owned(),
            TraceError::Impure => "Attempted to trace non-pure instruction".to_owned(),
            TraceError::Memory => "Memory operations cannot be traced".to_owned(),
            TraceError::Malformed => "Instruction cannot be traced".to_owned(),
        }
    }
}

/// A name under the calls that the trace is in: itself outside any call,
/// else marked with the names of the calls.
pub open spec fn prefixed(name: Seq<char>, prefix: Seq<Seq<char>>) -> Seq<char> {
    if prefix.len() == 0 {
        name
    } else {
        "__trace_"@ + join(prefix, "_"@) + "_"@ + name
    }
}

/// Each of the names under the calls that the trace is in.
pub open spec fn prefixed_all(names: Seq<Seq<char>>, prefix: Seq<Seq<char>>) -> Seq<Seq<char>> {
    Seq::new(names.len(), |i: int| prefixed(names[i], prefix))
}

/// An instruction with its destination and its arguments under the calls
/// that the trace is in.
pub open spec fn prefix_instr_spec(i: InstrView, prefix: Seq<Seq<char>>) -> InstrView {
    let d = match i.dest() {
        Some(d) => i.set_dest(prefixed(d, prefix)),
        None => i,
    };
    match i.args() {
        Some(a) => d.set_args(prefixed_all(a, prefix)),
        None => d,
    }
}

/// The name of the condition of the guard that the trace puts at position
/// `n`.
pub open spec fn cond_name(n: nat) -> Seq<char> {
    "__trace"@ + decimal(n) + "_cond"@
}

/// The opcode that makes the condition of a guard from the condition of a
/// branch: a copy if the branch was taken, a negation if it was not.
pub open spec fn cond_op(taken: bool) -> ValueOps {
    if taken {
        ValueOps::Id
    } else {
        ValueOps::Not
    }
}

/// The value that a copy or a negation computes from a boolean.
pub open spec fn cond_value(op: ValueOps, v: bool) -> bool {
    if op == ValueOps::Not {
        !v
    } else {
        v
    }
}

/// The condition of a guard holds on the traced path: it is computed from
/// the condition of the branch, by a copy if the branch was taken and by a
/// negation if it was not.
pub proof fn lemma_guard_holds(taken: bool)
    ensures
        cond_value(cond_op(taken), taken),
{
}

/// A value instruction without functions, labels or position.
pub open spec fn plain_value(op: ValueOps, dest: Seq<char>, args: Seq<Seq<char>>, ty: Type) -> InstrView {
    InstrView::Value { op, dest, args, funcs: seq![], labels: seq![], pos: None, op_type: ty }
}

/// An effect without functions or position.
pub open spec fn plain_effect(op: EffectOps, args: Seq<Seq<char>>, labels: Seq<Seq<char>>) -> InstrView {
    InstrView::Effect { op, args, funcs: seq![], labels, pos: None }
}

/// The guard that stands for a branch: the condition of the guard, made
/// from the condition of the branch, and the guard itself.
pub open spec fn guard_pair(arg: Seq<char>, taken: bool, n: nat) -> Seq<InstrView> {
    seq![
        plain_value(cond_op(taken), cond_name(n), seq![arg], Type::Bool),
        plain_effect(EffectOps::Guard, seq![cond_name(n)], seq!["__trace_failed"@]),
    ]
}

/// The copies that bind the arguments of a call to the formal arguments
/// of the function called: one for each formal that has an argument.
pub open spec fn bindings(formals: Seq<ArgView>, args: Seq<Seq<char>>, prefix: Seq<Seq<char>>) -> Seq<
    InstrView,
> {
    Seq::new(
        if formals.len() <= args.len() {
            formals.len()
        } else {
            args.len()
        },
        |i: int|
            plain_value(
                ValueOps::Id,
                prefixed(formals[i].name, prefix),
                seq![args[i]],
                formals[i].arg_type,
            ),
    )
}

/// The state of the recorder.
pub struct TraceView {
    pub prefix: Seq<Seq<char>>,
    pub max_len: usize,
    pub instrs: Seq<InstrView>,
    pub return_destinations: Seq<(Seq<char>, Type)>,
    pub done: bool,
}

/// What an instruction adds to the trace: the instructions recorded for
/// it, and the calls and the saved destinations after it.
pub struct Step {
    pub emitted: Seq<InstrView>,
    pub prefix: Seq<Seq<char>>,
    pub return_destinations: Seq<(Seq<char>, Type)>,
}

/// What the recorder makes of an instruction that it has room for. `i` is
/// the instruction under the calls that the trace is in. A branch becomes
/// a guard, a jump nothing. A return leaves the innermost call and becomes
/// a copy into the destination saved at the call. A call with a result
/// enters the function called and becomes the copies that bind its
/// arguments. `nop`, `set` and every pure instruction are recorded as they
/// are. Anything else is refused.
pub open spec fn step_spec(t: TraceView, i: InstrView, taken: bool, formals: Seq<ArgView>) -> Result<
    Step,
    TraceError,
> {
    let same = Step { emitted: seq![i], prefix: t.prefix, return_destinations: t.return_destinations };
    match i {
        InstrView::Effect { op, args, .. } => match op {
            EffectOps::Branch => if args.len() == 0 {
                Err(TraceError::Malformed)
            } else {
                Ok(Step { emitted: guard_pair(args[0], taken, t.instrs.len()), ..same })
            },
            EffectOps::Return => if args.len() == 0 || t.return_destinations.len() == 0 {
                Err(TraceError::Malformed)
            } else {
                Ok(
                    Step {
                        emitted: seq![
                            plain_value(
                                ValueOps::Id,
                                t.return_destinations.last().0,
                                seq![args[0]],
                                t.return_destinations.last().1,
                            ),
                        ],
                        prefix: if t.prefix.len() > 0 {
                            t.prefix.drop_last()
                        } else {
                            t.prefix
                        },
                        return_destinations: t.return_destinations.drop_last(),
                    },
                )
            },
            EffectOps::Call => Err(TraceError::Impure),
            EffectOps::Jump => Ok(Step { emitted: seq![], ..same }),
            EffectOps::Print => Err(TraceError::Impure),
            EffectOps::Nop => Ok(same),
            EffectOps::SetVar => Ok(same),
            EffectOps::Speculate => Err(TraceError::Malformed),
            EffectOps::Commit => Err(TraceError::Malformed),
            EffectOps::Guard => Err(TraceError::Malformed),
            EffectOps::Store => Err(TraceError::Memory),
            EffectOps::Free => Err(TraceError::Memory),
        },
        InstrView::Value { op: ValueOps::Call, funcs, args, dest, op_type, .. } => if funcs.len()
            == 0 {
            Err(TraceError::Malformed)
        } else {
            Ok(
                Step {
                    emitted: bindings(formals, args, t.prefix.push(funcs[0])),
                    prefix: t.prefix.push(funcs[0]),
                    return_destinations: t.return_destinations.push((dest, op_type)),
                },
            )
        },
        _ => if i.is_pure() {
            Ok(same)
        } else {
            Err(TraceError::Impure)
        },
    }
}

/// What `push` does to the recorder and returns. A full trace and a trace
/// that is done take nothing; the first of them marks the trace as done.
/// An instruction that is refused marks the trace as done too, and leaves
/// the rest as it is.
pub open spec fn push_spec(t: TraceView, instr: InstrView, taken: bool, formals: Seq<ArgView>) -> (
    TraceView,
    Result<(), TraceError>,
) {
    if t.instrs.len() >= t.max_len {
        (TraceView { done: true, ..t }, Err(TraceError::Full))
    } else if t.done {
        (t, Err(TraceError::Done))
    } else {
        match step_spec(t, prefix_instr_spec(instr, t.prefix), taken, formals) {
            Err(e) => (TraceView { done: true, ..t }, Err(e)),
            Ok(s) => (
                TraceView {
                    prefix: s.prefix,
                    instrs: t.instrs + s.emitted,
                    return_destinations: s.return_destinations,
                    done: false,
                    ..t
                },
                Ok(()),
            ),
        }
    }
}

/// The recorder of a trace.
#[derive(Debug)]
pub struct Trace {
    pub prefix: Vec<String>,
    pub max_len: usize,
    pub instrs: Vec<Instruction>,
    pub return_destinations: Vec<(String, Type)>,
    pub done: bool,
}

impl View for Trace {
    type V = TraceView;

    open spec fn view(&self) -> TraceView {
        TraceView {
            prefix: self.prefix.deep_view(),
            max_len: self.max_len,
            instrs: self.instrs.deep_view(),
            return_destinations: Seq::new(
                self.return_destinations@.len(),
                |i: int| (self.return_destinations@[i].0@, self.return_destinations@[i].1),
            ),
            done: self.done,
        }
    }
}

/// A list of no names.
fn no_names() -> (v: Vec<String>)
    ensures
        v.deep_view() == Seq::<Seq<char>>::empty(),
{
    let v: Vec<String> = Vec::new();
    assert(v.deep_view() =~= Seq::<Seq<char>>::empty());
    v
}

/// A list of one name.
fn one_name(a: String) -> (v: Vec<String>)
    ensures
        v.deep_view() == seq![a@],
{
    let mut v: Vec<String> = Vec::new();
    v.push(a);
    assert(v.deep_view() =~= seq![a@]);
    v
}

/// A value instruction without functions, labels or position.
fn value_instr(op: ValueOps, dest: String, args: Vec<String>, ty: Type) -> (r: Instruction)
    ensures
        r@ == plain_value(op, dest@, args.deep_view(), ty),
{
    Instruction::Value {
        op,
        dest,
        args,
        funcs: no_names(),
        labels: no_names(),
        pos: None,
        op_type: ty,
    }
}

/// An effect without functions or position.
fn effect_instr(op: EffectOps, args: Vec<String>, labels: Vec<String>) -> (r: Instruction)
    ensures
        r@ == plain_effect(op, args.deep_view(), labels.deep_view()),
{
    Instruction::Effect { op, args, funcs: no_names(), labels, pos: None }
}

impl Trace {
    /// A recorder of a trace of at most `max_len` instructions.
    pub fn new(max_len: usize) -> (r: Self)
        ensures
            r@ == (TraceView {
                prefix: seq![],
                max_len,
                instrs: seq![],
                return_destinations: seq![],
                done: false,
            }),
    {
        let r = Trace {
            prefix: Vec::new(),
            max_len,
            instrs: Vec::new(),
            return_destinations: Vec::new(),
            done: false,
        };
        assert(r@.prefix =~= seq![]);
        assert(r@.instrs =~= seq![]);
        assert(r@.return_destinations =~= seq![]);
        r
    }

    /// Whether the trace was ended by a failure.
    pub fn done(&self) -> (r: bool)
        ensures
            r == self@.done,
    {
        self.done
    }

    /// A name under the calls that the trace is in.
    pub fn prefix_name(name: &String, prefix: &Vec<String>) -> (r: String)
        ensures
            r@ == prefixed(name@, prefix.deep_view()),
    {
        if prefix.len() == 0 {
            name.clone()
        } else {
            let mut r = "__trace_".to_owned();
            r.append(join_strings(prefix, "_").as_str());
            r.append("_");
            r.append(name.as_str());
            r
        }
    }

    /// An instruction with its destination and its arguments under the
    /// calls that the trace is in.
    pub fn prefix_instr(&self, instr: &Instruction) -> (r: Instruction)
        ensures
            r@ == prefix_instr_spec(instr@, self@.prefix),
    {
        let mut out = instr.clone();
        match instr.dest_ref() {
            Some(d) => {
                out.set_dest(Self::prefix_name(d, &self.prefix));
            },
            None => {},
        }
        match instr.args_ref() {
            Some(args) => {
                let mut names: Vec<String> = Vec::new();
                let mut i: usize = 0;
                while i < args.len()
                    invariant
                        i <= args.len(),
                        names.len() == i,
                        forall|j: int|
                            0 <= j < i ==> (#[trigger] names[j])@ == prefixed(
                                args[j]@,
                                self.prefix.deep_view(),
                            ),
                    decreases args.len() - i,
                {
                    names.push(Self::prefix_name(&args[i], &self.prefix));
                    i += 1;
                }
                proof {
                    lemma_deep_index(*args);
                    lemma_deep_index(names);
                    assert(names.deep_view() =~= prefixed_all(args.deep_view(), self@.prefix));
                }
                out.set_args(names);
            },
            None => {},
        }
        out
    }

    /// Adds instructions at the end of the trace.
    fn record(&mut self, more: Vec<Instruction>)
        ensures
            final(self)@ == (TraceView { instrs: old(self)@.instrs + more.deep_view(), ..old(self)@ }),
    {
        let ghost base = self.instrs.deep_view();
        let mut i: usize = 0;
        assert(more.deep_view().take(0) =~= seq![]);
        assert(base + Seq::<InstrView>::empty() =~= base);
        while i < more.len()
            invariant
                i <= more.len(),
                self.prefix == old(self).prefix,
                self.max_len == old(self).max_len,
                self.return_destinations == old(self).return_destinations,
                self.done == old(self).done,
                self.instrs.deep_view() == base + more.deep_view().take(i as int),
            decreases more.len() - i,
        {
            let ghost before = self.instrs;
            let c = more[i].clone();
            self.instrs.push(c);
            proof {
                lemma_deep_push(before, self.instrs, c);
                lemma_deep_index(more);
                assert(more.deep_view().take(i + 1) =~= more.deep_view().take(i as int).push(c@));
                assert(base + more.deep_view().take(i as int).push(c@) =~= (base
                    + more.deep_view().take(i as int)).push(c@));
            }
            i += 1;
        }
        assert(more.deep_view().take(more.len() as int) =~= more.deep_view());
    }

    /// The copies that bind the arguments of a call to the formal
    /// arguments of the function called.
    fn bind(formals: &Vec<Argument>, args: &Vec<String>, prefix: &Vec<String>) -> (r: Vec<
        Instruction,
    >)
        ensures
            r.deep_view() == bindings(formals.deep_view(), args.deep_view(), prefix.deep_view()),
    {
        let n = if formals.len() <= args.len() {
            formals.len()
        } else {
            args.len()
        };
        let mut r: Vec<Instruction> = Vec::new();
        let mut i: usize = 0;
        proof {
            lemma_deep_index(*formals);
            lemma_deep_index(*args);
        }
        while i < n
            invariant
                i <= n,
                n <= formals.len(),
                n <= args.len(),
                r.len() == i,
                forall|j: int|
                    0 <= j < i ==> (#[trigger] r[j])@ == plain_value(
                        ValueOps::Id,
                        prefixed(formals[j]@.name, prefix.deep_view()),
                        seq![args[j]@],
                        formals[j]@.arg_type,
                    ),
            decreases n - i,
        {
            let dest = Self::prefix_name(&formals[i].name, prefix);
            r.push(
                value_instr(ValueOps::Id, dest, one_name(args[i].clone()), formals[i].arg_type.clone()),
            );
            i += 1;
        }
        proof {
            lemma_deep_index(r);
            assert(r.deep_view() =~= bindings(
                formals.deep_view(),
                args.deep_view(),
                prefix.deep_view(),
            ));
        }
        r
    }

    /// Takes the next instruction that the interpreter executes. `taken`
    /// tells, for a branch, whether its condition held; `formals` are, for
    /// a call, the formal arguments of the function called.
    pub fn push(&mut self, instr: &Instruction, taken: bool, formals: &Vec<Argument>) -> (r: Result<
        (),
        TraceError,
    >)
        ensures
            (final(self)@, r) == push_spec(old(self)@, instr@, taken, formals.deep_view()),
    {
        if self.instrs.len() >= self.max_len {
            self.done = true;
            return Err(TraceError::Full);
        }
        if self.done {
            return Err(TraceError::Done);
        }
        self.done = true;
        let ghost t = old(self)@;
        let instr = self.prefix_instr(instr);
        proof {
            lemma_deep_index(self.prefix);
            lemma_deep_index(self.instrs);
        }
        match &instr {
            Instruction::Effect { op, args, .. } => {
                proof {
                    lemma_deep_index(*args);
                }
                match op {
                    EffectOps::Branch => {
                        if args.len() == 0 {
                            return Err(TraceError::Malformed);
                        }
                        let mut condval = "__trace".to_owned();
                        condval.append(decimal_string(self.instrs.len()).as_str());
                        condval.append("_cond");
                        let op = if taken {
                            ValueOps::Id
                        } else {
                            ValueOps::Not
                        };
                        let mut more: Vec<Instruction> = Vec::new();
                        let first = value_instr(
                            op,
                            condval.clone(),
                            one_name(args[0].clone()),
                            Type::Bool,
                        );
                        let second = effect_instr(
                            EffectOps::Guard,
                            one_name(condval),
                            one_name("__trace_failed".to_owned()),
                        );
                        more.push(first);
                        more.push(second);
                        proof {
                            lemma_deep_index(more);
                            assert(more.deep_view() =~= guard_pair(args[0]@, taken, t.instrs.len()));
                        }
                        self.record(more);
                    },
                    EffectOps::Return => {
                        if args.len() == 0 || self.return_destinations.len() == 0 {
                            return Err(TraceError::Malformed);
                        }
                        let ghost before_prefix = self.prefix;
                        self.prefix.pop();
                        proof {
                            lemma_deep_index(before_prefix);
                            lemma_deep_index(self.prefix);
                            if before_prefix.len() > 0 {
                                assert(self.prefix.deep_view() =~= before_prefix.deep_view().drop_last());
                            } else {
                                assert(self.prefix.deep_view() =~= before_prefix.deep_view());
                            }
                        }
                        let (dest, ty) = self.return_destinations.pop().unwrap();
                        let mut more: Vec<Instruction> = Vec::new();
                        let copy = value_instr(ValueOps::Id, dest, one_name(args[0].clone()), ty);
                        more.push(copy);
                        proof {
                            lemma_deep_index(more);
                            assert(more.deep_view() =~= seq![copy@]);
                            assert(self@.return_destinations =~= t.return_destinations.drop_last());
                        }
                        self.record(more);
                    },
                    EffectOps::Call => {
                        return Err(TraceError::Impure);
                    },
                    EffectOps::Jump => {
                        assert(self@.instrs + Seq::<InstrView>::empty() =~= self@.instrs);
                    },
                    EffectOps::Print => {
                        return Err(TraceError::Impure);
                    },
                    EffectOps::Nop | EffectOps::SetVar => {
                        let mut more: Vec<Instruction> = Vec::new();
                        let c = instr.clone();
                        more.push(c);
                        proof {
                            lemma_deep_index(more);
                            assert(more.deep_view() =~= seq![instr@]);
                        }
                        self.record(more);
                    },
                    EffectOps::Speculate | EffectOps::Commit | EffectOps::Guard => {
                        return Err(TraceError::Malformed);
                    },
                    EffectOps::Store | EffectOps::Free => {
                        return Err(TraceError::Memory);
                    },
                }
            },
            Instruction::Value { op: ValueOps::Call, funcs, args, dest, op_type, .. } => {
                proof {
                    lemma_deep_index(*funcs);
                }
                if funcs.len() == 0 {
                    return Err(TraceError::Malformed);
                }
                let ghost before_prefix = self.prefix;
                let name = funcs[0].clone();
                self.prefix.push(name);
                proof {
                    lemma_deep_push(before_prefix, self.prefix, name);
                }
                self.return_destinations.push((dest.clone(), op_type.clone()));
                proof {
                    assert(self@.return_destinations =~= t.return_destinations.push((dest@, *op_type)));
                }
                let more = Self::bind(formals, args, &self.prefix);
                self.record(more);
            },
            _ => {
                if !instr.is_pure() {
                    return Err(TraceError::Impure);
                }
                let mut more: Vec<Instruction> = Vec::new();
                let c = instr.clone();
                more.push(c);
                proof {
                    lemma_deep_index(more);
                    assert(more.deep_view() =~= seq![instr@]);
                }
                self.record(more);
            },
        }
        self.done = false;
        Ok(())
    }
}

} // verus!
