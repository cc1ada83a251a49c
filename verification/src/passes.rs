//! The pass framework: what a pass over a program, a pass over the blocks
//! of a function and an analysis are, and the drivers that run one.
use crate::basic_block::{BasicBlock, BlockView};
use crate::bb_function::{block_form, BBFunction, BBFunctionView};
use crate::fold::FoldError;
use crate::ir::{lemma_deep_push, Function, FunctionView, Program, ProgramView};
use vstd::prelude::*;

verus! {

/// Why a pass gave up on a program.
#[derive(Clone, Copy, Debug, PartialEq, Eq, Structural)]
pub enum PassError {
    /// A constant could not be folded.
    Fold(FoldError),
    /// The terminator of the block with this index names no block.
    Label(usize),
    /// A literal does not fit the declared type of its constant.
    Type,
    /// A name is used in a way that the pass cannot give a type to.
    Untyped,
    /// The program is too large for the machine's counters.
    Capacity,
    /// A dataflow analysis did not settle within its budget of steps.
    Diverged,
    /// The node with this index has several nearest strict dominators.
    Tangled(usize),
    /// An instruction has not the shape that its opcode asks for, or a
    /// function has no block where one is needed.
    Malformed,
}

/// A pass over the blocks of a function. Each hook is described by a
/// relation between the pass and its input before the call, and the pass
/// and its result after it.
pub trait FunctionPass: Sized {
    /// What must hold of the pass between calls.
    spec fn inv(&self) -> bool;

    /// What `basic_block` may make of a block.
    spec fn block_rel(&self, bb: BlockView, post: &Self, out: Result<BlockView, PassError>) -> bool;

    /// What `before` may make of a function.
    spec fn before_rel(
        &self,
        f: BBFunctionView,
        post: &Self,
        out: Result<BBFunctionView, PassError>,
    ) -> bool;

    /// What `after` may make of a function.
    spec fn after_rel(
        &self,
        f: BBFunctionView,
        post: &Self,
        out: Result<BBFunctionView, PassError>,
    ) -> bool;

    /// Transforms one block. The block keeps its index.
    fn basic_block(&mut self, bb: BasicBlock) -> (r: Result<BasicBlock, PassError>)
        requires
            old(self).inv(),
            bb.wf(),
        ensures
            final(self).inv(),
            r.is_ok() ==> r.unwrap().wf() && r.unwrap()@.idx == bb@.idx,
            old(self).block_rel(bb@, final(self), block_result(r)),
    ;

    /// Runs once on the function, before its blocks are transformed.
    fn before(&mut self, func: BBFunction) -> (r: Result<BBFunction, PassError>)
        requires
            old(self).inv(),
            func.wf(),
        ensures
            final(self).inv(),
            r.is_ok() ==> r.unwrap().wf(),
            old(self).before_rel(func@, final(self), func_result(r)),
    ;

    /// Runs once on the function, after its blocks were transformed.
    fn after(&mut self, func: BBFunction) -> (r: Result<BBFunction, PassError>)
        requires
            old(self).inv(),
            func.wf(),
        ensures
            final(self).inv(),
            r.is_ok() ==> r.unwrap().wf(),
            old(self).after_rel(func@, final(self), func_result(r)),
    ;
}

/// The value of what a block hook returns.
pub open spec fn block_result(r: Result<BasicBlock, PassError>) -> Result<BlockView, PassError> {
    match r {
        Ok(b) => Ok(b@),
        Err(e) => Err(e),
    }
}

/// The value of what a function hook returns.
pub open spec fn func_result(r: Result<BBFunction, PassError>) -> Result<
    BBFunctionView,
    PassError,
> {
    match r {
        Ok(f) => Ok(f@),
        Err(e) => Err(e),
    }
}

/// A state of a pass and a result so far, named as the point that a run
/// passes through. It holds of every pair.
pub open spec fn midway<P, T>(mid: P, done: Result<T, PassError>) -> bool {
    true
}

/// Whether a pass that starts as `pre` may make `out` of the blocks `bbs`,
/// taken one after the other, and end as `post`. The first block that
/// fails ends the run with its error.
pub open spec fn blocks_rel<P: FunctionPass>(
    pre: &P,
    bbs: Seq<BlockView>,
    post: &P,
    out: Result<Seq<BlockView>, PassError>,
) -> bool
    decreases bbs.len(),
{
    if bbs.len() == 0 {
        out == Ok::<Seq<BlockView>, PassError>(seq![]) && *pre == *post
    } else {
        exists|mid: P, done: Result<Seq<BlockView>, PassError>|
            #![trigger midway(mid, done)]
            midway(mid, done) && blocks_rel(pre, bbs.drop_last(), &mid, done) && match done {
                Err(e) => out == Err::<Seq<BlockView>, PassError>(e) && mid == *post,
                Ok(d) => exists|last: Result<BlockView, PassError>|
                    #![trigger mid.block_rel(bbs.last(), post, last)]
                    mid.block_rel(bbs.last(), post, last) && out == match last {
                        Ok(b) => Ok::<Seq<BlockView>, PassError>(d.push(b)),
                        Err(e) => Err(e),
                    },
            }
    }
}

/// A run that failed on some blocks fails in the same way on those blocks
/// followed by others.
pub proof fn lemma_blocks_rel_failed<P: FunctionPass>(
    pre: &P,
    bbs: Seq<BlockView>,
    k: int,
    post: &P,
    e: PassError,
)
    requires
        0 <= k <= bbs.len(),
        blocks_rel(pre, bbs.take(k), post, Err(e)),
    ensures
        blocks_rel(pre, bbs, post, Err(e)),
    decreases bbs.len() - k,
{
    if k == bbs.len() {
        assert(bbs.take(k) =~= bbs);
    } else {
        let next = bbs.take(k + 1);
        assert(next.drop_last() =~= bbs.take(k));
        let done = Err::<Seq<BlockView>, PassError>(e);
        assert(blocks_rel(pre, next.drop_last(), post, done));
        assert(midway(*post, done));
        assert(blocks_rel(pre, next, post, Err(e)));
        lemma_blocks_rel_failed(pre, bbs, k + 1, post, e);
    }
}

/// Whether a pass that starts as `pre` may make `out` of the function `f`
/// and end as `post`: `before`, then every block in order, then `after`,
/// up to the first failure.
pub open spec fn func_rel<P: FunctionPass>(
    pre: &P,
    f: BBFunctionView,
    post: &P,
    out: Result<BBFunctionView, PassError>,
) -> bool {
    exists|s1: P, r1: Result<BBFunctionView, PassError>|
        #![trigger midway(s1, r1)]
        midway(s1, r1) && pre.before_rel(f, &s1, r1) && match r1 {
            Err(e) => out == Err::<BBFunctionView, PassError>(e) && s1 == *post,
            Ok(f1) => exists|s2: P, r2: Result<Seq<BlockView>, PassError>|
                #![trigger midway(s2, r2)]
                midway(s2, r2) && blocks_rel(&s1, f1.blocks, &s2, r2) && match r2 {
                    Err(e) => out == Err::<BBFunctionView, PassError>(e) && s2 == *post,
                    Ok(blocks) => s2.after_rel(BBFunctionView { blocks, ..f1 }, post, out),
                },
        }
}

/// Runs a pass on a function: `before`, then `basic_block` on every block
/// in order, then `after`. The first failure ends the run.
pub fn run_function_pass<P: FunctionPass>(pass: &mut P, func: BBFunction) -> (r: Result<
    BBFunction,
    PassError,
>)
    requires
        old(pass).inv(),
        func.wf(),
    ensures
        final(pass).inv(),
        r.is_ok() ==> r.unwrap().wf(),
        func_rel(old(pass), func@, final(pass), func_result(r)),
{
    let ghost f0 = func@;
    let ghost s0 = *pass;
    let cur = match pass.before(func) {
        Ok(f) => f,
        Err(e) => {
            assert(midway(*pass, Err::<BBFunctionView, PassError>(e)));
            return Err(e);
        },
    };
    let ghost s1 = *pass;
    let ghost f1 = cur@;
    let mut blocks: Vec<BasicBlock> = Vec::new();
    let mut i: usize = 0;
    assert(f1.blocks.take(0) =~= seq![]);
    assert(blocks.deep_view() =~= seq![]);
    while i < cur.blocks.len()
        invariant
            i <= cur.blocks.len(),
            cur.wf(),
            f1 == cur@,
            f0 == func@,
            pass.inv(),
            s0.before_rel(f0, &s1, Ok(f1)),
            s0 == *old(pass),
            blocks.len() == i,
            forall|j: int| 0 <= j < i ==> (#[trigger] blocks[j]).wf() && blocks[j]@.idx == j,
            blocks_rel(&s1, f1.blocks.take(i as int), pass, Ok(blocks.deep_view())),
        decreases cur.blocks.len() - i,
    {
        let ghost mid = *pass;
        let ghost before = blocks;
        let bb = cur.blocks[i].clone();
        assert(bb@ == f1.blocks[i as int]);
        let ghost next = f1.blocks.take(i + 1);
        proof {
            assert(next.drop_last() =~= f1.blocks.take(i as int));
            assert(next.last() == bb@);
        }
        match pass.basic_block(bb) {
            Ok(nb) => {
                blocks.push(nb);
                proof {
                    lemma_deep_push(before, blocks, nb);
                    assert(blocks_rel(&s1, next.drop_last(), &mid, Ok(before.deep_view())));
                    assert(midway(mid, Ok::<Seq<BlockView>, PassError>(before.deep_view())));
                    assert(mid.block_rel(next.last(), pass, Ok(nb@)));
                    assert(blocks_rel(&s1, next, pass, Ok(blocks.deep_view())));
                }
            },
            Err(e) => {
                proof {
                    assert(blocks_rel(&s1, next.drop_last(), &mid, Ok(before.deep_view())));
                    assert(midway(mid, Ok::<Seq<BlockView>, PassError>(before.deep_view())));
                    assert(mid.block_rel(next.last(), pass, Err(e)));
                    assert(blocks_rel(&s1, next, pass, Err(e)));
                    lemma_blocks_rel_failed(&s1, f1.blocks, i + 1, pass, e);
                    assert(midway(s1, Ok::<BBFunctionView, PassError>(f1)));
                    assert(midway(*pass, Err::<Seq<BlockView>, PassError>(e)));
                    assert(func_rel(&s0, f0, pass, Err(e)));
                }
                return Err(e);
            },
        }
        i += 1;
    }
    assert(f1.blocks.take(i as int) =~= f1.blocks);
    let ghost s2 = *pass;
    let ghost out_blocks = blocks.deep_view();
    let done = cur.with_blocks(blocks);
    proof {
        assert(done@.blocks =~= out_blocks);
        assert(done@ == (BBFunctionView { blocks: out_blocks, ..f1 }));
    }
    let r = pass.after(done);
    proof {
        assert(s0.before_rel(f0, &s1, Ok(f1)));
        assert(blocks_rel(&s1, f1.blocks, &s2, Ok(out_blocks)));
        assert(midway(s1, Ok::<BBFunctionView, PassError>(f1)));
        assert(midway(s2, Ok::<Seq<BlockView>, PassError>(out_blocks)));
        assert(func_rel(&s0, f0, pass, func_result(r)));
    }
    r
}

/// Whether a pass over blocks that starts as `pre` may make `out` of the
/// flat function `f` and end as `post`: the function is cut into blocks,
/// the pass runs, and the blocks are laid flat again.
pub open spec fn flat_rel<P: FunctionPass>(
    pre: &P,
    f: FunctionView,
    post: &P,
    out: Result<FunctionView, PassError>,
) -> bool {
    exists|r: Result<BBFunctionView, PassError>|
        #![trigger func_rel(pre, block_form(f), post, r)]
        func_rel(pre, block_form(f), post, r) && out == match r {
            Ok(g) => Ok::<FunctionView, PassError>(g.flatten()),
            Err(e) => Err(e),
        }
}

/// Runs a pass over blocks on a flat function.
pub fn run_on_flat<P: FunctionPass>(pass: &mut P, func: Function) -> (r: Result<
    Function,
    PassError,
>)
    requires
        old(pass).inv(),
    ensures
        final(pass).inv(),
        flat_rel(old(pass), func@, final(pass), flat_result(r)),
{
    match run_function_pass(pass, BBFunction::from(func)) {
        Ok(g) => {
            assert(func_rel(old(pass), block_form(func@), pass, Ok(g@)));
            Ok(g.into_function())
        },
        Err(e) => {
            assert(func_rel(old(pass), block_form(func@), pass, Err(e)));
            Err(e)
        },
    }
}

/// A pass over a program. Each hook is described by a relation between the
/// pass and its input before the call, and the pass and its result after
/// it.
pub trait Pass: Sized {
    /// What must hold of the pass between calls.
    spec fn ready(&self) -> bool;

    /// What `function` may make of a function.
    spec fn function_rel(
        &self,
        f: FunctionView,
        post: &Self,
        out: Result<FunctionView, PassError>,
    ) -> bool;

    /// What `before` may make of a program.
    spec fn start_rel(&self, p: ProgramView, post: &Self, out: Result<ProgramView, PassError>) -> bool;

    /// What `after` may make of a program.
    spec fn finish_rel(&self, p: ProgramView, post: &Self, out: Result<ProgramView, PassError>) -> bool;

    /// Transforms one function.
    fn function(&mut self, func: Function) -> (r: Result<Function, PassError>)
        requires
            old(self).ready(),
        ensures
            final(self).ready(),
            old(self).function_rel(func@, final(self), flat_result(r)),
    ;

    /// Runs once on the program, before its functions are transformed.
    fn before(&mut self, prog: Program) -> (r: Result<Program, PassError>)
        requires
            old(self).ready(),
        ensures
            final(self).ready(),
            old(self).start_rel(prog@, final(self), prog_result(r)),
    ;

    /// Runs once on the program, after its functions were transformed.
    fn after(&mut self, prog: Program) -> (r: Result<Program, PassError>)
        requires
            old(self).ready(),
        ensures
            final(self).ready(),
            old(self).finish_rel(prog@, final(self), prog_result(r)),
    ;
}

/// The value of what a function hook of a program pass returns.
pub open spec fn flat_result(r: Result<Function, PassError>) -> Result<FunctionView, PassError> {
    match r {
        Ok(f) => Ok(f@),
        Err(e) => Err(e),
    }
}

/// The value of what a program hook returns.
pub open spec fn prog_result(r: Result<Program, PassError>) -> Result<ProgramView, PassError> {
    match r {
        Ok(p) => Ok(p@),
        Err(e) => Err(e),
    }
}

/// Whether a pass that starts as `pre` may make `out` of the functions
/// `fs`, taken one after the other, and end as `post`. The first function
/// that fails ends the run with its error.
pub open spec fn functions_rel<P: Pass>(
    pre: &P,
    fs: Seq<FunctionView>,
    post: &P,
    out: Result<Seq<FunctionView>, PassError>,
) -> bool
    decreases fs.len(),
{
    if fs.len() == 0 {
        out == Ok::<Seq<FunctionView>, PassError>(seq![]) && *pre == *post
    } else {
        exists|mid: P, done: Result<Seq<FunctionView>, PassError>|
            #![trigger midway(mid, done)]
            midway(mid, done) && functions_rel(pre, fs.drop_last(), &mid, done) && match done {
                Err(e) => out == Err::<Seq<FunctionView>, PassError>(e) && mid == *post,
                Ok(d) => exists|last: Result<FunctionView, PassError>|
                    #![trigger mid.function_rel(fs.last(), post, last)]
                    mid.function_rel(fs.last(), post, last) && out == match last {
                        Ok(f) => Ok::<Seq<FunctionView>, PassError>(d.push(f)),
                        Err(e) => Err(e),
                    },
            }
    }
}

/// A run that failed on some functions fails in the same way on those
/// functions followed by others.
pub proof fn lemma_functions_rel_failed<P: Pass>(
    pre: &P,
    fs: Seq<FunctionView>,
    k: int,
    post: &P,
    e: PassError,
)
    requires
        0 <= k <= fs.len(),
        functions_rel(pre, fs.take(k), post, Err(e)),
    ensures
        functions_rel(pre, fs, post, Err(e)),
    decreases fs.len() - k,
{
    if k == fs.len() {
        assert(fs.take(k) =~= fs);
    } else {
        let next = fs.take(k + 1);
        assert(next.drop_last() =~= fs.take(k));
        assert(functions_rel(pre, next.drop_last(), post, Err::<Seq<FunctionView>, PassError>(e)));
        assert(midway(*post, Err::<Seq<FunctionView>, PassError>(e)));
        assert(functions_rel(pre, next, post, Err(e)));
        lemma_functions_rel_failed(pre, fs, k + 1, post, e);
    }
}

/// Whether a pass that starts as `pre` may make `out` of the program `p`
/// and end as `post`: `before`, then every function in order, then
/// `after`, up to the first failure.
pub open spec fn program_rel<P: Pass>(
    pre: &P,
    p: ProgramView,
    post: &P,
    out: Result<ProgramView, PassError>,
) -> bool {
    exists|s1: P, r1: Result<ProgramView, PassError>|
        #![trigger midway(s1, r1)]
        midway(s1, r1) && pre.start_rel(p, &s1, r1) && match r1 {
            Err(e) => out == Err::<ProgramView, PassError>(e) && s1 == *post,
            Ok(begun) => exists|s2: P, r2: Result<Seq<FunctionView>, PassError>|
                #![trigger midway(s2, r2)]
                midway(s2, r2) && functions_rel(&s1, begun.functions, &s2, r2) && match r2 {
                    Err(e) => out == Err::<ProgramView, PassError>(e) && s2 == *post,
                    Ok(functions) => s2.finish_rel(ProgramView { functions }, post, out),
                },
        }
}

/// Runs a pass on a program: `before`, then `function` on every function in
/// order, then `after`. The first failure ends the run.
pub fn run_pass<P: Pass>(pass: &mut P, prog: Program) -> (r: Result<Program, PassError>)
    requires
        old(pass).ready(),
    ensures
        final(pass).ready(),
        program_rel(old(pass), prog@, final(pass), prog_result(r)),
{
    let ghost given = prog@;
    let ghost s0 = *pass;
    let cur = match pass.before(prog) {
        Ok(p) => p,
        Err(e) => {
            assert(midway(*pass, Err::<ProgramView, PassError>(e)));
            return Err(e);
        },
    };
    let ghost s1 = *pass;
    let ghost begun = cur@;
    let mut functions: Vec<Function> = Vec::new();
    let mut i: usize = 0;
    assert(begun.functions.take(0) =~= seq![]);
    assert(functions.deep_view() =~= seq![]);
    while i < cur.functions.len()
        invariant
            i <= cur.functions.len(),
            begun == cur@,
            given == prog@,
            pass.ready(),
            s0.start_rel(given, &s1, Ok(begun)),
            s0 == *old(pass),
            functions.len() == i,
            functions_rel(&s1, begun.functions.take(i as int), pass, Ok(functions.deep_view())),
        decreases cur.functions.len() - i,
    {
        let ghost mid = *pass;
        let ghost before = functions;
        let f = cur.functions[i].clone();
        assert(f@ == begun.functions[i as int]);
        let ghost next = begun.functions.take(i + 1);
        proof {
            assert(next.drop_last() =~= begun.functions.take(i as int));
            assert(next.last() == f@);
        }
        match pass.function(f) {
            Ok(nf) => {
                functions.push(nf);
                proof {
                    lemma_deep_push(before, functions, nf);
                    assert(functions_rel(&s1, next.drop_last(), &mid, Ok(before.deep_view())));
                    assert(midway(mid, Ok::<Seq<FunctionView>, PassError>(before.deep_view())));
                    assert(mid.function_rel(next.last(), pass, Ok(nf@)));
                    assert(functions_rel(&s1, next, pass, Ok(functions.deep_view())));
                }
            },
            Err(e) => {
                proof {
                    assert(functions_rel(&s1, next.drop_last(), &mid, Ok(before.deep_view())));
                    assert(midway(mid, Ok::<Seq<FunctionView>, PassError>(before.deep_view())));
                    assert(mid.function_rel(next.last(), pass, Err(e)));
                    assert(functions_rel(&s1, next, pass, Err(e)));
                    lemma_functions_rel_failed(&s1, begun.functions, i + 1, pass, e);
                    assert(midway(s1, Ok::<ProgramView, PassError>(begun)));
                    assert(midway(*pass, Err::<Seq<FunctionView>, PassError>(e)));
                    assert(program_rel(&s0, given, pass, Err(e)));
                }
                return Err(e);
            },
        }
        i += 1;
    }
    assert(begun.functions.take(i as int) =~= begun.functions);
    let ghost s2 = *pass;
    let ghost out_functions = functions.deep_view();
    let r = pass.after(Program { functions });
    proof {
        assert(s0.start_rel(given, &s1, Ok(begun)));
        assert(functions_rel(&s1, begun.functions, &s2, Ok(out_functions)));
        assert(midway(s1, Ok::<ProgramView, PassError>(begun)));
        assert(midway(s2, Ok::<Seq<FunctionView>, PassError>(out_functions)));
        assert(program_rel(&s0, given, pass, prog_result(r)));
    }
    r
}

/// An analysis of a program: it looks and reports, and changes nothing.
/// Each hook is described by a relation between the analysis before the
/// call, and the analysis and its report after it.
pub trait AnalysisPass: Sized {
    /// What must hold of the analysis between calls.
    spec fn watching(&self) -> bool;

    /// What `function` may report of a function.
    spec fn look_rel(&self, f: FunctionView, post: &Self, out: Result<(), Seq<char>>) -> bool;

    /// What `program` may report of a program.
    spec fn survey_rel(&self, p: ProgramView, post: &Self, out: Result<(), Seq<char>>) -> bool;

    /// What `finish` may report.
    spec fn close_rel(&self, post: &Self, out: Result<(), Seq<char>>) -> bool;

    /// Looks at one function.
    fn function(&mut self, func: &Function) -> (r: Result<(), String>)
        requires
            old(self).watching(),
        ensures
            final(self).watching(),
            old(self).look_rel(func@, final(self), report(r)),
    ;

    /// Looks at the whole program.
    fn program(&mut self, prog: &Program) -> (r: Result<(), String>)
        requires
            old(self).watching(),
        ensures
            final(self).watching(),
            old(self).survey_rel(prog@, final(self), report(r)),
    ;

    /// Reports at the end.
    fn finish(&mut self) -> (r: Result<(), String>)
        requires
            old(self).watching(),
        ensures
            final(self).watching(),
            old(self).close_rel(final(self), report(r)),
    ;
}

/// The value of a report.
pub open spec fn report(r: Result<(), String>) -> Result<(), Seq<char>> {
    match r {
        Ok(_) => Ok(()),
        Err(m) => Err(m@),
    }
}

/// A state of an analysis and a report so far, named as the point that a
/// run passes through. It holds of every pair.
pub open spec fn noted<A>(mid: A, done: Result<(), Seq<char>>) -> bool {
    true
}

/// Whether an analysis that starts as `pre` may report `out` of the
/// functions `fs`, taken one after the other, and end as `post`. The first
/// failure ends the run.
pub open spec fn looks_rel<A: AnalysisPass>(
    pre: &A,
    fs: Seq<FunctionView>,
    post: &A,
    out: Result<(), Seq<char>>,
) -> bool
    decreases fs.len(),
{
    if fs.len() == 0 {
        out == Ok::<(), Seq<char>>(()) && *pre == *post
    } else {
        exists|mid: A, done: Result<(), Seq<char>>|
            #![trigger noted(mid, done)]
            noted(mid, done) && looks_rel(pre, fs.drop_last(), &mid, done) && match done {
                Err(e) => out == Err::<(), Seq<char>>(e) && mid == *post,
                Ok(_) => mid.look_rel(fs.last(), post, out),
            }
    }
}

/// A run that failed on some functions fails in the same way on those
/// functions followed by others.
pub proof fn lemma_looks_rel_failed<A: AnalysisPass>(
    pre: &A,
    fs: Seq<FunctionView>,
    k: int,
    post: &A,
    e: Seq<char>,
)
    requires
        0 <= k <= fs.len(),
        looks_rel(pre, fs.take(k), post, Err(e)),
    ensures
        looks_rel(pre, fs, post, Err(e)),
    decreases fs.len() - k,
{
    if k == fs.len() {
        assert(fs.take(k) =~= fs);
    } else {
        let next = fs.take(k + 1);
        assert(next.drop_last() =~= fs.take(k));
        assert(noted(*post, Err::<(), Seq<char>>(e)));
        assert(looks_rel(pre, next, post, Err(e)));
        lemma_looks_rel_failed(pre, fs, k + 1, post, e);
    }
}

/// Whether an analysis that starts as `pre` may report `out` of the
/// program `p` and end as `post`: the program as a whole, then every
/// function in order, then the end, up to the first failure.
pub open spec fn analysis_rel<A: AnalysisPass>(
    pre: &A,
    p: ProgramView,
    post: &A,
    out: Result<(), Seq<char>>,
) -> bool {
    exists|s1: A, r1: Result<(), Seq<char>>|
        #![trigger noted(s1, r1)]
        noted(s1, r1) && pre.survey_rel(p, &s1, r1) && match r1 {
            Err(e) => out == Err::<(), Seq<char>>(e) && s1 == *post,
            Ok(_) => exists|s2: A, r2: Result<(), Seq<char>>|
                #![trigger noted(s2, r2)]
                noted(s2, r2) && looks_rel(&s1, p.functions, &s2, r2) && match r2 {
                    Err(e) => out == Err::<(), Seq<char>>(e) && s2 == *post,
                    Ok(_) => s2.close_rel(post, out),
                },
        }
}

/// Runs an analysis on a program: `program`, then `function` on every
/// function in order, then `finish`. The first failure ends the run.
pub fn run_analysis_pass<A: AnalysisPass>(analysis: &mut A, prog: &Program) -> (r: Result<
    (),
    String,
>)
    requires
        old(analysis).watching(),
    ensures
        final(analysis).watching(),
        analysis_rel(old(analysis), prog@, final(analysis), report(r)),
{
    let ghost s0 = *analysis;
    match analysis.program(prog) {
        Ok(()) => {},
        Err(e) => {
            assert(noted(*analysis, Err::<(), Seq<char>>(e@)));
            return Err(e);
        },
    }
    let ghost s1 = *analysis;
    let ghost fs = prog@.functions;
    let mut i: usize = 0;
    assert(fs.take(0) =~= seq![]);
    while i < prog.functions.len()
        invariant
            i <= prog.functions.len(),
            fs == prog@.functions,
            analysis.watching(),
            s0 == *old(analysis),
            s0.survey_rel(fs_program(fs), &s1, Ok(())),
            looks_rel(&s1, fs.take(i as int), analysis, Ok(())),
        decreases prog.functions.len() - i,
    {
        let ghost mid = *analysis;
        let ghost next = fs.take(i + 1);
        proof {
            assert(next.drop_last() =~= fs.take(i as int));
            crate::ir::lemma_deep_index(prog.functions);
            assert(next.last() == prog.functions[i as int]@);
            assert(noted(mid, Ok::<(), Seq<char>>(())));
        }
        match analysis.function(&prog.functions[i]) {
            Ok(()) => {
                proof {
                    assert(looks_rel(&s1, next, analysis, Ok(())));
                }
            },
            Err(e) => {
                proof {
                    assert(looks_rel(&s1, next, analysis, Err(e@)));
                    lemma_looks_rel_failed(&s1, fs, i + 1, analysis, e@);
                    assert(noted(s1, Ok::<(), Seq<char>>(())));
                    assert(noted(*analysis, Err::<(), Seq<char>>(e@)));
                    assert(analysis_rel(&s0, prog@, analysis, Err(e@)));
                }
                return Err(e);
            },
        }
        i += 1;
    }
    assert(fs.take(i as int) =~= fs);
    let ghost s2 = *analysis;
    let r = analysis.finish();
    proof {
        assert(noted(s1, Ok::<(), Seq<char>>(())));
        assert(noted(s2, Ok::<(), Seq<char>>(())));
        assert(analysis_rel(&s0, prog@, analysis, report(r)));
    }
    r
}

/// The program of some functions.
pub open spec fn fs_program(fs: Seq<FunctionView>) -> ProgramView {
    ProgramView { functions: fs }
}

} // verus!
