//! Two small passes that bring a program into the shape that other passes
//! expect: literals that match the declared type of their constant, and
//! functions without unlabelled blocks that nothing can reach.
use crate::basic_block::{BasicBlock, BlockView};
use crate::bb_function::{block_form, flatten_blocks, BBFunction, BBFunctionView};
use crate::float::{unit_ok, FloatQuery};
use crate::instr::{cast_spec, castable, LiteralExt};
use crate::ir::{
    clone_pos, lemma_deep_index, lemma_deep_push, Code, CodeView, Function, FunctionView,
    InstrView, Instruction, Literal, Program, ProgramView,
};
use crate::passes::{flat_result, Pass, PassError};
use crate::ssa::reindexed;
use vstd::prelude::*;

verus! {

/// A line with its literal brought to the declared type of its constant;
/// a literal that cannot stand for a value of that type is refused.
pub open spec fn canon<F: Fn(FloatQuery) -> Literal>(c: CodeView, fl: &F) -> Result<
    CodeView,
    PassError,
> {
    match c {
        CodeView::Instruction(InstrView::Constant { dest, op, pos, const_type, value }) => if castable(
            value,
            const_type,
        ) {
            Ok(
                CodeView::Instruction(
                    InstrView::Constant {
                        dest,
                        op,
                        pos,
                        const_type,
                        value: cast_spec(value, const_type, fl),
                    },
                ),
            )
        } else {
            Err(PassError::Type)
        },
        _ => Ok(c),
    }
}

/// The lines of a function with their literals brought to type, or the
/// first failure.
pub open spec fn canon_all<F: Fn(FloatQuery) -> Literal>(codes: Seq<CodeView>, fl: &F) -> Result<
    Seq<CodeView>,
    PassError,
>
    decreases codes.len(),
{
    if codes.len() == 0 {
        Ok(seq![])
    } else {
        match canon_all(codes.drop_last(), fl) {
            Err(e) => Err(e),
            Ok(done) => match canon(codes.last(), fl) {
                Err(e) => Err(e),
                Ok(c) => Ok(done.push(c)),
            },
        }
    }
}

/// A canonicalisation that failed on some lines fails on more.
pub proof fn lemma_canon_failed<F: Fn(FloatQuery) -> Literal>(codes: Seq<CodeView>, fl: &F, k: int)
    requires
        0 <= k <= codes.len(),
        canon_all(codes.take(k), fl).is_err(),
    ensures
        canon_all(codes, fl) == canon_all(codes.take(k), fl),
    decreases codes.len() - k,
{
    if k < codes.len() {
        assert(codes.take(k + 1).drop_last() =~= codes.take(k));
        lemma_canon_failed(codes, fl, k + 1);
    } else {
        assert(codes.take(k) =~= codes);
    }
}

/// The function with its literals brought to type.
pub open spec fn canon_function<F: Fn(FloatQuery) -> Literal>(f: FunctionView, fl: &F) -> Result<
    FunctionView,
    PassError,
> {
    match canon_all(f.instrs, fl) {
        Err(e) => Err(e),
        Ok(instrs) => Ok(FunctionView { instrs, ..f }),
    }
}

/// The pass that brings literals to the declared type of their constant,
/// with the floating-point unit that turns integers into floats.
pub struct CanonicalizeLiterals<F: Fn(FloatQuery) -> Literal> {
    pub float: F,
}

impl<F: Fn(FloatQuery) -> Literal> CanonicalizeLiterals<F> {
    /// Brings the literals of a function to type.
    pub fn canonicalize(&self, func: Function) -> (r: Result<Function, PassError>)
        requires
            unit_ok(&self.float),
        ensures
            flat_result(r) == canon_function(func@, &self.float),
    {
        let ghost codes = func@.instrs;
        let mut out: Vec<Code> = Vec::new();
        let mut i: usize = 0;
        assert(codes.take(0) =~= seq![]);
        assert(out.deep_view() =~= seq![]);
        while i < func.instrs.len()
            invariant
                i <= func.instrs.len(),
                codes == func.instrs.deep_view(),
                unit_ok(&self.float),
                canon_all(codes.take(i as int), &self.float) == Ok::<Seq<CodeView>, PassError>(
                    out.deep_view(),
                ),
            decreases func.instrs.len() - i,
        {
            proof {
                let next = codes.take(i + 1);
                assert(next.drop_last() =~= codes.take(i as int));
                lemma_deep_index(func.instrs);
                assert(next.last() == func.instrs[i as int]@);
            }
            let ghost before = out;
            let c = match &func.instrs[i] {
                Code::Instruction(Instruction::Constant { dest, op, pos, const_type, value }) => {
                    let fits = match (value, const_type) {
                        (Literal::Int(_), crate::ir::Type::Int) => true,
                        (Literal::Int(_), crate::ir::Type::Float) => true,
                        (Literal::Bool(_), crate::ir::Type::Bool) => true,
                        (Literal::Float(_), crate::ir::Type::Float) => true,
                        (Literal::Char(_), crate::ir::Type::Char) => true,
                        _ => false,
                    };
                    if !fits {
                        proof {
                            assert(canon_all(codes.take(i + 1), &self.float).is_err());
                            lemma_canon_failed(codes, &self.float, i + 1);
                        }
                        return Err(PassError::Type);
                    }
                    Code::Instruction(
                        Instruction::Constant {
                            dest: dest.clone(),
                            op: *op,
                            pos: clone_pos(pos),
                            const_type: const_type.clone(),
                            value: value.implicit_cast(const_type, &self.float),
                        },
                    )
                },
                other => other.clone(),
            };
            out.push(c);
            proof {
                lemma_deep_push(before, out, c);
            }
            i += 1;
        }
        assert(codes.take(func.instrs.len() as int) =~= codes);
        Ok(
            Function {
                args: func.args,
                instrs: out,
                name: func.name,
                pos: func.pos,
                return_type: func.return_type,
            },
        )
    }
}

impl<F: Fn(FloatQuery) -> Literal> Pass for CanonicalizeLiterals<F> {
    open spec fn ready(&self) -> bool {
        unit_ok(&self.float)
    }

    open spec fn function_rel(
        &self,
        f: FunctionView,
        post: &Self,
        out: Result<FunctionView, PassError>,
    ) -> bool {
        out == canon_function(f, &self.float) && post.float == self.float
    }

    open spec fn start_rel(&self, p: ProgramView, post: &Self, out: Result<ProgramView, PassError>) -> bool {
        out == Ok::<ProgramView, PassError>(p) && post.float == self.float
    }

    open spec fn finish_rel(&self, p: ProgramView, post: &Self, out: Result<ProgramView, PassError>) -> bool {
        out == Ok::<ProgramView, PassError>(p) && post.float == self.float
    }

    fn function(&mut self, func: Function) -> (r: Result<Function, PassError>) {
        self.canonicalize(func)
    }

    fn before(&mut self, prog: Program) -> (r: Result<Program, PassError>) {
        Ok(prog)
    }

    fn after(&mut self, prog: Program) -> (r: Result<Program, PassError>) {
        Ok(prog)
    }
}

/// The blocks that stay: the first block, and every block with a label.
pub open spec fn labelled(blocks: Seq<BlockView>) -> Seq<BlockView>
    decreases blocks.len(),
{
    if blocks.len() == 0 {
        seq![]
    } else if blocks.last().idx == 0 || blocks.last().label.is_some() {
        labelled(blocks.drop_last()).push(blocks.last())
    } else {
        labelled(blocks.drop_last())
    }
}

/// The function without the unlabelled blocks that are not its first.
pub open spec fn without_unlabelled(f: FunctionView) -> FunctionView {
    (BBFunctionView { blocks: reindexed(labelled(block_form(f).blocks)), ..block_form(f) }).flatten()
}

/// The pass that removes the unlabelled blocks that nothing can reach.
#[derive(Clone, Copy, Debug, PartialEq, Eq, Structural)]
pub struct RemoveUnlabeledBlocks;

impl RemoveUnlabeledBlocks {
    /// Removes every block without a label, but the first, from a
    /// function.
    pub fn remove(func: Function) -> (r: Function)
        ensures
            r@ == without_unlabelled(func@),
    {
        let bb = BBFunction::from(func);
        let ghost blocks = bb@.blocks;
        let mut kept: Vec<BasicBlock> = Vec::new();
        let mut i: usize = 0;
        assert(blocks.take(0) =~= seq![]);
        assert(kept.deep_view() =~= seq![]);
        while i < bb.blocks.len()
            invariant
                i <= bb.blocks.len(),
                bb.wf(),
                blocks == bb.blocks.deep_view(),
                kept.deep_view() == labelled(blocks.take(i as int)),
                forall|j: int| 0 <= j < kept.len() ==> (#[trigger] kept[j]).wf(),
            decreases bb.blocks.len() - i,
        {
            proof {
                let next = blocks.take(i + 1);
                assert(next.drop_last() =~= blocks.take(i as int));
                lemma_deep_index(bb.blocks);
                assert(next.last() == bb.blocks[i as int]@);
                assert(blocks[i as int].wf());
            }
            if bb.blocks[i].idx == 0 || bb.blocks[i].label.is_some() {
                let ghost before = kept;
                let b = bb.blocks[i].clone();
                kept.push(b);
                proof {
                    lemma_deep_push(before, kept, b);
                }
            }
            i += 1;
        }
        assert(blocks.take(bb.blocks.len() as int) =~= blocks);
        let ghost kv = kept.deep_view();
        let out = bb.with_blocks(kept);
        assert(out@.blocks =~= reindexed(kv));
        out.into_function()
    }
}

impl Pass for RemoveUnlabeledBlocks {
    open spec fn ready(&self) -> bool {
        true
    }

    open spec fn function_rel(
        &self,
        f: FunctionView,
        post: &Self,
        out: Result<FunctionView, PassError>,
    ) -> bool {
        out == Ok::<FunctionView, PassError>(without_unlabelled(f))
    }

    open spec fn start_rel(&self, p: ProgramView, post: &Self, out: Result<ProgramView, PassError>) -> bool {
        out == Ok::<ProgramView, PassError>(p)
    }

    open spec fn finish_rel(&self, p: ProgramView, post: &Self, out: Result<ProgramView, PassError>) -> bool {
        out == Ok::<ProgramView, PassError>(p)
    }

    fn function(&mut self, func: Function) -> (r: Result<Function, PassError>) {
        Ok(Self::remove(func))
    }

    fn before(&mut self, prog: Program) -> (r: Result<Program, PassError>) {
        Ok(prog)
    }

    fn after(&mut self, prog: Program) -> (r: Result<Program, PassError>) {
        Ok(prog)
    }
}

} // verus!
