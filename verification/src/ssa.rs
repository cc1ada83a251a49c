//! SSA construction: merge readers are placed, and a walk over the
//! dominator tree gives every write a name of its own and lets every read
//! name the write that reaches it.
use crate::basic_block::{BasicBlock, BlockView};
use crate::bb_function::{block_form, BBFunction, BBFunctionView};
use crate::cfg::{edge_of, CFG};
use crate::dataflow::Flow;
use crate::dominator_tree::{analysis, dom_sets, tangled, DominatorTree};
use crate::instr::InstrExt;
use crate::ir::{
    clone_instrs, lemma_deep_index, lemma_deep_push, CodeView, EffectOps, Function, FunctionView,
    InstrView, Instruction, Program, ProgramView, Type, ValueOps,
};
use crate::lvn::rebuild;
use crate::name_stack::{initial, pushed, shadow_spec, top, unique_spec, NameStack};
use crate::names::NameMap;
use crate::passes::{Pass, PassError};
use crate::phi::{closed, exact, merge_readers, single, PhiNodes};
use crate::type_map::{
    map_pairs, map_entries, map_insert, map_new, pairs_view, without_key,
};
use linked_hash_map::LinkedHashMap;
use vstd::prelude::*;

verus! {

/// The merge reader of a variable at a block.
pub open spec fn get_instr(dst: Seq<char>, ty: Type, b: nat) -> InstrView {
    InstrView::Value {
        dest: shadow_spec(dst, b),
        op: ValueOps::Get,
        args: seq![],
        funcs: seq![],
        labels: seq![],
        op_type: ty,
        pos: None,
    }
}

/// The write that hands the value of a variable to its merge reader at a
/// successor block.
pub open spec fn set_instr(dst: Seq<char>, succ: nat, value: Seq<char>) -> InstrView {
    InstrView::Effect {
        args: seq![shadow_spec(dst, succ), value],
        funcs: seq![],
        labels: seq![],
        op: EffectOps::SetVar,
        pos: None,
    }
}

/// The instruction that gives a variable an undefined value of its type.
pub open spec fn undef_instr(name: Seq<char>, ty: Type) -> InstrView {
    InstrView::Value {
        dest: name,
        op: ValueOps::Undef,
        args: seq![],
        funcs: seq![],
        labels: seq![],
        op_type: ty,
        pos: None,
    }
}

/// The variables that are read where no write reaches, with one more
/// recorded: it goes to the end, whether it was recorded before or not.
pub open spec fn record(
    und: Seq<(Seq<char>, Type)>,
    name: Seq<char>,
    ty: Type,
) -> Seq<(Seq<char>, Type)> {
    without_key(und, name).push((name, ty))
}

/// The stacks after the merge readers of a block were entered, and the
/// readers as they stand at the top of the block: the last entered first.
pub open spec fn enter(
    stack: Map<Seq<char>, Seq<Seq<char>>>,
    phis: Seq<(Seq<char>, Type)>,
    b: nat,
) -> (Map<Seq<char>, Seq<Seq<char>>>, Seq<InstrView>)
    decreases phis.len(),
{
    if phis.len() == 0 {
        (stack, seq![])
    } else {
        let (s, g) = enter(stack, phis.drop_last(), b);
        let (dst, ty) = phis.last();
        (pushed(s, dst, shadow_spec(dst, b)), seq![get_instr(dst, ty, b)] + g)
    }
}

/// What the walk knows while it renames.
pub struct Renaming {
    pub stack: Map<Seq<char>, Seq<Seq<char>>>,
    pub undefined: Seq<(Seq<char>, Type)>,
}

/// The arguments renamed: each becomes the name that holds its value; one
/// that no write reaches keeps its name and is recorded as undefined, with
/// the type that the function gives it; it is an error if the function
/// gives it none.
pub open spec fn rename_args(
    r: Renaming,
    types: Map<Seq<char>, Type>,
    args: Seq<Seq<char>>,
) -> Result<(Renaming, Seq<Seq<char>>), PassError>
    decreases args.len(),
{
    if args.len() == 0 {
        Ok((r, seq![]))
    } else {
        match rename_args(r, types, args.drop_last()) {
            Err(e) => Err(e),
            Ok((r1, done)) => match top(r1.stack, args.last()) {
                Some(n) => Ok((r1, done.push(n))),
                None => if types.contains_key(args.last()) {
                    Ok(
                        (
                            Renaming {
                                undefined: record(r1.undefined, args.last(), types[args.last()]),
                                ..r1
                            },
                            done.push(args.last()),
                        ),
                    )
                } else {
                    Err(PassError::Untyped)
                },
            },
        }
    }
}

/// An instruction renamed: its arguments name the writes that reach them,
/// and its destination, if it has one, gets the name of its position.
pub open spec fn rename_instr(
    r: Renaming,
    types: Map<Seq<char>, Type>,
    i: InstrView,
    b: nat,
    idx: nat,
) -> Result<(Renaming, InstrView), PassError> {
    match rename_args(r, types, i.arg_list()) {
        Err(e) => Err(e),
        Ok((r1, args)) => match i.dest() {
            Some(d) => Ok(
                (
                    Renaming { stack: pushed(r1.stack, d, unique_spec(d, b, idx)), ..r1 },
                    i.set_args(args).set_dest(unique_spec(d, b, idx)),
                ),
            ),
            None => Ok((r1, i.set_args(args))),
        },
    }
}

/// The first `k` instructions of a block renamed.
pub open spec fn rename_all(
    r: Renaming,
    types: Map<Seq<char>, Type>,
    all: Seq<InstrView>,
    b: nat,
    k: int,
) -> Result<(Renaming, Seq<InstrView>), PassError>
    decreases k,
{
    if k <= 0 {
        Ok((r, seq![]))
    } else {
        match rename_all(r, types, all, b, k - 1) {
            Err(e) => Err(e),
            Ok((r1, done)) => match rename_instr(r1, types, all[k - 1], b, (k - 1) as nat) {
                Err(e) => Err(e),
                Ok((r2, i)) => Ok((r2, done.push(i))),
            },
        }
    }
}

/// Renaming that failed on some instructions fails in the same way on
/// more.
pub proof fn lemma_rename_all_failed(
    r: Renaming,
    types: Map<Seq<char>, Type>,
    all: Seq<InstrView>,
    b: nat,
    k: int,
    n: int,
)
    requires
        0 <= k <= n,
        rename_all(r, types, all, b, k).is_err(),
    ensures
        rename_all(r, types, all, b, n) == rename_all(r, types, all, b, k),
    decreases n - k,
{
    if k < n {
        lemma_rename_all_failed(r, types, all, b, k, n - 1);
    }
}

/// The writes to the merge readers of one successor: for each reader the
/// name that holds the variable's value, or the variable itself, recorded
/// as undefined, if no write reaches.
pub open spec fn sets_for(r: Renaming, phis: Seq<(Seq<char>, Type)>, succ: nat) -> (
    Renaming,
    Seq<InstrView>,
)
    decreases phis.len(),
{
    if phis.len() == 0 {
        (r, seq![])
    } else {
        let (r1, done) = sets_for(r, phis.drop_last(), succ);
        let (dst, ty) = phis.last();
        match top(r1.stack, dst) {
            Some(n) => (r1, done.push(set_instr(dst, succ, n))),
            None => (
                Renaming { undefined: record(r1.undefined, dst, ty), ..r1 },
                done.push(set_instr(dst, succ, dst)),
            ),
        }
    }
}

/// The writes to the merge readers of the first `k` successors.
pub open spec fn all_sets(
    r: Renaming,
    phi: Seq<Seq<(Seq<char>, Type)>>,
    succs: Seq<usize>,
    k: int,
) -> (Renaming, Seq<InstrView>)
    decreases k,
{
    if k <= 0 {
        (r, seq![])
    } else {
        let (r1, done) = all_sets(r, phi, succs, k - 1);
        let (r2, more) = sets_for(r1, phi[succs[k - 1] as int], succs[k - 1] as nat);
        (r2, done + more)
    }
}

/// What the walk goes by: the successors and the immediate dominator of
/// each block, the merge readers, and the type of each variable.
pub struct SsaCtx {
    pub succs: Seq<Seq<usize>>,
    pub idom: Seq<Option<usize>>,
    pub phi: Seq<Seq<(Seq<char>, Type)>>,
    pub types: Map<Seq<char>, Type>,
}

/// The state of the walk: the blocks, the name stacks and the variables
/// found undefined, and the blocks that the walk has been at.
pub struct SsaState {
    pub blocks: Seq<BlockView>,
    pub r: Renaming,
    pub visited: Set<usize>,
}

/// The blocks that are marked.
pub open spec fn marks(v: Seq<bool>) -> Set<usize> {
    Set::new(|i: usize| i < v.len() && v[i as int])
}

/// One block renamed: its merge readers come first, then its instructions
/// renamed, then the writes to the merge readers of its successors, then
/// its terminator.
pub open spec fn visit(ctx: SsaCtx, st: SsaState, b: int) -> Result<SsaState, PassError> {
    let blk = st.blocks[b];
    let (s1, gets) = enter(st.r.stack, ctx.phi[b], b as nat);
    match rename_all(
        Renaming { stack: s1, ..st.r },
        ctx.types,
        blk.all(),
        b as nat,
        blk.all().len() as int,
    ) {
        Err(e) => Err(e),
        Ok((r2, renamed)) => {
            let (r3, sets) = all_sets(r2, ctx.phi, ctx.succs[b], ctx.succs[b].len() as int);
            let body = rebuild(blk, renamed);
            Ok(
                SsaState {
                    blocks: st.blocks.update(
                        b,
                        BlockView { instrs: gets + body.instrs + sets, ..body },
                    ),
                    r: r3,
                    visited: st.visited.insert(b as usize),
                },
            )
        },
    }
}

/// The walk from block `b`: the block is renamed, then the blocks that it
/// dominates immediately, in rising order, and at the end the name stacks
/// are what they were. The walk goes at most `fuel` levels down, and leaves
/// a block that it has been at as it is.
pub open spec fn walk(ctx: SsaCtx, st: SsaState, b: int, fuel: nat) -> Result<SsaState, PassError>
    decreases fuel, ctx.phi.len() + 2,
{
    if st.visited.contains(b as usize) {
        Ok(st)
    } else {
        walk_on(ctx, st, b, fuel)
    }
}

/// The walk from a block that the walk has not been at.
pub open spec fn walk_on(ctx: SsaCtx, st: SsaState, b: int, fuel: nat) -> Result<SsaState, PassError>
    decreases fuel, ctx.phi.len() + 1,
{
    match visit(ctx, st, b) {
        Err(e) => Err(e),
        Ok(st1) => match children(ctx, st1, b, 0, fuel) {
            Err(e) => Err(e),
            Ok(st2) => Ok(SsaState { r: Renaming { stack: st.r.stack, ..st2.r }, ..st2 }),
        },
    }
}

/// The walk through the blocks from `c` on that `b` dominates immediately.
pub open spec fn children(ctx: SsaCtx, st: SsaState, b: int, c: int, fuel: nat) -> Result<
    SsaState,
    PassError,
>
    decreases fuel, ctx.phi.len() - c,
{
    if c < 0 || c >= ctx.phi.len() || fuel == 0 {
        Ok(st)
    } else if ctx.idom[c] == Some(b as usize) {
        match walk(ctx, st, c, (fuel - 1) as nat) {
            Err(e) => Err(e),
            Ok(st1) => children(ctx, st1, b, c + 1, fuel),
        }
    } else {
        children(ctx, st, b, c + 1, fuel)
    }
}

/// The undefined variables seeded: each gets an undefined value at the top
/// of the block, the last recorded first.
pub open spec fn seeds(und: Seq<(Seq<char>, Type)>) -> Seq<InstrView>
    decreases und.len(),
{
    if und.len() == 0 {
        seq![]
    } else {
        seq![undef_instr(und.last().0, und.last().1)] + seeds(und.drop_last())
    }
}

/// The type of each variable: that of its last write in the function.
pub open spec fn types_of(codes: Seq<CodeView>) -> Map<Seq<char>, Type>
    decreases codes.len(),
{
    if codes.len() == 0 {
        Map::empty()
    } else {
        let m = types_of(codes.drop_last());
        match codes.last() {
            CodeView::Instruction(i) => match (i.dest(), i.get_type()) {
                (Some(d), Some(t)) => m.insert(d, t),
                _ => m,
            },
            _ => m,
        }
    }
}

/// The blocks with each given its position as index.
pub open spec fn reindexed(blocks: Seq<BlockView>) -> Seq<BlockView> {
    Seq::new(blocks.len(), |i: int| BlockView { idx: i as usize, ..blocks[i] })
}

/// The blocks that the walk starts from: those of the function, after an
/// empty block if the first block bears a label.
pub open spec fn prepared(f: FunctionView) -> Seq<BlockView> {
    let blocks = block_form(f).blocks;
    if blocks.len() > 0 && blocks[0].label.is_some() {
        reindexed(
            seq![BlockView { idx: 0, label: None, instrs: seq![], control_flow: None }] + blocks,
        )
    } else {
        reindexed(blocks)
    }
}

/// What the walk goes by, for a dominator tree and merge readers.
pub open spec fn ctx_of(
    tree: &DominatorTree,
    phi: Seq<Seq<(Seq<char>, Type)>>,
    types: Map<Seq<char>, Type>,
) -> SsaCtx {
    SsaCtx {
        succs: Seq::new(tree.cfg.size(), |i: int| tree.cfg.succs_spec(i)),
        idom: Seq::new(tree.cfg.size(), |i: int| tree.immediate_doms@[i]),
        phi,
        types,
    }
}

/// The function in SSA form, for a dominator tree of its prepared blocks
/// and merge readers: the walk from the first block, and the undefined
/// variables seeded at its top.
pub open spec fn ssa_form(
    f: FunctionView,
    tree: &DominatorTree,
    phi: Seq<Seq<(Seq<char>, Type)>>,
) -> Result<FunctionView, PassError> {
    match ssa_blocks(prepared(f), f.args, tree, phi, types_of(f.instrs)) {
        Err(e) => Err(e),
        Ok(blocks) => Ok((BBFunctionView { blocks, ..block_form(f) }).flatten()),
    }
}

/// The blocks in SSA form: the walk from the first block, and the
/// undefined variables seeded at its top.
pub open spec fn ssa_blocks(
    blocks: Seq<BlockView>,
    args: Seq<crate::ir::ArgView>,
    tree: &DominatorTree,
    phi: Seq<Seq<(Seq<char>, Type)>>,
    types: Map<Seq<char>, Type>,
) -> Result<Seq<BlockView>, PassError> {
    let start = SsaState {
        blocks,
        r: Renaming { stack: initial(args), undefined: seq![] },
        visited: Set::empty(),
    };
    match walk(ctx_of(tree, phi, types), start, 0, blocks.len()) {
        Err(e) => Err(e),
        Ok(st) => {
            let first = st.blocks[0];
            let seeded = BlockView { instrs: seeds(st.r.undefined) + first.instrs, ..first };
            Ok(reindexed(st.blocks.update(0, seeded)))
        },
    }
}

/// The lists of names that an instruction needs none of.
fn no_names() -> (v: Vec<String>)
    ensures
        v.deep_view() == Seq::<Seq<char>>::empty(),
{
    let v: Vec<String> = Vec::new();
    assert(v.deep_view() =~= Seq::<Seq<char>>::empty());
    v
}

/// Enters the merge readers of a block.
fn enter_block(stack: &mut NameStack, phis: &Vec<(String, Type)>, bidx: usize) -> (gets: Vec<
    Instruction,
>)
    requires
        old(stack).wf(),
    ensures
        final(stack).wf(),
        (final(stack)@, gets.deep_view()) == enter(old(stack)@, pairs_view(phis@), bidx as nat),
        forall|i: int| 0 <= i < gets.len() ==> !(#[trigger] gets[i])@.is_terminator(),
{
    let ghost all = pairs_view(phis@);
    let ghost s0 = stack@;
    let mut gets: Vec<Instruction> = Vec::new();
    let mut k: usize = 0;
    assert(all.take(0) =~= seq![]);
    assert(gets.deep_view() =~= seq![]);
    while k < phis.len()
        invariant
            k <= phis.len(),
            all == pairs_view(phis@),
            stack.wf(),
            (stack@, gets.deep_view()) == enter(s0, all.take(k as int), bidx as nat),
            forall|i: int| 0 <= i < gets.len() ==> !(#[trigger] gets[i])@.is_terminator(),
        decreases phis.len() - k,
    {
        proof {
            let next = all.take(k + 1);
            assert(next.drop_last() =~= all.take(k as int));
            assert(next.last() == (phis[k as int].0@, phis[k as int].1));
        }
        let shadow = NameStack::shadow_name(&phis[k].0, bidx);
        stack.push(&phis[k].0, shadow.clone());
        let get = Instruction::Value {
            dest: shadow,
            op: ValueOps::Get,
            args: no_names(),
            funcs: no_names(),
            labels: no_names(),
            op_type: phis[k].1.clone(),
            pos: None,
        };
        let ghost before = gets;
        gets.insert(0, get);
        proof {
            lemma_deep_index(before);
            lemma_deep_index(gets);
            assert(gets.deep_view() =~= seq![get@] + before.deep_view());
        }
        k += 1;
    }
    assert(all.take(phis.len() as int) =~= all);
    gets
}

/// The state of the renaming that a name stack and a map of undefined
/// variables stand for.
pub open spec fn renaming(stack: &NameStack, undefined: &LinkedHashMap<String, Type>) -> Renaming {
    Renaming { stack: stack@, undefined: map_entries(*undefined) }
}

/// Renames the arguments of an instruction.
fn rename_arg_list(
    stack: &NameStack,
    undefined: &mut LinkedHashMap<String, Type>,
    types: &NameMap<Type>,
    args: &Vec<String>,
) -> (r: Result<Vec<String>, PassError>)
    requires
        stack.wf(),
        types.wf(),
    ensures
        match rename_args(renaming(stack, old(undefined)), types@, args.deep_view()) {
            Ok((r1, names)) => r.is_ok() && r.unwrap().deep_view() == names && renaming(
                stack,
                final(undefined),
            ) == r1,
            Err(e) => r == Err::<Vec<String>, PassError>(e),
        },
{
    let ghost all = args.deep_view();
    let ghost r0 = renaming(stack, undefined);
    let mut out: Vec<String> = Vec::new();
    let mut k: usize = 0;
    assert(all.take(0) =~= seq![]);
    assert(out.deep_view() =~= seq![]);
    while k < args.len()
        invariant
            k <= args.len(),
            all == args.deep_view(),
            stack.wf(),
            types.wf(),
            r0 == renaming(stack, old(undefined)),
            rename_args(r0, types@, all.take(k as int)) == Ok::<
                (Renaming, Seq<Seq<char>>),
                PassError,
            >((renaming(stack, undefined), out.deep_view())),
        decreases args.len() - k,
    {
        proof {
            let next = all.take(k + 1);
            assert(next.drop_last() =~= all.take(k as int));
            lemma_deep_index(*args);
            assert(next.last() == args[k as int]@);
        }
        let ghost before = out;
        let name = match stack.get(&args[k]) {
            Some(n) => n,
            None => {
                match types.get(&args[k]) {
                    Some(t) => {
                        map_insert(undefined, args[k].clone(), t.clone());
                        args[k].clone()
                    },
                    None => {
                        proof {
                            assert(rename_args(r0, types@, all.take(k + 1)).is_err());
                            lemma_rename_args_failed(r0, types@, all, k + 1);
                        }
                        return Err(PassError::Untyped);
                    },
                }
            },
        };
        out.push(name);
        proof {
            lemma_deep_push(before, out, name);
        }
        k += 1;
    }
    assert(all.take(args.len() as int) =~= all);
    Ok(out)
}

/// Renaming arguments that failed on some fails in the same way on more.
pub proof fn lemma_rename_args_failed(
    r: Renaming,
    types: Map<Seq<char>, Type>,
    args: Seq<Seq<char>>,
    k: int,
)
    requires
        0 <= k <= args.len(),
        rename_args(r, types, args.take(k)).is_err(),
    ensures
        rename_args(r, types, args) == rename_args(r, types, args.take(k)),
    decreases args.len() - k,
{
    if k < args.len() {
        assert(args.take(k + 1).drop_last() =~= args.take(k));
        lemma_rename_args_failed(r, types, args, k + 1);
    } else {
        assert(args.take(k) =~= args);
    }
}

/// Renames one instruction.
fn rename_one(
    stack: &mut NameStack,
    undefined: &mut LinkedHashMap<String, Type>,
    types: &NameMap<Type>,
    instr: &Instruction,
    bidx: usize,
    idx: usize,
) -> (r: Result<Instruction, PassError>)
    requires
        old(stack).wf(),
        types.wf(),
    ensures
        final(stack).wf(),
        match rename_instr(
            renaming(old(stack), old(undefined)),
            types@,
            instr@,
            bidx as nat,
            idx as nat,
        ) {
            Ok((r1, i)) => r.is_ok() && r.unwrap()@ == i && renaming(final(stack), final(undefined))
                == r1 && i.is_terminator() == instr@.is_terminator(),
            Err(e) => r == Err::<Instruction, PassError>(e),
        },
{
    let mut out = instr.clone();
    match instr.args_ref() {
        Some(args) => {
            let names = match rename_arg_list(stack, undefined, types, args) {
                Ok(n) => n,
                Err(e) => {
                    return Err(e);
                },
            };
            out.set_args(names);
        },
        None => {},
    }
    match instr.dest_ref() {
        Some(d) => {
            let new = NameStack::unique_name(d, bidx, idx);
            stack.push(d, new.clone());
            out.set_dest(new);
        },
        None => {},
    }
    proof {
        match instr@ {
            InstrView::Constant { .. } => {
                assert(instr@.arg_list() =~= seq![]);
            },
            _ => {},
        }
    }
    Ok(out)
}

/// Renames the instructions of a block.
fn rename_instrs(
    stack: &mut NameStack,
    undefined: &mut LinkedHashMap<String, Type>,
    types: &NameMap<Type>,
    all: &Vec<Instruction>,
    bidx: usize,
) -> (r: Result<Vec<Instruction>, PassError>)
    requires
        old(stack).wf(),
        types.wf(),
    ensures
        final(stack).wf(),
        match rename_all(
            renaming(old(stack), old(undefined)),
            types@,
            all.deep_view(),
            bidx as nat,
            all.len() as int,
        ) {
            Ok((r1, out)) => r.is_ok() && r.unwrap().deep_view() == out && renaming(
                final(stack),
                final(undefined),
            ) == r1 && out.len() == all.len() && forall|i: int|
                0 <= i < all.len() ==> (#[trigger] out[i]).is_terminator()
                    == all[i]@.is_terminator(),
            Err(e) => r == Err::<Vec<Instruction>, PassError>(e),
        },
{
    let ghost view = all.deep_view();
    let ghost r0 = renaming(stack, undefined);
    let mut out: Vec<Instruction> = Vec::new();
    let mut k: usize = 0;
    assert(out.deep_view() =~= seq![]);
    while k < all.len()
        invariant
            k <= all.len(),
            view == all.deep_view(),
            stack.wf(),
            types.wf(),
            out.len() == k,
            r0 == renaming(old(stack), old(undefined)),
            rename_all(r0, types@, view, bidx as nat, k as int) == Ok::<
                (Renaming, Seq<InstrView>),
                PassError,
            >((renaming(stack, undefined), out.deep_view())),
            forall|i: int|
                0 <= i < k ==> (#[trigger] out.deep_view()[i]).is_terminator()
                    == all[i]@.is_terminator(),
        decreases all.len() - k,
    {
        proof {
            lemma_deep_index(*all);
        }
        let ghost before = out;
        match rename_one(stack, undefined, types, &all[k], bidx, k) {
            Ok(i) => {
                out.push(i);
                proof {
                    lemma_deep_push(before, out, i);
                    lemma_deep_index(before);
                }
            },
            Err(e) => {
                proof {
                    assert(rename_all(r0, types@, view, bidx as nat, k + 1).is_err());
                    lemma_rename_all_failed(r0, types@, view, bidx as nat, k + 1, all.len() as int);
                }
                return Err(e);
            },
        }
        k += 1;
    }
    Ok(out)
}

/// The writes to the merge readers of one successor.
fn write_sets(
    stack: &NameStack,
    undefined: &mut LinkedHashMap<String, Type>,
    phis: &Vec<(String, Type)>,
    succ: usize,
    out: &mut Vec<Instruction>,
)
    requires
        stack.wf(),
        forall|i: int| 0 <= i < old(out).len() ==> !(#[trigger] old(out)[i])@.is_terminator(),
    ensures
        ({
            let (r1, sets) = sets_for(renaming(stack, old(undefined)), pairs_view(phis@), succ as nat);
            renaming(stack, final(undefined)) == r1 && final(out).deep_view() == old(
                out,
            ).deep_view() + sets
        }),
        forall|i: int| 0 <= i < final(out).len() ==> !(#[trigger] final(out)[i])@.is_terminator(),
{
    let ghost all = pairs_view(phis@);
    let ghost r0 = renaming(stack, undefined);
    let ghost base = out.deep_view();
    let mut k: usize = 0;
    assert(all.take(0) =~= seq![]);
    assert(base + Seq::<InstrView>::empty() =~= base);
    while k < phis.len()
        invariant
            k <= phis.len(),
            all == pairs_view(phis@),
            stack.wf(),
            ({
                let (r1, sets) = sets_for(r0, all.take(k as int), succ as nat);
                renaming(stack, undefined) == r1 && out.deep_view() == base + sets
            }),
            forall|i: int| 0 <= i < out.len() ==> !(#[trigger] out[i])@.is_terminator(),
        decreases phis.len() - k,
    {
        proof {
            let next = all.take(k + 1);
            assert(next.drop_last() =~= all.take(k as int));
            assert(next.last() == (phis[k as int].0@, phis[k as int].1));
        }
        let value = match stack.get(&phis[k].0) {
            Some(n) => n,
            None => {
                map_insert(undefined, phis[k].0.clone(), phis[k].1.clone());
                phis[k].0.clone()
            },
        };
        let mut args: Vec<String> = Vec::new();
        let shadow = NameStack::shadow_name(&phis[k].0, succ);
        args.push(shadow);
        args.push(value);
        assert(args.deep_view() =~= seq![shadow@, value@]);
        let set = Instruction::Effect {
            args,
            funcs: no_names(),
            labels: no_names(),
            op: EffectOps::SetVar,
            pos: None,
        };
        let ghost before = *out;
        out.push(set);
        proof {
            lemma_deep_push(before, *out, set);
            let (r1, sets) = sets_for(r0, all.take(k as int), succ as nat);
            assert(base + sets.push(set@) =~= (base + sets).push(set@));
        }
        k += 1;
    }
    assert(all.take(phis.len() as int) =~= all);
}

/// One step of the walk: renames a block.
fn visit_block(
    tree: &DominatorTree,
    phi: &PhiNodes,
    types: &NameMap<Type>,
    blocks: &mut Vec<BasicBlock>,
    stack: &mut NameStack,
    undefined: &mut LinkedHashMap<String, Type>,
    visited: &mut Vec<bool>,
    bidx: usize,
) -> (r: Result<(), PassError>)
    requires
        tree.wf(),
        phi@.len() == tree.cfg.size(),
        old(blocks).len() == tree.cfg.size(),
        old(visited).len() == tree.cfg.size(),
        bidx < tree.cfg.size(),
        forall|i: int| 0 <= i < old(blocks).len() ==> (#[trigger] old(blocks)[i]).wf(),
        old(stack).wf(),
        types.wf(),
    ensures
        final(stack).wf(),
        final(blocks).len() == old(blocks).len(),
        final(visited).len() == old(visited).len(),
        forall|i: int| 0 <= i < final(blocks).len() ==> (#[trigger] final(blocks)[i]).wf(),
        match visit(
            ctx_of(tree, phi@, types@),
            SsaState {
                blocks: old(blocks).deep_view(),
                r: renaming(old(stack), old(undefined)),
                visited: marks(old(visited)@),
            },
            bidx as int,
        ) {
            Ok(st) => r.is_ok() && final(blocks).deep_view() == st.blocks && renaming(
                final(stack),
                final(undefined),
            ) == st.r && marks(final(visited)@) == st.visited,
            Err(e) => r == Err::<(), PassError>(e),
        },
{
    let ghost ctx = ctx_of(tree, phi@, types@);
    let ghost blk = blocks[bidx as int]@;
    proof {
        lemma_deep_index(*blocks);
    }
    let phis = phi.get(bidx);
    let mut instrs = enter_block(stack, &phis, bidx);
    let ghost gets = instrs.deep_view();
    let all = blocks[bidx].iter();
    let mut renamed = match rename_instrs(stack, undefined, types, &all, bidx) {
        Ok(r) => r,
        Err(e) => {
            return Err(e);
        },
    };
    let ghost renamed_view = renamed.deep_view();
    let ghost r2 = renaming(stack, undefined);
    proof {
        lemma_deep_index(renamed);
        lemma_deep_index(all);
    }
    let control_flow = match &blocks[bidx].control_flow {
        Some(_) => {
            let ghost full = renamed;
            let t = renamed.pop().unwrap();
            proof {
                lemma_deep_index(full);
                lemma_deep_index(renamed);
                assert(renamed.deep_view() =~= full.deep_view().drop_last());
                assert(blk.all().last() == blk.control_flow.unwrap());
            }
            Some(t)
        },
        None => None,
    };
    let ghost body = rebuild(blk, renamed_view);
    assert(renamed.deep_view() == body.instrs);
    proof {
        lemma_deep_index(renamed);
        assert forall|i: int| 0 <= i < renamed.len() implies !(#[trigger] renamed[i])@.is_terminator() by {
            assert(renamed[i]@ == renamed_view[i]);
            assert(renamed_view[i].is_terminator() == all[i]@.is_terminator());
            assert(all[i]@ == blk.all()[i]);
            assert(blk.all()[i] == blk.instrs[i]);
        }
    }
    // The renamed instructions follow the merge readers.
    let mut k: usize = 0;
    while k < renamed.len()
        invariant
            k <= renamed.len(),
            instrs.deep_view() == gets + renamed.deep_view().take(k as int),
            forall|i: int| 0 <= i < instrs.len() ==> !(#[trigger] instrs[i])@.is_terminator(),
            forall|i: int| 0 <= i < renamed.len() ==> !(#[trigger] renamed[i])@.is_terminator(),
        decreases renamed.len() - k,
    {
        let ghost before = instrs;
        let i = renamed[k].clone();
        instrs.push(i);
        proof {
            lemma_deep_push(before, instrs, i);
            lemma_deep_index(renamed);
            assert(renamed.deep_view().take(k + 1) =~= renamed.deep_view().take(k as int).push(
                renamed[k as int]@,
            ));
            assert(gets + renamed.deep_view().take(k as int).push(i@) =~= (gets
                + renamed.deep_view().take(k as int)).push(i@));
        }
        k += 1;
    }
    assert(renamed.deep_view().take(renamed.len() as int) =~= renamed.deep_view());
    let succs = tree.cfg.succs(bidx);
    proof {
        crate::cfg::lemma_neighbours_in_range(&tree.cfg, bidx);
    }
    let ghost head = instrs.deep_view();
    let mut k: usize = 0;
    assert(head + Seq::<InstrView>::empty() =~= head);
    while k < succs.len()
        invariant
            k <= succs.len(),
            stack.wf(),
            phi@.len() == tree.cfg.size(),
            succs@ == tree.cfg.succs_spec(bidx as int),
            forall|j: int| 0 <= j < succs.len() ==> #[trigger] succs[j] < tree.cfg.size(),
            ({
                let (r3, sets) = all_sets(r2, phi@, succs@, k as int);
                renaming(stack, undefined) == r3 && instrs.deep_view() == head + sets
            }),
            forall|i: int| 0 <= i < instrs.len() ==> !(#[trigger] instrs[i])@.is_terminator(),
        decreases succs.len() - k,
    {
        let succ = succs[k];
        let ps = phi.get(succ);
        let ghost before = instrs.deep_view();
        write_sets(stack, undefined, &ps, succ, &mut instrs);
        proof {
            let (r3, sets) = all_sets(r2, phi@, succs@, k as int);
            let (r4, more) = sets_for(r3, phi@[succ as int], succ as nat);
            assert(head + (sets + more) =~= (head + sets) + more);
        }
        k += 1;
    }
    let nb = BasicBlock {
        idx: blocks[bidx].idx,
        label: blocks[bidx].label.clone(),
        instrs,
        control_flow,
    };
    proof {
        let (r3, sets) = all_sets(r2, ctx.phi, ctx.succs[bidx as int], ctx.succs[bidx as int].len() as int);
        assert(nb@.instrs =~= gets + body.instrs + sets);
        assert(nb@ == (BlockView { instrs: gets + body.instrs + sets, ..body }));
        lemma_deep_index(*blocks);
    }
    let ghost before = *blocks;
    blocks.set(bidx, nb);
    let ghost seen = marks(visited@);
    visited.set(bidx, true);
    proof {
        lemma_deep_index(before);
        lemma_deep_index(*blocks);
        assert(blocks.deep_view() =~= before.deep_view().update(bidx as int, nb@));
        assert(marks(visited@) =~= seen.insert(bidx));
    }
    Ok(())
}

/// The walk over the dominator tree from a block.
fn walk_tree(
    tree: &DominatorTree,
    phi: &PhiNodes,
    types: &NameMap<Type>,
    blocks: &mut Vec<BasicBlock>,
    stack: &mut NameStack,
    undefined: &mut LinkedHashMap<String, Type>,
    visited: &mut Vec<bool>,
    bidx: usize,
    fuel: usize,
) -> (r: Result<(), PassError>)
    requires
        tree.wf(),
        phi@.len() == tree.cfg.size(),
        old(blocks).len() == tree.cfg.size(),
        old(visited).len() == tree.cfg.size(),
        bidx < tree.cfg.size(),
        forall|i: int| 0 <= i < old(blocks).len() ==> (#[trigger] old(blocks)[i]).wf(),
        old(stack).wf(),
        types.wf(),
    ensures
        final(stack).wf(),
        final(blocks).len() == old(blocks).len(),
        final(visited).len() == old(visited).len(),
        forall|i: int| 0 <= i < final(blocks).len() ==> (#[trigger] final(blocks)[i]).wf(),
        match walk(
            ctx_of(tree, phi@, types@),
            SsaState {
                blocks: old(blocks).deep_view(),
                r: renaming(old(stack), old(undefined)),
                visited: marks(old(visited)@),
            },
            bidx as int,
            fuel as nat,
        ) {
            Ok(st) => r.is_ok() && final(blocks).deep_view() == st.blocks && renaming(
                final(stack),
                final(undefined),
            ) == st.r && marks(final(visited)@) == st.visited,
            Err(e) => r == Err::<(), PassError>(e),
        },
    decreases fuel, tree.cfg.size() + 2,
{
    if visited[bidx] {
        return Ok(());
    }
    let ghost ctx = ctx_of(tree, phi@, types@);
    let ghost st0 = SsaState {
        blocks: blocks.deep_view(),
        r: renaming(stack, undefined),
        visited: marks(visited@),
    };
    let old_stack = stack.clone();
    match visit_block(tree, phi, types, blocks, stack, undefined, visited, bidx) {
        Ok(()) => {},
        Err(e) => {
            return Err(e);
        },
    }
    let ghost st1 = SsaState {
        blocks: blocks.deep_view(),
        r: renaming(stack, undefined),
        visited: marks(visited@),
    };
    let n = tree.len();
    let mut child: usize = 0;
    while child < n && fuel > 0
        invariant
            child <= n,
            n == tree.cfg.size(),
            tree.wf(),
            phi@.len() == n,
            blocks.len() == n,
            visited.len() == n,
            bidx < n,
            forall|i: int| 0 <= i < blocks.len() ==> (#[trigger] blocks[i]).wf(),
            stack.wf(),
            types.wf(),
            ctx == ctx_of(tree, phi@, types@),
            old(blocks).len() == n,
            old(visited).len() == n,
            st0 == (SsaState {
                blocks: old(blocks).deep_view(),
                r: renaming(old(stack), old(undefined)),
                visited: marks(old(visited)@),
            }),
            !st0.visited.contains(bidx),
            visit(ctx, st0, bidx as int) == Ok::<SsaState, PassError>(st1),
            children(ctx, st1, bidx as int, 0, fuel as nat) == children(
                ctx,
                SsaState {
                    blocks: blocks.deep_view(),
                    r: renaming(stack, undefined),
                    visited: marks(visited@),
                },
                bidx as int,
                child as int,
                fuel as nat,
            ),
        decreases n - child,
    {
        if tree.immediate_dom(child) == Some(bidx) {
            match walk_tree(tree, phi, types, blocks, stack, undefined, visited, child, fuel - 1) {
                Ok(()) => {},
                Err(e) => {
                    return Err(e);
                },
            }
        }
        child += 1;
    }
    *stack = old_stack;
    Ok(())
}

/// The pass that brings a function into SSA form.
#[derive(Clone, Copy, Debug, PartialEq, Eq, Structural)]
pub struct ToSSA;

/// Whether the terminator of some block names no block.
pub open spec fn label_fault(g: BBFunctionView) -> bool {
    exists|i: usize| i < g.blocks.len() && (#[trigger] edge_of(g, i)).is_err()
}

/// Whether the error reports the first block whose terminator names no
/// block.
pub open spec fn first_fault(g: BBFunctionView, e: PassError) -> bool {
    exists|i: usize|
        i < g.blocks.len() && (#[trigger] edge_of(g, i)).is_err() && e == PassError::Label(i)
            && forall|j: usize| j < i ==> (#[trigger] edge_of(g, j)).is_ok()
}

/// Whether `i` is the first node with several nearest strict dominators.
pub open spec fn first_tangled(cfg: &CFG, s: Flow<Set<usize>>, i: usize) -> bool {
    &&& i <= cfg.size()
    &&& tangled(dom_sets(cfg, s), i)
    &&& forall|j: usize| j < i ==> !#[trigger] tangled(dom_sets(cfg, s), j)
}

/// Whether a graph has a dominator tree: its dominator analysis settles,
/// and no node has several nearest strict dominators.
pub open spec fn has_tree(cfg: &CFG) -> bool {
    analysis(cfg) matches Ok(s) && s.work.len() == 0 && forall|i: usize|
        i <= cfg.size() ==> !#[trigger] tangled(dom_sets(cfg, s), i)
}

/// Whether `e` tells why a graph has no dominator tree.
pub open spec fn tree_fault(cfg: &CFG, e: PassError) -> bool {
    match analysis(cfg) {
        Err(x) => e == x,
        Ok(s) => if s.work.len() != 0 {
            e == PassError::Diverged
        } else {
            exists|i: usize| #[trigger] first_tangled(cfg, s, i) && e == PassError::Tangled(i)
        },
    }
}

/// Whether `out` is what the walk gives for the dominator tree of a graph
/// and its merge readers, which are complete, no more than are needed, and
/// one for each variable of a block at most.
pub open spec fn walked(f: FunctionView, cfg: &CFG, out: Result<FunctionView, PassError>) -> bool {
    exists|tree: DominatorTree|
        #![trigger merge_readers(&tree)]
        tree.wf() && tree.cfg == *cfg && closed(merge_readers(&tree), &tree) && exact(
            merge_readers(&tree),
            &tree,
        ) && single(merge_readers(&tree)) && ssa_form(f, &tree, merge_readers(&tree)) == out
}

/// Whether `out` is what the graph of the prepared function gives: the
/// report of why it has no dominator tree, or what the walk gives.
pub open spec fn outcome(f: FunctionView, cfg: &CFG, out: Result<FunctionView, PassError>) -> bool {
    if has_tree(cfg) {
        walked(f, cfg, out)
    } else {
        out matches Err(e) && tree_fault(cfg, e)
    }
}

/// What `to_ssa` may return for a function. A function without a block is
/// refused. A terminator that names no block is reported for the first
/// such block. Else the result is what the graph of the prepared function
/// gives.
pub open spec fn to_ssa_rel(f: FunctionView, out: Result<FunctionView, PassError>) -> bool {
    let g = BBFunctionView { blocks: prepared(f), ..block_form(f) };
    if g.blocks.len() == 0 {
        out == Err::<FunctionView, PassError>(PassError::Malformed)
    } else if label_fault(g) {
        out matches Err(e) && first_fault(g, e)
    } else {
        exists|cfg: CFG|
            #![trigger outcome(f, &cfg, out)]
            cfg.wf() && !cfg.reversed && cfg.func@ == g && outcome(f, &cfg, out)
    }
}

/// The type of each variable of a function.
fn collect_types(func: &Function) -> (m: NameMap<Type>)
    ensures
        m.wf(),
        m@ == types_of(func@.instrs),
{
    let mut m: NameMap<Type> = NameMap::new();
    let ghost codes = func@.instrs;
    let mut i: usize = 0;
    assert(codes.take(0) =~= seq![]);
    while i < func.instrs.len()
        invariant
            i <= func.instrs.len(),
            codes == func.instrs.deep_view(),
            m.wf(),
            m@ == types_of(codes.take(i as int)),
        decreases func.instrs.len() - i,
    {
        proof {
            let next = codes.take(i + 1);
            assert(next.drop_last() =~= codes.take(i as int));
            lemma_deep_index(func.instrs);
            assert(next.last() == func.instrs[i as int]@);
        }
        match &func.instrs[i] {
            crate::ir::Code::Instruction(instr) => {
                match (instr.dest(), instr.get_type()) {
                    (Some(d), Some(t)) => {
                        m.insert(d, t);
                    },
                    _ => {},
                }
            },
            _ => {},
        }
        i += 1;
    }
    assert(codes.take(func.instrs.len() as int) =~= codes);
    m
}

/// Puts an empty block before the blocks of a function whose first block
/// bears a label.
fn prepare(bb: BBFunction) -> (r: BBFunction)
    requires
        bb.wf(),
        bb@.blocks.len() > 0,
    ensures
        r.wf(),
        r@ == (BBFunctionView {
            blocks: if bb@.blocks[0].label.is_some() {
                reindexed(
                    seq![BlockView { idx: 0, label: None, instrs: seq![], control_flow: None }]
                        + bb@.blocks,
                )
            } else {
                reindexed(bb@.blocks)
            },
            ..bb@
        }),
{
    let ghost f0 = bb@;
    let mut start: Vec<BasicBlock> = Vec::new();
    proof {
        lemma_deep_index(bb.blocks);
    }
    if bb.blocks[0].label.is_some() {
        let instrs: Vec<Instruction> = Vec::new();
        assert(instrs.deep_view() =~= seq![]);
        start.push(BasicBlock { idx: 0, label: None, instrs, control_flow: None });
    }
    let ghost head = start.deep_view();
    proof {
        lemma_deep_index(start);
        assert(head =~= if f0.blocks[0].label.is_some() {
            seq![BlockView { idx: 0, label: None, instrs: seq![], control_flow: None }]
        } else {
            seq![]
        });
        assert(f0.blocks.take(0) =~= seq![]);
        assert(head + Seq::<BlockView>::empty() =~= head);
    }
    let mut i: usize = 0;
    while i < bb.blocks.len()
        invariant
            i <= bb.blocks.len(),
            bb.wf(),
            f0 == bb@,
            start.deep_view() == head + f0.blocks.take(i as int),
            forall|j: int| 0 <= j < start.len() ==> (#[trigger] start[j]).wf(),
        decreases bb.blocks.len() - i,
    {
        let ghost before = start;
        let b = bb.blocks[i].clone();
        proof {
            lemma_deep_index(bb.blocks);
            assert(f0.blocks[i as int].wf());
            assert(b.wf());
        }
        start.push(b);
        proof {
            lemma_deep_push(before, start, b);
            assert(f0.blocks.take(i + 1) =~= f0.blocks.take(i as int).push(b@));
            assert(head + f0.blocks.take(i as int).push(b@) =~= (head + f0.blocks.take(
                i as int,
            )).push(b@));
        }
        i += 1;
    }
    assert(f0.blocks.take(bb.blocks.len() as int) =~= f0.blocks);
    let ghost given = start.deep_view();
    let r = bb.with_blocks(start);
    proof {
        assert(r@.blocks =~= reindexed(given));
        if !f0.blocks[0].label.is_some() {
            assert(head + f0.blocks =~= f0.blocks);
        }
    }
    r
}

/// The blocks of the function of a tree, copied.
fn copy_blocks(tree: &DominatorTree) -> (blocks: Vec<BasicBlock>)
    requires
        tree.wf(),
    ensures
        blocks.deep_view() == tree.cfg.func@.blocks,
        blocks.len() == tree.cfg.size(),
        forall|j: int| 0 <= j < blocks.len() ==> (#[trigger] blocks[j]).wf(),
{
    let mut blocks: Vec<BasicBlock> = Vec::new();
    let n = tree.len();
    let mut i: usize = 0;
    while i < n
        invariant
            i <= n,
            n == tree.cfg.size(),
            tree.wf(),
            blocks.len() == i,
            forall|j: int| 0 <= j < i ==> (#[trigger] blocks[j])@ == tree.cfg.func@.blocks[j],
            forall|j: int| 0 <= j < i ==> (#[trigger] blocks[j]).wf(),
        decreases n - i,
    {
        let b = tree.cfg.get(i).clone();
        assert(tree.cfg.func@.blocks[i as int].wf());
        blocks.push(b);
        i += 1;
    }
    proof {
        lemma_deep_index(blocks);
        assert(blocks.deep_view() =~= tree.cfg.func@.blocks);
    }
    blocks
}

/// Seeds the undefined variables at the top of the first block.
fn seed_undefined(blocks: &mut Vec<BasicBlock>, undefined: &LinkedHashMap<String, Type>)
    requires
        old(blocks).len() > 0,
        forall|j: int| 0 <= j < old(blocks).len() ==> (#[trigger] old(blocks)[j]).wf(),
    ensures
        final(blocks).len() == old(blocks).len(),
        forall|j: int| 0 <= j < final(blocks).len() ==> (#[trigger] final(blocks)[j]).wf(),
        final(blocks).deep_view() == old(blocks).deep_view().update(
            0,
            BlockView {
                instrs: seeds(map_entries(*undefined)) + old(blocks)[0]@.instrs,
                ..old(blocks)[0]@
            },
        ),
{
    let und = map_pairs(undefined);
    let ghost uv = pairs_view(und@);
    let ghost first = blocks[0]@;
    let ghost start = blocks.deep_view();
    let mut k: usize = 0;
    proof {
        assert(uv.take(0) =~= seq![]);
        lemma_deep_index(*blocks);
        assert(seeds(uv.take(0)) + first.instrs =~= first.instrs);
    }
    while k < und.len()
        invariant
            k <= und.len(),
            uv == pairs_view(und@),
            blocks.len() == start.len(),
            blocks.len() > 0,
            forall|j: int| 0 <= j < blocks.len() ==> (#[trigger] blocks[j]).wf(),
            forall|j: int| 1 <= j < blocks.len() ==> (#[trigger] blocks[j])@ == start[j],
            blocks[0]@ == (BlockView { instrs: seeds(uv.take(k as int)) + first.instrs, ..first }),
        decreases und.len() - k,
    {
        proof {
            let next = uv.take(k + 1);
            assert(next.drop_last() =~= uv.take(k as int));
            assert(next.last() == (und[k as int].0@, und[k as int].1));
        }
        let instr = Instruction::Value {
            args: no_names(),
            dest: und[k].0.clone(),
            funcs: no_names(),
            labels: no_names(),
            op: ValueOps::Undef,
            pos: None,
            op_type: und[k].1.clone(),
        };
        let ghost cur = blocks[0]@;
        blocks[0].insert(0, instr);
        proof {
            assert(blocks[0]@.instrs =~= seeds(uv.take(k + 1)) + first.instrs);
        }
        k += 1;
    }
    proof {
        assert(uv.take(und.len() as int) =~= uv);
        lemma_deep_index(*blocks);
        assert(blocks.deep_view() =~= start.update(
            0,
            BlockView { instrs: seeds(map_entries(*undefined)) + first.instrs, ..first },
        ));
    }
}

/// Renames the blocks of the function of a dominator tree.
fn rename_function(tree: &DominatorTree, types: &NameMap<Type>) -> (r: (
    Result<BBFunction, PassError>,
    Ghost<Seq<Seq<(Seq<char>, Type)>>>,
))
    requires
        tree.wf(),
        tree.cfg.size() > 0,
        types.wf(),
    ensures
        r.1@ == merge_readers(tree),
        closed(r.1@, tree),
        exact(r.1@, tree),
        single(r.1@),
        match ssa_blocks(tree.cfg.func@.blocks, tree.cfg.func@.args, tree, r.1@, types@) {
            Ok(blocks) => r.0.is_ok() && r.0.unwrap()@ == (BBFunctionView {
                blocks,
                ..tree.cfg.func@
            }) && r.0.unwrap().wf(),
            Err(e) => r.0 matches Err(x) && x == e,
        },
{
    let phi = PhiNodes::new(tree);
    let mut stack = NameStack::new(&tree.cfg.func().args);
    let mut blocks = copy_blocks(tree);
    let n = tree.len();
    let mut undefined = map_new();
    let mut visited: Vec<bool> = Vec::new();
    let mut i: usize = 0;
    while i < n
        invariant
            i <= n,
            visited.len() == i,
            forall|j: int| 0 <= j < i ==> !#[trigger] visited[j],
        decreases n - i,
    {
        visited.push(false);
        i += 1;
    }
    assert(marks(visited@) =~= Set::<usize>::empty());
    match walk_tree(tree, &phi, types, &mut blocks, &mut stack, &mut undefined, &mut visited, 0, n) {
        Ok(()) => {},
        Err(e) => {
            return (Err(e), Ghost(phi@));
        },
    }
    seed_undefined(&mut blocks, &undefined);
    let ghost done = blocks.deep_view();
    let out = tree.cfg.func().clone().with_blocks(blocks);
    proof {
        assert(out@.blocks =~= reindexed(done));
    }
    (Ok(out), Ghost(phi@))
}

/// The graph of a function, or the first block whose terminator names no
/// block.
fn build_cfg(bb: BBFunction) -> (r: Result<CFG, PassError>)
    requires
        bb.wf(),
    ensures
        match r {
            Ok(cfg) => cfg.wf() && !cfg.reversed && cfg.func@ == bb@ && !label_fault(bb@),
            Err(e) => label_fault(bb@) && first_fault(bb@, e),
        },
{
    let ghost g = bb@;
    match CFG::new(bb) {
        Ok(c) => {
            proof {
                assert forall|i: usize| i < g.blocks.len() implies !(#[trigger] edge_of(
                    g,
                    i,
                )).is_err() by {
                    assert(edge_of(g, i).is_ok());
                }
            }
            Ok(c)
        },
        Err(e) => {
            proof {
                let i = choose|i: usize|
                    i < g.blocks.len() && #[trigger] edge_of(g, i) == Err::<
                        crate::cfg::FlowEdge,
                        crate::cfg::LabelErrorView,
                    >(e@) && forall|j: usize| j < i ==> (#[trigger] edge_of(g, j)).is_ok();
                assert(edge_of(g, i).is_err());
                assert(e.block == e@.block);
                lemma_edge_error_block(g, i);
            }
            Err(PassError::Label(e.block))
        },
    }
}

/// The dominator tree of a graph, or why there is none.
fn build_tree(cfg: CFG) -> (r: Result<DominatorTree, PassError>)
    requires
        cfg.wf(),
        !cfg.reversed,
    ensures
        match r {
            Ok(t) => t.wf() && t.cfg == cfg && has_tree(&cfg),
            Err(e) => !has_tree(&cfg) && tree_fault(&cfg, e),
        },
{
    proof {
        assert(crate::dataflow::oriented(cfg, false) == cfg);
    }
    match DominatorTree::new(cfg) {
        Ok(t) => {
            proof {
                let s = analysis(&cfg).unwrap();
                let doms = dom_sets(&cfg, s);
                assert forall|i: usize| i <= cfg.size() implies !#[trigger] tangled(doms, i) by {
                    assert(crate::dominator_tree::idom_ok(doms, i, t.immediate_doms@[i as int]));
                    if tangled(doms, i) {
                        let (a, b) = choose|a: usize, b: usize|
                            a != b && #[trigger] crate::dominator_tree::nearest(doms, i).contains(
                                a,
                            ) && #[trigger] crate::dominator_tree::nearest(doms, i).contains(b);
                    }
                }
            }
            Ok(t)
        },
        Err(e) => {
            proof {
                match analysis(&cfg) {
                    Ok(s) => {
                        if s.work.len() == 0 {
                            let i = choose|i: usize|
                                e == PassError::Tangled(i) && i <= cfg.size() && tangled(
                                    dom_sets(&cfg, s),
                                    i,
                                ) && forall|j: usize|
                                    j < i ==> !#[trigger] tangled(dom_sets(&cfg, s), j);
                            assert(first_tangled(&cfg, s, i));
                        }
                    },
                    Err(_) => {},
                }
            }
            Err(e)
        },
    }
}

impl ToSSA {
    /// Brings a function into SSA form.
    pub fn to_ssa(func: Function) -> (r: Result<Function, PassError>)
        ensures
            to_ssa_rel(func@, crate::passes::flat_result(r)),
    {
        let types = collect_types(&func);
        let bb = BBFunction::from(func);
        let ghost f0 = bb@;
        if bb.blocks.len() == 0 {
            assert(reindexed(f0.blocks) =~= seq![]);
            return Err(PassError::Malformed);
        }
        let bb = prepare(bb);
        let ghost g = bb@;
        assert(g == (BBFunctionView { blocks: prepared(func@), ..block_form(func@) }));
        let cfg = match build_cfg(bb) {
            Ok(c) => c,
            Err(e) => {
                return Err(e);
            },
        };
        let ghost graph = cfg;
        let tree = match build_tree(cfg) {
            Ok(t) => t,
            Err(e) => {
                assert(outcome(func@, &graph, Err(e)));
                return Err(e);
            },
        };
        let (res, Ghost(phi)) = rename_function(&tree, &types);
        match res {
            Ok(out) => {
                let r = out.into_function();
                proof {
                    assert(ssa_form(func@, &tree, phi) == Ok::<FunctionView, PassError>(r@));
                    assert(walked(func@, &graph, Ok(r@)));
                    assert(outcome(func@, &graph, Ok(r@)));
                }
                Ok(r)
            },
            Err(e) => {
                proof {
                    assert(ssa_form(func@, &tree, phi) == Err::<FunctionView, PassError>(e));
                    assert(walked(func@, &graph, Err(e)));
                    assert(outcome(func@, &graph, Err(e)));
                }
                Err(e)
            },
        }
    }
}

/// A failing edge is reported for its own block.
pub proof fn lemma_edge_error_block(g: BBFunctionView, i: usize)
    requires
        edge_of(g, i).is_err(),
    ensures
        edge_of(g, i).unwrap_err().block == i,
{
}

} // verus!
