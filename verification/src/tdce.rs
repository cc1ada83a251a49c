//! Trivial dead-code elimination: a sweep over a whole function that drops
//! every instruction whose result nothing reads, repeated until nothing
//! more goes, and a sweep over one block that drops every write that is
//! overwritten before it is read. The pass on a function takes the two in
//! turn until neither removes a line, so a second run changes nothing.
use crate::basic_block::{BasicBlock, BlockView};
use crate::bb_function::{
    bare, block_form, blocks_of, flatten_blocks, lemma_scan, scan, BBFunction, BBFunctionView,
};
use crate::ir::{
    lemma_deep_index, lemma_deep_push, Code, CodeView, Function, FunctionView, InstrView,
    Instruction, Program, ProgramView,
};
use crate::names::{lemma_take_set, NameSet};
use crate::passes::{FunctionPass, Pass, PassError};
use vstd::prelude::*;

verus! {

/// The names that a line reads.
pub open spec fn code_args(c: CodeView) -> Seq<Seq<char>> {
    match c {
        CodeView::Instruction(i) => i.arg_list(),
        _ => seq![],
    }
}

/// The name that a line writes, if it writes one.
pub open spec fn code_dest(c: CodeView) -> Option<Seq<char>> {
    match c {
        CodeView::Instruction(i) => i.dest(),
        _ => None,
    }
}

/// Every name that some line reads.
pub open spec fn reads(codes: Seq<CodeView>) -> Set<Seq<char>>
    decreases codes.len(),
{
    if codes.len() == 0 {
        Set::empty()
    } else {
        reads(codes.drop_last()).union(code_args(codes.last()).to_set())
    }
}

/// Whether a sweep keeps a line: it does unless the line writes a name
/// that nothing reads.
pub open spec fn kept(c: CodeView, read: Set<Seq<char>>) -> bool {
    match code_dest(c) {
        Some(d) => read.contains(d),
        None => true,
    }
}

/// The lines that a sweep keeps, given the names that are read.
pub open spec fn sweep_with(codes: Seq<CodeView>, read: Set<Seq<char>>) -> Seq<CodeView>
    decreases codes.len(),
{
    if codes.len() == 0 {
        seq![]
    } else if kept(codes.last(), read) {
        sweep_with(codes.drop_last(), read).push(codes.last())
    } else {
        sweep_with(codes.drop_last(), read)
    }
}

/// One sweep: the lines without those that write a name that no line
/// reads.
pub open spec fn sweep(codes: Seq<CodeView>) -> Seq<CodeView> {
    sweep_with(codes, reads(codes))
}

/// Sweeps repeated until one removes nothing.
pub open spec fn sweep_all(codes: Seq<CodeView>) -> Seq<CodeView>
    decreases codes.len(),
{
    if sweep(codes).len() < codes.len() {
        sweep_all(sweep(codes))
    } else {
        codes
    }
}

/// A sweep never adds a line, and one that removes none changes nothing.
pub proof fn lemma_sweep_with(codes: Seq<CodeView>, read: Set<Seq<char>>)
    ensures
        sweep_with(codes, read).len() <= codes.len(),
        sweep_with(codes, read).len() == codes.len() ==> sweep_with(codes, read) == codes,
    decreases codes.len(),
{
    if codes.len() > 0 {
        lemma_sweep_with(codes.drop_last(), read);
        if sweep_with(codes, read).len() == codes.len() {
            assert(sweep_with(codes, read) =~= codes.drop_last().push(codes.last()));
            assert(codes.drop_last().push(codes.last()) =~= codes);
        }
    }
}

/// The result of the repeated sweep is settled: one more sweep removes
/// nothing from it.
pub proof fn lemma_sweep_all_settled(codes: Seq<CodeView>)
    ensures
        sweep(sweep_all(codes)) == sweep_all(codes),
    decreases codes.len(),
{
    lemma_sweep_with(codes, reads(codes));
    if sweep(codes).len() < codes.len() {
        lemma_sweep_all_settled(sweep(codes));
    }
}

/// Sweeping a swept function again changes nothing.
pub proof fn lemma_sweep_all_idempotent(codes: Seq<CodeView>)
    ensures
        sweep_all(sweep_all(codes)) == sweep_all(codes),
{
    lemma_sweep_all_settled(codes);
}

/// What a sweep over a block has found at some instruction, going up from
/// the block's end: the instructions kept below it, and the names written
/// below it and not read since.
pub struct Swept {
    pub kept: Seq<InstrView>,
    pub pending: Set<Seq<char>>,
}

/// The sweep over a run of instructions, from its last to its first. A
/// write is live unless its name is already pending; a live instruction
/// takes the names it reads out of the pending names, a dead one reads
/// nothing.
pub open spec fn local(s: Seq<InstrView>) -> Swept
    decreases s.len(),
{
    if s.len() == 0 {
        Swept { kept: seq![], pending: Set::empty() }
    } else {
        let below = local(s.skip(1));
        let i = s[0];
        let live = match i.dest() {
            Some(d) => !below.pending.contains(d),
            None => true,
        };
        let marked = match i.dest() {
            Some(d) => below.pending.insert(d),
            None => below.pending,
        };
        if live {
            Swept {
                kept: seq![i] + below.kept,
                pending: marked.difference(i.arg_list().to_set()),
            }
        } else {
            Swept { kept: below.kept, pending: marked }
        }
    }
}

/// The block after the sweep: its plain instructions swept, the rest as it
/// was.
pub open spec fn local_block(b: BlockView) -> BlockView {
    BlockView { instrs: local(b.instrs).kept, ..b }
}

/// Sweeping what a sweep kept finds the same again.
pub proof fn lemma_local_settled(s: Seq<InstrView>)
    ensures
        local(local(s).kept) == local(s),
    decreases s.len(),
{
    if s.len() > 0 {
        let below = local(s.skip(1));
        let i = s[0];
        lemma_local_settled(s.skip(1));
        let live = match i.dest() {
            Some(d) => !below.pending.contains(d),
            None => true,
        };
        if live {
            let k = seq![i] + below.kept;
            assert(k.skip(1) =~= below.kept);
            assert(k[0] == i);
        } else {
            let d = i.dest().unwrap();
            assert(below.pending.insert(d) =~= below.pending);
        }
    }
}

/// Sweeping a swept block again changes nothing.
pub proof fn lemma_local_idempotent(b: BlockView)
    ensures
        local_block(local_block(b)) == local_block(b),
{
    lemma_local_settled(b.instrs);
}

/// A sweep of a block keeps it in order.
pub proof fn lemma_local_wf(s: Seq<InstrView>)
    requires
        forall|i: int| 0 <= i < s.len() ==> !(#[trigger] s[i]).is_terminator(),
    ensures
        forall|i: int|
            0 <= i < local(s).kept.len() ==> !(#[trigger] local(s).kept[i]).is_terminator(),
        local(s).kept.len() <= s.len(),
    decreases s.len(),
{
    if s.len() > 0 {
        assert forall|i: int| 0 <= i < s.skip(1).len() implies !(#[trigger] s.skip(1)[i]).is_terminator() by {
            assert(s.skip(1)[i] == s[i + 1]);
        }
        lemma_local_wf(s.skip(1));
    }
}

/// The terminator of a block has no part in the sweep: it is kept, and it
/// leaves no name pending. So sweeping the plain instructions is sweeping
/// the whole block.
pub proof fn lemma_local_all(s: Seq<InstrView>, t: InstrView)
    requires
        t.dest().is_none(),
    ensures
        local(s.push(t)).kept == local(s).kept.push(t),
        local(s.push(t)).pending == local(s).pending,
    decreases s.len(),
{
    if s.len() == 0 {
        let one = s.push(t);
        assert(one.skip(1) =~= seq![]);
        assert(one.skip(1).len() == 0);
        assert(local(one.skip(1)).kept =~= seq![]);
        assert(local(one.skip(1)).pending =~= Set::empty());
        assert(one[0] == t);
        assert(local(s).kept =~= seq![]);
        assert(local(one).kept =~= seq![t]);
        assert(local(one).pending =~= Set::empty());
    } else {
        lemma_local_all(s.skip(1), t);
        assert(s.push(t).skip(1) =~= s.skip(1).push(t));
        assert(s.push(t)[0] == s[0]);
        let below = local(s.skip(1));
        assert(seq![s[0]] + below.kept.push(t) =~= (seq![s[0]] + below.kept).push(t));
    }
}

/// The function after the repeated sweep over its lines, cut into blocks
/// again.
pub open spec fn swept_function(f: BBFunctionView) -> BBFunctionView {
    block_form(FunctionView { instrs: sweep_all(f.flatten().instrs), ..f.flatten() })
}

/// The blocks with each swept.
pub open spec fn local_blocks(blocks: Seq<BlockView>) -> Seq<BlockView> {
    Seq::new(blocks.len(), |i: int| local_block(blocks[i]))
}

/// One round of the pass on a flat function: the repeated sweep over its
/// lines, then the sweep of each of its blocks.
pub open spec fn one_round(f: FunctionView) -> FunctionView {
    let g = block_form(FunctionView { instrs: sweep_all(f.instrs), ..f });
    (BBFunctionView { blocks: local_blocks(g.blocks), ..g }).flatten()
}

/// The pass on a flat function: rounds repeated until one removes no
/// line.
pub open spec fn cleaned(f: FunctionView) -> FunctionView
    decreases f.instrs.len(),
{
    if one_round(f).instrs.len() < f.instrs.len() {
        cleaned(one_round(f))
    } else {
        one_round(f)
    }
}

/// A function without the source positions of its labels and of itself.
pub open spec fn bare_function(f: FunctionView) -> FunctionView {
    FunctionView { instrs: f.instrs.map_values(|c: CodeView| bare(c)), pos: None, ..f }
}

/// The source position of a label has no part in what lines read.
pub proof fn lemma_reads_bare(codes: Seq<CodeView>)
    ensures
        reads(codes.map_values(|c: CodeView| bare(c))) == reads(codes),
    decreases codes.len(),
{
    let lines = codes.map_values(|c: CodeView| bare(c));
    if codes.len() > 0 {
        lemma_reads_bare(codes.drop_last());
        assert(lines.drop_last() =~= codes.drop_last().map_values(|c: CodeView| bare(c)));
        assert(code_args(lines.last()) == code_args(codes.last()));
    }
}

/// The source position of a label has no part in a sweep.
pub proof fn lemma_sweep_with_bare(codes: Seq<CodeView>, read: Set<Seq<char>>)
    ensures
        sweep_with(codes.map_values(|c: CodeView| bare(c)), read) == sweep_with(
            codes,
            read,
        ).map_values(|c: CodeView| bare(c)),
    decreases codes.len(),
{
    let lines = codes.map_values(|c: CodeView| bare(c));
    if codes.len() > 0 {
        lemma_sweep_with_bare(codes.drop_last(), read);
        assert(lines.drop_last() =~= codes.drop_last().map_values(|c: CodeView| bare(c)));
        assert(lines.last() == bare(codes.last()));
        assert(kept(lines.last(), read) == kept(codes.last(), read));
        let head = sweep_with(codes.drop_last(), read);
        if kept(codes.last(), read) {
            assert(head.push(codes.last()).map_values(|c: CodeView| bare(c)) =~= head.map_values(
                |c: CodeView| bare(c),
            ).push(bare(codes.last())));
        }
    } else {
        assert(sweep_with(codes, read).map_values(|c: CodeView| bare(c)) =~= seq![]);
    }
}

/// The source position of a label has no part in how lines are cut into
/// blocks.
pub proof fn lemma_scan_bare(codes: Seq<CodeView>)
    ensures
        scan(codes.map_values(|c: CodeView| bare(c))) == scan(codes),
    decreases codes.len(),
{
    let lines = codes.map_values(|c: CodeView| bare(c));
    if codes.len() > 0 {
        lemma_scan_bare(codes.drop_last());
        assert(lines.drop_last() =~= codes.drop_last().map_values(|c: CodeView| bare(c)));
        assert(lines.last() == bare(codes.last()));
    }
}

/// The repeated sweep never adds a line, and one that removes none finds
/// the lines settled.
pub proof fn lemma_sweep_all_len(codes: Seq<CodeView>)
    ensures
        sweep_all(codes).len() <= codes.len(),
        sweep_all(codes).len() == codes.len() ==> sweep_all(codes) == codes && sweep(codes)
            == codes,
    decreases codes.len(),
{
    lemma_sweep_with(codes, reads(codes));
    if sweep(codes).len() < codes.len() {
        lemma_sweep_all_len(sweep(codes));
    }
}

/// The sweep of a block never adds an instruction, and one that removes
/// none changes nothing.
pub proof fn lemma_local_len(s: Seq<InstrView>)
    ensures
        local(s).kept.len() <= s.len(),
        local(s).kept.len() == s.len() ==> local(s).kept == s,
    decreases s.len(),
{
    if s.len() > 0 {
        lemma_local_len(s.skip(1));
        if local(s).kept.len() == s.len() {
            assert(local(s).kept =~= seq![s[0]] + s.skip(1));
            assert(seq![s[0]] + s.skip(1) =~= s);
        }
    }
}

/// Sweeping every block never adds a line, and where it removes none the
/// blocks are as they were.
pub proof fn lemma_local_blocks_len(blocks: Seq<BlockView>)
    ensures
        flatten_blocks(local_blocks(blocks)).len() <= flatten_blocks(blocks).len(),
        flatten_blocks(local_blocks(blocks)).len() == flatten_blocks(blocks).len()
            ==> local_blocks(blocks) == blocks,
    decreases blocks.len(),
{
    if blocks.len() > 0 {
        let head = blocks.drop_last();
        let b = blocks.last();
        lemma_local_blocks_len(head);
        lemma_local_len(b.instrs);
        assert(local_blocks(blocks).drop_last() =~= local_blocks(head));
        assert(local_blocks(blocks).last() == local_block(b));
        let nb = local_block(b);
        assert(nb.all().len() <= b.all().len());
        assert(nb.flatten().len() <= b.flatten().len());
        if flatten_blocks(local_blocks(blocks)).len() == flatten_blocks(blocks).len() {
            assert(nb.instrs == b.instrs);
            assert(local_blocks(blocks) =~= local_blocks(head).push(nb));
            assert(blocks =~= head.push(b));
        }
    } else {
        assert(local_blocks(blocks) =~= blocks);
    }
}

/// Whether neither sweep removes a line of a function.
pub open spec fn at_rest(f: FunctionView) -> bool {
    sweep(f.instrs) == f.instrs && local_blocks(blocks_of(f.instrs)) == blocks_of(f.instrs)
}

/// A round on a function at rest leaves its lines as they are.
pub proof fn lemma_round_at_rest(f: FunctionView)
    requires
        f.instrs.len() <= usize::MAX,
        at_rest(f),
    ensures
        one_round(f) == bare_function(f),
{
    lemma_sweep_with(f.instrs, reads(f.instrs));
    assert(sweep_all(f.instrs) == f.instrs);
    lemma_scan(f.instrs);
}

/// A round never adds a line, and one that removes none finds the
/// function at rest.
pub proof fn lemma_round_len(f: FunctionView)
    requires
        f.instrs.len() <= usize::MAX,
    ensures
        one_round(f).instrs.len() <= f.instrs.len(),
        one_round(f).instrs.len() == f.instrs.len() ==> at_rest(f),
{
    let s = sweep_all(f.instrs);
    lemma_sweep_all_len(f.instrs);
    lemma_scan(s);
    lemma_local_blocks_len(blocks_of(s));
}

/// A function at rest is at rest without the source positions of its
/// labels.
pub proof fn lemma_at_rest_bare(f: FunctionView)
    requires
        at_rest(f),
    ensures
        at_rest(bare_function(f)),
        bare_function(bare_function(f)) == bare_function(f),
{
    lemma_reads_bare(f.instrs);
    lemma_sweep_with_bare(f.instrs, reads(f.instrs));
    lemma_scan_bare(f.instrs);
    let lines = f.instrs.map_values(|c: CodeView| bare(c));
    assert(lines.map_values(|c: CodeView| bare(c)) =~= lines);
}

/// What the pass gives is at rest: one more round changes nothing.
pub proof fn lemma_cleaned_at_rest(f: FunctionView)
    requires
        f.instrs.len() <= usize::MAX,
    ensures
        one_round(cleaned(f)) == cleaned(f),
    decreases f.instrs.len(),
{
    lemma_round_len(f);
    if one_round(f).instrs.len() < f.instrs.len() {
        lemma_cleaned_at_rest(one_round(f));
    } else {
        lemma_round_at_rest(f);
        lemma_at_rest_bare(f);
        let b = bare_function(f);
        assert(b.instrs.len() == f.instrs.len());
        lemma_round_at_rest(b);
    }
}

/// The pass is idempotent: run on what it gave, it gives the same again.
pub proof fn lemma_cleaned_idempotent(f: FunctionView)
    requires
        f.instrs.len() <= usize::MAX,
    ensures
        cleaned(cleaned(f)) == cleaned(f),
{
    lemma_cleaned_at_rest(f);
}

/// The names read by the lines of a function.
fn collect_reads(codes: &Vec<Code>) -> (read: NameSet)
    ensures
        read.wf(),
        read@ == reads(codes.deep_view()),
{
    let mut read = NameSet::new();
    let mut i: usize = 0;
    let ghost all = codes.deep_view();
    assert(all.take(0) =~= seq![]);
    while i < codes.len()
        invariant
            i <= codes.len(),
            all == codes.deep_view(),
            read.wf(),
            read@ == reads(all.take(i as int)),
        decreases codes.len() - i,
    {
        proof {
            let next = all.take(i + 1);
            assert(next.drop_last() =~= all.take(i as int));
            assert(next.last() == codes[i as int]@);
        }
        let ghost base = read@;
        match &codes[i] {
            Code::Instruction(instr) => match instr.args_ref() {
                Some(args) => {
                    let ghost names = args.deep_view();
                    let mut j: usize = 0;
                    proof {
                        crate::names::lemma_take_none(names);
                        assert(names.take(0).to_set() =~= Set::<Seq<char>>::empty());
                        assert(base.union(Set::<Seq<char>>::empty()) =~= base);
                    }
                    while j < args.len()
                        invariant
                            j <= args.len(),
                            names == args.deep_view(),
                            read.wf(),
                            read@ == base.union(names.take(j as int).to_set()),
                        decreases args.len() - j,
                    {
                        proof {
                            lemma_deep_index(*args);
                            lemma_take_set(names, j as int);
                        }
                        read.insert(args[j].clone());
                        assert(read@ =~= base.union(names.take(j + 1).to_set()));
                        j += 1;
                    }
                    assert(names.take(args.len() as int) =~= names);
                },
                None => {
                    assert(code_args(codes[i as int]@) =~= seq![]);
                    assert(Seq::<Seq<char>>::empty().to_set() =~= Set::<Seq<char>>::empty());
                    assert(base.union(Set::<Seq<char>>::empty()) =~= base);
                },
            },
            Code::Label { .. } => {
                assert(Seq::<Seq<char>>::empty().to_set() =~= Set::<Seq<char>>::empty());
                assert(base.union(Set::<Seq<char>>::empty()) =~= base);
            },
        }
        i += 1;
    }
    assert(all.take(codes.len() as int) =~= all);
    read
}

/// One sweep over the lines of a function.
fn sweep_once(codes: &Vec<Code>) -> (r: Vec<Code>)
    ensures
        r.deep_view() == sweep(codes.deep_view()),
{
    let read = collect_reads(codes);
    let ghost all = codes.deep_view();
    let mut r: Vec<Code> = Vec::new();
    let mut i: usize = 0;
    assert(all.take(0) =~= seq![]);
    assert(r.deep_view() =~= seq![]);
    while i < codes.len()
        invariant
            i <= codes.len(),
            all == codes.deep_view(),
            read.wf(),
            read@ == reads(all),
            r.deep_view() == sweep_with(all.take(i as int), read@),
        decreases codes.len() - i,
    {
        proof {
            let next = all.take(i + 1);
            assert(next.drop_last() =~= all.take(i as int));
            assert(next.last() == codes[i as int]@);
        }
        let keep = match &codes[i] {
            Code::Instruction(instr) => match instr.dest_ref() {
                Some(d) => read.contains(d),
                None => true,
            },
            Code::Label { .. } => true,
        };
        if keep {
            let ghost before = r;
            let c = codes[i].clone();
            r.push(c);
            proof {
                lemma_deep_push(before, r, c);
            }
        }
        i += 1;
    }
    assert(all.take(codes.len() as int) =~= all);
    r
}

/// Sweeps a whole function until a sweep removes nothing.
pub fn sweep_function(func: Function) -> (r: Function)
    ensures
        r@ == (FunctionView { instrs: sweep_all(func@.instrs), ..func@ }),
{
    let ghost start = func@;
    let mut func = func;
    let mut changed = true;
    while changed
        invariant
            func@.args == start.args,
            func@.name == start.name,
            func@.pos == start.pos,
            func@.return_type == start.return_type,
            changed ==> sweep_all(func@.instrs) == sweep_all(start.instrs),
            !changed ==> func@.instrs == sweep_all(start.instrs),
        decreases
                func.instrs.len() + (if changed {
                    1int
                } else {
                    0int
                }),
    {
        let ghost cur = func@.instrs;
        let next = sweep_once(&func.instrs);
        proof {
            lemma_sweep_with(cur, reads(cur));
            assert(next.deep_view().len() == next.len());
            assert(cur.len() == func.instrs.len());
        }
        changed = next.len() < func.instrs.len();
        func.instrs = next;
    }
    func
}

/// One round of the pass: sweeps the whole function, then each block.
pub fn sweep_round(func: Function) -> (r: Function)
    ensures
        r@ == one_round(func@),
{
    let bb = BBFunction::from(sweep_function(func));
    let ghost g = bb@;
    let mut blocks: Vec<BasicBlock> = Vec::new();
    let mut i: usize = 0;
    proof {
        lemma_deep_index(bb.blocks);
    }
    while i < bb.blocks.len()
        invariant
            i <= bb.blocks.len(),
            bb.wf(),
            g == bb@,
            blocks.len() == i,
            forall|j: int| 0 <= j < i ==> (#[trigger] blocks[j]).wf(),
            forall|j: int| 0 <= j < i ==> (#[trigger] blocks[j])@ == local_block(g.blocks[j]),
        decreases bb.blocks.len() - i,
    {
        proof {
            lemma_deep_index(bb.blocks);
            assert(g.blocks[i as int] == bb.blocks[i as int]@);
            assert(g.blocks[i as int].wf());
        }
        let b = TDCEPass::sweep_block(bb.blocks[i].clone());
        blocks.push(b);
        i += 1;
    }
    let out = bb.with_blocks(blocks);
    proof {
        assert(out@.blocks =~= local_blocks(g.blocks));
    }
    out.into_function()
}

/// The pass on a flat function: rounds repeated until one removes no
/// line.
pub fn clean_function(func: Function) -> (r: Function)
    ensures
        r@ == cleaned(func@),
{
    let ghost start = func@;
    let mut cur = func;
    let mut changed = true;
    while changed
        invariant
            changed ==> cleaned(cur@) == cleaned(start),
            !changed ==> cur@ == cleaned(start),
        decreases
                cur.instrs.len() + (if changed {
                    1int
                } else {
                    0int
                }),
    {
        let n = cur.instrs.len();
        let ghost before = cur@;
        let next = sweep_round(cur);
        proof {
            assert(before.instrs.len() == n);
            assert(next@.instrs.len() == next.instrs.len());
            lemma_round_len(before);
        }
        changed = next.instrs.len() < n;
        cur = next;
    }
    cur
}

/// The dead-code elimination pass.
#[derive(Clone, Copy, Debug, PartialEq, Eq, Structural)]
pub struct TDCEPass;

impl TDCEPass {
    /// Sweeps one block from its end: a write whose name is written again
    /// below it, with no read in between, is dropped.
    pub fn sweep_block(bb: BasicBlock) -> (r: BasicBlock)
        requires
            bb.wf(),
        ensures
            r.wf(),
            r@ == local_block(bb@),
    {
        let ghost s = bb@.instrs;
        let mut pending = NameSet::new();
        let mut out: Vec<Instruction> = Vec::new();
        let mut k: usize = bb.instrs.len();
        assert(s.skip(k as int) =~= seq![]);
        assert(out.deep_view() =~= seq![]);
        while k > 0
            invariant
                k <= bb.instrs.len(),
                s == bb.instrs.deep_view(),
                pending.wf(),
                pending@ == local(s.skip(k as int)).pending,
                out.deep_view() == local(s.skip(k as int)).kept,
            decreases k,
        {
            k -= 1;
            let instr = &bb.instrs[k];
            let ghost below = local(s.skip(k + 1));
            proof {
                lemma_deep_index(bb.instrs);
                assert(s.skip(k as int).skip(1) =~= s.skip(k + 1));
                assert(s.skip(k as int)[0] == instr@);
            }
            let live = match instr.dest_ref() {
                Some(d) => pending.insert(d.clone()),
                None => true,
            };
            let ghost marked = pending@;
            if live {
                match instr.args_ref() {
                    Some(args) => {
                        let ghost names = args.deep_view();
                        let mut j: usize = 0;
                        proof {
                            crate::names::lemma_take_none(names);
                            assert(names.take(0).to_set() =~= Set::<Seq<char>>::empty());
                            assert(marked.difference(Set::<Seq<char>>::empty()) =~= marked);
                        }
                        while j < args.len()
                            invariant
                                j <= args.len(),
                                names == args.deep_view(),
                                pending.wf(),
                                pending@ == marked.difference(names.take(j as int).to_set()),
                            decreases args.len() - j,
                        {
                            proof {
                                lemma_deep_index(*args);
                                lemma_take_set(names, j as int);
                            }
                            pending.remove(&args[j]);
                            assert(pending@ =~= marked.difference(names.take(j + 1).to_set()));
                            j += 1;
                        }
                        assert(names.take(args.len() as int) =~= names);
                    },
                    None => {
                        assert(instr@.arg_list() =~= seq![]);
                        assert(Seq::<Seq<char>>::empty().to_set() =~= Set::<Seq<char>>::empty());
                        assert(marked.difference(Set::<Seq<char>>::empty()) =~= marked);
                    },
                }
                let ghost before = out;
                let c = instr.clone();
                out.insert(0, c);
                proof {
                    lemma_deep_index(before);
                    lemma_deep_index(out);
                    assert(out.deep_view() =~= seq![instr@] + before.deep_view());
                }
            }
        }
        proof {
            assert(s.skip(0) =~= s);
            lemma_local_wf(s);
        }
        BasicBlock { idx: bb.idx, label: bb.label, instrs: out, control_flow: bb.control_flow }
    }
}

impl FunctionPass for TDCEPass {
    open spec fn inv(&self) -> bool {
        true
    }

    open spec fn block_rel(&self, bb: BlockView, post: &Self, out: Result<BlockView, PassError>) -> bool {
        out == Ok::<BlockView, PassError>(local_block(bb))
    }

    open spec fn before_rel(
        &self,
        f: BBFunctionView,
        post: &Self,
        out: Result<BBFunctionView, PassError>,
    ) -> bool {
        out == Ok::<BBFunctionView, PassError>(swept_function(f))
    }

    open spec fn after_rel(
        &self,
        f: BBFunctionView,
        post: &Self,
        out: Result<BBFunctionView, PassError>,
    ) -> bool {
        out == Ok::<BBFunctionView, PassError>(f)
    }

    fn basic_block(&mut self, bb: BasicBlock) -> (r: Result<BasicBlock, PassError>) {
        Ok(Self::sweep_block(bb))
    }

    fn before(&mut self, func: BBFunction) -> (r: Result<BBFunction, PassError>) {
        Ok(BBFunction::from(sweep_function(func.into_function())))
    }

    fn after(&mut self, func: BBFunction) -> (r: Result<BBFunction, PassError>) {
        Ok(func)
    }
}

impl Pass for TDCEPass {
    open spec fn ready(&self) -> bool {
        true
    }

    open spec fn function_rel(
        &self,
        f: FunctionView,
        post: &Self,
        out: Result<FunctionView, PassError>,
    ) -> bool {
        out == Ok::<FunctionView, PassError>(cleaned(f))
    }

    open spec fn start_rel(&self, p: ProgramView, post: &Self, out: Result<ProgramView, PassError>) -> bool {
        out == Ok::<ProgramView, PassError>(p)
    }

    open spec fn finish_rel(&self, p: ProgramView, post: &Self, out: Result<ProgramView, PassError>) -> bool {
        out == Ok::<ProgramView, PassError>(p)
    }

    fn function(&mut self, func: Function) -> (r: Result<Function, PassError>) {
        Ok(clean_function(func))
    }

    fn before(&mut self, prog: Program) -> (r: Result<Program, PassError>) {
        Ok(prog)
    }

    fn after(&mut self, prog: Program) -> (r: Result<Program, PassError>) {
        Ok(prog)
    }
}

} // verus!
