//! Functions in block form: the flat list of labels and instructions cut
//! into basic blocks, with a map from each label to its block.
use crate::basic_block::{BasicBlock, BlockView};
use crate::ir::{
    clone_args, clone_opt_type, lemma_deep_push, ArgView, Argument, Code, CodeView, Function,
    FunctionView, InstrView, Type,
};
use crate::names::NameMap;
use vstd::prelude::*;

verus! {

/// Where the cutting of a function into blocks stands: the blocks that are
/// complete, and the block that is still open, if one is.
pub struct Scan {
    pub blocks: Seq<BlockView>,
    pub open: Option<BlockView>,
}

/// An empty block with the given index and label.
pub open spec fn empty_block(idx: nat, label: Option<Seq<char>>) -> BlockView {
    BlockView { idx: idx as usize, label, instrs: seq![], control_flow: None }
}

impl Scan {
    /// The complete blocks, with the open block closed.
    pub open spec fn close(self) -> Seq<BlockView> {
        match self.open {
            Some(b) => self.blocks.push(b),
            None => self.blocks,
        }
    }

    /// The scan after one more line. A label closes the open block and
    /// opens one that bears it. A terminator ends the open block, or stands
    /// as a block of its own if none is open. Any other instruction goes
    /// into the open block, or opens an unlabelled one.
    pub open spec fn step(self, code: CodeView) -> Scan {
        match code {
            CodeView::Label { label, .. } => Scan {
                blocks: self.close(),
                open: Some(empty_block(self.close().len(), Some(label))),
            },
            CodeView::Instruction(i) => {
                let b = match self.open {
                    Some(b) => b,
                    None => empty_block(self.blocks.len(), None),
                };
                if i.is_terminator() {
                    Scan { blocks: self.blocks.push(b.push(i)), open: None }
                } else {
                    Scan { blocks: self.blocks, open: Some(b.push(i)) }
                }
            },
        }
    }

    /// Every block is in order and bears its position as index, and the
    /// open block has no terminator.
    pub open spec fn wf(self) -> bool {
        &&& forall|i: int|
            0 <= i < self.blocks.len() ==> (#[trigger] self.blocks[i]).wf() && self.blocks[i].idx
                == i
        &&& self.open.is_some() ==> {
            &&& self.open.unwrap().wf()
            &&& self.open.unwrap().idx == self.blocks.len()
            &&& self.open.unwrap().control_flow.is_none()
        }
    }
}

/// The scan of a list of lines, from its first to its last.
pub open spec fn scan(codes: Seq<CodeView>) -> Scan
    decreases codes.len(),
{
    if codes.len() == 0 {
        Scan { blocks: seq![], open: None }
    } else {
        scan(codes.drop_last()).step(codes.last())
    }
}

/// The basic blocks of a list of lines.
pub open spec fn blocks_of(codes: Seq<CodeView>) -> Seq<BlockView> {
    scan(codes).close()
}

/// The lines of a list of blocks, one block after the other.
pub open spec fn flatten_blocks(blocks: Seq<BlockView>) -> Seq<CodeView>
    decreases blocks.len(),
{
    if blocks.len() == 0 {
        seq![]
    } else {
        flatten_blocks(blocks.drop_last()) + blocks.last().flatten()
    }
}

/// The map from each label to the index of the last block that bears it.
pub open spec fn label_map(blocks: Seq<BlockView>) -> Map<Seq<char>, usize>
    decreases blocks.len(),
{
    if blocks.len() == 0 {
        Map::empty()
    } else {
        let m = label_map(blocks.drop_last());
        match blocks.last().label {
            Some(l) => m.insert(l, (blocks.len() - 1) as usize),
            None => m,
        }
    }
}

/// Every index in the label map is that of a block.
pub proof fn lemma_label_map_range(blocks: Seq<BlockView>)
    requires
        blocks.len() <= usize::MAX,
    ensures
        forall|l: Seq<char>| #[trigger]
            label_map(blocks).contains_key(l) ==> label_map(blocks)[l] < blocks.len()
                && blocks[label_map(blocks)[l] as int].label == Some(l),
        forall|i: int|
            0 <= i < blocks.len() && (#[trigger] blocks[i]).label.is_some() ==> label_map(
                blocks,
            ).contains_key(blocks[i].label.unwrap()),
    decreases blocks.len(),
{
    if blocks.len() > 0 {
        lemma_label_map_range(blocks.drop_last());
        assert forall|i: int| 0 <= i < blocks.len() && (#[trigger] blocks[i]).label.is_some() implies label_map(
            blocks,
        ).contains_key(blocks[i].label.unwrap()) by {
            if i < blocks.len() - 1 {
                assert(blocks.drop_last()[i] == blocks[i]);
            }
        }
        assert forall|l: Seq<char>| #[trigger] label_map(blocks).contains_key(l) implies label_map(
            blocks,
        )[l] < blocks.len() && blocks[label_map(blocks)[l] as int].label == Some(l) by {
            let i = label_map(blocks)[l];
            if blocks.last().label == Some(l) {
            } else {
                assert(label_map(blocks.drop_last()).contains_key(l));
                assert(blocks.drop_last()[i as int] == blocks[i as int]);
            }
        }
    }
}

/// A line without the source position of a label.
pub open spec fn bare(code: CodeView) -> CodeView {
    match code {
        CodeView::Label { label, .. } => CodeView::Label { label, pos: None },
        c => c,
    }
}

/// A scan cuts without losing or moving a line: its blocks, flattened, are
/// the lines scanned, and every block is in order.
pub proof fn lemma_scan(codes: Seq<CodeView>)
    requires
        codes.len() <= usize::MAX,
    ensures
        scan(codes).wf(),
        blocks_of(codes).len() <= codes.len(),
        flatten_blocks(blocks_of(codes)) == codes.map_values(|c: CodeView| bare(c)),
    decreases codes.len(),
{
    let bare_fn = |c: CodeView| bare(c);
    let wrap = |i: InstrView| CodeView::Instruction(i);
    if codes.len() == 0 {
        assert(codes.map_values(bare_fn) =~= seq![]);
    } else {
        let prev = scan(codes.drop_last());
        let next = scan(codes);
        lemma_scan(codes.drop_last());
        let done = codes.drop_last().map_values(bare_fn);
        assert(codes.map_values(bare_fn) =~= done.push(bare(codes.last())));
        match codes.last() {
            CodeView::Label { label, pos } => {
                let b = empty_block(prev.close().len(), Some(label));
                assert(next.close().drop_last() =~= prev.close());
                assert(b.all().map_values(wrap) =~= seq![]);
                assert(b.flatten() =~= seq![CodeView::Label { label, pos: None }]);
                assert(flatten_blocks(next.close()) =~= done.push(bare(codes.last())));
            },
            CodeView::Instruction(i) => {
                let b = match prev.open {
                    Some(b) => b,
                    None => empty_block(prev.blocks.len(), None),
                };
                let nb = b.push(i);
                assert(nb.all() =~= b.all().push(i));
                assert(nb.all().map_values(wrap) =~= b.all().map_values(wrap).push(
                    CodeView::Instruction(i),
                ));
                assert(nb.flatten() =~= b.flatten().push(CodeView::Instruction(i)));
                assert(next.close() =~= prev.blocks.push(nb));
                assert(next.close().drop_last() =~= prev.blocks);
                if prev.open.is_some() {
                    assert(prev.close().drop_last() =~= prev.blocks);
                } else {
                    assert(b.all().map_values(wrap) =~= seq![]);
                    assert(b.flatten() =~= seq![]);
                }
                assert(flatten_blocks(next.close()) =~= done.push(bare(codes.last())));
            },
        }
    }
}

/// A function in block form.
#[derive(Debug)]
pub struct BBFunction {
    pub name: String,
    pub args: Vec<Argument>,
    pub blocks: Vec<BasicBlock>,
    pub return_type: Option<Type>,
    pub name_map: NameMap<usize>,
}

/// The value of a [`BBFunction`].
pub struct BBFunctionView {
    pub name: Seq<char>,
    pub args: Seq<ArgView>,
    pub blocks: Seq<BlockView>,
    pub return_type: Option<Type>,
}

impl BBFunctionView {
    /// The function in its flat form, without source positions of its own.
    pub open spec fn flatten(self) -> FunctionView {
        FunctionView {
            args: self.args,
            instrs: flatten_blocks(self.blocks),
            name: self.name,
            pos: None,
            return_type: self.return_type,
        }
    }
}

/// The block form of a flat function.
pub open spec fn block_form(f: FunctionView) -> BBFunctionView {
    BBFunctionView {
        name: f.name,
        args: f.args,
        blocks: blocks_of(f.instrs),
        return_type: f.return_type,
    }
}

/// Cutting a function into blocks and flattening it again gives the
/// function back, but for the source positions of its labels and of the
/// function itself.
pub proof fn lemma_round_trip(f: FunctionView)
    requires
        f.instrs.len() <= usize::MAX,
    ensures
        block_form(f).flatten() == (FunctionView {
            instrs: f.instrs.map_values(|c: CodeView| bare(c)),
            pos: None,
            ..f
        }),
{
    lemma_scan(f.instrs);
}

impl View for BBFunction {
    type V = BBFunctionView;

    open spec fn view(&self) -> BBFunctionView {
        BBFunctionView {
            name: self.name@,
            args: self.args.deep_view(),
            blocks: self.blocks.deep_view(),
            return_type: self.return_type,
        }
    }
}

/// Builds the map from labels to block indices.
fn build_name_map(blocks: &Vec<BasicBlock>) -> (m: NameMap<usize>)
    ensures
        m.wf(),
        m@ == label_map(blocks.deep_view()),
{
    let mut m: NameMap<usize> = NameMap::new();
    let mut i: usize = 0;
    while i < blocks.len()
        invariant
            i <= blocks.len(),
            m.wf(),
            m@ == label_map(blocks.deep_view().take(i as int)),
        decreases blocks.len() - i,
    {
        proof {
            let next = blocks.deep_view().take(i + 1);
            assert(next.drop_last() =~= blocks.deep_view().take(i as int));
            assert(next.last() == blocks[i as int]@);
        }
        match &blocks[i].label {
            Some(l) => {
                m.insert(l.clone(), i);
            },
            None => {},
        }
        i += 1;
    }
    assert(blocks.deep_view().take(blocks.len() as int) =~= blocks.deep_view());
    m
}

impl BBFunction {
    /// Every block is in order and bears its position as index, and the
    /// label map is that of the blocks.
    pub open spec fn wf(&self) -> bool {
        &&& forall|i: int|
            0 <= i < self@.blocks.len() ==> (#[trigger] self@.blocks[i]).wf() && self@.blocks[i].idx
                == i
        &&& self.name_map.wf()
        &&& self.name_map@ == label_map(self@.blocks)
    }

    /// The block form of a flat function.
    pub fn new(func: Function) -> (r: Self)
        ensures
            r.wf(),
            r@ == block_form(func@),
    {
        Self::from(func)
    }

    /// The block form of a flat function.
    pub fn from(func: Function) -> (r: Self)
        ensures
            r.wf(),
            r@ == block_form(func@),
    {
        let ghost codes = func.instrs.deep_view();
        let mut blocks: Vec<BasicBlock> = Vec::new();
        let mut curr_block: Option<BasicBlock> = None;
        let mut n: usize = 0;
        assert(codes.take(0) =~= seq![]);
        assert(blocks.deep_view() =~= seq![]);
        while n < func.instrs.len()
            invariant
                n <= func.instrs.len(),
                codes == func.instrs.deep_view(),
                blocks.deep_view() == scan(codes.take(n as int)).blocks,
                curr_block.deep_view() == scan(codes.take(n as int)).open,
                blocks.len() <= n,
            decreases func.instrs.len() - n,
        {
            proof {
                let next = codes.take(n + 1);
                assert(next.drop_last() =~= codes.take(n as int));
                assert(next.last() == func.instrs[n as int]@);
                lemma_scan(codes.take(n as int));
            }
            let ghost prev = scan(codes.take(n as int));
            match &func.instrs[n] {
                Code::Label { label, .. } => {
                    match curr_block {
                        Some(block) => {
                            let ghost before = blocks;
                            blocks.push(block);
                            proof {
                                lemma_deep_push(before, blocks, block);
                            }
                        },
                        None => {},
                    }
                    let nb = BasicBlock {
                        idx: blocks.len(),
                        label: Some(label.clone()),
                        instrs: Vec::new(),
                        control_flow: None,
                    };
                    assert(nb@.instrs =~= seq![]);
                    curr_block = Some(nb);
                },
                Code::Instruction(i) => {
                    let mut block = match curr_block {
                        Some(block) => block,
                        None => {
                            let nb = BasicBlock {
                                idx: blocks.len(),
                                label: None,
                                instrs: Vec::new(),
                                control_flow: None,
                            };
                            assert(nb@.instrs =~= seq![]);
                            nb
                        },
                    };
                    let ends = i.is_terminator();
                    block.push(i.clone());
                    if ends {
                        let ghost before = blocks;
                        blocks.push(block);
                        proof {
                            lemma_deep_push(before, blocks, block);
                        }
                        curr_block = None;
                    } else {
                        curr_block = Some(block);
                    }
                },
            }
            n += 1;
        }
        proof {
            assert(codes.take(n as int) =~= codes);
            lemma_scan(codes);
        }
        match curr_block {
            Some(block) => {
                let ghost before = blocks;
                blocks.push(block);
                proof {
                    lemma_deep_push(before, blocks, block);
                }
            },
            None => {},
        }
        let name_map = build_name_map(&blocks);
        BBFunction { name: func.name, args: func.args, blocks, return_type: func.return_type, name_map }
    }

    /// The same function with other blocks, each given its position as
    /// index.
    pub fn with_blocks(self, blocks: Vec<BasicBlock>) -> (r: Self)
        requires
            forall|i: int| 0 <= i < blocks.len() ==> (#[trigger] blocks[i]).wf(),
        ensures
            r.wf(),
            r@.name == self@.name,
            r@.args == self@.args,
            r@.return_type == self@.return_type,
            r@.blocks.len() == blocks.len(),
            forall|i: int|
                0 <= i < blocks.len() ==> #[trigger] r@.blocks[i] == (BlockView {
                    idx: i as usize,
                    ..blocks[i]@
                }),
    {
        let mut blocks = blocks;
        let ghost given = blocks.deep_view();
        let mut i: usize = 0;
        while i < blocks.len()
            invariant
                i <= blocks.len(),
                blocks.len() == given.len(),
                forall|j: int|
                    0 <= j < i ==> (#[trigger] blocks[j])@ == (BlockView {
                        idx: j as usize,
                        ..given[j]
                    }),
                forall|j: int| i <= j < blocks.len() ==> (#[trigger] blocks[j])@ == given[j],
            decreases blocks.len() - i,
        {
            let mut b = blocks[i].clone();
            b.idx = i;
            blocks.set(i, b);
            i += 1;
        }
        let name_map = build_name_map(&blocks);
        BBFunction {
            name: self.name,
            args: self.args,
            blocks,
            return_type: self.return_type,
            name_map,
        }
    }

    /// The number of blocks.
    pub fn len(&self) -> (n: usize)
        ensures
            n == self@.blocks.len(),
    {
        self.blocks.len()
    }

    /// Whether the function has no block.
    #[must_use]
    pub fn is_empty(&self) -> (r: bool)
        ensures
            r == (self@.blocks.len() == 0),
    {
        self.blocks.is_empty()
    }

    /// The blocks, in order.
    pub fn iter(&self) -> (r: &Vec<BasicBlock>)
        ensures
            r.deep_view() == self@.blocks,
    {
        &self.blocks
    }

    /// The block at an index.
    pub fn get(&self, idx: usize) -> (r: &BasicBlock)
        requires
            idx < self@.blocks.len(),
        ensures
            r@ == self@.blocks[idx as int],
    {
        &self.blocks[idx]
    }

    /// The index of the block that bears a label: the last such block, if
    /// several bear it.
    pub fn get_block_idx(&self, label: &String) -> (r: Option<usize>)
        requires
            self.wf(),
        ensures
            r == (if label_map(self@.blocks).contains_key(label@) {
                Some(label_map(self@.blocks)[label@])
            } else {
                None
            }),
            r.is_some() ==> r.unwrap() < self@.blocks.len(),
    {
        proof {
            assert(self@.blocks.len() == self.blocks.len());
            lemma_label_map_range(self@.blocks);
        }
        match self.name_map.get(label) {
            Some(i) => Some(*i),
            None => None,
        }
    }

    /// The function in its flat form.
    pub fn into_function(self) -> (r: Function)
        ensures
            r@ == self@.flatten(),
    {
        let ghost view = self@;
        let mut instrs: Vec<Code> = Vec::new();
        let mut i: usize = 0;
        assert(view.blocks.take(0) =~= seq![]);
        assert(instrs.deep_view() =~= seq![]);
        while i < self.blocks.len()
            invariant
                i <= self.blocks.len(),
                view.blocks == self.blocks.deep_view(),
                instrs.deep_view() == flatten_blocks(view.blocks.take(i as int)),
            decreases self.blocks.len() - i,
        {
            let line = self.blocks[i].clone().flatten();
            let ghost before = instrs.deep_view();
            let mut j: usize = 0;
            while j < line.len()
                invariant
                    j <= line.len(),
                    instrs.deep_view() == before + line.deep_view().take(j as int),
                decreases line.len() - j,
            {
                let ghost old_instrs = instrs;
                let c = line[j].clone();
                instrs.push(c);
                proof {
                    lemma_deep_push(old_instrs, instrs, c);
                    assert(line.deep_view().take(j + 1) =~= line.deep_view().take(j as int).push(
                        line[j as int]@,
                    ));
                    assert(instrs.deep_view() =~= before + line.deep_view().take(j + 1));
                }
                j += 1;
            }
            proof {
                assert(line.deep_view().take(line.len() as int) =~= line.deep_view());
                let next = view.blocks.take(i + 1);
                assert(next.drop_last() =~= view.blocks.take(i as int));
                assert(next.last() == self.blocks[i as int]@);
            }
            i += 1;
        }
        assert(view.blocks.take(self.blocks.len() as int) =~= view.blocks);
        Function {
            args: self.args,
            instrs,
            name: self.name,
            pos: None,
            return_type: self.return_type,
        }
    }
}

impl Clone for BBFunction {
    fn clone(&self) -> (r: Self)
        ensures
            r@ == self@,
            self.wf() ==> r.wf(),
    {
        let mut blocks: Vec<BasicBlock> = Vec::new();
        let mut i: usize = 0;
        while i < self.blocks.len()
            invariant
                i <= self.blocks.len(),
                blocks.len() == i,
                forall|j: int| 0 <= j < i ==> blocks[j]@ == self.blocks[j]@,
            decreases self.blocks.len() - i,
        {
            blocks.push(self.blocks[i].clone());
            i += 1;
        }
        assert(blocks.deep_view() =~= self.blocks.deep_view());
        let name_map = build_name_map(&blocks);
        BBFunction {
            name: self.name.clone(),
            args: clone_args(&self.args),
            blocks,
            return_type: clone_opt_type(&self.return_type),
            name_map,
        }
    }
}

} // verus!
