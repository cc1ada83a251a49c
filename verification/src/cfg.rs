//! The control-flow graph of a function in block form: for each block the
//! blocks that control may pass to, and the blocks it may come from.
use crate::basic_block::{BasicBlock, BlockView};
use crate::bb_function::{
    block_form, label_map, lemma_label_map_range, BBFunction, BBFunctionView,
};
use crate::ir::{lemma_deep_index, EffectOps, Function, InstrView, Instruction};
use vstd::prelude::*;

verus! {

/// Where control goes at the end of a block.
#[derive(Debug, Clone, Copy, PartialEq, Eq, Structural)]
pub enum FlowEdge {
    /// Out of the function.
    Exit,
    /// To the first block if the condition holds, else to the second.
    Branch(usize, usize),
    /// To one block.
    Jump(usize),
}

impl FlowEdge {
    /// The blocks that control may pass to.
    pub open spec fn targets(self) -> Seq<usize> {
        match self {
            FlowEdge::Exit => seq![],
            FlowEdge::Branch(t, f) => seq![t, f],
            FlowEdge::Jump(j) => seq![j],
        }
    }

    /// The blocks that control may pass to.
    pub fn vec(&self) -> (r: Vec<usize>)
        ensures
            r@ == self.targets(),
    {
        let mut r: Vec<usize> = Vec::new();
        match self {
            FlowEdge::Exit => {},
            FlowEdge::Branch(t, f) => {
                r.push(*t);
                r.push(*f);
            },
            FlowEdge::Jump(j) => {
                r.push(*j);
            },
        }
        assert(r@ =~= self.targets());
        r
    }

    /// The entries that block `i` adds to the predecessors of block `j`:
    /// one for each time that `j` is a target.
    pub open spec fn hits(self, j: usize, i: usize) -> Seq<usize> {
        match self {
            FlowEdge::Exit => seq![],
            FlowEdge::Branch(t, f) => (if t == j {
                seq![i]
            } else {
                seq![]
            }) + (if f == j {
                seq![i]
            } else {
                seq![]
            }),
            FlowEdge::Jump(x) => if x == j {
                seq![i]
            } else {
                seq![]
            },
        }
    }
}

/// A jump or branch that names no block: the block that holds it, and the
/// label, or nothing if the terminator has too few labels.
#[derive(Debug, PartialEq, Eq)]
pub struct LabelError {
    pub block: usize,
    pub label: Option<String>,
}

/// The value of a [`LabelError`].
pub struct LabelErrorView {
    pub block: usize,
    pub label: Option<Seq<char>>,
}

impl View for LabelError {
    type V = LabelErrorView;

    open spec fn view(&self) -> LabelErrorView {
        LabelErrorView { block: self.block, label: self.label.deep_view() }
    }
}

/// The block that the label at position `k` of a terminator names.
pub open spec fn target(
    f: BBFunctionView,
    i: usize,
    labels: Seq<Seq<char>>,
    k: int,
) -> Result<usize, LabelErrorView> {
    if k >= labels.len() {
        Err(LabelErrorView { block: i, label: None })
    } else if label_map(f.blocks).contains_key(labels[k]) {
        Ok(label_map(f.blocks)[labels[k]])
    } else {
        Err(LabelErrorView { block: i, label: Some(labels[k]) })
    }
}

/// Where control goes at the end of block `i`: where its terminator says,
/// and without a terminator to the next block, or out of the function
/// after the last block.
pub open spec fn edge_of(f: BBFunctionView, i: usize) -> Result<FlowEdge, LabelErrorView> {
    match f.blocks[i as int].control_flow {
        Some(InstrView::Effect { op: EffectOps::Jump, labels, .. }) => match target(
            f,
            i,
            labels,
            0,
        ) {
            Ok(j) => Ok(FlowEdge::Jump(j)),
            Err(e) => Err(e),
        },
        Some(InstrView::Effect { op: EffectOps::Branch, labels, .. }) => match target(
            f,
            i,
            labels,
            0,
        ) {
            Ok(t) => match target(f, i, labels, 1) {
                Ok(e) => Ok(FlowEdge::Branch(t, e)),
                Err(e) => Err(e),
            },
            Err(e) => Err(e),
        },
        Some(_) => Ok(FlowEdge::Exit),
        None => if i + 1 < f.blocks.len() {
            Ok(FlowEdge::Jump((i + 1) as usize))
        } else {
            Ok(FlowEdge::Exit)
        },
    }
}

/// The predecessors of block `j` that a list of edges gives: each source
/// block in rising order, once for each edge to `j`.
pub open spec fn preds_of(succs: Seq<FlowEdge>, j: usize) -> Seq<usize>
    decreases succs.len(),
{
    if succs.len() == 0 {
        seq![]
    } else {
        preds_of(succs.drop_last(), j) + succs.last().hits(j, (succs.len() - 1) as usize)
    }
}

/// The blocks among the first `k` whose edge leaves the function, in
/// rising order.
pub open spec fn exits_of(succs: Seq<FlowEdge>, k: int) -> Seq<usize>
    decreases k,
{
    if k <= 0 {
        seq![]
    } else if succs[k - 1] == FlowEdge::Exit {
        exits_of(succs, k - 1).push((k - 1) as usize)
    } else {
        exits_of(succs, k - 1)
    }
}

/// Every block whose edge leaves the function is a block.
pub proof fn lemma_exits_in_range(succs: Seq<FlowEdge>, k: int)
    requires
        0 <= k <= succs.len(),
        succs.len() <= usize::MAX,
    ensures
        forall|m: int| 0 <= m < exits_of(succs, k).len() ==> #[trigger] exits_of(succs, k)[m] < k,
    decreases k,
{
    if k > 0 {
        lemma_exits_in_range(succs, k - 1);
        let prev = exits_of(succs, k - 1);
        assert forall|m: int| 0 <= m < exits_of(succs, k).len() implies #[trigger] exits_of(
            succs,
            k,
        )[m] < k by {
            if m < prev.len() {
                assert(prev[m] < k - 1);
            }
        }
    }
}

/// Block `i` is among the predecessors of `j` exactly if `j` is among the
/// targets of `i`.
pub proof fn lemma_preds_of(succs: Seq<FlowEdge>, i: usize, j: usize)
    requires
        succs.len() <= usize::MAX,
    ensures
        preds_of(succs, j).contains(i) <==> (i < succs.len() && succs[i as int].targets().contains(
            j,
        )),
    decreases succs.len(),
{
    if succs.len() > 0 {
        let head = preds_of(succs.drop_last(), j);
        let last = (succs.len() - 1) as usize;
        let tail = succs.last().hits(j, last);
        lemma_preds_of(succs.drop_last(), i, j);
        assert forall|x: usize| tail.contains(x) implies x == last by {}
        if i < last {
            assert(succs.drop_last()[i as int] == succs[i as int]);
        }
        if (head + tail).contains(i) {
            let k = choose|k: int| 0 <= k < (head + tail).len() && (head + tail)[k] == i;
            if k < head.len() {
                assert(head[k] == i);
            } else {
                assert(tail[k - head.len()] == i);
                assert(tail.contains(i));
                match succs.last() {
                    FlowEdge::Exit => {},
                    FlowEdge::Branch(t, f) => {
                        if t == j {
                            assert(seq![t, f][0] == j);
                        } else {
                            assert(seq![t, f][1] == j);
                        }
                    },
                    FlowEdge::Jump(x) => {
                        assert(seq![x][0] == j);
                    },
                }
            }
        }
        if i < succs.len() && succs[i as int].targets().contains(j) {
            if i < last {
                let k = choose|k: int| 0 <= k < head.len() && head[k] == i;
                assert((head + tail)[k] == i);
            } else {
                assert(tail.len() > 0 && tail[0] == i) by {
                    match succs.last() {
                        FlowEdge::Exit => {},
                        FlowEdge::Branch(t, f) => {},
                        FlowEdge::Jump(x) => {},
                    }
                }
                assert((head + tail)[head.len() as int] == i);
            }
        }
    }
}

/// The control-flow graph of a function.
#[derive(Debug)]
pub struct CFG {
    pub func: BBFunction,
    pub preds: Vec<Vec<usize>>,
    pub succs: Vec<FlowEdge>,
    pub reversed: bool,
}

impl CFG {
    /// The number of blocks.
    pub open spec fn size(&self) -> nat {
        self.func@.blocks.len()
    }

    /// The graph is that of its function: each block's edge is what its
    /// terminator says, and the predecessors are the edges turned round.
    pub open spec fn wf(&self) -> bool {
        &&& self.func.wf()
        &&& self.size() <= usize::MAX
        &&& self.succs@.len() == self.size()
        &&& self.preds@.len() == self.size()
        &&& forall|i: int|
            0 <= i < self.size() ==> edge_of(self.func@, i as usize) == Ok::<
                FlowEdge,
                LabelErrorView,
            >(#[trigger] self.succs@[i])
        &&& forall|i: int, k: int|
            0 <= i < self.size() && 0 <= k < self.succs@[i].targets().len()
                ==> #[trigger] self.succs@[i].targets()[k] < self.size()
        &&& forall|j: int|
            0 <= j < self.size() ==> (#[trigger] self.preds@[j])@ == preds_of(
                self.succs@,
                j as usize,
            )
    }

    /// The blocks that control may pass to from block `i`, in the direction
    /// of the graph.
    pub open spec fn succs_spec(&self, i: int) -> Seq<usize> {
        if self.reversed {
            self.preds@[i]@
        } else {
            self.succs@[i].targets()
        }
    }

    /// The blocks that control may come from to block `i`, in the direction
    /// of the graph.
    pub open spec fn preds_spec(&self, i: int) -> Seq<usize> {
        if self.reversed {
            self.succs@[i].targets()
        } else {
            self.preds@[i]@
        }
    }

    /// Whether nothing comes before block `i`, in the direction of the
    /// graph.
    pub open spec fn is_entry_spec(&self, i: int) -> bool {
        if self.reversed {
            self.succs@[i] == FlowEdge::Exit
        } else {
            self.preds@[i]@.len() == 0
        }
    }

    /// The blocks whose edge leaves the function, in rising order.
    pub open spec fn exits_spec(&self) -> Seq<usize> {
        exits_of(self.succs@, self.succs@.len() as int)
    }

    /// The edge of one block.
    fn edge(func: &BBFunction, i: usize) -> (r: Result<FlowEdge, LabelError>)
        requires
            func.wf(),
            i < func@.blocks.len(),
        ensures
            match r {
                Ok(e) => edge_of(func@, i) == Ok::<FlowEdge, LabelErrorView>(e) && forall|k: int|
                    0 <= k < e.targets().len() ==> #[trigger] e.targets()[k] < func@.blocks.len(),
                Err(e) => edge_of(func@, i) == Err::<FlowEdge, LabelErrorView>(e@),
            },
    {
        let n = func.len();
        let block = func.get(i);
        match block.control_flow() {
            Some(Instruction::Effect { op, labels, .. }) => {
                proof {
                    lemma_deep_index(*labels);
                }
                if *op == EffectOps::Jump {
                    if labels.len() < 1 {
                        return Err(LabelError { block: i, label: None });
                    }
                    match func.get_block_idx(&labels[0]) {
                        Some(j) => Ok(FlowEdge::Jump(j)),
                        None => Err(LabelError { block: i, label: Some(labels[0].clone()) }),
                    }
                } else if *op == EffectOps::Branch {
                    if labels.len() < 1 {
                        return Err(LabelError { block: i, label: None });
                    }
                    match func.get_block_idx(&labels[0]) {
                        Some(t) => {
                            if labels.len() < 2 {
                                return Err(LabelError { block: i, label: None });
                            }
                            match func.get_block_idx(&labels[1]) {
                                Some(f) => Ok(FlowEdge::Branch(t, f)),
                                None => Err(
                                    LabelError { block: i, label: Some(labels[1].clone()) },
                                ),
                            }
                        },
                        None => Err(LabelError { block: i, label: Some(labels[0].clone()) }),
                    }
                } else {
                    Ok(FlowEdge::Exit)
                }
            },
            Some(_) => Ok(FlowEdge::Exit),
            None => {
                if i + 1 < n {
                    Ok(FlowEdge::Jump(i + 1))
                } else {
                    Ok(FlowEdge::Exit)
                }
            },
        }
    }

    /// The graph of a function. It fails on the first block whose jump or
    /// branch names no block of the function, and on no other input.
    pub fn new(func: BBFunction) -> (r: Result<Self, LabelError>)
        requires
            func.wf(),
        ensures
            match r {
                Ok(cfg) => cfg.wf() && !cfg.reversed && cfg.func@ == func@ && (forall|i: usize|
                    i < func@.blocks.len() ==> (#[trigger] edge_of(func@, i)).is_ok()),
                Err(e) => exists|i: usize|
                    i < func@.blocks.len() && #[trigger] edge_of(func@, i) == Err::<
                        FlowEdge,
                        LabelErrorView,
                    >(e@) && forall|j: usize| j < i ==> (#[trigger] edge_of(func@, j)).is_ok(),
            },
    {
        let n: usize = func.len();
        let mut succs: Vec<FlowEdge> = Vec::new();
        let mut i: usize = 0;
        while i < n
            invariant
                i <= n,
                n == func@.blocks.len(),
                func.wf(),
                succs@.len() == i,
                forall|k: int|
                    0 <= k < i ==> edge_of(func@, k as usize) == Ok::<FlowEdge, LabelErrorView>(
                        #[trigger] succs@[k],
                    ),
                forall|k: int, m: int|
                    0 <= k < i && 0 <= m < succs@[k].targets().len()
                        ==> #[trigger] succs@[k].targets()[m] < n,
            decreases n - i,
        {
            match Self::edge(&func, i) {
                Ok(e) => {
                    succs.push(e);
                },
                Err(e) => {
                    proof {
                        assert forall|j: usize| j < i implies (#[trigger] edge_of(
                            func@,
                            j,
                        )).is_ok() by {
                            assert(edge_of(func@, j) == Ok::<FlowEdge, LabelErrorView>(
                                succs@[j as int],
                            ));
                        }
                    }
                    return Err(e);
                },
            }
            i += 1;
        }
        let mut preds: Vec<Vec<usize>> = Vec::new();
        let mut j: usize = 0;
        while j < n
            invariant
                j <= n,
                preds@.len() == j,
                forall|k: int| 0 <= k < j ==> (#[trigger] preds@[k])@ == Seq::<usize>::empty(),
            decreases n - j,
        {
            preds.push(Vec::new());
            j += 1;
        }
        let mut i: usize = 0;
        assert(succs@.take(0) =~= seq![]);
        while i < n
            invariant
                i <= n,
                succs@.len() == n,
                preds@.len() == n,
                forall|k: int, m: int|
                    0 <= k < n && 0 <= m < succs@[k].targets().len()
                        ==> #[trigger] succs@[k].targets()[m] < n,
                forall|j: int|
                    0 <= j < n ==> (#[trigger] preds@[j])@ == preds_of(
                        succs@.take(i as int),
                        j as usize,
                    ),
            decreases n - i,
        {
            let ghost before = preds@;
            let ghost next = succs@.take(i + 1);
            proof {
                assert(next.drop_last() =~= succs@.take(i as int));
                assert(next.last() == succs@[i as int]);
            }
            match succs[i] {
                FlowEdge::Exit => {},
                FlowEdge::Branch(t, f) => {
                    assert(succs@[i as int].targets()[0] == t);
                    assert(succs@[i as int].targets()[1] == f);
                    let mut row = preds[t].clone();
                    row.push(i);
                    preds.set(t, row);
                    let mut row = preds[f].clone();
                    row.push(i);
                    preds.set(f, row);
                },
                FlowEdge::Jump(x) => {
                    assert(succs@[i as int].targets()[0] == x);
                    let mut row = preds[x].clone();
                    row.push(i);
                    preds.set(x, row);
                },
            }
            proof {
                assert forall|j: int| 0 <= j < n implies (#[trigger] preds@[j])@ == preds_of(
                    next,
                    j as usize,
                ) by {
                    assert(before[j]@ == preds_of(succs@.take(i as int), j as usize));
                    assert(preds@[j]@ =~= before[j]@ + succs@[i as int].hits(j as usize, i));
                }
            }
            i += 1;
        }
        proof {
            assert(succs@.take(n as int) =~= succs@);
            assert forall|i: usize| i < func@.blocks.len() implies (#[trigger] edge_of(
                func@,
                i,
            )).is_ok() by {
                assert(edge_of(func@, i) == Ok::<FlowEdge, LabelErrorView>(succs@[i as int]));
            }
        }
        Ok(CFG { func, preds, succs, reversed: false })
    }

    /// The graph of a flat function: that of its block form. It fails on
    /// the first block whose jump or branch names no block of the function,
    /// and on no other input.
    pub fn from_function(func: Function) -> (r: Result<Self, LabelError>)
        ensures
            match r {
                Ok(cfg) => cfg.wf() && !cfg.reversed && cfg.func@ == block_form(func@) && (forall|
                    i: usize,
                |
                    i < block_form(func@).blocks.len() ==> (#[trigger] edge_of(
                        block_form(func@),
                        i,
                    )).is_ok()),
                Err(e) => exists|i: usize|
                    i < block_form(func@).blocks.len() && #[trigger] edge_of(block_form(func@), i)
                        == Err::<FlowEdge, LabelErrorView>(e@) && forall|j: usize|
                        j < i ==> (#[trigger] edge_of(block_form(func@), j)).is_ok(),
            },
    {
        Self::new(BBFunction::new(func))
    }

    /// The name of the function.
    pub fn name(&self) -> (r: &String)
        ensures
            r@ == self.func@.name,
    {
        &self.func.name
    }

    /// The function.
    pub fn func(&self) -> (r: &BBFunction)
        ensures
            *r == self.func,
    {
        &self.func
    }

    /// The function, given back.
    pub fn into_func(self) -> (r: BBFunction)
        ensures
            r == self.func,
    {
        self.func
    }

    /// The same graph, read in the other direction.
    pub fn reverse(self) -> (r: Self)
        ensures
            r.func == self.func,
            r.preds == self.preds,
            r.succs == self.succs,
            r.reversed == !self.reversed,
            self.wf() ==> r.wf(),
    {
        CFG { func: self.func, preds: self.preds, succs: self.succs, reversed: !self.reversed }
    }

    /// Whether the graph is read against the flow of control.
    pub fn reversed(&self) -> (r: bool)
        ensures
            r == self.reversed,
    {
        self.reversed
    }

    /// The number of blocks.
    pub fn len(&self) -> (n: usize)
        ensures
            n == self.size(),
    {
        self.func.len()
    }

    /// Whether the function has no block.
    #[must_use]
    pub fn is_empty(&self) -> (r: bool)
        ensures
            r == (self.size() == 0),
    {
        self.func.is_empty()
    }

    /// The blocks, in order.
    pub fn iter(&self) -> (r: &Vec<BasicBlock>)
        ensures
            r.deep_view() == self.func@.blocks,
    {
        self.func.iter()
    }

    /// Whether nothing comes before a block: in a forward graph it has no
    /// predecessor, in a reversed one its edge leaves the function.
    pub fn is_entry(&self, idx: usize) -> (r: bool)
        requires
            self.wf(),
            idx < self.size(),
        ensures
            r == self.is_entry_spec(idx as int),
    {
        if self.reversed {
            match self.succs[idx] {
                FlowEdge::Exit => true,
                _ => false,
            }
        } else {
            self.preds[idx].is_empty()
        }
    }

    /// The blocks that control may come from, in the direction of the
    /// graph.
    pub fn preds(&self, idx: usize) -> (r: Vec<usize>)
        requires
            self.wf(),
            idx < self.size(),
        ensures
            r@ == self.preds_spec(idx as int),
    {
        if self.reversed {
            self.succs[idx].vec()
        } else {
            self.preds[idx].clone()
        }
    }

    /// The blocks that control may pass to, in the direction of the graph.
    pub fn succs(&self, idx: usize) -> (r: Vec<usize>)
        requires
            self.wf(),
            idx < self.size(),
        ensures
            r@ == self.succs_spec(idx as int),
    {
        if self.reversed {
            self.preds[idx].clone()
        } else {
            self.succs[idx].vec()
        }
    }

    /// The blocks whose edge leaves the function, in rising order.
    pub fn exits(&self) -> (r: Vec<usize>)
        requires
            self.wf(),
        ensures
            r@ == self.exits_spec(),
    {
        let mut r: Vec<usize> = Vec::new();
        let mut i: usize = 0;
        while i < self.succs.len()
            invariant
                i <= self.succs.len(),
                r@ == exits_of(self.succs@, i as int),
            decreases self.succs.len() - i,
        {
            match self.succs[i] {
                FlowEdge::Exit => {
                    r.push(i);
                },
                _ => {},
            }
            i += 1;
        }
        r
    }

    /// The block at an index.
    pub fn get(&self, idx: usize) -> (r: &BasicBlock)
        requires
            idx < self.size(),
        ensures
            r@ == self.func@.blocks[idx as int],
    {
        self.func.get(idx)
    }
}

/// In a graph, read in either direction, block `i` is among the blocks that
/// control may come from to `j` exactly if `j` is among the blocks that
/// control may pass to from `i`; and a block whose edge leaves the function
/// passes control to no block.
pub proof fn lemma_preds_succs(cfg: &CFG, i: usize, j: usize)
    requires
        cfg.wf(),
        i < cfg.size(),
        j < cfg.size(),
    ensures
        cfg.succs_spec(i as int).contains(j) <==> cfg.preds_spec(j as int).contains(i),
        cfg.succs@[i as int] == FlowEdge::Exit ==> cfg.succs@[i as int].targets().len() == 0,
{
    if cfg.reversed {
        lemma_preds_of(cfg.succs@, j, i);
    } else {
        lemma_preds_of(cfg.succs@, i, j);
    }
}

/// Every block that a block passes control to, or that control comes from,
/// is a block of the function.
pub proof fn lemma_neighbours_in_range(cfg: &CFG, i: usize)
    requires
        cfg.wf(),
        i < cfg.size(),
    ensures
        forall|k: int|
            0 <= k < cfg.succs_spec(i as int).len() ==> #[trigger] cfg.succs_spec(i as int)[k]
                < cfg.size(),
        forall|k: int|
            0 <= k < cfg.preds_spec(i as int).len() ==> #[trigger] cfg.preds_spec(i as int)[k]
                < cfg.size(),
{
    assert forall|k: int| 0 <= k < cfg.preds@[i as int]@.len() implies #[trigger] cfg.preds@[i as int]@[k]
        < cfg.size() by {
        let p = cfg.preds@[i as int]@[k];
        assert(preds_of(cfg.succs@, i).contains(p));
        lemma_preds_of(cfg.succs@, p, i);
    }
    assert forall|k: int|
        0 <= k < cfg.succs@[i as int].targets().len() implies #[trigger] cfg.succs@[i as int].targets()[k]
        < cfg.size() by {}
}

} // verus!
