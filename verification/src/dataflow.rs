//! The dataflow engine: a worklist iteration of a lattice's transfer and
//! meet over the blocks of a function, forwards or backwards, up to a
//! fixed point.
use crate::basic_block::{BasicBlock, BlockView};
use crate::bb_function::{BBFunction, BBFunctionView};
use crate::cfg::{lemma_neighbours_in_range, lemma_preds_succs, CFG};
use crate::passes::PassError;
use std::collections::VecDeque;
use vstd::prelude::*;

verus! {

/// The results of a dataflow analysis: for each block the value at its
/// entry and at its exit, and the value at the exit of the function.
pub struct Dataflow<Val> {
    pub cfg: CFG,
    pub in_vals: Vec<Val>,
    pub out_vals: Vec<Val>,
    pub exit_val: Val,
}

/// A dataflow analysis: a lattice of values with its meet, and the transfer
/// of a value through a block. The analysis says what each of its
/// operations computes, on the mathematical values that its values stand
/// for.
pub trait DataflowPass {
    /// The values of the lattice.
    type Val;

    /// What a value stands for.
    type Model;

    /// What a value stands for.
    spec fn model(v: &Self::Val) -> Self::Model;

    /// What must hold of the analysis for it to be run.
    spec fn usable(&self) -> bool;

    /// Whether the analysis runs against the flow of control.
    spec fn reversed_spec(&self) -> bool;

    /// The value at the entry of a block that nothing comes before.
    spec fn entry_spec(&self, f: BBFunctionView) -> Self::Model;

    /// The value that every block starts with.
    spec fn init_spec(&self, f: BBFunctionView) -> Self::Model;

    /// The meet of the values that reach a block.
    spec fn meet_spec(&self, vals: Seq<Self::Model>) -> Self::Model;

    /// The value at the exit of a block, given the value at its entry.
    spec fn transfer_spec(&self, b: BlockView, v: Self::Model) -> Result<Self::Model, PassError>;

    /// The value at the exit of the function, given the meet of the values
    /// at the exits of its last blocks.
    spec fn finish_spec(&self, f: BBFunctionView, v: Self::Model) -> Self::Model;

    /// Whether the analysis runs against the flow of control.
    fn reversed(&self) -> (r: bool)
        ensures
            r == self.reversed_spec(),
    ;

    /// The value at the entry of a block that nothing comes before.
    fn entry(&self, func: &BBFunction) -> (r: Self::Val)
        requires
            self.usable(),
            func.wf(),
        ensures
            Self::model(&r) == self.entry_spec(func@),
    ;

    /// The value that every block starts with.
    fn init(&self, func: &BBFunction) -> (r: Self::Val)
        requires
            self.usable(),
            func.wf(),
        ensures
            Self::model(&r) == self.init_spec(func@),
    ;

    /// The meet of the values that reach a block.
    fn meet(&self, in_vals: &Vec<Self::Val>) -> (r: Self::Val)
        requires
            self.usable(),
        ensures
            Self::model(&r) == self.meet_spec(
                Seq::new(in_vals@.len(), |i: int| Self::model(&in_vals@[i])),
            ),
    ;

    /// The value at the exit of a block, given the value at its entry.
    fn transfer(&self, block: &BasicBlock, in_val: &Self::Val) -> (r: Result<
        Self::Val,
        PassError,
    >)
        requires
            self.usable(),
            block.wf(),
        ensures
            match self.transfer_spec(block@, Self::model(in_val)) {
                Ok(v) => r.is_ok() && Self::model(&r.unwrap()) == v,
                Err(e) => (r matches Err(x) && x == e),
            },
    ;

    /// The value at the exit of the function.
    fn finish(&self, func: &BBFunction, exit_val: Self::Val) -> (r: Self::Val)
        requires
            self.usable(),
            func.wf(),
        ensures
            Self::model(&r) == self.finish_spec(func@, Self::model(&exit_val)),
    ;

    /// Whether two values stand for the same.
    fn same(&self, a: &Self::Val, b: &Self::Val) -> (r: bool)
        requires
            self.usable(),
        ensures
            r == (Self::model(a) == Self::model(b)),
    ;

    /// A copy of a value.
    fn copy(&self, v: &Self::Val) -> (r: Self::Val)
        requires
            self.usable(),
        ensures
            Self::model(&r) == Self::model(v),
    ;
}

/// What each of a list of values stands for.
pub open spec fn models<P: DataflowPass>(vals: Seq<P::Val>) -> Seq<P::Model> {
    Seq::new(vals.len(), |i: int| P::model(&vals[i]))
}

/// The values of the listed blocks, in the order of the list.
pub open spec fn gather<M>(outs: Seq<M>, idxs: Seq<usize>) -> Seq<M> {
    Seq::new(idxs.len(), |k: int| outs[idxs[k] as int])
}

/// The state of the iteration: the value at the entry and at the exit of
/// each block, and the blocks that wait to be looked at, first in first
/// out.
pub struct Flow<M> {
    pub ins: Seq<M>,
    pub outs: Seq<M>,
    pub work: Seq<usize>,
}

/// The graph read in the direction that an analysis asks for.
pub open spec fn oriented(cfg: CFG, reversed: bool) -> CFG {
    CFG { func: cfg.func, preds: cfg.preds, succs: cfg.succs, reversed }
}

/// The value at the entry of block `i`, given the values at the exits of
/// all blocks: the analysis's entry value for a block that nothing comes
/// before, else the meet of the values that come from its predecessors.
pub open spec fn input_of<P: DataflowPass>(pass: &P, cfg: &CFG, outs: Seq<P::Model>, i: int) -> P::Model {
    if cfg.is_entry_spec(i) {
        pass.entry_spec(cfg.func@)
    } else {
        pass.meet_spec(gather(outs, cfg.preds_spec(i)))
    }
}

/// The state that the iteration starts from: every value is the initial
/// one, and the blocks wait in the given order.
pub open spec fn start<P: DataflowPass>(pass: &P, cfg: &CFG, order: Seq<usize>) -> Flow<P::Model> {
    Flow {
        ins: Seq::new(cfg.size(), |i: int| pass.init_spec(cfg.func@)),
        outs: Seq::new(cfg.size(), |i: int| pass.init_spec(cfg.func@)),
        work: order,
    }
}

/// One step of the iteration: the first waiting block gets its entry value
/// anew and is transferred; if its exit value changes, its successors are
/// put at the end of the waiting blocks.
pub open spec fn advance<P: DataflowPass>(pass: &P, cfg: &CFG, s: Flow<P::Model>) -> Result<
    Flow<P::Model>,
    PassError,
> {
    let i = s.work[0] as int;
    let inp = input_of(pass, cfg, s.outs, i);
    match pass.transfer_spec(cfg.func@.blocks[i], inp) {
        Err(e) => Err(e),
        Ok(new) => Ok(
            if new == s.outs[i] {
                Flow { ins: s.ins.update(i, inp), outs: s.outs, work: s.work.skip(1) }
            } else {
                Flow {
                    ins: s.ins.update(i, inp),
                    outs: s.outs.update(i, new),
                    work: s.work.skip(1) + cfg.succs_spec(i),
                }
            },
        ),
    }
}

/// The state after at most `k` steps: the iteration stops when no block
/// waits, and fails when a transfer fails.
pub open spec fn after<P: DataflowPass>(pass: &P, cfg: &CFG, order: Seq<usize>, k: nat) -> Result<
    Flow<P::Model>,
    PassError,
>
    decreases k,
{
    if k == 0 {
        Ok(start(pass, cfg, order))
    } else {
        match after(pass, cfg, order, (k - 1) as nat) {
            Err(e) => Err(e),
            Ok(s) => if s.work.len() == 0 {
                Ok(s)
            } else {
                advance(pass, cfg, s)
            },
        }
    }
}

/// The value at the exit of the function: the meet of the exit values of
/// the blocks whose edge leaves the function, finished by the analysis.
pub open spec fn exit_of<P: DataflowPass>(pass: &P, cfg: &CFG, outs: Seq<P::Model>) -> P::Model {
    pass.finish_spec(cfg.func@, pass.meet_spec(gather(outs, cfg.exits_spec())))
}

/// Whether the values of every block that does not wait obey the dataflow
/// equations: the entry value is what the predecessors give, and the exit
/// value is its transfer.
pub open spec fn settled<P: DataflowPass>(pass: &P, cfg: &CFG, s: Flow<P::Model>) -> bool {
    forall|i: int|
        0 <= i < cfg.size() && !s.work.contains(i as usize) ==> #[trigger] s.ins[i] == input_of(
            pass,
            cfg,
            s.outs,
            i,
        ) && pass.transfer_spec(cfg.func@.blocks[i], s.ins[i]) == Ok::<P::Model, PassError>(
            s.outs[i],
        )
}

/// Whether a state has a value for each block, and only blocks wait.
pub open spec fn shaped<M>(cfg: &CFG, s: Flow<M>) -> bool {
    &&& s.ins.len() == cfg.size()
    &&& s.outs.len() == cfg.size()
    &&& forall|k: int| 0 <= k < s.work.len() ==> #[trigger] s.work[k] < cfg.size()
}

/// Whether every block is in the list.
pub open spec fn complete(cfg: &CFG, order: Seq<usize>) -> bool {
    forall|i: usize| i < cfg.size() ==> #[trigger] order.contains(i)
}

/// A step keeps the shape of a state.
pub proof fn lemma_advance_shaped<P: DataflowPass>(pass: &P, cfg: &CFG, s: Flow<P::Model>)
    requires
        cfg.wf(),
        shaped(cfg, s),
        s.work.len() > 0,
        advance(pass, cfg, s).is_ok(),
    ensures
        shaped(cfg, advance(pass, cfg, s).unwrap()),
{
    let i = s.work[0];
    lemma_neighbours_in_range(cfg, i);
    let t = advance(pass, cfg, s).unwrap();
    assert forall|k: int| 0 <= k < t.work.len() implies #[trigger] t.work[k] < cfg.size() by {
        if k < s.work.len() - 1 {
            assert(t.work[k] == s.work[k + 1]);
        } else {
            assert(t.work[k] == cfg.succs_spec(i as int)[k - (s.work.len() - 1)]);
        }
    }
}

/// The gathered values do not change when a block that is not listed
/// changes its value.
pub proof fn lemma_gather_update<M>(outs: Seq<M>, idxs: Seq<usize>, i: int, v: M)
    requires
        0 <= i < outs.len(),
        !idxs.contains(i as usize),
        outs.len() <= usize::MAX,
        forall|k: int| 0 <= k < idxs.len() ==> #[trigger] idxs[k] < outs.len(),
    ensures
        gather(outs.update(i, v), idxs) == gather(outs, idxs),
{
    assert forall|k: int| 0 <= k < idxs.len() implies outs.update(i, v)[idxs[k] as int]
        == outs[idxs[k] as int] by {
        assert(idxs.contains(idxs[k]));
    }
    assert(gather(outs.update(i, v), idxs) =~= gather(outs, idxs));
}

/// A step from a settled state gives a settled state.
pub proof fn lemma_advance_settled<P: DataflowPass>(pass: &P, cfg: &CFG, s: Flow<P::Model>)
    requires
        cfg.wf(),
        shaped(cfg, s),
        settled(pass, cfg, s),
        s.work.len() > 0,
        advance(pass, cfg, s).is_ok(),
    ensures
        settled(pass, cfg, advance(pass, cfg, s).unwrap()),
{
    let i0 = s.work[0] as int;
    let inp = input_of(pass, cfg, s.outs, i0);
    let new = pass.transfer_spec(cfg.func@.blocks[i0], inp).unwrap();
    let t = advance(pass, cfg, s).unwrap();
    assert forall|j: int| 0 <= j < cfg.size() && !t.work.contains(j as usize) implies #[trigger] t.ins[j]
        == input_of(pass, cfg, t.outs, j) && pass.transfer_spec(cfg.func@.blocks[j], t.ins[j])
        == Ok::<P::Model, PassError>(t.outs[j]) by {
        if j != i0 {
            if s.work.contains(j as usize) {
                let k = choose|k: int| 0 <= k < s.work.len() && s.work[k] == j as usize;
                assert(k > 0);
                assert(t.work[k - 1] == j as usize);
            }
        }
        if new != s.outs[i0] {
            if cfg.preds_spec(j).contains(i0 as usize) {
                lemma_preds_succs(cfg, i0 as usize, j as usize);
                let k = choose|k: int|
                    0 <= k < cfg.succs_spec(i0).len() && cfg.succs_spec(i0)[k] == j as usize;
                assert(t.work[s.work.len() - 1 + k] == j as usize);
            }
            lemma_neighbours_in_range(cfg, j as usize);
            lemma_gather_update(s.outs, cfg.preds_spec(j), i0, new);
        }
    }
}

/// Every state that the iteration passes through has its shape, and is
/// settled if the iteration started with every block waiting.
pub proof fn lemma_after<P: DataflowPass>(pass: &P, cfg: &CFG, order: Seq<usize>, k: nat)
    requires
        cfg.wf(),
        forall|j: int| 0 <= j < order.len() ==> #[trigger] order[j] < cfg.size(),
        after(pass, cfg, order, k).is_ok(),
    ensures
        shaped(cfg, after(pass, cfg, order, k).unwrap()),
        complete(cfg, order) ==> settled(pass, cfg, after(pass, cfg, order, k).unwrap()),
    decreases k,
{
    if k == 0 {
        if complete(cfg, order) {
            let s = start(pass, cfg, order);
            assert forall|i: int| 0 <= i < cfg.size() && !s.work.contains(i as usize) implies #[trigger] s.ins[i]
                == input_of(pass, cfg, s.outs, i) && pass.transfer_spec(
                cfg.func@.blocks[i],
                s.ins[i],
            ) == Ok::<P::Model, PassError>(s.outs[i]) by {
                assert(order.contains(i as usize));
            }
        }
    }
    if k > 0 {
        lemma_after(pass, cfg, order, (k - 1) as nat);
        let s = after(pass, cfg, order, (k - 1) as nat).unwrap();
        if s.work.len() > 0 {
            lemma_advance_shaped(pass, cfg, s);
            if complete(cfg, order) {
                lemma_advance_settled(pass, cfg, s);
            }
        }
    }
}

/// Once no block waits, or a transfer has failed, more steps change
/// nothing.
pub proof fn lemma_after_stable<P: DataflowPass>(
    pass: &P,
    cfg: &CFG,
    order: Seq<usize>,
    k: nat,
    m: nat,
)
    requires
        k <= m,
        match after(pass, cfg, order, k) {
            Ok(s) => s.work.len() == 0,
            Err(_) => true,
        },
    ensures
        after(pass, cfg, order, m) == after(pass, cfg, order, k),
    decreases m - k,
{
    if k < m {
        lemma_after_stable(pass, cfg, order, k, (m - 1) as nat);
    }
}

/// What the engine returns for a budget of steps: the values of the state
/// after that many steps if no block waits in it, the failure of a
/// transfer if one failed, and else the report that the iteration did not
/// settle.
pub open spec fn solved<P: DataflowPass>(
    pass: &P,
    cfg: &CFG,
    order: Seq<usize>,
    budget: nat,
    r: Result<Dataflow<P::Val>, PassError>,
) -> bool {
    match after(pass, cfg, order, budget) {
        Err(e) => (r matches Err(x) && x == e),
        Ok(s) => if s.work.len() == 0 {
            &&& r.is_ok()
            &&& r.unwrap().cfg == *cfg
            &&& models::<P>(r.unwrap().in_vals@) == s.ins
            &&& models::<P>(r.unwrap().out_vals@) == s.outs
            &&& P::model(&r.unwrap().exit_val) == exit_of(pass, cfg, s.outs)
        } else {
            (r matches Err(x) && x == PassError::Diverged)
        },
    }
}

/// Copies of the values of the listed blocks.
fn gather_vals<P: DataflowPass>(pass: &P, outs: &Vec<P::Val>, idxs: &Vec<usize>) -> (r: Vec<P::Val>)
    requires
        pass.usable(),
        forall|k: int| 0 <= k < idxs.len() ==> #[trigger] idxs[k] < outs.len(),
    ensures
        models::<P>(r@) == gather(models::<P>(outs@), idxs@),
{
    let mut r: Vec<P::Val> = Vec::new();
    let mut k: usize = 0;
    while k < idxs.len()
        invariant
            k <= idxs.len(),
            pass.usable(),
            forall|j: int| 0 <= j < idxs.len() ==> #[trigger] idxs[j] < outs.len(),
            r.len() == k,
            forall|j: int| 0 <= j < k ==> P::model(&#[trigger] r[j]) == P::model(&outs[idxs[j] as int]),
        decreases idxs.len() - k,
    {
        r.push(pass.copy(&outs[idxs[k]]));
        k += 1;
    }
    assert(models::<P>(r@) =~= gather(models::<P>(outs@), idxs@));
    r
}

/// Runs an analysis on a graph, starting with the blocks waiting in the
/// given order, for at most `budget` steps. The graph is turned to the
/// direction of the analysis first.
pub fn solve_from<P: DataflowPass>(pass: &P, cfg: CFG, order: Vec<usize>, budget: usize) -> (r:
    Result<Dataflow<P::Val>, PassError>)
    requires
        pass.usable(),
        cfg.wf(),
        forall|j: int| 0 <= j < order.len() ==> #[trigger] order[j] < cfg.size(),
    ensures
        solved(pass, &oriented(cfg, pass.reversed_spec()), order@, budget as nat, r),
        r.is_ok() ==> r.unwrap().cfg.wf() && r.unwrap().in_vals.len() == cfg.size()
            && r.unwrap().out_vals.len() == cfg.size(),
        r.is_ok() && complete(&cfg, order@) ==> settled(
            pass,
            &r.unwrap().cfg,
            Flow {
                ins: models::<P>(r.unwrap().in_vals@),
                outs: models::<P>(r.unwrap().out_vals@),
                work: seq![],
            },
        ),
{
    let graph = if cfg.reversed() != pass.reversed() {
        cfg.reverse()
    } else {
        cfg
    };
    assert(graph == oriented(cfg, pass.reversed_spec()));
    let n = graph.len();
    let init = pass.init(graph.func());
    let mut in_vals: Vec<P::Val> = Vec::new();
    let mut out_vals: Vec<P::Val> = Vec::new();
    let mut i: usize = 0;
    while i < n
        invariant
            i <= n,
            pass.usable(),
            in_vals.len() == i,
            out_vals.len() == i,
            P::model(&init) == pass.init_spec(graph.func@),
            forall|j: int| 0 <= j < i ==> P::model(&#[trigger] in_vals[j]) == pass.init_spec(graph.func@),
            forall|j: int| 0 <= j < i ==> P::model(&#[trigger] out_vals[j]) == pass.init_spec(graph.func@),
        decreases n - i,
    {
        in_vals.push(pass.copy(&init));
        out_vals.push(pass.copy(&init));
        i += 1;
    }
    let mut work: VecDeque<usize> = VecDeque::new();
    let mut i: usize = 0;
    while i < order.len()
        invariant
            i <= order.len(),
            work@ == order@.take(i as int),
        decreases order.len() - i,
    {
        work.push_back(order[i]);
        assert(order@.take(i + 1) =~= order@.take(i as int).push(order[i as int]));
        i += 1;
    }
    assert(order@.take(order.len() as int) =~= order@);
    let ghost ord = order@;
    let mut steps: usize = 0;
    proof {
        assert(models::<P>(in_vals@) =~= start(pass, &graph, ord).ins);
        assert(models::<P>(out_vals@) =~= start(pass, &graph, ord).outs);
    }
    while work.len() > 0 && steps < budget
        invariant
            steps <= budget,
            pass.usable(),
            graph.wf(),
            graph == oriented(cfg, pass.reversed_spec()),
            ord == order@,
            n == graph.size(),
            in_vals.len() == n,
            out_vals.len() == n,
            forall|j: int| 0 <= j < ord.len() ==> #[trigger] ord[j] < graph.size(),
            after(pass, &graph, ord, steps as nat) == Ok::<Flow<P::Model>, PassError>(
                Flow { ins: models::<P>(in_vals@), outs: models::<P>(out_vals@), work: work@ },
            ),
        decreases budget - steps,
    {
        let ghost s = Flow { ins: models::<P>(in_vals@), outs: models::<P>(out_vals@), work: work@ };
        proof {
            lemma_after(pass, &graph, ord, steps as nat);
        }
        let i = work.pop_front().unwrap();
        assert(work@ =~= s.work.skip(1));
        assert(i < n);
        proof {
            lemma_neighbours_in_range(&graph, i);
        }
        let inp = if graph.is_entry(i) {
            pass.entry(graph.func())
        } else {
            let preds = graph.preds(i);
            let inputs = gather_vals(pass, &out_vals, &preds);
            pass.meet(&inputs)
        };
        assert(P::model(&inp) == input_of(pass, &graph, s.outs, i as int));
        let new = match pass.transfer(graph.func().get(i), &inp) {
            Ok(v) => v,
            Err(e) => {
                proof {
                    assert(after(pass, &graph, ord, (steps + 1) as nat) == Err::<
                        Flow<P::Model>,
                        PassError,
                    >(e));
                    lemma_after_stable(pass, &graph, ord, (steps + 1) as nat, budget as nat);
                }
                return Err(e);
            },
        };
        in_vals.set(i, inp);
        if !pass.same(&new, &out_vals[i]) {
            out_vals.set(i, new);
            let succs = graph.succs(i);
            let ghost base = work@;
            let mut k: usize = 0;
            while k < succs.len()
                invariant
                    k <= succs.len(),
                    work@ == base + succs@.take(k as int),
                decreases succs.len() - k,
            {
                work.push_back(succs[k]);
                assert(succs@.take(k + 1) =~= succs@.take(k as int).push(succs[k as int]));
                k += 1;
            }
            assert(succs@.take(succs.len() as int) =~= succs@);
        }
        proof {
            let t = advance(pass, &graph, s).unwrap();
            assert(models::<P>(in_vals@) =~= t.ins);
            assert(models::<P>(out_vals@) =~= t.outs);
            assert(work@ =~= t.work);
        }
        steps += 1;
    }
    if work.len() > 0 {
        return Err(PassError::Diverged);
    }
    proof {
        lemma_after_stable(pass, &graph, ord, steps as nat, budget as nat);
        lemma_after(pass, &graph, ord, steps as nat);
        assert(work@ =~= seq![]);
    }
    let exits = graph.exits();
    proof {
        crate::cfg::lemma_exits_in_range(graph.succs@, graph.succs@.len() as int);
    }
    let exit_vals = gather_vals(pass, &out_vals, &exits);
    let exit_val = pass.meet(&exit_vals);
    let exit_val = pass.finish(graph.func(), exit_val);
    Ok(Dataflow { cfg: graph, in_vals, out_vals, exit_val })
}

/// The blocks of a graph in rising order.
pub fn all_blocks(n: usize) -> (r: Vec<usize>)
    ensures
        r@ == Seq::new(n as nat, |i: int| i as usize),
{
    let mut r: Vec<usize> = Vec::new();
    let mut i: usize = 0;
    while i < n
        invariant
            i <= n,
            r.len() == i,
            forall|j: int| 0 <= j < i ==> r[j] == j,
        decreases n - i,
    {
        r.push(i);
        i += 1;
    }
    assert(r@ =~= Seq::new(n as nat, |i: int| i as usize));
    r
}

/// Runs an analysis on a graph for at most `budget` steps, starting with
/// all blocks waiting in rising order.
pub fn solve<P: DataflowPass>(pass: &P, cfg: CFG, budget: usize) -> (r: Result<
    Dataflow<P::Val>,
    PassError,
>)
    requires
        pass.usable(),
        cfg.wf(),
    ensures
        solved(
            pass,
            &oriented(cfg, pass.reversed_spec()),
            Seq::new(cfg.size(), |i: int| i as usize),
            budget as nat,
            r,
        ),
        r.is_ok() ==> r.unwrap().cfg.wf() && r.unwrap().in_vals.len() == cfg.size()
            && r.unwrap().out_vals.len() == cfg.size(),
        r.is_ok() ==> settled(
            pass,
            &r.unwrap().cfg,
            Flow {
                ins: models::<P>(r.unwrap().in_vals@),
                outs: models::<P>(r.unwrap().out_vals@),
                work: seq![],
            },
        ),
{
    let order = all_blocks(cfg.len());
    proof {
        assert forall|i: usize| i < cfg.size() implies #[trigger] order@.contains(i) by {
            assert(order@[i as int] == i);
        }
    }
    solve_from(pass, cfg, order, budget)
}

/// The engine as a method of every analysis: `pass.cfg(graph, budget)`.
pub trait DataflowEngine: DataflowPass + Sized {
    /// Runs the analysis on a graph for at most `budget` steps, starting
    /// with all blocks waiting in rising order.
    fn cfg(&self, cfg: CFG, budget: usize) -> (r: Result<Dataflow<Self::Val>, PassError>)
        requires
            self.usable(),
            cfg.wf(),
        ensures
            solved(
                self,
                &oriented(cfg, self.reversed_spec()),
                Seq::new(cfg.size(), |i: int| i as usize),
                budget as nat,
                r,
            ),
            r.is_ok() ==> r.unwrap().cfg.wf() && r.unwrap().in_vals.len() == cfg.size()
                && r.unwrap().out_vals.len() == cfg.size(),
            r.is_ok() ==> settled(
                self,
                &r.unwrap().cfg,
                Flow {
                    ins: models::<Self>(r.unwrap().in_vals@),
                    outs: models::<Self>(r.unwrap().out_vals@),
                    work: seq![],
                },
            ),
    ;
}

impl<P: DataflowPass> DataflowEngine for P {
    fn cfg(&self, cfg: CFG, budget: usize) -> (r: Result<Dataflow<P::Val>, PassError>) {
        solve(self, cfg, budget)
    }
}

} // verus!
