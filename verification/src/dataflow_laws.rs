//! What holds of the dataflow engine for a lattice with a monotone meet and
//! transfer: the values it settles on do not depend on the order in which
//! the blocks wait.
use crate::cfg::{lemma_neighbours_in_range, CFG};
use crate::dataflow::{
    advance, after, complete, gather, input_of, lemma_after, settled, shaped, start,
    DataflowPass, Flow,
};
use crate::dominators::{all_blocks, lemma_meet_all, meet_all, DominatorPass};
use crate::passes::PassError;
use crate::reaching_defs::ReachingDefs;
use crate::vec_set::{lemma_union_of, union_of};
use vstd::prelude::*;

verus! {

/// Whether each value of one list is below the value at its place in the
/// other.
pub open spec fn pointwise<M>(le: spec_fn(M, M) -> bool, a: Seq<M>, b: Seq<M>) -> bool {
    a.len() == b.len() && forall|i: int| 0 <= i < a.len() ==> #[trigger] le(a[i], b[i])
}

/// Whether every value of a list is one of the lattice.
pub open spec fn all_good<M>(good: spec_fn(M) -> bool, a: Seq<M>) -> bool {
    forall|i: int| 0 <= i < a.len() ==> #[trigger] good(a[i])
}

/// Whether `good` marks a lattice of values that the analysis stays in,
/// and `le` orders them so that the meet and the transfer of every block
/// of the graph keep the order, the transfer never fails and never goes
/// above the initial value, and two values each below the other are one.
pub open spec fn monotone<P: DataflowPass>(
    pass: &P,
    cfg: &CFG,
    le: spec_fn(P::Model, P::Model) -> bool,
    good: spec_fn(P::Model) -> bool,
) -> bool {
    &&& forall|a: P::Model| #[trigger] le(a, a)
    &&& forall|a: P::Model, b: P::Model| #[trigger] le(a, b) && le(b, a) ==> a == b
    &&& good(pass.init_spec(cfg.func@))
    &&& good(pass.entry_spec(cfg.func@))
    &&& forall|xs: Seq<P::Model>| #[trigger] all_good(good, xs) ==> good(pass.meet_spec(xs))
    &&& forall|xs: Seq<P::Model>, ys: Seq<P::Model>|
        all_good(good, xs) && all_good(good, ys) && #[trigger] pointwise(le, xs, ys) ==> le(
            pass.meet_spec(xs),
            pass.meet_spec(ys),
        )
    &&& forall|i: int, x: P::Model|
        0 <= i < cfg.size() && good(x) ==> (#[trigger] pass.transfer_spec(
            cfg.func@.blocks[i],
            x,
        )).is_ok() && good(pass.transfer_spec(cfg.func@.blocks[i], x).unwrap()) && le(
            pass.transfer_spec(cfg.func@.blocks[i], x).unwrap(),
            pass.init_spec(cfg.func@),
        )
    &&& forall|i: int, x: P::Model, y: P::Model|
        0 <= i < cfg.size() && good(x) && good(y) && #[trigger] le(x, y) ==> le(
            #[trigger] pass.transfer_spec(cfg.func@.blocks[i], x).unwrap(),
            pass.transfer_spec(cfg.func@.blocks[i], y).unwrap(),
        )
}

/// Whether the values obey the dataflow equations at every block.
pub open spec fn fixed<P: DataflowPass>(pass: &P, cfg: &CFG, ins: Seq<P::Model>, outs: Seq<P::Model>) -> bool {
    &&& ins.len() == cfg.size()
    &&& outs.len() == cfg.size()
    &&& settled(pass, cfg, Flow { ins, outs, work: seq![] })
}

/// The value at the entry of a block is one of the lattice if the values
/// at the exits are.
proof fn lemma_input_good<P: DataflowPass>(
    pass: &P,
    cfg: &CFG,
    le: spec_fn(P::Model, P::Model) -> bool,
    good: spec_fn(P::Model) -> bool,
    a: Seq<P::Model>,
    i: int,
)
    requires
        cfg.wf(),
        monotone(pass, cfg, le, good),
        all_good(good, a),
        a.len() == cfg.size(),
        0 <= i < cfg.size(),
    ensures
        good(input_of(pass, cfg, a, i)),
        all_good(good, gather(a, cfg.preds_spec(i))),
{
    lemma_neighbours_in_range(cfg, i as usize);
    let preds = cfg.preds_spec(i);
    let ga = gather(a, preds);
    assert forall|k: int| 0 <= k < ga.len() implies #[trigger] good(ga[k]) by {
        assert(preds[k] < cfg.size());
        assert(good(a[preds[k] as int]));
    }
    assert(all_good(good, ga));
}

/// Every state that an iteration passes through holds values of the
/// lattice only.
pub proof fn lemma_stays_good<P: DataflowPass>(
    pass: &P,
    cfg: &CFG,
    le: spec_fn(P::Model, P::Model) -> bool,
    good: spec_fn(P::Model) -> bool,
    order: Seq<usize>,
    k: nat,
)
    requires
        cfg.wf(),
        monotone(pass, cfg, le, good),
        forall|j: int| 0 <= j < order.len() ==> #[trigger] order[j] < cfg.size(),
    ensures
        after(pass, cfg, order, k).is_ok(),
        all_good(good, after(pass, cfg, order, k).unwrap().outs),
        all_good(good, after(pass, cfg, order, k).unwrap().ins),
        shaped(cfg, after(pass, cfg, order, k).unwrap()),
    decreases k,
{
    if k == 0 {
    } else {
        lemma_stays_good(pass, cfg, le, good, order, (k - 1) as nat);
        let s = after(pass, cfg, order, (k - 1) as nat).unwrap();
        if s.work.len() > 0 {
            let i0 = s.work[0] as int;
            lemma_input_good(pass, cfg, le, good, s.outs, i0);
            let inp = input_of(pass, cfg, s.outs, i0);
            assert(pass.transfer_spec(cfg.func@.blocks[i0], inp).is_ok());
            crate::dataflow::lemma_advance_shaped(pass, cfg, s);
            let t = advance(pass, cfg, s).unwrap();
            assert forall|i: int| 0 <= i < t.outs.len() implies #[trigger] good(t.outs[i]) by {
                if i != i0 {
                    assert(good(s.outs[i]));
                }
            }
            assert forall|i: int| 0 <= i < t.ins.len() implies #[trigger] good(t.ins[i]) by {
                if i != i0 {
                    assert(good(s.ins[i]));
                }
            }
        }
    }
}

/// The values of a fixed point in the lattice are below those of every
/// state that an iteration passes through.
pub proof fn lemma_below<P: DataflowPass>(
    pass: &P,
    cfg: &CFG,
    le: spec_fn(P::Model, P::Model) -> bool,
    good: spec_fn(P::Model) -> bool,
    ins: Seq<P::Model>,
    outs: Seq<P::Model>,
    order: Seq<usize>,
    k: nat,
)
    requires
        cfg.wf(),
        monotone(pass, cfg, le, good),
        fixed(pass, cfg, ins, outs),
        all_good(good, ins),
        all_good(good, outs),
        forall|j: int| 0 <= j < order.len() ==> #[trigger] order[j] < cfg.size(),
    ensures
        after(pass, cfg, order, k).is_ok(),
        pointwise(le, outs, after(pass, cfg, order, k).unwrap().outs),
    decreases k,
{
    lemma_stays_good(pass, cfg, le, good, order, k);
    let f = Flow { ins, outs, work: seq![] };
    assert forall|i: int| 0 <= i < cfg.size() implies #[trigger] ins[i] == input_of(
        pass,
        cfg,
        outs,
        i,
    ) && pass.transfer_spec(cfg.func@.blocks[i], ins[i]) == Ok::<P::Model, PassError>(outs[i]) by {
        assert(!f.work.contains(i as usize));
        assert(f.ins[i] == ins[i]);
    }
    if k == 0 {
        let s = start(pass, cfg, order);
        assert forall|i: int| 0 <= i < outs.len() implies #[trigger] le(outs[i], s.outs[i]) by {
            assert(good(ins[i]));
            assert(pass.transfer_spec(cfg.func@.blocks[i], ins[i]).is_ok());
        }
    } else {
        lemma_below(pass, cfg, le, good, ins, outs, order, (k - 1) as nat);
        lemma_stays_good(pass, cfg, le, good, order, (k - 1) as nat);
        let s = after(pass, cfg, order, (k - 1) as nat).unwrap();
        if s.work.len() > 0 {
            let i0 = s.work[0] as int;
            let t = advance(pass, cfg, s).unwrap();
            let inp = input_of(pass, cfg, s.outs, i0);
            let new = pass.transfer_spec(cfg.func@.blocks[i0], inp).unwrap();
            lemma_input_good(pass, cfg, le, good, outs, i0);
            lemma_input_good(pass, cfg, le, good, s.outs, i0);
            assert(le(input_of(pass, cfg, outs, i0), inp)) by {
                if !cfg.is_entry_spec(i0) {
                    lemma_neighbours_in_range(cfg, i0 as usize);
                    let preds = cfg.preds_spec(i0);
                    let ga = gather(outs, preds);
                    let gb = gather(s.outs, preds);
                    assert forall|m: int| 0 <= m < ga.len() implies #[trigger] le(ga[m], gb[m]) by {
                        assert(preds[m] < cfg.size());
                        assert(le(outs[preds[m] as int], s.outs[preds[m] as int]));
                    }
                    assert(pointwise(le, ga, gb));
                }
            }
            assert(ins[i0] == input_of(pass, cfg, outs, i0));
            assert(good(ins[i0]));
            assert(good(inp));
            assert(le(ins[i0], inp));
            assert(le(
                pass.transfer_spec(cfg.func@.blocks[i0], ins[i0]).unwrap(),
                pass.transfer_spec(cfg.func@.blocks[i0], inp).unwrap(),
            ));
            assert(le(outs[i0], new));
            assert forall|i: int| 0 <= i < outs.len() implies #[trigger] le(outs[i], t.outs[i]) by {
                if i != i0 {
                    assert(le(outs[i], s.outs[i]));
                }
            }
        }
    }
}

/// The values that the engine settles on do not depend on the order in
/// which the blocks wait at the start, nor on the number of steps: two
/// iterations of a monotone analysis that both come to rest, each from its
/// own order of all the blocks, rest on the same values.
pub proof fn lemma_order_independent<P: DataflowPass>(
    pass: &P,
    cfg: &CFG,
    le: spec_fn(P::Model, P::Model) -> bool,
    good: spec_fn(P::Model) -> bool,
    order1: Seq<usize>,
    steps1: nat,
    order2: Seq<usize>,
    steps2: nat,
)
    requires
        cfg.wf(),
        monotone(pass, cfg, le, good),
        forall|j: int| 0 <= j < order1.len() ==> #[trigger] order1[j] < cfg.size(),
        forall|j: int| 0 <= j < order2.len() ==> #[trigger] order2[j] < cfg.size(),
        complete(cfg, order1),
        complete(cfg, order2),
        after(pass, cfg, order1, steps1) matches Ok(s) && s.work.len() == 0,
        after(pass, cfg, order2, steps2) matches Ok(s) && s.work.len() == 0,
    ensures
        after(pass, cfg, order1, steps1).unwrap().ins == after(
            pass,
            cfg,
            order2,
            steps2,
        ).unwrap().ins,
        after(pass, cfg, order1, steps1).unwrap().outs == after(
            pass,
            cfg,
            order2,
            steps2,
        ).unwrap().outs,
{
    let s1 = after(pass, cfg, order1, steps1).unwrap();
    let s2 = after(pass, cfg, order2, steps2).unwrap();
    lemma_after(pass, cfg, order1, steps1);
    lemma_after(pass, cfg, order2, steps2);
    lemma_stays_good(pass, cfg, le, good, order1, steps1);
    lemma_stays_good(pass, cfg, le, good, order2, steps2);
    assert(s1.work =~= seq![]);
    assert(s2.work =~= seq![]);
    assert(fixed(pass, cfg, s1.ins, s1.outs));
    assert(fixed(pass, cfg, s2.ins, s2.outs));
    lemma_below(pass, cfg, le, good, s1.ins, s1.outs, order2, steps2);
    lemma_below(pass, cfg, le, good, s2.ins, s2.outs, order1, steps1);
    assert forall|i: int| 0 <= i < s1.outs.len() implies s1.outs[i] == s2.outs[i] by {
        assert(le(s1.outs[i], s2.outs[i]));
        assert(le(s2.outs[i], s1.outs[i]));
    }
    assert(s1.outs =~= s2.outs);
    assert forall|i: int| 0 <= i < s1.ins.len() implies s1.ins[i] == s2.ins[i] by {
        assert(!s1.work.contains(i as usize));
        assert(!s2.work.contains(i as usize));
        assert(s1.ins[i] == input_of(pass, cfg, s1.outs, i));
        assert(s2.ins[i] == input_of(pass, cfg, s2.outs, i));
    }
    assert(s1.ins =~= s2.ins);
}

/// The order of the dominator sets: inclusion.
pub open spec fn within() -> spec_fn(Set<usize>, Set<usize>) -> bool {
    |a: Set<usize>, b: Set<usize>| a.subset_of(b)
}

/// The lattice of the dominator sets of a graph: the sets of its blocks.
pub open spec fn of_blocks(cfg: &CFG) -> spec_fn(Set<usize>) -> bool {
    |a: Set<usize>| a.subset_of(all_blocks(cfg.func@))
}

/// The dominator analysis is monotone on the sets of blocks, ordered by
/// inclusion.
pub proof fn lemma_dominators_monotone(cfg: &CFG)
    requires
        cfg.wf(),
        cfg.size() > 0,
    ensures
        monotone(&DominatorPass, cfg, within(), of_blocks(cfg)),
{
    let le = within();
    let good = of_blocks(cfg);
    let pass = &DominatorPass;
    assert forall|a: Set<usize>, b: Set<usize>| #[trigger] le(a, b) && le(b, a) implies a == b by {
        assert(a =~= b);
    }
    assert(good(pass.entry_spec(cfg.func@))) by {
        assert(all_blocks(cfg.func@).contains(0usize));
    }
    assert forall|xs: Seq<Set<usize>>| #[trigger] all_good(good, xs) implies good(
        pass.meet_spec(xs),
    ) by {
        assert forall|x: usize| meet_all(xs).contains(x) implies all_blocks(cfg.func@).contains(
            x,
        ) by {
            lemma_meet_all(xs, x);
            assert(good(xs[0]));
            assert(xs[0].contains(x));
        }
    }
    assert forall|xs: Seq<Set<usize>>, ys: Seq<Set<usize>>|
        all_good(good, xs) && all_good(good, ys) && #[trigger] pointwise(le, xs, ys) implies le(
        pass.meet_spec(xs),
        pass.meet_spec(ys),
    ) by {
        assert forall|x: usize| meet_all(xs).contains(x) implies meet_all(ys).contains(x) by {
            lemma_meet_all(xs, x);
            lemma_meet_all(ys, x);
            assert forall|k: int| 0 <= k < ys.len() implies (#[trigger] ys[k]).contains(x) by {
                assert(le(xs[k], ys[k]));
                assert(xs[k].contains(x));
            }
        }
    }
    assert forall|i: int, x: Set<usize>| 0 <= i < cfg.size() && good(x) implies (#[trigger] pass.transfer_spec(
        cfg.func@.blocks[i],
        x,
    )).is_ok() && good(pass.transfer_spec(cfg.func@.blocks[i], x).unwrap()) && le(
        pass.transfer_spec(cfg.func@.blocks[i], x).unwrap(),
        pass.init_spec(cfg.func@),
    ) by {
        assert(cfg.func@.blocks[i].idx == i);
        assert(all_blocks(cfg.func@).contains(i as usize));
    }
    assert forall|i: int, x: Set<usize>, y: Set<usize>|
        0 <= i < cfg.size() && good(x) && good(y) && #[trigger] le(x, y) implies le(
        #[trigger] pass.transfer_spec(cfg.func@.blocks[i], x).unwrap(),
        pass.transfer_spec(cfg.func@.blocks[i], y).unwrap(),
    ) by {}
}

/// The dominator sets of a graph do not depend on the order in which the
/// blocks wait at the start of the analysis.
pub proof fn lemma_dominators_one_result(
    cfg: &CFG,
    order1: Seq<usize>,
    steps1: nat,
    order2: Seq<usize>,
    steps2: nat,
)
    requires
        cfg.wf(),
        forall|j: int| 0 <= j < order1.len() ==> #[trigger] order1[j] < cfg.size(),
        forall|j: int| 0 <= j < order2.len() ==> #[trigger] order2[j] < cfg.size(),
        complete(cfg, order1),
        complete(cfg, order2),
        after(&DominatorPass, cfg, order1, steps1) matches Ok(s) && s.work.len() == 0,
        after(&DominatorPass, cfg, order2, steps2) matches Ok(s) && s.work.len() == 0,
    ensures
        after(&DominatorPass, cfg, order1, steps1) == after(&DominatorPass, cfg, order2, steps2),
{
    let s1 = after(&DominatorPass, cfg, order1, steps1).unwrap();
    let s2 = after(&DominatorPass, cfg, order2, steps2).unwrap();
    assert(s1.work =~= s2.work);
    if cfg.size() > 0 {
        lemma_dominators_monotone(cfg);
        lemma_order_independent(
            &DominatorPass,
            cfg,
            within(),
            of_blocks(cfg),
            order1,
            steps1,
            order2,
            steps2,
        );
    } else {
        lemma_after(&DominatorPass, cfg, order1, steps1);
        lemma_after(&DominatorPass, cfg, order2, steps2);
        assert(s1.ins =~= s2.ins);
        assert(s1.outs =~= s2.outs);
    }
}

/// The order of the sets of definitions: a set is below the sets that it
/// holds.
pub open spec fn holding() -> spec_fn(Set<(Seq<char>, usize)>, Set<(Seq<char>, usize)>) -> bool {
    |a: Set<(Seq<char>, usize)>, b: Set<(Seq<char>, usize)>| b.subset_of(a)
}

/// The lattice of reaching definitions: every set of definitions.
pub open spec fn any_defs() -> spec_fn(Set<(Seq<char>, usize)>) -> bool {
    |a: Set<(Seq<char>, usize)>| true
}

/// The analysis of reaching definitions is monotone on the sets of
/// definitions, ordered by holding: it starts from the empty set, which
/// every set holds.
pub proof fn lemma_reaching_defs_monotone(cfg: &CFG)
    requires
        cfg.wf(),
    ensures
        monotone(&ReachingDefs, cfg, holding(), any_defs()),
{
    let le = holding();
    let good = any_defs();
    let pass = &ReachingDefs;
    assert forall|a: Set<(Seq<char>, usize)>, b: Set<(Seq<char>, usize)>| #[trigger]
        le(a, b) && le(b, a) implies a == b by {
        assert(a =~= b);
    }
    assert forall|xs: Seq<Set<(Seq<char>, usize)>>, ys: Seq<Set<(Seq<char>, usize)>>|
        all_good(good, xs) && all_good(good, ys) && #[trigger] pointwise(le, xs, ys) implies le(
        pass.meet_spec(xs),
        pass.meet_spec(ys),
    ) by {
        assert forall|d: (Seq<char>, usize)| union_of(ys).contains(d) implies union_of(
            xs,
        ).contains(d) by {
            lemma_union_of(ys, d);
            lemma_union_of(xs, d);
            let k = choose|k: int| 0 <= k < ys.len() && (#[trigger] ys[k]).contains(d);
            assert(le(xs[k], ys[k]));
            assert(xs[k].contains(d));
        }
    }
    assert forall|i: int, x: Set<(Seq<char>, usize)>, y: Set<(Seq<char>, usize)>|
        0 <= i < cfg.size() && good(x) && good(y) && #[trigger] le(x, y) implies le(
        #[trigger] pass.transfer_spec(cfg.func@.blocks[i], x).unwrap(),
        pass.transfer_spec(cfg.func@.blocks[i], y).unwrap(),
    ) by {}
}

/// The reaching definitions of a graph do not depend on the order in which
/// the blocks wait at the start of the analysis.
pub proof fn lemma_reaching_defs_one_result(
    cfg: &CFG,
    order1: Seq<usize>,
    steps1: nat,
    order2: Seq<usize>,
    steps2: nat,
)
    requires
        cfg.wf(),
        forall|j: int| 0 <= j < order1.len() ==> #[trigger] order1[j] < cfg.size(),
        forall|j: int| 0 <= j < order2.len() ==> #[trigger] order2[j] < cfg.size(),
        complete(cfg, order1),
        complete(cfg, order2),
        after(&ReachingDefs, cfg, order1, steps1) matches Ok(s) && s.work.len() == 0,
        after(&ReachingDefs, cfg, order2, steps2) matches Ok(s) && s.work.len() == 0,
    ensures
        after(&ReachingDefs, cfg, order1, steps1) == after(&ReachingDefs, cfg, order2, steps2),
{
    let s1 = after(&ReachingDefs, cfg, order1, steps1).unwrap();
    let s2 = after(&ReachingDefs, cfg, order2, steps2).unwrap();
    assert(s1.work =~= s2.work);
    lemma_reaching_defs_monotone(cfg);
    lemma_order_independent(
        &ReachingDefs,
        cfg,
        holding(),
        any_defs(),
        order1,
        steps1,
        order2,
        steps2,
    );
}

} // verus!
