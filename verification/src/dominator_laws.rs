//! What holds of a dominator tree: no node dominates itself strictly, the
//! first block has no immediate dominator, the immediate dominator of a
//! node is its only nearest strict dominator, and a block dominates
//! another exactly if it is the first block or every way into the graph
//! that ends at the other leads through it.
use crate::cfg::{lemma_neighbours_in_range, lemma_preds_succs, CFG};
use crate::dataflow::{
    advance, after, gather, input_of, lemma_after, settled, shaped, start, Flow,
};
use crate::dominator_tree::{
    analysis, dom_sets, idom_ok, nearest, rising_order, strict_of, DominatorTree,
};
use crate::dominators::{all_blocks, lemma_meet_all, meet_all, DominatorPass};
use crate::index_set::set_items;
use crate::passes::PassError;
use vstd::prelude::*;

verus! {

/// The dominators of a node of a tree: its strict dominators and itself.
pub open spec fn dominators_of(tree: &DominatorTree, b: int) -> Set<usize> {
    set_items(tree.strict_doms@[b]).insert(b as usize)
}

/// Whether the blocks of `p` are a way through the graph from the first
/// block.
pub open spec fn is_path(cfg: &CFG, p: Seq<usize>) -> bool {
    &&& p.len() > 0
    &&& p[0] == 0
    &&& forall|i: int| 0 <= i < p.len() ==> #[trigger] p[i] < cfg.size()
    &&& forall|k: int|
        0 <= k < p.len() - 1 ==> cfg.succs_spec(p[k] as int).contains(#[trigger] p[k + 1])
}

/// Whether every way from the first block to `b` leads through `a`.
pub open spec fn on_every_path(cfg: &CFG, a: usize, b: usize) -> bool {
    forall|p: Seq<usize>| #[trigger] is_path(cfg, p) && p.last() == b ==> p.contains(a)
}

/// Whether the blocks of `p` are a way into the graph: a way through the
/// graph from a block that nothing leads to.
pub open spec fn is_way(cfg: &CFG, p: Seq<usize>) -> bool {
    &&& p.len() > 0
    &&& forall|i: int| 0 <= i < p.len() ==> #[trigger] p[i] < cfg.size()
    &&& cfg.is_entry_spec(p[0] as int)
    &&& forall|k: int|
        0 <= k < p.len() - 1 ==> cfg.succs_spec(p[k] as int).contains(#[trigger] p[k + 1])
}

/// Whether `a` cuts `b` off: it is the first block, which stands for the
/// entry of the function, or every way into the graph that ends at `b`
/// leads through it.
pub open spec fn cuts(cfg: &CFG, a: usize, b: usize) -> bool {
    a == 0 || forall|p: Seq<usize>| #[trigger] is_way(cfg, p) && p.last() == b ==> p.contains(a)
}

/// Whether the first block is the only one that nothing leads to.
pub open spec fn single_entry(cfg: &CFG) -> bool {
    forall|x: int| 0 <= x < cfg.size() ==> (#[trigger] cfg.is_entry_spec(x) <==> x == 0)
}

/// The analysis of a tree has come to rest, and its values are those that
/// the tree was built from.
pub proof fn lemma_tree_settled(tree: &DominatorTree)
    requires
        tree.wf(),
    ensures
        analysis(&tree.cfg).is_ok(),
        analysis(&tree.cfg).unwrap().work.len() == 0,
        shaped(&tree.cfg, analysis(&tree.cfg).unwrap()),
        settled(&DominatorPass, &tree.cfg, analysis(&tree.cfg).unwrap()),
        forall|b: int|
            0 <= b < tree.cfg.size() ==> #[trigger] dominators_of(tree, b) == analysis(
                &tree.cfg,
            ).unwrap().outs[b],
{
    let order = rising_order(&tree.cfg);
    assert forall|i: usize| i < tree.cfg.size() implies #[trigger] order.contains(i) by {
        assert(order[i as int] == i);
    }
    lemma_after(&DominatorPass, &tree.cfg, order, usize::MAX as nat);
    let s = analysis(&tree.cfg).unwrap();
    let doms = dom_sets(&tree.cfg, s);
    assert(s.work =~= seq![]);
    assert forall|b: int| 0 <= b < tree.cfg.size() implies #[trigger] dominators_of(tree, b)
        == s.outs[b] by {
        assert(!s.work.contains(b as usize));
        assert(s.ins[b] == input_of(&DominatorPass, &tree.cfg, s.outs, b));
        assert(s.outs[b] == s.ins[b].insert(tree.cfg.func@.blocks[b].idx));
        assert(tree.cfg.func@.blocks[b].idx == b);
        assert(doms[b] == s.outs[b]);
        assert(set_items(tree.strict_doms@[b]) == strict_of(doms, b as usize));
        assert(dominators_of(tree, b) =~= s.outs[b]);
    }
}

/// No node is among its own strict dominators.
pub proof fn lemma_not_own_strict_dominator(tree: &DominatorTree, i: int)
    requires
        tree.wf(),
        0 <= i < tree.nodes(),
    ensures
        !set_items(tree.strict_doms@[i]).contains(i as usize),
{
    let s = analysis(&tree.cfg).unwrap();
    assert(set_items(tree.strict_doms@[i]) == strict_of(dom_sets(&tree.cfg, s), i as usize));
}

/// The immediate dominator of a node is its only nearest strict dominator:
/// a node has one exactly if it has a nearest strict dominator, and then
/// no other.
pub proof fn lemma_immediate_dominator_unique(tree: &DominatorTree, i: int, c: usize)
    requires
        tree.wf(),
        0 <= i < tree.nodes(),
    ensures
        tree.immediate_doms@[i] == Some(c) <==> nearest(
            dom_sets(&tree.cfg, analysis(&tree.cfg).unwrap()),
            i as usize,
        ).contains(c),
{
    let doms = dom_sets(&tree.cfg, analysis(&tree.cfg).unwrap());
    assert(idom_ok(doms, i as usize, tree.immediate_doms@[i]));
    match tree.immediate_doms@[i] {
        Some(x) => {
            assert(nearest(doms, i as usize) == set![x]);
        },
        None => {
            assert(nearest(doms, i as usize) == Set::<usize>::empty());
        },
    }
}

/// The first block has no immediate dominator, if nothing leads to it.
pub proof fn lemma_entry_has_no_immediate_dominator(tree: &DominatorTree)
    requires
        tree.wf(),
        tree.cfg.size() > 0,
        tree.cfg.is_entry_spec(0),
    ensures
        tree.immediate_doms@[0].is_none(),
{
    lemma_tree_settled(tree);
    let s = analysis(&tree.cfg).unwrap();
    let doms = dom_sets(&tree.cfg, s);
    assert(!s.work.contains(0usize));
    assert(s.ins[0] == input_of(&DominatorPass, &tree.cfg, s.outs, 0));
    assert(s.ins[0] == set![0usize]);
    assert(s.outs[0] == s.ins[0].insert(tree.cfg.func@.blocks[0].idx));
    assert(doms[0] == s.outs[0]);
    assert(strict_of(doms, 0) =~= Set::<usize>::empty());
    assert(idom_ok(doms, 0, tree.immediate_doms@[0]));
    match tree.immediate_doms@[0] {
        Some(x) => {
            assert(nearest(doms, 0).contains(x));
        },
        None => {},
    }
}

/// A dominator of a block lies on every way from the first block to the
/// block, if nothing leads to the first block.
pub proof fn lemma_dominator_on_path(tree: &DominatorTree, a: usize, p: Seq<usize>)
    requires
        tree.wf(),
        tree.cfg.is_entry_spec(0),
        is_path(&tree.cfg, p),
        dominators_of(tree, p.last() as int).contains(a),
    ensures
        p.contains(a),
{
    assert(is_way(&tree.cfg, p));
    lemma_dominator_on_way(tree, a, p);
    assert(p[0] == 0);
}

/// A dominator of a block is the first block, or lies on every way into
/// the graph that ends at the block.
pub proof fn lemma_dominator_on_way(tree: &DominatorTree, a: usize, p: Seq<usize>)
    requires
        tree.wf(),
        is_way(&tree.cfg, p),
        dominators_of(tree, p.last() as int).contains(a),
    ensures
        a == 0 || p.contains(a),
    decreases p.len(),
{
    lemma_tree_settled(tree);
    let cfg = &tree.cfg;
    let s = analysis(cfg).unwrap();
    let b = p.last();
    assert(p[p.len() - 1] == b);
    if a != b {
        assert(dominators_of(tree, b as int) == s.outs[b as int]);
        assert(!s.work.contains(b));
        assert(s.ins[b as int] == input_of(&DominatorPass, cfg, s.outs, b as int));
        assert(s.outs[b as int] == s.ins[b as int].insert(cfg.func@.blocks[b as int].idx));
        assert(s.ins[b as int].contains(a));
        if p.len() == 1 {
            assert(s.ins[b as int] == set![0usize]);
        } else {
            let q = p[p.len() - 2];
            let rest = p.drop_last();
            assert(cfg.succs_spec(q as int).contains(p[p.len() - 2 + 1]));
            lemma_preds_succs(cfg, q, b);
            assert(cfg.preds_spec(b as int).contains(q));
            let preds = cfg.preds_spec(b as int);
            let k = choose|k: int| 0 <= k < preds.len() && preds[k] == q;
            assert(!cfg.is_entry_spec(b as int));
            let g = gather(s.outs, preds);
            lemma_meet_all(g, a);
            assert(g[k].contains(a));
            assert(s.outs[q as int].contains(a));
            assert(is_way(cfg, rest)) by {
                assert forall|j: int| 0 <= j < rest.len() - 1 implies cfg.succs_spec(
                    rest[j] as int,
                ).contains(#[trigger] rest[j + 1]) by {
                    assert(rest[j + 1] == p[j + 1]);
                }
                assert(rest[0] == p[0]);
            }
            assert(rest.last() == q);
            assert(dominators_of(tree, q as int) == s.outs[q as int]);
            lemma_dominator_on_way(tree, a, rest);
            if a != 0 {
                let j = choose|j: int| 0 <= j < rest.len() && rest[j] == a;
                assert(p[j] == a);
            }
        }
    }
}

/// Every state of the dominator analysis holds, for each block, every
/// block that cuts it off.
proof fn lemma_ways_below(cfg: &CFG, k: nat)
    requires
        cfg.wf(),
        !cfg.reversed,
    ensures
        after(&DominatorPass, cfg, rising_order(cfg), k).is_ok(),
        forall|x: int, a: usize|
            0 <= x < cfg.size() && a < cfg.size() && #[trigger] cuts(cfg, a, x as usize)
                ==> after(&DominatorPass, cfg, rising_order(cfg), k).unwrap().outs[x].contains(a),
    decreases k,
{
    let order = rising_order(cfg);
    crate::dominator_tree::lemma_analysis_total(cfg, order, k);
    if k == 0 {
        let s = start(&DominatorPass, cfg, order);
        assert forall|x: int, a: usize|
            0 <= x < cfg.size() && a < cfg.size() && #[trigger] cuts(
                cfg,
                a,
                x as usize,
            ) implies s.outs[x].contains(a) by {
            assert(all_blocks(cfg.func@).contains(a));
        }
    } else {
        lemma_ways_below(cfg, (k - 1) as nat);
        lemma_after(&DominatorPass, cfg, order, (k - 1) as nat);
        let s = after(&DominatorPass, cfg, order, (k - 1) as nat).unwrap();
        if s.work.len() > 0 {
            let i0 = s.work[0] as int;
            let t = advance(&DominatorPass, cfg, s).unwrap();
            let inp = input_of(&DominatorPass, cfg, s.outs, i0);
            let new = inp.insert(cfg.func@.blocks[i0].idx);
            assert(cfg.func@.blocks[i0].idx == i0);
            assert forall|x: int, a: usize|
                0 <= x < cfg.size() && a < cfg.size() && #[trigger] cuts(
                    cfg,
                    a,
                    x as usize,
                ) implies t.outs[x].contains(a) by {
                if x == i0 && a != i0 as usize {
                    if cfg.is_entry_spec(i0) {
                        if a != 0 {
                            let p = seq![i0 as usize];
                            assert(is_way(cfg, p));
                            assert(p.last() == i0 as usize);
                            assert(p.contains(a));
                            let j = choose|j: int| 0 <= j < p.len() && p[j] == a;
                            assert(false);
                        }
                    } else {
                        lemma_neighbours_in_range(cfg, i0 as usize);
                        let preds = cfg.preds_spec(i0);
                        let g = gather(s.outs, preds);
                        assert(preds.len() > 0);
                        assert forall|m: int| 0 <= m < g.len() implies (#[trigger] g[m]).contains(
                            a,
                        ) by {
                            let q = preds[m];
                            assert(q < cfg.size());
                            assert(preds.contains(q));
                            lemma_preds_succs(cfg, q, i0 as usize);
                            assert forall|p: Seq<usize>| #[trigger]
                                is_way(cfg, p) && p.last() == q && a != 0 implies p.contains(
                                a,
                            ) by {
                                let longer = p.push(i0 as usize);
                                assert(longer[0] == p[0]);
                                assert(is_way(cfg, longer)) by {
                                    assert forall|j: int|
                                        0 <= j < longer.len() - 1 implies cfg.succs_spec(
                                        longer[j] as int,
                                    ).contains(#[trigger] longer[j + 1]) by {
                                        if j < p.len() - 1 {
                                            assert(longer[j + 1] == p[j + 1]);
                                        } else {
                                            assert(longer[j] == q);
                                        }
                                    }
                                }
                                assert(longer.last() == i0 as usize);
                                assert(longer.contains(a));
                                let j = choose|j: int| 0 <= j < longer.len() && longer[j] == a;
                                assert(p[j] == a);
                            }
                            assert(cuts(cfg, a, q));
                            assert(s.outs[q as int].contains(a));
                        }
                        lemma_meet_all(g, a);
                    }
                } else if x != i0 {
                    assert(s.outs[x].contains(a));
                }
            }
        }
    }
}

/// A block that lies on every way from the first block to another
/// dominates it, if the first block is the only one that nothing leads to.
pub proof fn lemma_path_dominator(tree: &DominatorTree, a: usize, b: usize)
    requires
        tree.wf(),
        single_entry(&tree.cfg),
        a < tree.cfg.size(),
        b < tree.cfg.size(),
        on_every_path(&tree.cfg, a, b),
    ensures
        dominators_of(tree, b as int).contains(a),
{
    assert(cuts(&tree.cfg, a, b)) by {
        assert forall|p: Seq<usize>| #[trigger] is_way(&tree.cfg, p) && p.last()
            == b implies p.contains(a) by {
            assert(p[0] < tree.cfg.size());
            assert(tree.cfg.is_entry_spec(p[0] as int));
            assert(is_path(&tree.cfg, p));
        }
    }
    lemma_way_dominator(tree, a, b);
}

/// A block that cuts another off dominates it.
pub proof fn lemma_way_dominator(tree: &DominatorTree, a: usize, b: usize)
    requires
        tree.wf(),
        a < tree.cfg.size(),
        b < tree.cfg.size(),
        cuts(&tree.cfg, a, b),
    ensures
        dominators_of(tree, b as int).contains(a),
{
    lemma_tree_settled(tree);
    lemma_ways_below(&tree.cfg, usize::MAX as nat);
}

/// A block dominates another exactly if it cuts the other off: it is the
/// first block, or every way into the graph that ends at the other leads
/// through it.
pub proof fn lemma_dominators_are_cuts(tree: &DominatorTree, a: usize, b: usize)
    requires
        tree.wf(),
        a < tree.cfg.size(),
        b < tree.cfg.size(),
    ensures
        dominators_of(tree, b as int).contains(a) <==> cuts(&tree.cfg, a, b),
{
    if cuts(&tree.cfg, a, b) {
        lemma_way_dominator(tree, a, b);
    }
    if dominators_of(tree, b as int).contains(a) {
        assert forall|p: Seq<usize>| #[trigger] is_way(&tree.cfg, p) && p.last() == b && a
            != 0 implies p.contains(a) by {
            lemma_dominator_on_way(tree, a, p);
        }
    }
}

/// A block dominates another exactly if every way from the first block to
/// the other leads through it, in a graph whose first block is the only
/// one that nothing leads to.
pub proof fn lemma_dominators_are_path_cuts(tree: &DominatorTree, a: usize, b: usize)
    requires
        tree.wf(),
        tree.cfg.size() > 0,
        single_entry(&tree.cfg),
        a < tree.cfg.size(),
        b < tree.cfg.size(),
    ensures
        dominators_of(tree, b as int).contains(a) <==> on_every_path(&tree.cfg, a, b),
{
    if on_every_path(&tree.cfg, a, b) {
        lemma_path_dominator(tree, a, b);
    }
    if dominators_of(tree, b as int).contains(a) {
        assert forall|p: Seq<usize>| #[trigger] is_path(&tree.cfg, p) && p.last() == b implies p.contains(
            a,
        ) by {
            lemma_dominator_on_path(tree, a, p);
        }
    }
}

} // verus!
