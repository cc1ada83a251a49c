//! When a dominator tree is a tree: every block that can be reached from a
//! block that nothing leads to has, if it is not the first block, one
//! immediate dominator, which all its other strict dominators dominate,
//! and hangs below the first block.
use crate::bb_function::lemma_label_map_range;
use crate::cfg::{edge_of, lemma_preds_of, preds_of, FlowEdge, LabelErrorView, CFG};
use crate::dominator_laws::{
    cuts, dominators_of, is_way, lemma_dominator_on_way, lemma_dominators_are_cuts,
    lemma_immediate_dominator_unique, lemma_tree_settled,
};
use crate::dominator_tree::{analysis, dom_sets, nearest, passed_over, strict_of, DominatorTree};
use vstd::prelude::*;

verus! {

/// Whether some way into the graph leads to `b`.
pub open spec fn reachable(cfg: &CFG, b: usize) -> bool {
    exists|p: Seq<usize>| #[trigger] is_way(cfg, p) && p.last() == b
}

/// Whether some way into the graph leads to every block.
pub open spec fn connected(cfg: &CFG) -> bool {
    forall|b: usize| b < cfg.size() ==> #[trigger] reachable(cfg, b)
}

/// Nothing leads to a first block that bears no label.
pub proof fn lemma_unlabelled_entry(cfg: &CFG)
    requires
        cfg.wf(),
        !cfg.reversed,
        cfg.size() > 0,
        cfg.func@.blocks[0].label.is_none(),
    ensures
        cfg.is_entry_spec(0),
{
    let before = cfg.preds@[0]@;
    if before.len() > 0 {
        let i = before[0];
        assert(preds_of(cfg.succs@, 0).contains(i));
        lemma_preds_of(cfg.succs@, i, 0);
        lemma_label_map_range(cfg.func@.blocks);
        assert(edge_of(cfg.func@, i) == Ok::<FlowEdge, LabelErrorView>(cfg.succs@[i as int]));
        let k = choose|k: int|
            0 <= k < cfg.succs@[i as int].targets().len() && cfg.succs@[i as int].targets()[k]
                == 0;
        assert(false);
    }
}

/// The first blocks of a way into the graph are a way into the graph.
pub proof fn lemma_prefix_way(cfg: &CFG, p: Seq<usize>, k: int)
    requires
        is_way(cfg, p),
        0 <= k < p.len(),
    ensures
        is_way(cfg, p.take(k + 1)),
        p.take(k + 1).last() == p[k],
{
    let q = p.take(k + 1);
    assert(q[0] == p[0]);
    assert forall|j: int| 0 <= j < q.len() - 1 implies cfg.succs_spec(q[j] as int).contains(
        #[trigger] q[j + 1],
    ) by {
        assert(q[j + 1] == p[j + 1]);
    }
}

/// A way to a block of another way, and the other way from there on, are
/// a way into the graph.
pub proof fn lemma_join_way(cfg: &CFG, q: Seq<usize>, p: Seq<usize>, k: int)
    requires
        is_way(cfg, q),
        is_way(cfg, p),
        0 <= k < p.len() - 1,
        q.last() == p[k],
    ensures
        is_way(cfg, q + p.skip(k + 1)),
        (q + p.skip(k + 1)).last() == p.last(),
{
    let r = q + p.skip(k + 1);
    assert(r[0] == q[0]);
    assert forall|j: int| 0 <= j < r.len() implies #[trigger] r[j] < cfg.size() by {
        if j < q.len() {
            assert(r[j] == q[j]);
        } else {
            assert(r[j] == p[k + 1 + (j - q.len())]);
        }
    }
    assert forall|j: int| 0 <= j < r.len() - 1 implies cfg.succs_spec(r[j] as int).contains(
        #[trigger] r[j + 1],
    ) by {
        if j < q.len() - 1 {
            assert(r[j + 1] == q[j + 1]);
        } else if j == q.len() - 1 {
            assert(r[j] == p[k]);
            assert(r[j + 1] == p[k + 1]);
        } else {
            let t = k + 1 + (j - q.len());
            assert(r[j] == p[t]);
            assert(r[j + 1] == p[t + 1]);
        }
    }
}

/// Only the first block cuts the first block off, if nothing leads to it.
pub proof fn lemma_cuts_first(cfg: &CFG, a: usize)
    requires
        cfg.size() > 0,
        cfg.is_entry_spec(0),
        cuts(cfg, a, 0),
    ensures
        a == 0,
{
    if a != 0 {
        let p = seq![0usize];
        assert(is_way(cfg, p));
        assert(p.last() == 0);
        assert(p.contains(a));
        let j = choose|j: int| 0 <= j < p.len() && p[j] == a;
    }
}

/// What cuts a block off cuts off every block that the block cuts off.
pub proof fn lemma_cut_transitive(cfg: &CFG, a: usize, b: usize, c: usize)
    requires
        cfg.size() > 0,
        cfg.is_entry_spec(0),
        cuts(cfg, a, b),
        cuts(cfg, b, c),
    ensures
        cuts(cfg, a, c),
{
    if b == 0 {
        lemma_cuts_first(cfg, a);
    } else if a != 0 {
        assert forall|p: Seq<usize>| #[trigger] is_way(cfg, p) && p.last() == c implies p.contains(
            a,
        ) by {
            assert(p.contains(b));
            let k = choose|k: int| 0 <= k < p.len() && p[k] == b;
            lemma_prefix_way(cfg, p, k);
            let q = p.take(k + 1);
            assert(q.contains(a));
            let j = choose|j: int| 0 <= j < q.len() && q[j] == a;
            assert(p[j] == a);
        }
    }
}

/// Two blocks that can be reached and cut each other off are one block.
pub proof fn lemma_cut_antisymmetric(cfg: &CFG, a: usize, b: usize, p: Seq<usize>)
    requires
        cfg.size() > 0,
        cfg.is_entry_spec(0),
        cuts(cfg, a, b),
        cuts(cfg, b, a),
        is_way(cfg, p),
        p.last() == b || p.last() == a,
    ensures
        a == b,
    decreases p.len(),
{
    if a == 0 {
        lemma_cuts_first(cfg, b);
    } else if b == 0 {
        lemma_cuts_first(cfg, a);
    } else if a != b {
        let other = if p.last() == b {
            a
        } else {
            b
        };
        assert(p.contains(other));
        let k = choose|k: int| 0 <= k < p.len() && p[k] == other;
        lemma_prefix_way(cfg, p, k);
        lemma_cut_antisymmetric(cfg, a, b, p.take(k + 1));
    }
}

/// The last place on a way at which one of two blocks stands.
pub proof fn lemma_last_of(p: Seq<usize>, a: usize, c: usize) -> (k: int)
    requires
        p.contains(a) || p.contains(c),
    ensures
        0 <= k < p.len(),
        p[k] == a || p[k] == c,
        forall|j: int| k < j < p.len() ==> p[j] != a && p[j] != c,
    decreases p.len(),
{
    if p.last() == a || p.last() == c {
        p.len() - 1
    } else {
        let head = p.drop_last();
        let x = if p.contains(a) {
            a
        } else {
            c
        };
        let i = choose|i: int| 0 <= i < p.len() && p[i] == x;
        assert(head[i] == x);
        let k = lemma_last_of(head, a, c);
        assert forall|j: int| k < j < p.len() implies p[j] != a && p[j] != c by {
            if j < head.len() {
                assert(head[j] == p[j]);
            }
        }
        k
    }
}

/// Of two blocks that cut off a third block that can be reached, one cuts
/// the other off.
pub proof fn lemma_cut_linear(cfg: &CFG, a: usize, c: usize, b: usize)
    requires
        cuts(cfg, a, b),
        cuts(cfg, c, b),
        a != b,
        c != b,
        reachable(cfg, b),
    ensures
        cuts(cfg, a, c) || cuts(cfg, c, a),
{
    if !cuts(cfg, a, c) && !cuts(cfg, c, a) {
        let qc = choose|q: Seq<usize>| #[trigger] is_way(cfg, q) && q.last() == c && !q.contains(a);
        let qa = choose|q: Seq<usize>| #[trigger] is_way(cfg, q) && q.last() == a && !q.contains(c);
        let p = choose|p: Seq<usize>| #[trigger] is_way(cfg, p) && p.last() == b;
        assert(p.contains(a));
        let k = lemma_last_of(p, a, c);
        assert(p[p.len() - 1] == b);
        let (q, out) = if p[k] == c {
            (qc, a)
        } else {
            (qa, c)
        };
        lemma_join_way(cfg, q, p, k);
        let r = q + p.skip(k + 1);
        assert(r.contains(out));
        let j = choose|j: int| 0 <= j < r.len() && r[j] == out;
        if j < q.len() {
            assert(q[j] == out);
        } else {
            assert(p[k + 1 + (j - q.len())] == out);
        }
    }
}

/// How many of the first `k` blocks are in a set.
pub open spec fn seen(v: Set<usize>, k: nat) -> nat
    decreases k,
{
    if k == 0 {
        0
    } else {
        seen(v, (k - 1) as nat) + if v.contains((k - 1) as usize) {
            1nat
        } else {
            0nat
        }
    }
}

/// Of `k` blocks at most `k` are in a set.
pub proof fn lemma_seen_bound(v: Set<usize>, k: nat)
    ensures
        seen(v, k) <= k,
    decreases k,
{
    if k > 0 {
        lemma_seen_bound(v, (k - 1) as nat);
    }
}

/// A larger set holds no fewer of the first `k` blocks.
pub proof fn lemma_seen_grows(v: Set<usize>, w: Set<usize>, k: nat)
    requires
        v.subset_of(w),
    ensures
        seen(v, k) <= seen(w, k),
    decreases k,
{
    if k > 0 {
        lemma_seen_grows(v, w, (k - 1) as nat);
    }
}

/// A set with one more of the first `k` blocks holds one more of them.
pub proof fn lemma_seen_insert(v: Set<usize>, b: usize, k: nat)
    requires
        k <= usize::MAX,
        !v.contains(b),
    ensures
        seen(v.insert(b), k) == seen(v, k) + if b < k {
            1nat
        } else {
            0nat
        },
    decreases k,
{
    if k > 0 {
        lemma_seen_insert(v, b, (k - 1) as nat);
    }
}

/// Whether block `c` hangs below the first block in the dominator tree,
/// at most `k` levels down.
pub open spec fn under(idom: Seq<Option<usize>>, c: int, k: nat) -> bool
    decreases k,
{
    c == 0 || (k > 0 && 0 <= c < idom.len() && match idom[c] {
        Some(p) => under(idom, p as int, (k - 1) as nat),
        None => false,
    })
}

/// Whether block `c` hangs below the first block in the dominator tree.
pub open spec fn hangs(idom: Seq<Option<usize>>, c: int) -> bool {
    exists|k: nat| #[trigger] under(idom, c, k)
}

/// Whether every block hangs below the first block in the dominator tree.
pub open spec fn rooted(idom: Seq<Option<usize>>) -> bool {
    forall|c: int| 0 <= c < idom.len() ==> #[trigger] hangs(idom, c)
}

/// Whether every block hangs below the first block in a dominator tree.
pub open spec fn tree_rooted(tree: &DominatorTree) -> bool {
    rooted(Seq::new(tree.cfg.size(), |i: int| tree.immediate_doms@[i]))
}

/// A set that lacks one of the first `k` blocks of a larger set holds
/// fewer of them.
pub proof fn lemma_seen_fewer(v: Set<usize>, w: Set<usize>, x: usize, k: nat)
    requires
        k <= usize::MAX,
        v.subset_of(w),
        x < k,
        w.contains(x),
        !v.contains(x),
    ensures
        seen(v, k) < seen(w, k),
    decreases k,
{
    if x == k - 1 {
        lemma_seen_grows(v, w, (k - 1) as nat);
    } else {
        lemma_seen_fewer(v, w, x, (k - 1) as nat);
    }
}

/// Whether block `b` of the graph of a tree is founded: nothing leads to
/// the first block, and some way into the graph leads to `b`.
pub open spec fn founded(tree: &DominatorTree, b: usize) -> bool {
    &&& tree.wf()
    &&& tree.cfg.is_entry_spec(0)
    &&& b < tree.cfg.size()
    &&& reachable(&tree.cfg, b)
}

/// Whether a tree is that of a graph that is whole: nothing leads to its
/// first block, and some way into the graph leads to every block.
pub open spec fn whole(tree: &DominatorTree) -> bool {
    &&& tree.wf()
    &&& tree.cfg.size() > 0
    &&& tree.cfg.is_entry_spec(0)
    &&& connected(&tree.cfg)
}

/// The dominators of a founded block are founded blocks that cut it off.
pub proof fn lemma_dominators_cut(tree: &DominatorTree, a: usize, b: usize)
    requires
        founded(tree, b),
    ensures
        dominators_of(tree, b as int).contains(a) <==> (a < tree.cfg.size() && cuts(
            &tree.cfg,
            a,
            b,
        )),
        dominators_of(tree, b as int).contains(a) ==> founded(tree, a),
{
    let cfg = &tree.cfg;
    if a < cfg.size() {
        lemma_dominators_are_cuts(tree, a, b);
    }
    if dominators_of(tree, b as int).contains(a) {
        let p = choose|p: Seq<usize>| #[trigger] is_way(cfg, p) && p.last() == b;
        lemma_dominator_on_way(tree, a, p);
        if a == 0 {
            let q = seq![0usize];
            assert(is_way(cfg, q));
            assert(q.last() == 0);
        } else {
            let k = choose|k: int| 0 <= k < p.len() && p[k] == a;
            assert(p[k] < cfg.size());
            lemma_prefix_way(cfg, p, k);
        }
    }
}

/// A dominator of a dominator of a founded block dominates the block.
pub proof fn lemma_dominators_transitive(tree: &DominatorTree, a: usize, b: usize, c: usize)
    requires
        founded(tree, c),
        dominators_of(tree, c as int).contains(b),
        b < tree.cfg.size() ==> dominators_of(tree, b as int).contains(a),
    ensures
        dominators_of(tree, c as int).contains(a),
{
    lemma_dominators_cut(tree, b, c);
    lemma_dominators_cut(tree, a, b);
    lemma_cut_transitive(&tree.cfg, a, b, c);
    lemma_dominators_cut(tree, a, c);
}

/// A founded block and a block that dominate each other are one block.
pub proof fn lemma_dominators_antisymmetric(tree: &DominatorTree, a: usize, b: usize)
    requires
        founded(tree, b),
        a < tree.cfg.size(),
        dominators_of(tree, b as int).contains(a),
        dominators_of(tree, a as int).contains(b),
    ensures
        a == b,
{
    lemma_dominators_cut(tree, a, b);
    lemma_dominators_cut(tree, b, a);
    let p = choose|p: Seq<usize>| #[trigger] is_way(&tree.cfg, p) && p.last() == b;
    lemma_cut_antisymmetric(&tree.cfg, a, b, p);
}

/// Whether `c` is, among the first `k` blocks, a strict dominator of `b`
/// that strictly dominates no other strict dominator of `b`.
pub open spec fn top_below(tree: &DominatorTree, b: usize, c: usize, k: nat) -> bool {
    &&& c < k
    &&& c != b
    &&& dominators_of(tree, b as int).contains(c)
    &&& forall|d: usize|
        d < k && d != b && d != c && dominators_of(tree, b as int).contains(d) ==> !(
        #[trigger] dominators_of(tree, d as int)).contains(c)
}

/// Every founded block but the first has, among the first `k` blocks, a
/// strict dominator that strictly dominates no other.
pub proof fn lemma_top_below(tree: &DominatorTree, b: usize, k: nat) -> (c: usize)
    requires
        founded(tree, b),
        b != 0,
        1 <= k <= tree.cfg.size(),
    ensures
        top_below(tree, b, c, k),
    decreases k,
{
    if k == 1 {
        lemma_dominators_cut(tree, 0, b);
        0
    } else {
        let c = lemma_top_below(tree, b, (k - 1) as nat);
        let x = (k - 1) as usize;
        if x != b && dominators_of(tree, b as int).contains(x) && dominators_of(
            tree,
            x as int,
        ).contains(c) {
            assert forall|d: usize|
                d < k && d != b && d != x && dominators_of(tree, b as int).contains(d) implies !(
            #[trigger] dominators_of(tree, d as int)).contains(x) by {
                if dominators_of(tree, d as int).contains(x) {
                    lemma_dominators_cut(tree, d, b);
                    lemma_dominators_cut(tree, x, b);
                    lemma_dominators_transitive(tree, c, x, d);
                    if d == c {
                        lemma_dominators_antisymmetric(tree, c, x);
                    }
                }
            }
            x
        } else {
            c
        }
    }
}

/// Every founded block but the first has an immediate dominator: another
/// block that dominates it, and that all its other strict dominators
/// dominate.
pub proof fn lemma_immediate_dominator_exists(tree: &DominatorTree, b: usize)
    requires
        founded(tree, b),
        b != 0,
    ensures
        tree.immediate_doms@[b as int].is_some(),
        tree.immediate_doms@[b as int].unwrap() < tree.cfg.size(),
        tree.immediate_doms@[b as int].unwrap() != b,
        dominators_of(tree, b as int).contains(tree.immediate_doms@[b as int].unwrap()),
        forall|e: usize|
            e != b && #[trigger] dominators_of(tree, b as int).contains(e) ==> dominators_of(
                tree,
                tree.immediate_doms@[b as int].unwrap() as int,
            ).contains(e),
{
    let n = tree.cfg.size();
    let c = lemma_top_below(tree, b, n);
    lemma_tree_settled(tree);
    let s = analysis(&tree.cfg).unwrap();
    let doms = dom_sets(&tree.cfg, s);
    assert(doms[b as int] == dominators_of(tree, b as int));
    assert(strict_of(doms, b).contains(c));
    assert(!passed_over(doms, b, c)) by {
        assert forall|d: usize|
            d < doms.len() && #[trigger] strict_of(doms, b).contains(d) implies !strict_of(
            doms,
            d,
        ).contains(c) by {
            lemma_dominators_cut(tree, d, b);
            assert(doms[d as int] == dominators_of(tree, d as int));
        }
    }
    assert(nearest(doms, b).contains(c));
    lemma_immediate_dominator_unique(tree, b as int, c);
    assert forall|e: usize|
        e != b && #[trigger] dominators_of(tree, b as int).contains(e) implies dominators_of(
        tree,
        c as int,
    ).contains(e) by {
        lemma_dominators_cut(tree, e, b);
        lemma_dominators_cut(tree, c, b);
        if e != c {
            lemma_cut_linear(&tree.cfg, e, c, b);
            lemma_dominators_are_cuts(tree, e, c);
            lemma_dominators_are_cuts(tree, c, e);
            if !cuts(&tree.cfg, e, c) {
                assert(doms[e as int] == dominators_of(tree, e as int));
                assert(strict_of(doms, b).contains(e) && strict_of(doms, e).contains(c));
                assert(passed_over(doms, b, c));
            }
        } else {
            lemma_dominators_are_cuts(tree, c, c);
            assert(cuts(&tree.cfg, c, c)) by {
                assert forall|p: Seq<usize>| #[trigger] is_way(&tree.cfg, p) && p.last()
                    == c implies p.contains(c) by {
                    assert(p[p.len() - 1] == c);
                }
            }
        }
    }
}

/// Every founded block hangs below the first block, fewer levels down
/// than it has dominators.
pub proof fn lemma_block_hangs(tree: &DominatorTree, b: usize, m: nat)
    requires
        founded(tree, b),
        seen(dominators_of(tree, b as int), tree.cfg.size()) <= m + 1,
    ensures
        under(Seq::new(tree.cfg.size(), |i: int| tree.immediate_doms@[i]), b as int, m),
    decreases m,
{
    let n = tree.cfg.size();
    let idom = Seq::new(n, |i: int| tree.immediate_doms@[i]);
    if b != 0 {
        lemma_immediate_dominator_exists(tree, b);
        let c = tree.immediate_doms@[b as int].unwrap();
        let dc = dominators_of(tree, c as int);
        let db = dominators_of(tree, b as int);
        lemma_dominators_cut(tree, c, b);
        assert(dc.subset_of(db)) by {
            assert forall|a: usize| dc.contains(a) implies db.contains(a) by {
                lemma_dominators_transitive(tree, a, c, b);
            }
        }
        if dc.contains(b) {
            lemma_dominators_antisymmetric(tree, c, b);
        }
        lemma_seen_fewer(dc, db, b, n);
        lemma_seen_fewer(Set::empty(), dc, c, n);
        lemma_block_hangs(tree, c, (m - 1) as nat);
        assert(idom[b as int] == Some(c));
    }
}

/// Every founded block hangs below the first block, fewer levels down
/// than there are blocks.
pub proof fn lemma_block_depth(tree: &DominatorTree, b: usize)
    requires
        founded(tree, b),
    ensures
        under(
            Seq::new(tree.cfg.size(), |i: int| tree.immediate_doms@[i]),
            b as int,
            (tree.cfg.size() - 1) as nat,
        ),
{
    lemma_seen_bound(dominators_of(tree, b as int), tree.cfg.size());
    lemma_block_hangs(tree, b, (tree.cfg.size() - 1) as nat);
}

/// The dominator tree of a whole graph is a tree: every block hangs below
/// the first block.
pub proof fn lemma_whole_rooted(tree: &DominatorTree)
    requires
        whole(tree),
    ensures
        tree_rooted(tree),
{
    let n = tree.cfg.size();
    let idom = Seq::new(n, |i: int| tree.immediate_doms@[i]);
    assert forall|c: int| 0 <= c < idom.len() implies #[trigger] hangs(idom, c) by {
        assert(reachable(&tree.cfg, c as usize));
        lemma_block_depth(tree, c as usize);
        assert(under(idom, c, (n - 1) as nat));
    }
}

} // verus!
