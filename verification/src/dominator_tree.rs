//! The dominator tree of a function: for each block its strict dominators,
//! its immediate dominator and its dominance frontier, and the same for the
//! exit of the function, which stands after the last block.
use crate::cfg::{lemma_neighbours_in_range, CFG};
use crate::dataflow::{after, exit_of, oriented, solve, DataflowPass, Flow};
use crate::dominators::DominatorPass;
use crate::index_set::{
    set_clone, set_to_vec, set_contains, set_insert, set_items, set_new, set_remove,
};
use crate::passes::PassError;
use linked_hash_set::LinkedHashSet;
use vstd::prelude::*;

verus! {

/// The blocks that a set of dominator sets says `d` dominates.
pub open spec fn dom_by(doms: Seq<Set<usize>>, d: usize) -> Set<usize> {
    Set::new(|i: usize| i < doms.len() && doms[i as int].contains(d))
}

/// The dominance frontier of node `i`: the successors of the blocks it
/// dominates that it does not dominate strictly. So a block is in its own
/// frontier if a block that it dominates leads back to it.
pub open spec fn frontier_of(cfg: &CFG, doms: Seq<Set<usize>>, i: usize) -> Set<usize> {
    Set::new(|s: usize| steps_out(cfg, dom_by(doms, i), i, s))
}

/// Whether `s` follows a block of `held`, the blocks that `i` dominates,
/// and is not one that `i` dominates strictly.
pub open spec fn steps_out(cfg: &CFG, held: Set<usize>, i: usize, s: usize) -> bool {
    (!held.contains(s) || s == i) && exists|d: usize|
        d < cfg.size() && #[trigger] held.contains(d) && cfg.succs_spec(d as int).contains(s)
}

/// Whether `s` follows one of the first `k` listed blocks.
pub open spec fn via(cfg: &CFG, elems: Seq<usize>, k: int, s: usize) -> bool {
    exists|m: int|
        0 <= m < k && (#[trigger] elems[m]) < cfg.size() && cfg.succs_spec(
            elems[m] as int,
        ).contains(s)
}

/// The strict dominators of node `i`.
pub open spec fn strict_of(doms: Seq<Set<usize>>, i: usize) -> Set<usize> {
    doms[i as int].remove(i)
}

/// Whether `c` strictly dominates another strict dominator of `i`, and so
/// is not the nearest.
pub open spec fn passed_over(doms: Seq<Set<usize>>, i: usize, c: usize) -> bool {
    exists|d: usize|
        d < doms.len() && #[trigger] strict_of(doms, i).contains(d) && strict_of(doms, d).contains(
            c,
        )
}

/// The strict dominators of `i` that strictly dominate no other strict
/// dominator of `i`.
pub open spec fn nearest(doms: Seq<Set<usize>>, i: usize) -> Set<usize> {
    Set::new(|c: usize| strict_of(doms, i).contains(c) && !passed_over(doms, i, c))
}

/// The immediate dominator that the nearest strict dominators give, if
/// they are at most one.
pub open spec fn idom_ok(doms: Seq<Set<usize>>, i: usize, r: Option<usize>) -> bool {
    match r {
        Some(c) => nearest(doms, i) == set![c],
        None => nearest(doms, i) == Set::<usize>::empty(),
    }
}

/// Whether node `i` has two nearest strict dominators.
pub open spec fn tangled(doms: Seq<Set<usize>>, i: usize) -> bool {
    exists|a: usize, b: usize|
        a != b && #[trigger] nearest(doms, i).contains(a) && #[trigger] nearest(doms, i).contains(b)
}

/// The blocks of a graph in rising order.
pub open spec fn rising_order(cfg: &CFG) -> Seq<usize> {
    Seq::new(cfg.size(), |i: int| i as usize)
}

/// The dominator analysis of a graph, run until it settles.
pub open spec fn analysis(cfg: &CFG) -> Result<Flow<Set<usize>>, PassError> {
    after(&DominatorPass, cfg, rising_order(cfg), usize::MAX as nat)
}

/// The dominator sets that an analysis found: one for each block, and one
/// for the exit of the function.
pub open spec fn dom_sets(cfg: &CFG, s: Flow<Set<usize>>) -> Seq<Set<usize>> {
    s.outs.push(exit_of(&DominatorPass, cfg, s.outs))
}

/// The dominator tree of a function.
pub struct DominatorTree {
    /// The control flow graph.
    pub cfg: CFG,
    /// The strict dominators of each node.
    pub strict_doms: Vec<LinkedHashSet<usize>>,
    /// The immediate dominator of each node.
    pub immediate_doms: Vec<Option<usize>>,
    /// The dominance frontier of each node.
    pub dominance_frontiers: Vec<LinkedHashSet<usize>>,
}

impl DominatorTree {
    /// The number of nodes: the blocks and the exit.
    pub open spec fn nodes(&self) -> nat {
        self.cfg.size() + 1
    }

    /// Whether the tree holds, for each node, what the dominator sets
    /// `doms` give.
    pub open spec fn built_from(&self, doms: Seq<Set<usize>>) -> bool {
        &&& doms.len() == self.nodes()
        &&& self.strict_doms@.len() == self.nodes()
        &&& self.immediate_doms@.len() == self.nodes()
        &&& self.dominance_frontiers@.len() == self.nodes()
        &&& forall|i: int|
            0 <= i < self.nodes() ==> set_items(#[trigger] self.strict_doms@[i]) == strict_of(
                doms,
                i as usize,
            )
        &&& forall|i: int|
            0 <= i < self.nodes() ==> idom_ok(doms, i as usize, #[trigger] self.immediate_doms@[i])
        &&& forall|i: int|
            0 <= i < self.nodes() ==> set_items(#[trigger] self.dominance_frontiers@[i])
                == frontier_of(&self.cfg, doms, i as usize)
    }

    /// The tree is that of its graph: the graph is in order and forward,
    /// its dominator analysis settles, and the tree holds what the
    /// analysis gives.
    pub open spec fn wf(&self) -> bool {
        &&& self.cfg.wf()
        &&& !self.cfg.reversed
        &&& self.nodes() <= usize::MAX
        &&& match analysis(&self.cfg) {
            Ok(s) => s.work.len() == 0 && self.built_from(dom_sets(&self.cfg, s)),
            Err(_) => false,
        }
    }

    /// The blocks that each node dominates.
    fn dominated(doms: &Vec<LinkedHashSet<usize>>) -> (r: Vec<LinkedHashSet<usize>>)
        ensures
            r.len() == doms.len(),
            forall|d: int|
                0 <= d < doms.len() ==> set_items(#[trigger] r[d]) == dom_by(
                    Seq::new(doms@.len(), |i: int| set_items(doms@[i])),
                    d as usize,
                ),
    {
        let ghost sets = Seq::new(doms@.len(), |i: int| set_items(doms@[i]));
        let n = doms.len();
        let mut r: Vec<LinkedHashSet<usize>> = Vec::new();
        let mut d: usize = 0;
        while d < n
            invariant
                d <= n,
                n == doms.len(),
                sets == Seq::new(doms@.len(), |i: int| set_items(doms@[i])),
                r.len() == d,
                forall|k: int| 0 <= k < d ==> set_items(#[trigger] r[k]) == dom_by(sets, k as usize),
            decreases n - d,
        {
            let mut row = set_new();
            let mut i: usize = 0;
            assert(set_items(row) =~= Set::new(|j: usize| j < 0 && sets[j as int].contains(d)));
            while i < n
                invariant
                    i <= n,
                    n == doms.len(),
                    sets == Seq::new(doms@.len(), |i: int| set_items(doms@[i])),
                    set_items(row) == Set::new(|j: usize| j < i && sets[j as int].contains(d)),
                decreases n - i,
            {
                if set_contains(&doms[i], d) {
                    set_insert(&mut row, i);
                }
                assert(set_items(row) =~= Set::new(
                    |j: usize| j < i + 1 && sets[j as int].contains(d),
                ));
                i += 1;
            }
            assert(set_items(row) =~= dom_by(sets, d));
            r.push(row);
            d += 1;
        }
        r
    }

    /// The dominance frontier of a node, given the blocks it dominates.
    fn frontier(cfg: &CFG, by: &LinkedHashSet<usize>, node: usize) -> (r: LinkedHashSet<usize>)
        requires
            cfg.wf(),
        ensures
            set_items(r) == Set::new(|s: usize| steps_out(cfg, set_items(*by), node, s)),
    {
        let n = cfg.len();
        let elems = set_to_vec(by);
        let ghost held = set_items(*by);
        let mut r = set_new();
        let mut k: usize = 0;
        while k < elems.len()
            invariant
                k <= elems.len(),
                cfg.wf(),
                n == cfg.size(),
                held == set_items(*by),
                elems@.to_set() == held,
                forall|s: usize|
                    #[trigger] set_items(r).contains(s) <==> ((!held.contains(s) || s == node)
                        && via(cfg, elems@, k as int, s)),
            decreases elems.len() - k,
        {
            let d = elems[k];
            let ghost base = set_items(r);
            if d < n {
                let succs = cfg.succs(d);
                let mut j: usize = 0;
                while j < succs.len()
                    invariant
                        j <= succs.len(),
                        held == set_items(*by),
                        forall|s: usize|
                            #[trigger] set_items(r).contains(s) <==> (base.contains(s) || ((
                            !held.contains(s) || s == node) && succs@.take(j as int).contains(s))),
                    decreases succs.len() - j,
                {
                    let s = succs[j];
                    proof {
                        assert forall|x: usize|
                            succs@.take(j + 1).contains(x) <==> (succs@.take(j as int).contains(x)
                                || x == s) by {
                            crate::names::lemma_take_set(succs@, j as int);
                            assert(succs@.take(j + 1).to_set().contains(x) <==> succs@.take(
                                j as int,
                            ).to_set().insert(s).contains(x));
                        }
                    }
                    if !set_contains(by, s) || s == node {
                        set_insert(&mut r, s);
                    }
                    j += 1;
                }
                assert(succs@.take(succs.len() as int) =~= succs@);
            }
            proof {
                assert forall|s: usize|
                    #[trigger] set_items(r).contains(s) <==> ((!held.contains(s) || s == node)
                        && via(cfg, elems@, k + 1, s)) by {
                    if via(cfg, elems@, k + 1, s) && !via(cfg, elems@, k as int, s) {
                        let m = choose|m: int|
                            0 <= m < k + 1 && (#[trigger] elems@[m]) < cfg.size() && cfg.succs_spec(
                                elems@[m] as int,
                            ).contains(s);
                        assert(m == k);
                    }
                    if via(cfg, elems@, k as int, s) {
                        let m = choose|m: int|
                            0 <= m < k && (#[trigger] elems@[m]) < cfg.size() && cfg.succs_spec(
                                elems@[m] as int,
                            ).contains(s);
                        assert(elems@[m] < cfg.size());
                    }
                    if d < n && cfg.succs_spec(d as int).contains(s) {
                        assert(elems@[k as int] == d);
                    }
                }
            }
            k += 1;
        }
        proof {
            assert forall|s: usize| set_items(r).contains(s) <==> steps_out(
                cfg,
                held,
                node,
                s,
            ) by {
                if via(cfg, elems@, elems.len() as int, s) {
                    let m = choose|m: int|
                        0 <= m < elems.len() && (#[trigger] elems@[m]) < cfg.size()
                            && cfg.succs_spec(elems@[m] as int).contains(s);
                    assert(elems@.contains(elems@[m]));
                    assert(held.contains(elems@[m]));
                }
                if steps_out(cfg, held, node, s) {
                    let d = choose|d: usize|
                        d < cfg.size() && #[trigger] held.contains(d) && cfg.succs_spec(
                            d as int,
                        ).contains(s);
                    assert(elems@.contains(d));
                    let m = choose|m: int| 0 <= m < elems@.len() && elems@[m] == d;
                    assert(elems@[m] < cfg.size());
                }
            }
            assert(set_items(r) =~= Set::new(|s: usize| steps_out(cfg, held, node, s)));
        }
        r
    }

    /// The nearest strict dominators of a node: at most one, or the report
    /// that there are several.
    fn immediate(strict: &Vec<LinkedHashSet<usize>>, i: usize) -> (r: Result<Option<usize>, ()>)
        requires
            i < strict.len(),
        ensures
            ({
                let doms = Seq::new(strict@.len(), |k: int| set_items(strict@[k]).insert(k as usize));
                match r {
                    Ok(o) => idom_like(strict@, i, o),
                    Err(_) => several(strict@, i),
                }
            }),
    {
        let elems = set_to_vec(&strict[i]);
        let ghost held = set_items(strict@[i as int]);
        let mut found: Vec<usize> = Vec::new();
        let mut k: usize = 0;
        while k < elems.len()
            invariant
                k <= elems.len(),
                i < strict.len(),
                held == set_items(strict@[i as int]),
                elems@.to_set() == held,
                elems@.no_duplicates(),
                found@.no_duplicates(),
                forall|c: usize|
                    found@.contains(c) <==> (close(strict@, i, c) && exists|m: int|
                        0 <= m < k && #[trigger] elems[m] == c),
            decreases elems.len() - k,
        {
            let c = elems[k];
            let mut over = false;
            let mut j: usize = 0;
            while j < elems.len()
                invariant
                    j <= elems.len(),
                    i < strict.len(),
                    over <==> exists|m: int|
                        0 <= m < j && #[trigger] elems[m] < strict.len() && set_items(
                            strict@[elems[m] as int],
                        ).contains(c),
                decreases elems.len() - j,
            {
                let d = elems[j];
                if d < strict.len() && set_contains(&strict[d], c) {
                    over = true;
                }
                j += 1;
            }
            proof {
                assert(elems@.contains(c));
                assert(held.contains(c));
                if over {
                    let m = choose|m: int|
                        0 <= m < elems.len() && #[trigger] elems[m] < strict.len() && set_items(
                            strict@[elems[m] as int],
                        ).contains(c);
                    assert(elems@.contains(elems[m]));
                    assert(held.contains(elems[m]));
                    assert(skipped(strict@, i, c));
                }
                if skipped(strict@, i, c) {
                    let d = choose|d: usize|
                        d < strict@.len() && #[trigger] set_items(strict@[i as int]).contains(d)
                            && set_items(strict@[d as int]).contains(c);
                    assert(elems@.contains(d));
                    let m = choose|m: int| 0 <= m < elems@.len() && elems@[m] == d;
                    assert(elems[m] < strict.len());
                }
            }
            let ghost before = found@;
            if !over {
                proof {
                    if before.contains(c) {
                        let m = choose|m: int| 0 <= m < k && #[trigger] elems[m] == c;
                        assert(elems@[m] == elems@[k as int]);
                    }
                }
                found.push(c);
                assert(found@.no_duplicates());
            }
            proof {
                assert forall|x: usize|
                    found@.contains(x) <==> (close(strict@, i, x) && exists|m: int|
                        0 <= m < k + 1 && #[trigger] elems[m] == x) by {
                    if found@.contains(x) {
                        let p = choose|p: int| 0 <= p < found@.len() && found@[p] == x;
                        if p < before.len() {
                            assert(before[p] == x);
                            assert(before.contains(x));
                        } else {
                            assert(x == c);
                            assert(elems[k as int] == x);
                        }
                    }
                    if close(strict@, i, x) && exists|m: int|
                        0 <= m < k + 1 && #[trigger] elems[m] == x {
                        let m = choose|m: int| 0 <= m < k + 1 && #[trigger] elems[m] == x;
                        if m < k {
                            assert(before.contains(x));
                            let p = choose|p: int| 0 <= p < before.len() && before[p] == x;
                            assert(found@[p] == x);
                        } else {
                            assert(found@[found@.len() - 1] == x);
                        }
                    }
                }
            }
            k += 1;
        }
        proof {
            assert forall|c: usize| #[trigger] found@.contains(c) <==> close(strict@, i, c) by {
                if close(strict@, i, c) {
                    assert(elems@.contains(c));
                    let m = choose|m: int| 0 <= m < elems@.len() && elems@[m] == c;
                    assert(elems[m] == c);
                }
            }
        }
        if found.len() > 1 {
            proof {
                assert(found@.contains(found@[0]));
                assert(found@.contains(found@[1]));
            }
            Err(())
        } else if found.len() == 1 {
            proof {
                assert(found@.contains(found@[0]));
                assert forall|c: usize| close(strict@, i, c) implies c == found@[0] by {
                    assert(found@.contains(c));
                    let p = choose|p: int| 0 <= p < found@.len() && found@[p] == c;
                }
            }
            Ok(Some(found[0]))
        } else {
            proof {
                assert forall|c: usize| !close(strict@, i, c) by {
                    if found@.contains(c) {
                        let p = choose|p: int| 0 <= p < found@.len() && found@[p] == c;
                    }
                }
            }
            Ok(None)
        }
    }

    /// The dominator tree of a graph. It fails if the dominator analysis
    /// fails or does not settle, and on the first node that has several
    /// nearest strict dominators.
    pub fn new(cfg: CFG) -> (r: Result<Self, PassError>)
        requires
            cfg.wf(),
        ensures
            ({
                let g = oriented(cfg, false);
                match analysis(&g) {
                    Err(e) => r matches Err(x) && x == e,
                    Ok(s) => if s.work.len() != 0 {
                        r matches Err(x) && x == PassError::Diverged
                    } else {
                        match r {
                            Ok(t) => t.wf() && t.cfg == g,
                            Err(e) => exists|i: usize|
                                e == PassError::Tangled(i) && i <= g.size() && tangled(
                                    dom_sets(&g, s),
                                    i,
                                ) && forall|j: usize| j < i ==> !#[trigger] tangled(dom_sets(&g, s), j),
                        }
                    },
                }
            }),
    {
        let ghost g = oriented(cfg, false);
        let df = match solve(&DominatorPass, cfg, usize::MAX) {
            Ok(df) => df,
            Err(e) => {
                return Err(e);
            },
        };
        let ghost s = analysis(&g).unwrap();
        let graph = df.cfg;
        let mut doms = df.out_vals;
        let n = graph.len();
        let ghost outs = Seq::new(doms@.len(), |i: int| set_items(doms@[i]));
        assert(outs =~= s.outs);
        doms.push(df.exit_val);
        let ghost sets = Seq::new(doms@.len(), |i: int| set_items(doms@[i]));
        assert(sets =~= dom_sets(&g, s));
        let total = doms.len();
        let dom_bys = Self::dominated(&doms);
        let mut frontiers: Vec<LinkedHashSet<usize>> = Vec::new();
        let mut i: usize = 0;
        while i < total
            invariant
                i <= total,
                total == doms.len(),
                total == sets.len(),
                dom_bys.len() == total,
                graph.wf(),
                graph == g,
                frontiers.len() == i,
                forall|d: int|
                    0 <= d < total ==> set_items(#[trigger] dom_bys[d]) == dom_by(sets, d as usize),
                forall|k: int|
                    0 <= k < i ==> set_items(#[trigger] frontiers[k]) == frontier_of(
                        &graph,
                        sets,
                        k as usize,
                    ),
            decreases total - i,
        {
            let f = Self::frontier(&graph, &dom_bys[i], i);
            assert(set_items(f) =~= frontier_of(&graph, sets, i));
            frontiers.push(f);
            i += 1;
        }
        let mut strict = doms;
        let mut i: usize = 0;
        while i < total
            invariant
                i <= total,
                total == strict.len(),
                total == sets.len(),
                forall|k: int| 0 <= k < i ==> set_items(#[trigger] strict[k]) == strict_of(sets, k as usize),
                forall|k: int| i <= k < total ==> set_items(#[trigger] strict[k]) == sets[k],
            decreases total - i,
        {
            let mut row = set_clone(&strict[i]);
            set_remove(&mut row, i);
            strict.set(i, row);
            i += 1;
        }
        let mut idoms: Vec<Option<usize>> = Vec::new();
        let mut i: usize = 0;
        while i < total
            invariant
                i <= total,
                total == strict.len(),
                total == sets.len(),
                idoms.len() == i,
                forall|k: int|
                    0 <= k < total ==> set_items(#[trigger] strict[k]) == strict_of(sets, k as usize),
                forall|k: int| 0 <= k < i ==> idom_ok(sets, k as usize, #[trigger] idoms[k]),
                forall|k: usize| k < i ==> !#[trigger] tangled(sets, k),
                g == oriented(cfg, false),
                analysis(&g) == Ok::<Flow<Set<usize>>, PassError>(s),
                s.work.len() == 0,
                sets == dom_sets(&g, s),
                total == g.size() + 1,
            decreases total - i,
        {
            proof {
                lemma_close(strict@, sets, i);
            }
            match Self::immediate(&strict, i) {
                Ok(o) => {
                    proof {
                        match o {
                            Some(c) => {
                                assert forall|x: usize| nearest(sets, i).contains(x) <==> x
                                    == c by {
                                    assert(close(strict@, i, x) <==> nearest(sets, i).contains(x));
                                }
                                assert(nearest(sets, i) =~= set![c]);
                            },
                            None => {
                                assert forall|x: usize| !nearest(sets, i).contains(x) by {
                                    assert(close(strict@, i, x) <==> nearest(sets, i).contains(x));
                                }
                                assert(nearest(sets, i) =~= Set::<usize>::empty());
                            },
                        }
                        if tangled(sets, i) {
                            let (a, b) = choose|a: usize, b: usize|
                                a != b && #[trigger] nearest(sets, i).contains(a)
                                    && #[trigger] nearest(sets, i).contains(b);
                        }
                    }
                    idoms.push(o);
                },
                Err(_) => {
                    proof {
                        let (a, b) = choose|a: usize, b: usize|
                            a != b && #[trigger] close(strict@, i, a) && #[trigger] close(
                                strict@,
                                i,
                                b,
                            );
                        assert(close(strict@, i, a) <==> nearest(sets, i).contains(a));
                        assert(close(strict@, i, b) <==> nearest(sets, i).contains(b));
                        assert(nearest(sets, i).contains(a));
                        assert(nearest(sets, i).contains(b));
                        assert(tangled(sets, i));
                    }
                    return Err(PassError::Tangled(i));
                },
            }
            i += 1;
        }
        let t = DominatorTree {
            cfg: graph,
            strict_doms: strict,
            immediate_doms: idoms,
            dominance_frontiers: frontiers,
        };
        Ok(t)
    }

    /// The graph.
    pub fn cfg(&self) -> (r: &CFG)
        ensures
            *r == self.cfg,
    {
        &self.cfg
    }

    /// The number of blocks.
    pub fn len(&self) -> (n: usize)
        ensures
            n == self.cfg.size(),
    {
        self.cfg.len()
    }

    /// The strict dominators of a node.
    pub fn strict_doms(&self, idx: usize) -> (r: &LinkedHashSet<usize>)
        requires
            idx < self.strict_doms@.len(),
        ensures
            *r == self.strict_doms@[idx as int],
    {
        &self.strict_doms[idx]
    }

    /// The dominators of a node: its strict dominators and itself.
    pub fn dominators(&self, idx: usize) -> (r: LinkedHashSet<usize>)
        requires
            idx < self.strict_doms@.len(),
        ensures
            set_items(r) == set_items(self.strict_doms@[idx as int]).insert(idx),
    {
        let mut r = set_clone(&self.strict_doms[idx]);
        set_insert(&mut r, idx);
        r
    }

    /// The immediate dominator of a node.
    pub fn immediate_dom(&self, idx: usize) -> (r: Option<usize>)
        requires
            idx < self.immediate_doms@.len(),
        ensures
            r == self.immediate_doms@[idx as int],
    {
        self.immediate_doms[idx]
    }

    /// The dominance frontier of a node.
    pub fn dominance_frontier(&self, idx: usize) -> (r: &LinkedHashSet<usize>)
        requires
            idx < self.dominance_frontiers@.len(),
        ensures
            *r == self.dominance_frontiers@[idx as int],
    {
        &self.dominance_frontiers[idx]
    }

    /// Whether `a` is a strict dominator of `b`.
    pub fn strictly_dominates(&self, a: usize, b: usize) -> (r: bool)
        requires
            b < self.strict_doms@.len(),
        ensures
            r == set_items(self.strict_doms@[b as int]).contains(a),
    {
        set_contains(&self.strict_doms[b], a)
    }

    /// Whether `b` is a strict dominator of `a`.
    pub fn strictly_dominated_by(&self, a: usize, b: usize) -> (r: bool)
        requires
            a < self.strict_doms@.len(),
        ensures
            r == set_items(self.strict_doms@[a as int]).contains(b),
    {
        self.strictly_dominates(b, a)
    }

    /// Whether `a` is `b` or a strict dominator of `b`.
    pub fn dominates(&self, a: usize, b: usize) -> (r: bool)
        requires
            b < self.strict_doms@.len(),
        ensures
            r == (a == b || set_items(self.strict_doms@[b as int]).contains(a)),
    {
        a == b || self.strictly_dominates(a, b)
    }

    /// Whether `b` is `a` or a strict dominator of `a`.
    pub fn dominated_by(&self, a: usize, b: usize) -> (r: bool)
        requires
            a < self.strict_doms@.len(),
        ensures
            r == (a == b || set_items(self.strict_doms@[a as int]).contains(b)),
    {
        self.dominates(b, a)
    }
}

/// The dominator analysis never fails: its transfer is defined on every
/// block.
pub proof fn lemma_analysis_total(cfg: &CFG, order: Seq<usize>, k: nat)
    ensures
        after(&DominatorPass, cfg, order, k).is_ok(),
    decreases k,
{
    if k > 0 {
        lemma_analysis_total(cfg, order, (k - 1) as nat);
    }
}

/// Every block in a dominance frontier is a block of the function.
pub proof fn lemma_frontier_in_range(tree: &DominatorTree, i: int)
    requires
        tree.wf(),
        0 <= i < tree.nodes(),
    ensures
        forall|s: usize|
            set_items(tree.dominance_frontiers@[i]).contains(s) ==> s < tree.cfg.size(),
{
    let st = analysis(&tree.cfg).unwrap();
    let doms = dom_sets(&tree.cfg, st);
    assert forall|s: usize| set_items(tree.dominance_frontiers@[i]).contains(s) implies s
        < tree.cfg.size() by {
        assert(frontier_of(&tree.cfg, doms, i as usize).contains(s));
        let d = choose|d: usize|
            d < tree.cfg.size() && #[trigger] dom_by(doms, i as usize).contains(d)
                && tree.cfg.succs_spec(d as int).contains(s);
        lemma_neighbours_in_range(&tree.cfg, d);
        let k = choose|k: int|
            0 <= k < tree.cfg.succs_spec(d as int).len() && tree.cfg.succs_spec(d as int)[k]
                == s;
    }
}

/// Whether a strict dominator `c` of node `i` is passed over, said of the
/// strict sets themselves.
pub open spec fn skipped(strict: Seq<LinkedHashSet<usize>>, i: usize, c: usize) -> bool {
    exists|d: usize|
        d < strict.len() && #[trigger] set_items(strict[i as int]).contains(d) && set_items(
            strict[d as int],
        ).contains(c)
}

/// Whether `c` is a nearest strict dominator of node `i`, said of the
/// strict sets themselves.
pub open spec fn close(strict: Seq<LinkedHashSet<usize>>, i: usize, c: usize) -> bool {
    set_items(strict[i as int]).contains(c) && !skipped(strict, i, c)
}

/// The immediate dominator that the strict sets give.
pub open spec fn idom_like(strict: Seq<LinkedHashSet<usize>>, i: usize, r: Option<usize>) -> bool {
    match r {
        Some(c) => close(strict, i, c) && forall|x: usize| close(strict, i, x) ==> x == c,
        None => forall|x: usize| !close(strict, i, x),
    }
}

/// Whether the strict sets give node `i` two nearest strict dominators.
pub open spec fn several(strict: Seq<LinkedHashSet<usize>>, i: usize) -> bool {
    exists|a: usize, b: usize|
        a != b && #[trigger] close(strict, i, a) && #[trigger] close(strict, i, b)
}

/// The nearest strict dominators are the same whether said of the strict
/// sets or of the dominator sets they come from.
pub proof fn lemma_close(strict: Seq<LinkedHashSet<usize>>, sets: Seq<Set<usize>>, i: usize)
    requires
        strict.len() == sets.len(),
        i < strict.len(),
        forall|k: int|
            0 <= k < strict.len() ==> set_items(#[trigger] strict[k]) == strict_of(sets, k as usize),
    ensures
        forall|c: usize| #[trigger] close(strict, i, c) <==> nearest(sets, i).contains(c),
{
    assert forall|c: usize| #[trigger] close(strict, i, c) <==> nearest(sets, i).contains(c) by {
        assert(set_items(strict[i as int]) == strict_of(sets, i));
        if skipped(strict, i, c) {
            let d = choose|d: usize|
                d < strict.len() && #[trigger] set_items(strict[i as int]).contains(d) && set_items(
                    strict[d as int],
                ).contains(c);
            assert(set_items(strict[d as int]) == strict_of(sets, d));
            assert(strict_of(sets, i).contains(d));
            assert(passed_over(sets, i, c));
        }
        if passed_over(sets, i, c) {
            let d = choose|d: usize|
                d < sets.len() && #[trigger] strict_of(sets, i).contains(d) && strict_of(
                    sets,
                    d,
                ).contains(c);
            assert(set_items(strict[d as int]) == strict_of(sets, d));
            assert(set_items(strict[i as int]).contains(d));
            assert(skipped(strict, i, c));
        }
    }
}

} // verus!
