//! A test of dominator sets against the paths of the graph: every way from
//! the first block to a block, without a block twice, must lead through
//! all the dominators of the block.
use crate::cfg::{lemma_neighbours_in_range, CFG};
use crate::index_set::{set_to_vec, set_items};
use crate::text::{decimal, decimal_string};
use linked_hash_set::LinkedHashSet;
use vstd::prelude::*;
use vstd::string::StringExecFns;

verus! {

/// Whether every way on from the end of `path` to `target`, through blocks
/// that are not on `path` and of at most `fuel` more blocks, leads, with
/// `path`, through all of `doms`.
pub open spec fn paths_ok(cfg: &CFG, doms: Set<usize>, path: Seq<usize>, target: usize, fuel: nat) -> bool
    decreases fuel,
{
    let pos = path.last();
    if pos == target {
        doms.subset_of(path.to_set())
    } else if fuel == 0 {
        true
    } else {
        forall|k: int|
            0 <= k < cfg.succs_spec(pos as int).len() ==> (path.contains(
                #[trigger] cfg.succs_spec(pos as int)[k],
            ) || paths_ok(
                cfg,
                doms,
                path.push(cfg.succs_spec(pos as int)[k]),
                target,
                (fuel - 1) as nat,
            ))
    }
}

/// The report of a way that misses a dominator.
pub open spec fn miss_message(target: usize) -> Seq<char> {
    "Not all dominators visited for path from "@ + decimal(target as nat) + " to "@ + decimal(
        target as nat,
    )
}

/// The test of dominator sets.
#[derive(Clone, Copy, Debug, PartialEq, Eq, Structural)]
pub struct DomChecker;

impl DomChecker {
    /// Searches the ways on from `pos`.
    fn check_paths_rec(
        pos: usize,
        target: usize,
        cfg: &CFG,
        doms: &Vec<usize>,
        visited: &mut Vec<bool>,
        Ghost(path): Ghost<Seq<usize>>,
        fuel: usize,
    ) -> (r: Result<(), String>)
        requires
            cfg.wf(),
            old(visited).len() == cfg.size(),
            pos < cfg.size(),
            path.len() > 0,
            path.last() == pos,
            forall|i: int| 0 <= i < path.len() ==> #[trigger] path[i] < cfg.size(),
            forall|i: int| 0 <= i < old(visited).len() ==> (#[trigger] old(visited)[i] == path.contains(
                i as usize,
            )),
        ensures
            final(visited)@ == old(visited)@,
            match r {
                Ok(_) => paths_ok(cfg, doms@.to_set(), path, target, fuel as nat),
                Err(m) => !paths_ok(cfg, doms@.to_set(), path, target, fuel as nat) && m@
                    == miss_message(target),
            },
        decreases fuel,
    {
        if pos == target {
            let mut i: usize = 0;
            while i < doms.len()
                invariant
                    i <= doms.len(),
                    visited.len() == cfg.size(),
                    pos == target,
                    path.len() > 0,
                    path.last() == pos,
                    forall|j: int| 0 <= j < path.len() ==> #[trigger] path[j] < cfg.size(),
                    forall|j: int| 0 <= j < visited.len() ==> (#[trigger] visited[j] == path.contains(
                        j as usize,
                    )),
                    forall|j: int| 0 <= j < i ==> path.contains(#[trigger] doms[j]),
                decreases doms.len() - i,
            {
                let d = doms[i];
                if d >= visited.len() || !visited[d] {
                    let mut m = "Not all dominators visited for path from ".to_owned();
                    m.append(decimal_string(pos).as_str());
                    m.append(" to ");
                    m.append(decimal_string(target).as_str());
                    proof {
                        assert(doms@.to_set().contains(d));
                        assert(!path.to_set().contains(d));
                    }
                    return Err(m);
                }
                i += 1;
            }
            proof {
                assert forall|d: usize| doms@.to_set().contains(d) implies path.to_set().contains(
                    d,
                ) by {
                    let j = choose|j: int| 0 <= j < doms@.len() && doms@[j] == d;
                    assert(path.contains(doms[j]));
                }
            }
            Ok(())
        } else if fuel == 0 {
            Ok(())
        } else {
            let succs = cfg.succs(pos);
            proof {
                lemma_neighbours_in_range(cfg, pos);
            }
            let mut k: usize = 0;
            while k < succs.len()
                invariant
                    k <= succs.len(),
                    cfg.wf(),
                    succs@ == cfg.succs_spec(pos as int),
                    forall|j: int| 0 <= j < succs.len() ==> #[trigger] succs[j] < cfg.size(),
                    visited.len() == cfg.size(),
                    visited@ == old(visited)@,
                    fuel > 0,
                    pos != target,
                    path.len() > 0,
                    path.last() == pos,
                    forall|i: int| 0 <= i < path.len() ==> #[trigger] path[i] < cfg.size(),
                    forall|i: int| 0 <= i < visited.len() ==> (#[trigger] visited[i] == path.contains(
                        i as usize,
                    )),
                    forall|j: int|
                        0 <= j < k ==> (path.contains(#[trigger] succs[j]) || paths_ok(
                            cfg,
                            doms@.to_set(),
                            path.push(succs[j]),
                            target,
                            (fuel - 1) as nat,
                        )),
                decreases succs.len() - k,
            {
                let next = succs[k];
                if !visited[next] {
                    let ghost longer = path.push(next);
                    let ghost before = visited@;
                    visited.set(next, true);
                    proof {
                        assert forall|i: int| 0 <= i < visited.len() implies (#[trigger] visited[i]
                            == longer.contains(i as usize)) by {
                            if i == next {
                                assert(longer[path.len() as int] == next);
                            } else {
                                if path.contains(i as usize) {
                                    let t = choose|t: int| 0 <= t < path.len() && path[t] == i as usize;
                                    assert(longer[t] == i as usize);
                                }
                                if longer.contains(i as usize) {
                                    let t = choose|t: int|
                                        0 <= t < longer.len() && longer[t] == i as usize;
                                    assert(path[t] == i as usize);
                                }
                            }
                        }
                    }
                    let ret = Self::check_paths_rec(
                        next,
                        target,
                        cfg,
                        doms,
                        visited,
                        Ghost(longer),
                        fuel - 1,
                    );
                    visited.set(next, false);
                    assert(visited@ =~= before);
                    match ret {
                        Ok(()) => {},
                        Err(m) => {
                            proof {
                                assert(!path.contains(cfg.succs_spec(pos as int)[k as int]));
                            }
                            return Err(m);
                        },
                    }
                }
                k += 1;
            }
            Ok(())
        }
    }

    /// Tests that every way from the first block to `target`, without a
    /// block twice, leads through all of `doms`.
    pub fn check_paths(target: usize, cfg: &CFG, doms: &LinkedHashSet<usize>) -> (r: Result<
        (),
        String,
    >)
        requires
            cfg.wf(),
            cfg.size() > 0,
        ensures
            match r {
                Ok(_) => paths_ok(cfg, set_items(*doms), seq![0usize], target, cfg.size()),
                Err(m) => !paths_ok(cfg, set_items(*doms), seq![0usize], target, cfg.size()) && m@
                    == miss_message(target),
            },
    {
        let n = cfg.len();
        let mut visited: Vec<bool> = Vec::new();
        let mut i: usize = 0;
        while i < n
            invariant
                i <= n,
                visited.len() == i,
                forall|j: int| 0 <= j < i ==> #[trigger] visited[j] == (j == 0),
            decreases n - i,
        {
            visited.push(i == 0);
            i += 1;
        }
        let list = set_to_vec(doms);
        let ghost path = seq![0usize];
        proof {
            assert forall|i: int| 0 <= i < visited.len() implies (#[trigger] visited[i] == path.contains(
                i as usize,
            )) by {
                if i == 0 {
                    assert(path[0] == 0);
                }
            }
        }
        Self::check_paths_rec(0, target, cfg, &list, &mut visited, Ghost(path), n)
    }
}

} // verus!
