//! The dominator sets of the blocks of a function, as a dataflow analysis:
//! the blocks that every way to a block leads through.
use crate::basic_block::{BasicBlock, BlockView};
use crate::bb_function::{BBFunction, BBFunctionView};
use crate::dataflow::DataflowPass;
use crate::index_set::{set_clone, set_eq, set_insert, set_intersect, set_items, set_new};
use crate::passes::PassError;
use linked_hash_set::LinkedHashSet;
use vstd::prelude::*;

verus! {

/// The analysis of dominator sets.
#[derive(Clone, Copy, Debug, PartialEq, Eq, Structural)]
pub struct DominatorPass;

/// What reaches a block from several predecessors: what all of them hold;
/// nothing if there is no predecessor.
pub open spec fn meet_all(vals: Seq<Set<usize>>) -> Set<usize>
    decreases vals.len(),
{
    if vals.len() == 0 {
        Set::empty()
    } else if vals.len() == 1 {
        vals[0]
    } else {
        meet_all(vals.drop_last()).intersect(vals.last())
    }
}

/// The meet of some sets holds an index exactly if there is a set and all
/// sets hold it.
pub proof fn lemma_meet_all(vals: Seq<Set<usize>>, x: usize)
    ensures
        meet_all(vals).contains(x) <==> (vals.len() > 0 && forall|k: int|
            0 <= k < vals.len() ==> (#[trigger] vals[k]).contains(x)),
    decreases vals.len(),
{
    if vals.len() > 1 {
        lemma_meet_all(vals.drop_last(), x);
        if meet_all(vals).contains(x) {
            assert forall|k: int| 0 <= k < vals.len() implies (#[trigger] vals[k]).contains(x) by {
                if k < vals.len() - 1 {
                    assert(vals.drop_last()[k] == vals[k]);
                }
            }
        }
        if forall|k: int| 0 <= k < vals.len() ==> (#[trigger] vals[k]).contains(x) {
            assert forall|k: int| 0 <= k < vals.drop_last().len() implies (#[trigger] vals.drop_last()[k]).contains(
                x,
            ) by {
                assert(vals[k].contains(x));
            }
            assert(vals.last() == vals[vals.len() - 1]);
        }
    }
}

/// All the blocks of a function.
pub open spec fn all_blocks(f: BBFunctionView) -> Set<usize> {
    Set::new(|i: usize| i < f.blocks.len())
}

impl DataflowPass for DominatorPass {
    type Val = LinkedHashSet<usize>;

    type Model = Set<usize>;

    open spec fn model(v: &LinkedHashSet<usize>) -> Set<usize> {
        set_items(*v)
    }

    open spec fn usable(&self) -> bool {
        true
    }

    open spec fn reversed_spec(&self) -> bool {
        false
    }

    open spec fn entry_spec(&self, f: BBFunctionView) -> Set<usize> {
        set![0usize]
    }

    open spec fn init_spec(&self, f: BBFunctionView) -> Set<usize> {
        all_blocks(f)
    }

    open spec fn meet_spec(&self, vals: Seq<Set<usize>>) -> Set<usize> {
        meet_all(vals)
    }

    open spec fn transfer_spec(&self, b: BlockView, v: Set<usize>) -> Result<Set<usize>, PassError> {
        Ok(v.insert(b.idx))
    }

    open spec fn finish_spec(&self, f: BBFunctionView, v: Set<usize>) -> Set<usize> {
        v
    }

    fn reversed(&self) -> (r: bool) {
        false
    }

    fn entry(&self, func: &BBFunction) -> (r: LinkedHashSet<usize>) {
        let mut s = set_new();
        set_insert(&mut s, 0);
        assert(set_items(s) =~= set![0usize]);
        s
    }

    fn init(&self, func: &BBFunction) -> (r: LinkedHashSet<usize>) {
        let mut s = set_new();
        let n = func.len();
        let mut i: usize = 0;
        assert(set_items(s) =~= Set::new(|j: usize| j < 0));
        while i < n
            invariant
                i <= n,
                set_items(s) == Set::new(|j: usize| j < i),
            decreases n - i,
        {
            set_insert(&mut s, i);
            assert(set_items(s) =~= Set::new(|j: usize| j < i + 1));
            i += 1;
        }
        assert(set_items(s) =~= all_blocks(func@));
        s
    }

    fn meet(&self, in_vals: &Vec<LinkedHashSet<usize>>) -> (r: LinkedHashSet<usize>) {
        let ghost vals = Seq::new(in_vals@.len(), |i: int| set_items(in_vals@[i]));
        assert(vals =~= Seq::new(in_vals@.len(), |i: int| Self::model(&in_vals@[i])));
        if in_vals.len() == 0 {
            return set_new();
        }
        let mut acc = set_clone(&in_vals[0]);
        let mut i: usize = 1;
        assert(vals.take(1).len() == 1);
        while i < in_vals.len()
            invariant
                1 <= i <= in_vals.len(),
                vals == Seq::new(in_vals@.len(), |i: int| set_items(in_vals@[i])),
                set_items(acc) == meet_all(vals.take(i as int)),
            decreases in_vals.len() - i,
        {
            proof {
                let next = vals.take(i + 1);
                assert(next.drop_last() =~= vals.take(i as int));
                assert(next.last() == set_items(in_vals@[i as int]));
            }
            acc = set_intersect(&acc, &in_vals[i]);
            i += 1;
        }
        assert(vals.take(in_vals.len() as int) =~= vals);
        acc
    }

    fn transfer(&self, block: &BasicBlock, in_val: &LinkedHashSet<usize>) -> (r: Result<
        LinkedHashSet<usize>,
        PassError,
    >) {
        let mut doms = set_clone(in_val);
        set_insert(&mut doms, block.idx);
        Ok(doms)
    }

    fn finish(&self, func: &BBFunction, exit_val: LinkedHashSet<usize>) -> (r: LinkedHashSet<usize>) {
        exit_val
    }

    fn same(&self, a: &LinkedHashSet<usize>, b: &LinkedHashSet<usize>) -> (r: bool) {
        set_eq(a, b)
    }

    fn copy(&self, v: &LinkedHashSet<usize>) -> (r: LinkedHashSet<usize>) {
        set_clone(v)
    }
}

} // verus!
