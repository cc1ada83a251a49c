//! Live variables: the names whose value may still be read after a point
//! of the program. The analysis runs against the flow of control.
use crate::basic_block::{BasicBlock, BlockView};
use crate::bb_function::{BBFunction, BBFunctionView};
use crate::dataflow::DataflowPass;
use crate::ir::{lemma_deep_index, InstrView};
use crate::names::{lemma_take_set, NameSet};
use crate::passes::PassError;
use vstd::prelude::*;

verus! {

/// The analysis of live variables.
#[derive(Clone, Copy, Debug, PartialEq, Eq, Structural)]
pub struct LiveVars;

/// The union of some sets of names.
pub open spec fn union_all(vals: Seq<Set<Seq<char>>>) -> Set<Seq<char>>
    decreases vals.len(),
{
    if vals.len() == 0 {
        Set::empty()
    } else {
        union_all(vals.drop_last()).union(vals.last())
    }
}

/// The names live before an instruction, given those live after it: its
/// destination is not, its arguments are.
pub open spec fn live_before(i: InstrView, after: Set<Seq<char>>) -> Set<Seq<char>> {
    (match i.dest() {
        Some(d) => after.remove(d),
        None => after,
    }).union(i.arg_list().to_set())
}

/// The names live before the last `k` instructions of a run, given those
/// live after the run.
pub open spec fn live_through(all: Seq<InstrView>, k: int, after: Set<Seq<char>>) -> Set<Seq<char>>
    decreases k,
{
    if k <= 0 {
        after
    } else {
        live_before(all[all.len() - k], live_through(all, k - 1, after))
    }
}

impl DataflowPass for LiveVars {
    type Val = NameSet;

    type Model = Set<Seq<char>>;

    open spec fn model(v: &NameSet) -> Set<Seq<char>> {
        v@
    }

    open spec fn usable(&self) -> bool {
        true
    }

    open spec fn reversed_spec(&self) -> bool {
        true
    }

    open spec fn entry_spec(&self, f: BBFunctionView) -> Set<Seq<char>> {
        Set::empty()
    }

    open spec fn init_spec(&self, f: BBFunctionView) -> Set<Seq<char>> {
        Set::empty()
    }

    open spec fn meet_spec(&self, vals: Seq<Set<Seq<char>>>) -> Set<Seq<char>> {
        union_all(vals)
    }

    open spec fn transfer_spec(&self, b: BlockView, v: Set<Seq<char>>) -> Result<
        Set<Seq<char>>,
        PassError,
    > {
        Ok(live_through(b.all(), b.all().len() as int, v))
    }

    open spec fn finish_spec(&self, f: BBFunctionView, v: Set<Seq<char>>) -> Set<Seq<char>> {
        v
    }

    fn reversed(&self) -> (r: bool) {
        true
    }

    fn entry(&self, func: &BBFunction) -> (r: NameSet) {
        NameSet::new()
    }

    fn init(&self, func: &BBFunction) -> (r: NameSet) {
        NameSet::new()
    }

    fn meet(&self, in_vals: &Vec<NameSet>) -> (r: NameSet) {
        let ghost vals = Seq::new(in_vals@.len(), |i: int| in_vals@[i]@);
        assert(vals =~= Seq::new(in_vals@.len(), |i: int| Self::model(&in_vals@[i])));
        let mut r = NameSet::new();
        let mut i: usize = 0;
        assert(vals.take(0) =~= seq![]);
        while i < in_vals.len()
            invariant
                i <= in_vals.len(),
                vals == Seq::new(in_vals@.len(), |i: int| in_vals@[i]@),
                r.wf(),
                r@ == union_all(vals.take(i as int)),
            decreases in_vals.len() - i,
        {
            proof {
                let next = vals.take(i + 1);
                assert(next.drop_last() =~= vals.take(i as int));
                assert(next.last() == in_vals@[i as int]@);
            }
            let ghost base = r@;
            let s = &in_vals[i];
            let mut j: usize = 0;
            proof {
                crate::names::lemma_take_none(s.elems());
                assert(s.elems().take(0).to_set() =~= Set::<Seq<char>>::empty());
                assert(base.union(Set::<Seq<char>>::empty()) =~= base);
            }
            while j < s.len()
                invariant
                    j <= s.elems().len(),
                    r.wf(),
                    r@ == base.union(s.elems().take(j as int).to_set()),
                decreases s.elems().len() - j,
            {
                proof {
                    lemma_take_set(s.elems(), j as int);
                }
                r.insert(s.get(j).clone());
                assert(r@ =~= base.union(s.elems().take(j + 1).to_set()));
                j += 1;
            }
            assert(s.elems().take(s.elems().len() as int) =~= s.elems());
            i += 1;
        }
        assert(vals.take(in_vals.len() as int) =~= vals);
        r
    }

    fn transfer(&self, block: &BasicBlock, in_val: &NameSet) -> (r: Result<NameSet, PassError>) {
        let all = block.iter();
        let ghost view = block@.all();
        let mut out = fresh_copy(in_val);
        let mut k: usize = 0;
        while k < all.len()
            invariant
                k <= all.len(),
                view == all.deep_view(),
                out.wf(),
                out@ == live_through(view, k as int, in_val@),
            decreases all.len() - k,
        {
            let idx = all.len() - 1 - k;
            let instr = &all[idx];
            proof {
                lemma_deep_index(all);
                assert(view[view.len() - (k + 1)] == instr@);
            }
            match instr.dest_ref() {
                Some(d) => {
                    out.remove(d);
                },
                None => {},
            }
            let ghost base = out@;
            match instr.args_ref() {
                Some(args) => {
                    let ghost names = args.deep_view();
                    let mut j: usize = 0;
                    proof {
                        crate::names::lemma_take_none(names);
                        assert(names.take(0).to_set() =~= Set::<Seq<char>>::empty());
                        assert(base.union(Set::<Seq<char>>::empty()) =~= base);
                    }
                    while j < args.len()
                        invariant
                            j <= args.len(),
                            names == args.deep_view(),
                            out.wf(),
                            out@ == base.union(names.take(j as int).to_set()),
                        decreases args.len() - j,
                    {
                        proof {
                            lemma_deep_index(*args);
                            lemma_take_set(names, j as int);
                        }
                        out.insert(args[j].clone());
                        assert(out@ =~= base.union(names.take(j + 1).to_set()));
                        j += 1;
                    }
                    assert(names.take(args.len() as int) =~= names);
                },
                None => {
                    assert(instr@.arg_list() =~= seq![]);
                    assert(Seq::<Seq<char>>::empty().to_set() =~= Set::<Seq<char>>::empty());
                    assert(base.union(Set::<Seq<char>>::empty()) =~= base);
                },
            }
            k += 1;
        }
        Ok(out)
    }

    fn finish(&self, func: &BBFunction, exit_val: NameSet) -> (r: NameSet) {
        exit_val
    }

    fn same(&self, a: &NameSet, b: &NameSet) -> (r: bool) {
        a.same_set(b)
    }

    fn copy(&self, v: &NameSet) -> (r: NameSet) {
        v.dup()
    }
}

/// A set in order that holds the names of another.
fn fresh_copy(s: &NameSet) -> (r: NameSet)
    ensures
        r.wf(),
        r@ == s@,
{
    let mut r = NameSet::new();
    let mut j: usize = 0;
    proof {
        crate::names::lemma_take_none(s.elems());
        assert(s.elems().take(0).to_set() =~= Set::<Seq<char>>::empty());
    }
    while j < s.len()
        invariant
            j <= s.elems().len(),
            r.wf(),
            r@ == s.elems().take(j as int).to_set(),
        decreases s.elems().len() - j,
    {
        proof {
            lemma_take_set(s.elems(), j as int);
        }
        r.insert(s.get(j).clone());
        j += 1;
    }
    assert(s.elems().take(s.elems().len() as int) =~= s.elems());
    r
}

} // verus!
