//! Reaching definitions: for each point of the program, the writes that
//! may have given a name the value it has there, each told by its name and
//! the block that holds it.
use crate::basic_block::{BasicBlock, BlockView};
use crate::bb_function::{BBFunction, BBFunctionView};
use crate::dataflow::DataflowPass;
use crate::ir::{arg_names, lemma_deep_index, ArgView};
use crate::names::NameSet;
use crate::passes::PassError;
use crate::vec_set::{union_of, Keyed, VecSet};
use vstd::prelude::*;

verus! {

/// A write to a name in a block.
#[derive(Debug, PartialEq, Eq)]
pub struct Definition {
    pub name: String,
    pub block: usize,
}

impl Keyed for Definition {
    type Key = (Seq<char>, usize);

    open spec fn key(&self) -> (Seq<char>, usize) {
        (self.name@, self.block)
    }

    fn same_key(&self, other: &Self) -> (r: bool) {
        self.name.eq(&other.name) && self.block == other.block
    }

    fn dup(&self) -> (r: Self) {
        Definition { name: self.name.clone(), block: self.block }
    }
}

/// The analysis of reaching definitions.
#[derive(Clone, Copy, Debug, PartialEq, Eq, Structural)]
pub struct ReachingDefs;

/// Whether a plain instruction of a block writes a name.
pub open spec fn defines(b: BlockView, name: Seq<char>) -> bool {
    exists|i: int| 0 <= i < b.instrs.len() && (#[trigger] b.instrs[i]).dest() == Some(name)
}

/// The definitions at the start of a function: one in the first block for
/// each argument.
pub open spec fn arg_defs(f: BBFunctionView) -> Set<(Seq<char>, usize)> {
    Set::new(|d: (Seq<char>, usize)| d.1 == 0 && arg_names(f.args).contains(d.0))
}

/// The definitions that leave a block: those that enter it and are not
/// overwritten, and those of the block itself.
pub open spec fn through(b: BlockView, v: Set<(Seq<char>, usize)>) -> Set<(Seq<char>, usize)> {
    Set::new(
        |d: (Seq<char>, usize)|
            (v.contains(d) && !defines(b, d.0)) || (d.1 == b.idx && defines(b, d.0)),
    )
}

impl DataflowPass for ReachingDefs {
    type Val = VecSet<Definition>;

    type Model = Set<(Seq<char>, usize)>;

    open spec fn model(v: &VecSet<Definition>) -> Set<(Seq<char>, usize)> {
        v@
    }

    open spec fn usable(&self) -> bool {
        true
    }

    open spec fn reversed_spec(&self) -> bool {
        false
    }

    open spec fn entry_spec(&self, f: BBFunctionView) -> Set<(Seq<char>, usize)> {
        arg_defs(f)
    }

    open spec fn init_spec(&self, f: BBFunctionView) -> Set<(Seq<char>, usize)> {
        Set::empty()
    }

    open spec fn meet_spec(&self, vals: Seq<Set<(Seq<char>, usize)>>) -> Set<(Seq<char>, usize)> {
        union_of(vals)
    }

    open spec fn transfer_spec(&self, b: BlockView, v: Set<(Seq<char>, usize)>) -> Result<
        Set<(Seq<char>, usize)>,
        PassError,
    > {
        Ok(through(b, v))
    }

    open spec fn finish_spec(&self, f: BBFunctionView, v: Set<(Seq<char>, usize)>) -> Set<
        (Seq<char>, usize),
    > {
        v
    }

    fn reversed(&self) -> (r: bool) {
        false
    }

    fn entry(&self, func: &BBFunction) -> (r: VecSet<Definition>) {
        let mut r: VecSet<Definition> = VecSet::new();
        let ghost names = arg_names(func@.args);
        let mut i: usize = 0;
        while i < func.args.len()
            invariant
                i <= func.args.len(),
                names == arg_names(func@.args),
                forall|d: (Seq<char>, usize)|
                    r@.contains(d) <==> (d.1 == 0 && names.take(i as int).contains(d.0)),
            decreases func.args.len() - i,
        {
            proof {
                lemma_deep_index(func.args);
                assert(names[i as int] == func.args[i as int]@.name);
                crate::names::lemma_take_set(names, i as int);
            }
            let ghost before = r@;
            r.insert(Definition { name: func.args[i].name.clone(), block: 0 });
            proof {
                assert forall|d: (Seq<char>, usize)|
                    r@.contains(d) <==> (d.1 == 0 && names.take(i + 1).contains(d.0)) by {
                    assert(names.take(i + 1).to_set().contains(d.0) <==> names.take(
                        i as int,
                    ).to_set().insert(names[i as int]).contains(d.0));
                    assert(before.contains(d) <==> (d.1 == 0 && names.take(i as int).contains(d.0)));
                }
            }
            i += 1;
        }
        proof {
            assert(names.take(func.args.len() as int) =~= names);
            assert(r@ =~= arg_defs(func@));
        }
        r
    }

    fn init(&self, func: &BBFunction) -> (r: VecSet<Definition>) {
        VecSet::new()
    }

    fn meet(&self, in_vals: &Vec<VecSet<Definition>>) -> (r: VecSet<Definition>) {
        let ghost vals = Seq::new(in_vals@.len(), |i: int| in_vals@[i]@);
        assert(vals =~= Seq::new(in_vals@.len(), |i: int| Self::model(&in_vals@[i])));
        let mut r: VecSet<Definition> = VecSet::new();
        let mut i: usize = 0;
        assert(vals.take(0) =~= seq![]);
        while i < in_vals.len()
            invariant
                i <= in_vals.len(),
                vals == Seq::new(in_vals@.len(), |i: int| in_vals@[i]@),
                r@ == union_of(vals.take(i as int)),
            decreases in_vals.len() - i,
        {
            proof {
                let next = vals.take(i + 1);
                assert(next.drop_last() =~= vals.take(i as int));
                assert(next.last() == in_vals@[i as int]@);
            }
            r.extend(&in_vals[i]);
            i += 1;
        }
        assert(vals.take(in_vals.len() as int) =~= vals);
        r
    }

    fn transfer(&self, block: &BasicBlock, in_val: &VecSet<Definition>) -> (r: Result<
        VecSet<Definition>,
        PassError,
    >) {
        let instrs = block.instrs();
        let ghost iv = block@.instrs;
        let mut written = NameSet::new();
        let mut i: usize = 0;
        while i < instrs.len()
            invariant
                i <= instrs.len(),
                iv == instrs.deep_view(),
                written.wf(),
                forall|n: Seq<char>|
                    written@.contains(n) <==> exists|j: int|
                        0 <= j < i && (#[trigger] iv[j]).dest() == Some(n),
            decreases instrs.len() - i,
        {
            proof {
                lemma_deep_index(*instrs);
            }
            let ghost before = written@;
            match instrs[i].dest_ref() {
                Some(d) => {
                    written.insert(d.clone());
                    proof {
                        assert forall|n: Seq<char>|
                            written@.contains(n) <==> exists|j: int|
                                0 <= j < i + 1 && (#[trigger] iv[j]).dest() == Some(n) by {
                            if before.contains(n) {
                                let j = choose|j: int|
                                    0 <= j < i && (#[trigger] iv[j]).dest() == Some(n);
                                assert(iv[j].dest() == Some(n));
                            }
                            if n == d@ {
                                assert(iv[i as int].dest() == Some(n));
                            }
                            if exists|j: int| 0 <= j < i + 1 && (#[trigger] iv[j]).dest() == Some(n) {
                                let j = choose|j: int|
                                    0 <= j < i + 1 && (#[trigger] iv[j]).dest() == Some(n);
                                if j < i {
                                    assert(before.contains(n));
                                }
                            }
                        }
                    }
                },
                None => {
                    proof {
                        assert forall|n: Seq<char>|
                            written@.contains(n) <==> exists|j: int|
                                0 <= j < i + 1 && (#[trigger] iv[j]).dest() == Some(n) by {
                            if before.contains(n) {
                                let j = choose|j: int|
                                    0 <= j < i && (#[trigger] iv[j]).dest() == Some(n);
                                assert(iv[j].dest() == Some(n));
                            }
                            if exists|j: int| 0 <= j < i + 1 && (#[trigger] iv[j]).dest() == Some(n) {
                                let j = choose|j: int|
                                    0 <= j < i + 1 && (#[trigger] iv[j]).dest() == Some(n);
                                assert(j < i);
                            }
                        }
                    }
                },
            }
            i += 1;
        }
        assert forall|n: Seq<char>| written@.contains(n) <==> defines(block@, n) by {
            if written@.contains(n) {
                let j = choose|j: int| 0 <= j < instrs.len() && (#[trigger] iv[j]).dest() == Some(n);
                assert(block@.instrs[j].dest() == Some(n));
            }
        }
        let mut out: VecSet<Definition> = VecSet::new();
        let mut i: usize = 0;
        while i < in_val.items.len()
            invariant
                i <= in_val.items.len(),
                forall|n: Seq<char>| written@.contains(n) <==> defines(block@, n),
                forall|d: (Seq<char>, usize)|
                    out@.contains(d) <==> (in_val.keys().take(i as int).contains(d) && !defines(
                        block@,
                        d.0,
                    )),
            decreases in_val.items.len() - i,
        {
            let ghost before = out@;
            proof {
                crate::names::lemma_take_set(in_val.keys(), i as int);
            }
            if !written.contains(&in_val.items[i].name) {
                out.insert(in_val.items[i].dup());
            }
            proof {
                let key = in_val.keys()[i as int];
                assert forall|d: (Seq<char>, usize)|
                    out@.contains(d) <==> (in_val.keys().take(i + 1).contains(d) && !defines(
                        block@,
                        d.0,
                    )) by {
                    assert(in_val.keys().take(i + 1).to_set().contains(d) <==> in_val.keys().take(
                        i as int,
                    ).to_set().insert(key).contains(d));
                    assert(before.contains(d) <==> (in_val.keys().take(i as int).contains(d)
                        && !defines(block@, d.0)));
                }
            }
            i += 1;
        }
        assert(in_val.keys().take(in_val.items.len() as int) =~= in_val.keys());
        let ghost kept = out@;
        assert forall|d: (Seq<char>, usize)|
            #[trigger] kept.contains(d) <==> (in_val@.contains(d) && !defines(block@, d.0)) by {}
        let mut j: usize = 0;
        while j < written.len()
            invariant
                j <= written.elems().len(),
                forall|n: Seq<char>| written@.contains(n) <==> defines(block@, n),
                forall|d: (Seq<char>, usize)|
                    #[trigger] out@.contains(d) <==> (kept.contains(d) || (d.1 == block.idx
                        && written.elems().take(j as int).contains(d.0))),
            decreases written.elems().len() - j,
        {
            let ghost before = out@;
            proof {
                crate::names::lemma_take_set(written.elems(), j as int);
            }
            let def = Definition { name: written.get(j).clone(), block: block.idx };
            assert(def.key() == (written.elems()[j as int], block.idx));
            out.insert(def);
            proof {
                let name = written.elems()[j as int];
                assert(out@ == before.insert((name, block.idx)));
                assert forall|d: (Seq<char>, usize)|
                    #[trigger] out@.contains(d) <==> (kept.contains(d) || (d.1 == block.idx
                        && written.elems().take(j + 1).contains(d.0))) by {
                    assert(written.elems().take(j + 1).to_set().contains(d.0)
                        <==> written.elems().take(j as int).to_set().insert(name).contains(d.0));
                    assert(before.contains(d) <==> (kept.contains(d) || (d.1 == block.idx
                        && written.elems().take(j as int).contains(d.0))));
                }
            }
            j += 1;
        }
        proof {
            assert(written.elems().take(written.elems().len() as int) =~= written.elems());
            assert forall|d: (Seq<char>, usize)| out@.contains(d) <==> through(
                block@,
                in_val@,
            ).contains(d) by {
                assert(written@.contains(d.0) <==> defines(block@, d.0));
                assert(written@.contains(d.0) <==> written.elems().contains(d.0));
                assert(kept.contains(d) <==> (in_val@.contains(d) && !defines(block@, d.0)));
                assert(out@.contains(d) <==> (kept.contains(d) || (d.1 == block.idx
                    && written.elems().contains(d.0))));
            }
            assert(out@ =~= through(block@, in_val@));
        }
        Ok(out)
    }

    fn finish(&self, func: &BBFunction, exit_val: VecSet<Definition>) -> (r: VecSet<Definition>) {
        exit_val
    }

    fn same(&self, a: &VecSet<Definition>, b: &VecSet<Definition>) -> (r: bool) {
        a.same_set(b)
    }

    fn copy(&self, v: &VecSet<Definition>) -> (r: VecSet<Definition>) {
        v.dup()
    }
}

} // verus!
