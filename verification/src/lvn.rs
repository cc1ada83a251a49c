//! Local value numbering: within a block, an instruction whose value was
//! computed before becomes a copy, one that folds becomes a constant, and
//! a name that is written again is kept apart from its later value.
use crate::basic_block::{BasicBlock, BlockView};
use crate::bb_function::{BBFunction, BBFunctionView};
use crate::float::{unit_ok, FloatQuery};
use crate::instr::InstrExt;
use crate::ir::{
    arg_names, clone_args, clone_pos, lemma_deep_index, lemma_deep_push, ArgView, Argument,
    ConstOps, Function, FunctionView, InstrView, Instruction, Literal, Program, ProgramView,
};
use crate::lvn_table::{LVNTable, LVNValue, TableView, ValueKey};
use crate::names::{NameMap, NameSet};
use crate::passes::{flat_rel, run_on_flat, FunctionPass, Pass, PassError};
use crate::text::{decimal, decimal_string};
use vstd::prelude::*;
use vstd::string::StringExecFns;

verus! {

/// The name made up from a name and a number.
pub open spec fn candidate(pref: Seq<char>, n: nat) -> Seq<char> {
    "_"@ + pref + "_"@ + decimal(n)
}

/// Whether `k` is the first number from `nid` on whose made-up name is not
/// taken.
pub open spec fn first_free(pref: Seq<char>, nid: usize, names: Set<Seq<char>>, k: int) -> bool {
    &&& nid <= k
    &&& !names.contains(candidate(pref, k as nat))
    &&& forall|j: int| nid <= j < k ==> names.contains(#[trigger] candidate(pref, j as nat))
}

/// A fresh name for `pref`, and the counter after it: the made-up name of
/// the first number from `nid` on that is not taken. It fails if no number
/// that the counter can hold is free.
pub open spec fn unique_spec(pref: Seq<char>, nid: usize, names: Set<Seq<char>>) -> Result<
    (Seq<char>, usize),
    PassError,
> {
    if exists|k: int| k < usize::MAX && first_free(pref, nid, names, k) {
        let k = choose|k: int| k < usize::MAX && first_free(pref, nid, names, k);
        Ok((candidate(pref, k as nat), (k + 1) as usize))
    } else {
        Err(PassError::Capacity)
    }
}

/// The names that a run of instructions writes.
pub open spec fn written_in(s: Seq<InstrView>) -> Set<Seq<char>>
    decreases s.len(),
{
    if s.len() == 0 {
        Set::empty()
    } else {
        match s.last().dest() {
            Some(d) => written_in(s.drop_last()).insert(d),
            None => written_in(s.drop_last()),
        }
    }
}

/// The names that the blocks of a function write.
pub open spec fn written_blocks(blocks: Seq<BlockView>) -> Set<Seq<char>>
    decreases blocks.len(),
{
    if blocks.len() == 0 {
        Set::empty()
    } else {
        written_blocks(blocks.drop_last()).union(written_in(blocks.last().all()))
    }
}

/// The names of a list, as a set.
pub open spec fn name_set(names: Seq<Seq<char>>) -> Set<Seq<char>> {
    names.to_set()
}

/// Whether a later instruction of the block writes the name.
pub open spec fn written_later(all: Seq<InstrView>, i: int, name: Seq<char>) -> bool {
    exists|j: int| i < j < all.len() && (#[trigger] all[j]).dest() == Some(name)
}

/// The constant that gives the destination of an instruction a literal,
/// with the type and the position of the instruction.
pub open spec fn as_constant(i: InstrView, l: Literal) -> InstrView {
    InstrView::Constant {
        dest: i.dest().unwrap(),
        const_type: i.get_type().unwrap(),
        value: l,
        op: ConstOps::Const,
        pos: i.pos(),
    }
}

/// The instruction as it leaves the pass when its value has a row of its
/// own: a constant if the value is a literal, else itself.
pub open spec fn settle(t: TableView, row: usize, i: InstrView) -> InstrView {
    match t.rows[row as int].1 {
        ValueKey::Literal(l) => as_constant(i, l),
        _ => i,
    }
}

/// The table and the counter of fresh names at some instruction of a
/// block.
pub struct LvnState {
    pub table: TableView,
    pub nid: usize,
}

/// What the pass makes of the instruction at position `k` of a block, and
/// the state after it. The arguments are replaced by the names that stand
/// for their values, and the value is interned. An effect stays as it is.
/// A value that another instruction gave before becomes a reference to its
/// row. A new value keeps its instruction, as a constant if it is a
/// literal; if the block writes the destination again later, the
/// destination gets a fresh name, which then stands for the row.
pub open spec fn step<F: Fn(FloatQuery) -> Literal>(
    s: LvnState,
    names: Set<Seq<char>>,
    all: Seq<InstrView>,
    k: int,
    fl: &F,
) -> Result<(LvnState, InstrView), PassError> {
    let (t1, i1) = s.table.transform(all[k]);
    match t1.intern(i1, fl) {
        Err(e) => Err(PassError::Fold(e)),
        Ok(found) => match found.row {
            None => Ok((LvnState { table: found.table, nid: s.nid }, i1)),
            Some((true, row)) => Ok(
                (
                    LvnState { table: found.table, nid: s.nid },
                    match found.table.build_ref(i1.dest().unwrap()) {
                        Some(r) => r,
                        None => i1,
                    },
                ),
            ),
            Some((false, row)) => {
                let dest = i1.dest().unwrap();
                if written_later(all, k, dest) {
                    match unique_spec(dest, s.nid, names) {
                        Err(e) => Err(e),
                        Ok((name, nid)) => {
                            let t3 = found.table.clobber(row, name);
                            Ok((LvnState { table: t3, nid }, settle(t3, row, i1.set_dest(name))))
                        },
                    }
                } else {
                    Ok(
                        (
                            LvnState { table: found.table, nid: s.nid },
                            settle(found.table, row, i1),
                        ),
                    )
                }
            },
        },
    }
}

/// What the pass makes of the first `n` instructions of a block, and the
/// state after them. The first failure ends the run.
pub open spec fn run<F: Fn(FloatQuery) -> Literal>(
    s: LvnState,
    names: Set<Seq<char>>,
    all: Seq<InstrView>,
    n: int,
    fl: &F,
) -> Result<(LvnState, Seq<InstrView>), PassError>
    decreases n,
{
    if n <= 0 {
        Ok((s, seq![]))
    } else {
        match run(s, names, all, n - 1, fl) {
            Err(e) => Err(e),
            Ok((s1, out)) => match step(s1, names, all, n - 1, fl) {
                Err(e) => Err(e),
                Ok((s2, o)) => Ok((s2, out.push(o))),
            },
        }
    }
}

/// A run that failed on some instructions fails in the same way on more.
pub proof fn lemma_run_failed<F: Fn(FloatQuery) -> Literal>(
    s: LvnState,
    names: Set<Seq<char>>,
    all: Seq<InstrView>,
    k: int,
    n: int,
    fl: &F,
)
    requires
        0 <= k <= n,
        run(s, names, all, k, fl).is_err(),
    ensures
        run(s, names, all, n, fl) == run(s, names, all, k, fl),
    decreases n - k,
{
    if k < n {
        lemma_run_failed(s, names, all, k, n - 1, fl);
    }
}

/// A block with its instructions replaced one for one.
pub open spec fn rebuild(b: BlockView, out: Seq<InstrView>) -> BlockView {
    if b.control_flow.is_some() {
        BlockView { instrs: out.drop_last(), control_flow: Some(out.last()), ..b }
    } else {
        BlockView { instrs: out, control_flow: None, ..b }
    }
}

/// What the pass makes of a block, and the counter of fresh names after
/// it. The table starts with one unknown value for each argument of the
/// function.
pub open spec fn lvn_block<F: Fn(FloatQuery) -> Literal>(
    args: Seq<ArgView>,
    nid: usize,
    names: Set<Seq<char>>,
    b: BlockView,
    fl: &F,
) -> Result<(usize, BlockView), PassError> {
    match run(
        LvnState { table: TableView::seed(args), nid },
        names,
        b.all(),
        b.all().len() as int,
        fl,
    ) {
        Err(e) => Err(e),
        Ok((s, out)) => Ok((s.nid, rebuild(b, out))),
    }
}

/// The pass of local value numbering, with the floating-point unit that it
/// folds float operations with.
pub struct LVNPass<F: Fn(FloatQuery) -> Literal> {
    /// The counter of fresh names.
    pub nid: usize,
    /// The names that the function uses.
    pub names: NameSet,
    /// The arguments of the function.
    pub args: Vec<Argument>,
    /// The floating-point unit.
    pub float: F,
}

/// The index of the last write of each name in a run of instructions.
fn last_writes(all: &Vec<Instruction>) -> (lw: NameMap<usize>)
    ensures
        lw.wf(),
        forall|j: int|
            0 <= j < all.len() && (#[trigger] all[j])@.dest().is_some() ==> lw@.contains_key(
                all[j]@.dest().unwrap(),
            ) && j <= lw@[all[j]@.dest().unwrap()],
        forall|n: Seq<char>| #[trigger]
            lw@.contains_key(n) ==> lw@[n] < all.len() && all[lw@[n] as int]@.dest() == Some(n),
{
    let mut lw: NameMap<usize> = NameMap::new();
    let mut i: usize = 0;
    while i < all.len()
        invariant
            i <= all.len(),
            lw.wf(),
            forall|j: int|
                0 <= j < i && (#[trigger] all[j])@.dest().is_some() ==> lw@.contains_key(
                    all[j]@.dest().unwrap(),
                ) && j <= lw@[all[j]@.dest().unwrap()],
            forall|n: Seq<char>| #[trigger]
                lw@.contains_key(n) ==> lw@[n] < i && all[lw@[n] as int]@.dest() == Some(n),
        decreases all.len() - i,
    {
        match all[i].dest_ref() {
            Some(d) => {
                lw.insert(d.clone(), i);
            },
            None => {},
        }
        i += 1;
    }
    lw
}

impl<F: Fn(FloatQuery) -> Literal> LVNPass<F> {
    /// A pass that has seen no function yet.
    pub fn new(float: F) -> (r: Self)
        requires
            unit_ok(&float),
        ensures
            r.ok(),
            r.nid == 0,
            r.names@ == Set::<Seq<char>>::empty(),
            r.args.deep_view() == Seq::<ArgView>::empty(),
            r.float == float,
    {
        let args: Vec<Argument> = Vec::new();
        assert(args.deep_view() =~= Seq::<ArgView>::empty());
        LVNPass { nid: 0, names: NameSet::new(), args, float }
    }

    /// The pass is usable.
    pub open spec fn ok(&self) -> bool {
        self.names.wf() && unit_ok(&self.float)
    }

    /// A name that the function does not use, made up from `pref` and the
    /// counter, which moves past it.
    pub fn unique_name(&mut self, pref: &String) -> (r: Result<String, PassError>)
        requires
            old(self).ok(),
        ensures
            final(self).ok(),
            final(self).names == old(self).names,
            final(self).args == old(self).args,
            final(self).float == old(self).float,
            match unique_spec(pref@, old(self).nid, old(self).names@) {
                Ok((name, nid)) => r.is_ok() && r.unwrap()@ == name && final(self).nid == nid,
                Err(e) => r == Err::<String, PassError>(e),
            },
    {
        let ghost start = self.nid;
        let ghost names = self.names@;
        loop
            invariant
                self.ok(),
                self.names == old(self).names,
                self.args == old(self).args,
                self.float == old(self).float,
                names == self.names@,
                start == old(self).nid,
                start <= self.nid,
                forall|j: int|
                    start <= j < self.nid ==> names.contains(#[trigger] candidate(pref@, j as nat)),
            decreases usize::MAX - self.nid,
        {
            if self.nid == usize::MAX {
                proof {
                    assert forall|k: int| k < usize::MAX implies !first_free(
                        pref@,
                        start,
                        names,
                        k,
                    ) by {
                        if start <= k {
                            assert(names.contains(candidate(pref@, k as nat)));
                        }
                    }
                }
                return Err(PassError::Capacity);
            }
            let mut name = "_".to_owned();
            name.append(pref.as_str());
            name.append("_");
            name.append(decimal_string(self.nid).as_str());
            assert(name@ == candidate(pref@, self.nid as nat));
            let k = self.nid;
            self.nid = self.nid + 1;
            if !self.names.contains(&name) {
                proof {
                    assert(first_free(pref@, start, names, k as int));
                    let c = choose|c: int| c < usize::MAX && first_free(pref@, start, names, c);
                    if c < k {
                        assert(names.contains(candidate(pref@, c as nat)));
                    }
                    if c > k {
                        assert(names.contains(candidate(pref@, k as nat)));
                    }
                }
                return Ok(name);
            }
        }
    }

    /// Keeps an instruction whose value got a row of its own: as a constant
    /// if the value is a literal, and under a fresh destination if the
    /// block writes the destination again later.
    fn keep_fresh(
        &mut self,
        table: &mut LVNTable,
        instr: Instruction,
        row: usize,
        clobbered: bool,
    ) -> (r: Result<Instruction, PassError>)
        requires
            old(self).ok(),
            old(table).wf(),
            row < old(table)@.rows.len(),
            instr@.dest().is_some(),
        ensures
            final(self).ok(),
            final(self).names == old(self).names,
            final(self).args == old(self).args,
            final(self).float == old(self).float,
            final(table).wf(),
            !clobbered ==> final(table)@ == old(table)@ && final(self).nid == old(self).nid
                && r.is_ok() && r.unwrap()@ == settle(old(table)@, row, instr@),
            clobbered ==> match unique_spec(
                instr@.dest().unwrap(),
                old(self).nid,
                old(self).names@,
            ) {
                Err(e) => r == Err::<Instruction, PassError>(e),
                Ok((name, nid)) => r.is_ok() && final(self).nid == nid && final(table)@ == old(table)@.clobber(row, name) && r.unwrap()@ == settle(
                    old(table)@.clobber(row, name),
                    row,
                    instr@.set_dest(name),
                ),
            },
    {
        let mut instr = instr;
        if clobbered {
            let dest = instr.dest().unwrap();
            let new_name = match self.unique_name(&dest) {
                Ok(n) => n,
                Err(e) => {
                    return Err(e);
                },
            };
            table.clobber(row, &new_name);
            instr.set_dest(new_name);
        }
        let o = match table.value(row) {
            LVNValue::Literal(l) => Instruction::Constant {
                dest: instr.dest().unwrap(),
                const_type: instr.get_type().unwrap(),
                value: *l,
                op: ConstOps::Const,
                pos: clone_instr_pos(&instr),
            },
            _ => instr,
        };
        Ok(o)
    }

    /// Numbers the value of the instruction at position `k` of a block.
    fn number_instr(
        &mut self,
        table: &mut LVNTable,
        all: &Vec<Instruction>,
        lw: &NameMap<usize>,
        k: usize,
    ) -> (r: Result<Instruction, PassError>)
        requires
            old(self).ok(),
            old(table).wf(),
            lw.wf(),
            k < all.len(),
            forall|j: int|
                0 <= j < all.len() && (#[trigger] all[j])@.dest().is_some() ==> lw@.contains_key(
                    all[j]@.dest().unwrap(),
                ) && j <= lw@[all[j]@.dest().unwrap()],
            forall|n: Seq<char>| #[trigger]
                lw@.contains_key(n) ==> lw@[n] < all.len() && all[lw@[n] as int]@.dest() == Some(
                    n,
                ),
        ensures
            final(self).ok(),
            final(self).names == old(self).names,
            final(self).args == old(self).args,
            final(self).float == old(self).float,
            final(table).wf(),
            match step(
                LvnState { table: old(table)@, nid: old(self).nid },
                old(self).names@,
                all.deep_view(),
                k as int,
                &old(self).float,
            ) {
                Ok((s, o)) => r.is_ok() && r.unwrap()@ == o && final(table)@ == s.table && final(self).nid == s.nid && o.is_terminator() == all[k as int]@.is_terminator(),
                Err(e) => r == Err::<Instruction, PassError>(e),
            },
    {
        proof {
            lemma_deep_index(*all);
        }
        let ghost view = all.deep_view();
        let instr = table.transform(all[k].clone());
        let found = match table.intern(&instr, &self.float) {
            Ok(f) => f,
            Err(e) => {
                return Err(PassError::Fold(e));
            },
        };
        match found {
            None => Ok(instr),
            Some((true, _)) => {
                let dest = instr.dest().unwrap();
                match table.build_ref(&dest) {
                    Some(r) => Ok(r),
                    None => Ok(instr),
                }
            },
            Some((false, row)) => {
                let dest = instr.dest().unwrap();
                let last = match lw.get(&dest) {
                    Some(l) => *l,
                    None => 0,
                };
                proof {
                    assert(all[k as int]@.dest() == Some(dest@));
                    if last > k {
                        assert(view[last as int].dest() == Some(dest@));
                    }
                    if written_later(view, k as int, dest@) {
                        let j = choose|j: int|
                            k < j < view.len() && (#[trigger] view[j]).dest() == Some(dest@);
                        assert(all[j]@.dest().is_some());
                    }
                }
                self.keep_fresh(table, instr, row, last > k)
            },
        }
    }

    /// Numbers the values of one block.
    pub fn number_block(&mut self, bb: BasicBlock) -> (r: Result<BasicBlock, PassError>)
        requires
            old(self).ok(),
            bb.wf(),
        ensures
            final(self).ok(),
            final(self).names == old(self).names,
            final(self).args == old(self).args,
            final(self).float == old(self).float,
            match lvn_block(
                old(self).args.deep_view(),
                old(self).nid,
                old(self).names@,
                bb@,
                &old(self).float,
            ) {
                Ok((nid, b)) => r.is_ok() && r.unwrap()@ == b && final(self).nid == nid
                    && r.unwrap().wf(),
                Err(e) => r == Err::<BasicBlock, PassError>(e),
            },
    {
        let mut table = LVNTable::new(&self.args);
        let all = bb.iter();
        let lw = last_writes(&all);
        let ghost view = bb@.all();
        let ghost names = self.names@;
        let ghost s0 = LvnState { table: table@, nid: self.nid };
        let ghost fl = self.float;
        let mut out: Vec<Instruction> = Vec::new();
        let mut k: usize = 0;
        assert(out.deep_view() =~= seq![]);
        while k < all.len()
            invariant
                k <= all.len(),
                view == all.deep_view(),
                view == bb@.all(),
                self.ok(),
                self.names == old(self).names,
                self.args == old(self).args,
                self.float == old(self).float,
                fl == self.float,
                names == self.names@,
                s0 == (LvnState {
                    table: TableView::seed(old(self).args.deep_view()),
                    nid: old(self).nid,
                }),
                table.wf(),
                lw.wf(),
                forall|j: int|
                    0 <= j < all.len() && (#[trigger] all[j])@.dest().is_some()
                        ==> lw@.contains_key(all[j]@.dest().unwrap()) && j <= lw@[all[j]@.dest().unwrap()],
                forall|n: Seq<char>| #[trigger]
                    lw@.contains_key(n) ==> lw@[n] < all.len() && all[lw@[n] as int]@.dest()
                        == Some(n),
                out.len() == k,
                run(s0, names, view, k as int, &fl) == Ok::<(LvnState, Seq<InstrView>), PassError>(
                    (LvnState { table: table@, nid: self.nid }, out.deep_view()),
                ),
                forall|j: int|
                    0 <= j < k ==> (#[trigger] out[j])@.is_terminator() == view[j].is_terminator(),
            decreases all.len() - k,
        {
            proof {
                lemma_deep_index(all);
            }
            let ghost before = out;
            match self.number_instr(&mut table, &all, &lw, k) {
                Ok(o) => {
                    out.push(o);
                    proof {
                        lemma_deep_push(before, out, o);
                    }
                },
                Err(e) => {
                    proof {
                        assert(run(s0, names, view, k + 1, &fl) == Err::<
                            (LvnState, Seq<InstrView>),
                            PassError,
                        >(e));
                        lemma_run_failed(s0, names, view, k + 1, view.len() as int, &fl);
                    }
                    return Err(e);
                },
            }
            k += 1;
        }
        proof {
            lemma_deep_index(out);
        }
        let r = match &bb.control_flow {
            Some(_) => {
                let ghost full = out;
                let t = out.pop().unwrap();
                proof {
                    lemma_deep_index(full);
                    lemma_deep_index(out);
                    assert(out.deep_view() =~= full.deep_view().drop_last());
                    assert(view.last() == bb@.control_flow.unwrap());
                }
                BasicBlock { idx: bb.idx, label: bb.label, instrs: out, control_flow: Some(t) }
            },
            None => BasicBlock { idx: bb.idx, label: bb.label, instrs: out, control_flow: None },
        };
        Ok(r)
    }

    /// Takes note of the arguments of a function and of every name that it
    /// writes.
    pub fn note_function(&mut self, func: &BBFunction)
        requires
            old(self).ok(),
        ensures
            final(self).ok(),
            final(self).nid == old(self).nid,
            final(self).float == old(self).float,
            final(self).args.deep_view() == func@.args,
            final(self).names@ == old(self).names@.union(name_set(arg_names(func@.args))).union(
                written_blocks(func@.blocks),
            ),
    {
        let ghost start = self.names@;
        let ghost args = func@.args;
        let mut i: usize = 0;
        assert(arg_names(args).take(0).to_set() =~= Set::<Seq<char>>::empty());
        assert(start.union(Set::<Seq<char>>::empty()) =~= start);
        while i < func.args.len()
            invariant
                i <= func.args.len(),
                args == func.args.deep_view(),
                self.ok(),
                self.nid == old(self).nid,
                self.float == old(self).float,
                self.names@ == start.union(arg_names(args).take(i as int).to_set()),
            decreases func.args.len() - i,
        {
            proof {
                lemma_deep_index(func.args);
                crate::names::lemma_take_set(arg_names(args), i as int);
            }
            self.names.insert(func.args[i].name.clone());
            assert(self.names@ =~= start.union(arg_names(args).take(i + 1).to_set()));
            i += 1;
        }
        assert(arg_names(args).take(func.args.len() as int) =~= arg_names(args));
        let ghost with_args = self.names@;
        let ghost blocks = func@.blocks;
        let mut b: usize = 0;
        assert(blocks.take(0) =~= seq![]);
        assert(with_args.union(Set::<Seq<char>>::empty()) =~= with_args);
        while b < func.blocks.len()
            invariant
                b <= func.blocks.len(),
                blocks == func.blocks.deep_view(),
                self.ok(),
                self.nid == old(self).nid,
                self.float == old(self).float,
                self.names@ == with_args.union(written_blocks(blocks.take(b as int))),
            decreases func.blocks.len() - b,
        {
            proof {
                let next = blocks.take(b + 1);
                assert(next.drop_last() =~= blocks.take(b as int));
                lemma_deep_index(func.blocks);
                assert(next.last() == func.blocks[b as int]@);
            }
            let all = func.blocks[b].iter();
            let ghost base = self.names@;
            let ghost view = all.deep_view();
            let mut j: usize = 0;
            assert(view.take(0) =~= seq![]);
            assert(base.union(Set::<Seq<char>>::empty()) =~= base);
            while j < all.len()
                invariant
                    j <= all.len(),
                    view == all.deep_view(),
                    self.ok(),
                    self.nid == old(self).nid,
                    self.float == old(self).float,
                    self.names@ == base.union(written_in(view.take(j as int))),
                decreases all.len() - j,
            {
                proof {
                    let next = view.take(j + 1);
                    assert(next.drop_last() =~= view.take(j as int));
                    lemma_deep_index(all);
                    assert(next.last() == all[j as int]@);
                }
                match all[j].dest_ref() {
                    Some(d) => {
                        self.names.insert(d.clone());
                        assert(self.names@ =~= base.union(written_in(view.take(j + 1))));
                    },
                    None => {},
                }
                j += 1;
            }
            proof {
                assert(view.take(all.len() as int) =~= view);
                assert(self.names@ =~= with_args.union(written_blocks(blocks.take(b + 1))));
            }
            b += 1;
        }
        assert(blocks.take(func.blocks.len() as int) =~= blocks);
        self.args = clone_args(&func.args);
    }
}

/// The position of an instruction, copied.
fn clone_instr_pos(i: &Instruction) -> (r: Option<crate::ir::Position>)
    ensures
        crate::ir::pos_view(r) == i@.pos(),
{
    match i {
        Instruction::Constant { pos, .. } => clone_pos(pos),
        Instruction::Value { pos, .. } => clone_pos(pos),
        Instruction::Effect { pos, .. } => clone_pos(pos),
    }
}

impl<F: Fn(FloatQuery) -> Literal> FunctionPass for LVNPass<F> {
    open spec fn inv(&self) -> bool {
        self.ok()
    }

    open spec fn block_rel(&self, bb: BlockView, post: &Self, out: Result<BlockView, PassError>) -> bool {
        &&& post.names == self.names
        &&& post.args == self.args
        &&& post.float == self.float
        &&& match lvn_block(self.args.deep_view(), self.nid, self.names@, bb, &self.float) {
            Ok((nid, b)) => out == Ok::<BlockView, PassError>(b) && post.nid == nid,
            Err(e) => out == Err::<BlockView, PassError>(e),
        }
    }

    open spec fn before_rel(
        &self,
        f: BBFunctionView,
        post: &Self,
        out: Result<BBFunctionView, PassError>,
    ) -> bool {
        &&& out == Ok::<BBFunctionView, PassError>(f)
        &&& post.nid == self.nid
        &&& post.float == self.float
        &&& post.args.deep_view() == f.args
        &&& post.names@ == self.names@.union(name_set(arg_names(f.args))).union(
            written_blocks(f.blocks),
        )
    }

    open spec fn after_rel(
        &self,
        f: BBFunctionView,
        post: &Self,
        out: Result<BBFunctionView, PassError>,
    ) -> bool {
        out == Ok::<BBFunctionView, PassError>(f) && *post == *self
    }

    fn basic_block(&mut self, bb: BasicBlock) -> (r: Result<BasicBlock, PassError>) {
        self.number_block(bb)
    }

    fn before(&mut self, func: BBFunction) -> (r: Result<BBFunction, PassError>) {
        self.note_function(&func);
        Ok(func)
    }

    fn after(&mut self, func: BBFunction) -> (r: Result<BBFunction, PassError>) {
        Ok(func)
    }
}

impl<F: Fn(FloatQuery) -> Literal> Pass for LVNPass<F> {
    open spec fn ready(&self) -> bool {
        self.ok()
    }

    open spec fn function_rel(
        &self,
        f: FunctionView,
        post: &Self,
        out: Result<FunctionView, PassError>,
    ) -> bool {
        flat_rel(self, f, post, out)
    }

    open spec fn start_rel(&self, p: ProgramView, post: &Self, out: Result<ProgramView, PassError>) -> bool {
        out == Ok::<ProgramView, PassError>(p) && *post == *self
    }

    open spec fn finish_rel(&self, p: ProgramView, post: &Self, out: Result<ProgramView, PassError>) -> bool {
        out == Ok::<ProgramView, PassError>(p) && *post == *self
    }

    fn function(&mut self, func: Function) -> (r: Result<Function, PassError>) {
        run_on_flat(self, func)
    }

    fn before(&mut self, prog: Program) -> (r: Result<Program, PassError>) {
        Ok(prog)
    }

    fn after(&mut self, prog: Program) -> (r: Result<Program, PassError>) {
        Ok(prog)
    }
}

} // verus!
