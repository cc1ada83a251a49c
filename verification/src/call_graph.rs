//! The call graph of a program: for each function the functions that it
//! calls, and those that call it.
use crate::ir::{
    lemma_deep_index, Code, CodeView, EffectOps, Function, FunctionView, InstrView, Instruction,
    Program, ProgramView, ValueOps,
};
use crate::names::NameMap;
use vstd::prelude::*;

verus! {

/// The functions that a line calls.
pub open spec fn callees(c: CodeView) -> Seq<Seq<char>> {
    match c {
        CodeView::Instruction(InstrView::Effect { op: EffectOps::Call, funcs, .. }) => funcs,
        CodeView::Instruction(InstrView::Value { op: ValueOps::Call, funcs, .. }) => funcs,
        _ => seq![],
    }
}

/// The functions that the lines of a function call, in order, with
/// repetitions.
pub open spec fn calls(codes: Seq<CodeView>) -> Seq<Seq<char>>
    decreases codes.len(),
{
    if codes.len() == 0 {
        seq![]
    } else {
        calls(codes.drop_last()) + callees(codes.last())
    }
}

/// The index of the last function with each name.
pub open spec fn index_map(fs: Seq<FunctionView>) -> Map<Seq<char>, usize>
    decreases fs.len(),
{
    if fs.len() == 0 {
        Map::empty()
    } else {
        index_map(fs.drop_last()).insert(fs.last().name, (fs.len() - 1) as usize)
    }
}

/// Every index of the map is that of a function.
pub proof fn lemma_index_map(fs: Seq<FunctionView>)
    requires
        fs.len() <= usize::MAX,
    ensures
        forall|n: Seq<char>| #[trigger] index_map(fs).contains_key(n) ==> index_map(fs)[n] < fs.len(),
    decreases fs.len(),
{
    if fs.len() > 0 {
        lemma_index_map(fs.drop_last());
        assert forall|n: Seq<char>| #[trigger] index_map(fs).contains_key(n) implies index_map(
            fs,
        )[n] < fs.len() by {
            if n != fs.last().name {
                assert(index_map(fs.drop_last()).contains_key(n));
            }
        }
    }
}

/// A list without repetitions: each item at the place of its first
/// occurrence.
pub open spec fn unique(s: Seq<usize>) -> Seq<usize>
    decreases s.len(),
{
    if s.len() == 0 {
        seq![]
    } else if unique(s.drop_last()).contains(s.last()) {
        unique(s.drop_last())
    } else {
        unique(s.drop_last()).push(s.last())
    }
}

/// The indices of the functions called, or the first name that is not
/// that of a function of the program.
pub open spec fn resolve(names: Seq<Seq<char>>, m: Map<Seq<char>, usize>) -> Result<
    Seq<usize>,
    Seq<char>,
>
    decreases names.len(),
{
    if names.len() == 0 {
        Ok(seq![])
    } else {
        match resolve(names.drop_last(), m) {
            Err(e) => Err(e),
            Ok(done) => if m.contains_key(names.last()) {
                Ok(done.push(m[names.last()]))
            } else {
                Err(names.last())
            },
        }
    }
}

/// A resolution that failed on some names fails on more.
pub proof fn lemma_resolve_failed(names: Seq<Seq<char>>, m: Map<Seq<char>, usize>, k: int)
    requires
        0 <= k <= names.len(),
        resolve(names.take(k), m).is_err(),
    ensures
        resolve(names, m) == resolve(names.take(k), m),
    decreases names.len() - k,
{
    if k < names.len() {
        assert(names.take(k + 1).drop_last() =~= names.take(k));
        lemma_resolve_failed(names, m, k + 1);
    } else {
        assert(names.take(k) =~= names);
    }
}

/// Whether every name called is that of a function, and `row` holds the
/// indices of the functions called, each once, in the order of their first
/// calls.
pub open spec fn calls_ok(row: Seq<usize>, names: Seq<Seq<char>>, m: Map<Seq<char>, usize>) -> bool {
    match resolve(names, m) {
        Ok(s) => row == unique(s),
        Err(_) => false,
    }
}

/// The predecessors of function `j`: the functions that call it, in
/// rising order.
pub open spec fn callers(succs: Seq<Seq<usize>>, j: usize) -> Seq<usize>
    decreases succs.len(),
{
    if succs.len() == 0 {
        seq![]
    } else if succs.last().contains(j) {
        callers(succs.drop_last(), j).push((succs.len() - 1) as usize)
    } else {
        callers(succs.drop_last(), j)
    }
}

/// A call of a function that the program does not have.
#[derive(Debug, PartialEq, Eq)]
pub struct UnknownFunction {
    /// The index of the function that makes the call.
    pub caller: usize,
    /// The name called.
    pub name: String,
}

/// The call graph of a program.
#[derive(Debug)]
pub struct CallGraph {
    pub prog: Program,
    pub idx_map: NameMap<usize>,
    pub preds: Vec<Vec<usize>>,
    pub succs: Vec<Vec<usize>>,
}

impl CallGraph {
    /// The number of functions.
    pub open spec fn size(&self) -> nat {
        self.prog@.functions.len()
    }

    /// The graph is that of its program: each function is followed by the
    /// functions it calls, each once, in the order of their first calls,
    /// and preceded by the functions that call it.
    pub open spec fn wf(&self) -> bool {
        &&& self.idx_map.wf()
        &&& self.idx_map@ == index_map(self.prog@.functions)
        &&& self.size() <= usize::MAX
        &&& self.succs@.len() == self.size()
        &&& self.preds@.len() == self.size()
        &&& forall|i: int|
            0 <= i < self.size() ==> calls_ok(
                (#[trigger] self.succs@[i])@,
                calls(self.prog@.functions[i].instrs),
                self.idx_map@,
            )
        &&& forall|j: int|
            0 <= j < self.size() ==> (#[trigger] self.preds@[j])@ == callers(
                Seq::new(self.size(), |i: int| self.succs@[i]@),
                j as usize,
            )
    }

    /// The index map of a program.
    fn build_index(prog: &Program) -> (m: NameMap<usize>)
        ensures
            m.wf(),
            m@ == index_map(prog@.functions),
    {
        let mut m: NameMap<usize> = NameMap::new();
        let ghost fs = prog@.functions;
        let mut i: usize = 0;
        assert(fs.take(0) =~= seq![]);
        while i < prog.functions.len()
            invariant
                i <= prog.functions.len(),
                fs == prog.functions.deep_view(),
                m.wf(),
                m@ == index_map(fs.take(i as int)),
            decreases prog.functions.len() - i,
        {
            proof {
                let next = fs.take(i + 1);
                assert(next.drop_last() =~= fs.take(i as int));
                lemma_deep_index(prog.functions);
                assert(next.last() == prog.functions[i as int]@);
            }
            m.insert(prog.functions[i].name.clone(), i);
            i += 1;
        }
        assert(fs.take(prog.functions.len() as int) =~= fs);
        m
    }

    /// The functions that a function calls, each once.
    fn successors(func: &Function, m: &NameMap<usize>) -> (r: Result<Vec<usize>, String>)
        requires
            m.wf(),
        ensures
            match resolve(calls(func@.instrs), m@) {
                Ok(s) => r.is_ok() && r.unwrap()@ == unique(s),
                Err(e) => r.is_err() && r.unwrap_err()@ == e,
            },
    {
        let ghost codes = func@.instrs;
        let mut out: Vec<usize> = Vec::new();
        let ghost mut done: Seq<usize> = seq![];
        let mut i: usize = 0;
        assert(codes.take(0) =~= seq![]);
        while i < func.instrs.len()
            invariant
                i <= func.instrs.len(),
                codes == func.instrs.deep_view(),
                m.wf(),
                resolve(calls(codes.take(i as int)), m@) == Ok::<Seq<usize>, Seq<char>>(done),
                out@ == unique(done),
            decreases func.instrs.len() - i,
        {
            proof {
                let next = codes.take(i + 1);
                assert(next.drop_last() =~= codes.take(i as int));
                lemma_deep_index(func.instrs);
                assert(next.last() == func.instrs[i as int]@);
            }
            let ghost base = calls(codes.take(i as int));
            let funcs: Option<&Vec<String>> = match &func.instrs[i] {
                Code::Instruction(Instruction::Effect { op: EffectOps::Call, funcs, .. }) => Some(
                    funcs,
                ),
                Code::Instruction(Instruction::Value { op: ValueOps::Call, funcs, .. }) => Some(
                    funcs,
                ),
                _ => None,
            };
            match funcs {
                Some(fs) => {
                    let ghost names = fs.deep_view();
                    let mut j: usize = 0;
                    assert(names.take(0) =~= seq![]);
                    assert(base + names.take(0) =~= base);
                    while j < fs.len()
                        invariant
                            j <= fs.len(),
                            names == fs.deep_view(),
                            m.wf(),
                            i < func.instrs.len(),
                            codes == func.instrs.deep_view(),
                            base + names == calls(codes.take(i + 1)),
                            resolve(base + names.take(j as int), m@) == Ok::<
                                Seq<usize>,
                                Seq<char>,
                            >(done),
                            out@ == unique(done),
                        decreases fs.len() - j,
                    {
                        proof {
                            lemma_deep_index(*fs);
                            let next = base + names.take(j + 1);
                            assert(next.drop_last() =~= base + names.take(j as int));
                            assert(next.last() == fs[j as int]@);
                        }
                        match m.get(&fs[j]) {
                            Some(idx) => {
                                let idx = *idx;
                                let mut seen = false;
                                let mut k: usize = 0;
                                while k < out.len()
                                    invariant
                                        k <= out.len(),
                                        seen == out@.take(k as int).contains(idx),
                                    decreases out.len() - k,
                                {
                                    proof {
                                        lemma_take_contains(out@, k as int, idx);
                                    }
                                    if out[k] == idx {
                                        seen = true;
                                    }
                                    k += 1;
                                }
                                assert(out@.take(out.len() as int) =~= out@);
                                if !seen {
                                    out.push(idx);
                                }
                                proof {
                                    let old_done = done;
                                    done = done.push(idx);
                                    assert(done.drop_last() =~= old_done);
                                    assert(done.last() == idx);
                                }
                            },
                            None => {
                                proof {
                                    let all = base + names;
                                    let part = base + names.take(j + 1);
                                    assert(resolve(part, m@) == Err::<Seq<usize>, Seq<char>>(
                                        fs[j as int]@,
                                    ));
                                    assert(all.take(base.len() + j + 1) =~= part);
                                    lemma_resolve_failed(all, m@, base.len() + j + 1);
                                    lemma_calls_prefix(codes, i + 1);
                                    let whole = calls(codes);
                                    assert(whole.take(all.len() as int) == all);
                                    lemma_resolve_failed(whole, m@, all.len() as int);
                                }
                                return Err(fs[j].clone());
                            },
                        }
                        j += 1;
                    }
                    assert(names.take(fs.len() as int) =~= names);
                },
                None => {
                    assert(calls(codes.take(i + 1)) =~= base);
                },
            }
            i += 1;
        }
        assert(codes.take(func.instrs.len() as int) =~= codes);
        Ok(out)
    }

    /// The call graph of a program. It fails on the first call, in the
    /// order of the functions and of their lines, of a function that the
    /// program does not have, and on no other input.
    pub fn new(prog: Program) -> (r: Result<Self, UnknownFunction>)
        ensures
            match r {
                Ok(g) => g.wf() && g.prog@ == prog@,
                Err(e) => e.caller < prog@.functions.len() && resolve(
                    calls(prog@.functions[e.caller as int].instrs),
                    index_map(prog@.functions),
                ) == Err::<Seq<usize>, Seq<char>>(e.name@) && forall|i: int|
                    0 <= i < e.caller ==> (#[trigger] resolve(
                        calls(prog@.functions[i].instrs),
                        index_map(prog@.functions),
                    )).is_ok(),
            },
    {
        let n = prog.functions.len();
        let idx_map = Self::build_index(&prog);
        let ghost fs = prog@.functions;
        let mut succs: Vec<Vec<usize>> = Vec::new();
        let mut i: usize = 0;
        while i < n
            invariant
                i <= n,
                n == prog.functions.len(),
                fs == prog.functions.deep_view(),
                idx_map.wf(),
                idx_map@ == index_map(fs),
                succs.len() == i,
                forall|k: int|
                    0 <= k < i ==> calls_ok(
                        (#[trigger] succs@[k])@,
                        calls(fs[k].instrs),
                        idx_map@,
                    ),
            decreases n - i,
        {
            proof {
                lemma_deep_index(prog.functions);
            }
            match Self::successors(&prog.functions[i], &idx_map) {
                Ok(s) => {
                    let ghost before = succs@;
                    succs.push(s);
                    assert forall|k: int| 0 <= k < i + 1 implies calls_ok(
                        (#[trigger] succs@[k])@,
                        calls(fs[k].instrs),
                        idx_map@,
                    ) by {
                        if k < i {
                            assert(succs@[k] == before[k]);
                        }
                    }
                },
                Err(name) => {
                    proof {
                        assert forall|k: int| 0 <= k < i implies (#[trigger] resolve(
                            calls(fs[k].instrs),
                            index_map(fs),
                        )).is_ok() by {
                            assert(succs@[k]@ == succs@[k]@);
                        }
                    }
                    return Err(UnknownFunction { caller: i, name });
                },
            }
            i += 1;
        }
        let mut preds: Vec<Vec<usize>> = Vec::new();
        let ghost sv = Seq::new(n as nat, |i: int| succs@[i]@);
        let mut j: usize = 0;
        while j < n
            invariant
                j <= n,
                succs.len() == n,
                sv == Seq::new(n as nat, |i: int| succs@[i]@),
                preds.len() == j,
                forall|k: int| 0 <= k < j ==> (#[trigger] preds@[k])@ == callers(sv, k as usize),
            decreases n - j,
        {
            let mut row: Vec<usize> = Vec::new();
            let mut i: usize = 0;
            assert(sv.take(0) =~= seq![]);
            while i < n
                invariant
                    i <= n,
                    succs.len() == n,
                    sv == Seq::new(n as nat, |i: int| succs@[i]@),
                    row@ == callers(sv.take(i as int), j),
                decreases n - i,
            {
                proof {
                    let next = sv.take(i + 1);
                    assert(next.drop_last() =~= sv.take(i as int));
                    assert(next.last() == succs@[i as int]@);
                }
                let s = &succs[i];
                let mut hit = false;
                let mut k: usize = 0;
                while k < s.len()
                    invariant
                        k <= s.len(),
                        hit == s@.take(k as int).contains(j),
                    decreases s.len() - k,
                {
                    proof {
                        lemma_take_contains(s@, k as int, j);
                    }
                    if s[k] == j {
                        hit = true;
                    }
                    k += 1;
                }
                assert(s@.take(s.len() as int) =~= s@);
                if hit {
                    row.push(i);
                }
                i += 1;
            }
            assert(sv.take(n as int) =~= sv);
            preds.push(row);
            j += 1;
        }
        Ok(CallGraph { prog, idx_map, preds, succs })
    }

    /// The program.
    pub fn prog(&self) -> (r: &Program)
        ensures
            *r == self.prog,
    {
        &self.prog
    }

    /// The number of functions.
    pub fn len(&self) -> (n: usize)
        ensures
            n == self.size(),
    {
        self.prog.functions.len()
    }

    /// Whether the program has no function.
    pub fn is_empty(&self) -> (r: bool)
        ensures
            r == (self.size() == 0),
    {
        self.prog.functions.is_empty()
    }

    /// The index of the function with a name, if the program has it.
    pub fn index(&self, name: &String) -> (r: Option<usize>)
        requires
            self.wf(),
        ensures
            r == (if index_map(self.prog@.functions).contains_key(name@) {
                Some(index_map(self.prog@.functions)[name@])
            } else {
                None
            }),
            r.is_some() ==> r.unwrap() < self.size(),
    {
        proof {
            lemma_index_map(self.prog@.functions);
        }
        match self.idx_map.get(name) {
            Some(i) => Some(*i),
            None => None,
        }
    }

    /// The functions that call the function with a name.
    pub fn preds(&self, name: &String) -> (r: &Vec<usize>)
        requires
            self.wf(),
            index_map(self.prog@.functions).contains_key(name@),
        ensures
            *r == self.preds@[index_map(self.prog@.functions)[name@] as int],
    {
        let i = self.index(name).unwrap();
        &self.preds[i]
    }

    /// The functions that the function with a name calls.
    pub fn succs(&self, name: &String) -> (r: &Vec<usize>)
        requires
            self.wf(),
            index_map(self.prog@.functions).contains_key(name@),
        ensures
            *r == self.succs@[index_map(self.prog@.functions)[name@] as int],
    {
        let i = self.index(name).unwrap();
        &self.succs[i]
    }

    /// The function with a name.
    pub fn get(&self, name: &String) -> (r: &Function)
        requires
            self.wf(),
            index_map(self.prog@.functions).contains_key(name@),
        ensures
            r@ == self.prog@.functions[index_map(self.prog@.functions)[name@] as int],
    {
        let i = self.index(name).unwrap();
        proof {
            lemma_deep_index(self.prog.functions);
        }
        &self.prog.functions[i]
    }
}

/// The first items of a list hold an item exactly if one fewer of them
/// hold it or the last of them is it.
pub proof fn lemma_take_contains(s: Seq<usize>, k: int, x: usize)
    requires
        0 <= k < s.len(),
    ensures
        s.take(k + 1).contains(x) <==> (s.take(k).contains(x) || s[k] == x),
        !s.take(0).contains(x),
{
    crate::names::lemma_take_set(s, k);
    assert(s.take(k + 1).to_set().contains(x) <==> s.take(k).to_set().insert(s[k]).contains(x));
}

/// The calls of the first lines of a function are the first calls of the
/// function.
pub proof fn lemma_calls_prefix(codes: Seq<CodeView>, k: int)
    requires
        0 <= k <= codes.len(),
    ensures
        calls(codes.take(k)).len() <= calls(codes).len(),
        calls(codes).take(calls(codes.take(k)).len() as int) == calls(codes.take(k)),
    decreases codes.len() - k,
{
    if k < codes.len() {
        lemma_calls_prefix(codes, k + 1);
        assert(codes.take(k + 1).drop_last() =~= codes.take(k));
        let a = calls(codes.take(k));
        let b = calls(codes.take(k + 1));
        assert(b.take(a.len() as int) =~= a);
        assert(calls(codes).take(a.len() as int) =~= calls(codes).take(b.len() as int).take(
            a.len() as int,
        ));
    } else {
        assert(codes.take(k) =~= codes);
        assert(calls(codes).take(calls(codes).len() as int) =~= calls(codes));
    }
}

} // verus!
