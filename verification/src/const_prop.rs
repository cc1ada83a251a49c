//! Constant propagation: for each point of the program, the names that
//! hold a known constant there, and those that may hold any value.
use crate::basic_block::{BasicBlock, BlockView};
use crate::bb_function::{BBFunction, BBFunctionView};
use crate::dataflow::DataflowPass;
use crate::float::{unit_ok, FloatQuery};
use crate::fold::{fold_literals, fold_spec};
use crate::ir::{lemma_deep_index, InstrView, Instruction, Literal};
use crate::passes::PassError;
use vstd::prelude::*;

verus! {

/// What is known of a name.
#[derive(Clone, Copy, Debug, PartialEq, Eq, Structural)]
pub enum Value {
    /// It holds this constant.
    Const(Literal),
    /// It may hold any value.
    Any,
}

/// The value bound to a name by the first entry that has the name.
pub open spec fn lookup(entries: Seq<(Seq<char>, Value)>, k: Seq<char>) -> Option<Value>
    decreases entries.len(),
{
    if entries.len() == 0 {
        None
    } else if entries[0].0 == k {
        Some(entries[0].1)
    } else {
        lookup(entries.skip(1), k)
    }
}

/// What is known of the names at a point of the program.
#[derive(Debug, PartialEq, Eq)]
pub struct ConstMap {
    pub entries: Vec<(String, Value)>,
}

impl ConstMap {
    /// The entries, as values.
    pub open spec fn pairs(&self) -> Seq<(Seq<char>, Value)> {
        Seq::new(self.entries@.len(), |i: int| (self.entries@[i].0@, self.entries@[i].1))
    }

    /// The map from names to what is known of them.
    pub open spec fn view(&self) -> Map<Seq<char>, Value> {
        Map::new(
            |k: Seq<char>| lookup(self.pairs(), k).is_some(),
            |k: Seq<char>| lookup(self.pairs(), k).unwrap(),
        )
    }

    /// The empty map.
    pub fn new() -> (r: Self)
        ensures
            r@ == Map::<Seq<char>, Value>::empty(),
    {
        let r = ConstMap { entries: Vec::new() };
        assert(r.pairs() =~= seq![]);
        assert(r@ =~= Map::<Seq<char>, Value>::empty());
        r
    }

    /// The position of the first entry with a name.
    fn find(&self, k: &String) -> (r: Option<usize>)
        ensures
            match r {
                Some(i) => i < self.entries@.len() && self.pairs()[i as int].0 == k@ && lookup(
                    self.pairs(),
                    k@,
                ) == Some(self.pairs()[i as int].1) && forall|j: int|
                    0 <= j < i ==> (#[trigger] self.pairs()[j]).0 != k@,
                None => lookup(self.pairs(), k@).is_none(),
            },
    {
        let ghost p = self.pairs();
        let mut i: usize = 0;
        assert(p.skip(0) =~= p);
        while i < self.entries.len()
            invariant
                i <= self.entries.len(),
                p == self.pairs(),
                lookup(p, k@) == lookup(p.skip(i as int), k@),
                forall|j: int| 0 <= j < i ==> (#[trigger] p[j]).0 != k@,
            decreases self.entries.len() - i,
        {
            proof {
                assert(p.skip(i as int)[0] == p[i as int]);
                assert(p.skip(i as int).skip(1) =~= p.skip(i + 1));
            }
            if self.entries[i].0.eq(k) {
                return Some(i);
            }
            i += 1;
        }
        assert(p.skip(self.entries.len() as int) =~= seq![]);
        None
    }

    /// What is known of a name.
    pub fn get(&self, k: &String) -> (r: Option<Value>)
        ensures
            r == (if self@.contains_key(k@) {
                Some(self@[k@])
            } else {
                None
            }),
    {
        match self.find(k) {
            Some(i) => Some(self.entries[i].1),
            None => None,
        }
    }

    /// Binds a name.
    pub fn insert(&mut self, k: String, v: Value)
        ensures
            final(self)@ == old(self)@.insert(k@, v),
    {
        let ghost before = self.pairs();
        match self.find(&k) {
            Some(i) => {
                self.entries.set(i, (k, v));
                proof {
                    assert(self.pairs() =~= before.update(i as int, (k@, v)));
                    assert forall|x: Seq<char>| lookup(self.pairs(), x) == (if x == k@ {
                        Some(v)
                    } else {
                        lookup(before, x)
                    }) by {
                        lemma_lookup_update(before, i as int, k@, v, x);
                    }
                    assert(self@ =~= old(self)@.insert(k@, v));
                }
            },
            None => {
                self.entries.push((k, v));
                proof {
                    assert(self.pairs() =~= before.push((k@, v)));
                    assert forall|x: Seq<char>| lookup(self.pairs(), x) == (if x == k@ {
                        Some(v)
                    } else {
                        lookup(before, x)
                    }) by {
                        lemma_lookup_push(before, k@, v, x);
                    }
                    assert(self@ =~= old(self)@.insert(k@, v));
                }
            },
        }
    }

    /// A map that binds the same.
    pub fn dup(&self) -> (r: Self)
        ensures
            r@ == self@,
    {
        let mut entries: Vec<(String, Value)> = Vec::new();
        let mut i: usize = 0;
        while i < self.entries.len()
            invariant
                i <= self.entries.len(),
                entries.len() == i,
                forall|j: int|
                    0 <= j < i ==> (#[trigger] entries[j]).0@ == self.entries[j].0@ && entries[j].1
                        == self.entries[j].1,
            decreases self.entries.len() - i,
        {
            entries.push((self.entries[i].0.clone(), self.entries[i].1));
            i += 1;
        }
        let r = ConstMap { entries };
        assert(r.pairs() =~= self.pairs());
        r
    }

    /// Whether every binding of this map is one of the other.
    fn within(&self, other: &Self) -> (r: bool)
        ensures
            r == included(self@, other@),
    {
        let mut i: usize = 0;
        while i < self.entries.len()
            invariant
                i <= self.entries.len(),
                forall|j: int|
                    0 <= j < i ==> other@.contains_key((#[trigger] self.pairs()[j]).0) && other@[self.pairs()[j].0]
                        == self@[self.pairs()[j].0],
            decreases self.entries.len() - i,
        {
            let k = &self.entries[i].0;
            proof {
                lemma_lookup_member(self.pairs(), i as int);
            }
            let mine = self.get(k);
            let theirs = other.get(k);
            if theirs != mine {
                assert(self@.contains_key(k@));
                return false;
            }
            i += 1;
        }
        proof {
            assert forall|k: Seq<char>| #[trigger] self@.contains_key(k) implies other@.contains_key(
                k,
            ) && other@[k] == self@[k] by {
                lemma_lookup_found(self.pairs(), k);
                let j = choose|j: int| 0 <= j < self.pairs().len() && (#[trigger] self.pairs()[j]).0 == k;
                assert(other@.contains_key(self.pairs()[j].0));
            }
            assert(included(self@, other@));
        }
        true
    }

    /// Whether two maps bind the same.
    pub fn same_map(&self, other: &Self) -> (r: bool)
        ensures
            r == (self@ == other@),
    {
        let r = self.within(other) && other.within(self);
        proof {
            if r {
                assert(self@ =~= other@);
            }
        }
        r
    }
}

/// Whether every binding of one map is a binding of the other.
pub open spec fn included(a: Map<Seq<char>, Value>, b: Map<Seq<char>, Value>) -> bool {
    forall|k: Seq<char>| #[trigger] a.contains_key(k) ==> b.contains_key(k) && b[k] == a[k]
}

/// A name that an entry has is bound.
pub proof fn lemma_lookup_member(p: Seq<(Seq<char>, Value)>, i: int)
    requires
        0 <= i < p.len(),
    ensures
        lookup(p, p[i].0).is_some(),
    decreases p.len(),
{
    if p[0].0 != p[i].0 {
        assert(p.skip(1)[i - 1] == p[i]);
        lemma_lookup_member(p.skip(1), i - 1);
    }
}

/// A name that is bound is the name of an entry.
pub proof fn lemma_lookup_found(p: Seq<(Seq<char>, Value)>, k: Seq<char>)
    requires
        lookup(p, k).is_some(),
    ensures
        exists|j: int| 0 <= j < p.len() && (#[trigger] p[j]).0 == k,
    decreases p.len(),
{
    if p.len() > 0 && p[0].0 != k {
        lemma_lookup_found(p.skip(1), k);
        let j = choose|j: int| 0 <= j < p.skip(1).len() && (#[trigger] p.skip(1)[j]).0 == k;
        assert(p[j + 1].0 == k);
    } else if p.len() > 0 {
        assert(p[0].0 == k);
    }
}

/// Replacing the first entry of a name binds the name anew and leaves the
/// other names as they were.
pub proof fn lemma_lookup_update(
    p: Seq<(Seq<char>, Value)>,
    i: int,
    k: Seq<char>,
    v: Value,
    x: Seq<char>,
)
    requires
        0 <= i < p.len(),
        p[i].0 == k,
        forall|j: int| 0 <= j < i ==> (#[trigger] p[j]).0 != k,
    ensures
        lookup(p.update(i, (k, v)), x) == (if x == k {
            Some(v)
        } else {
            lookup(p, x)
        }),
    decreases p.len(),
{
    let q = p.update(i, (k, v));
    if i == 0 {
        assert(q.skip(1) =~= p.skip(1));
    } else {
        assert(q[0] == p[0]);
        assert(q.skip(1) =~= p.skip(1).update(i - 1, (k, v)));
        assert(p.skip(1)[i - 1] == p[i]);
        assert forall|j: int| 0 <= j < i - 1 implies (#[trigger] p.skip(1)[j]).0 != k by {
            assert(p.skip(1)[j] == p[j + 1]);
        }
        lemma_lookup_update(p.skip(1), i - 1, k, v, x);
    }
}

/// An entry at the end binds its name if no entry had it, and leaves the
/// other names as they were.
pub proof fn lemma_lookup_push(p: Seq<(Seq<char>, Value)>, k: Seq<char>, v: Value, x: Seq<char>)
    requires
        lookup(p, k).is_none(),
    ensures
        lookup(p.push((k, v)), x) == (if x == k {
            Some(v)
        } else {
            lookup(p, x)
        }),
    decreases p.len(),
{
    let q = p.push((k, v));
    if p.len() == 0 {
        assert(q.skip(1) =~= seq![]);
        assert(q[0] == (k, v));
        assert(lookup(q.skip(1), x).is_none());
        assert(lookup(p, x).is_none());
    } else {
        assert(q[0] == p[0]);
        assert(p[0].0 != k);
        assert(q.skip(1) =~= p.skip(1).push((k, v)));
        lemma_lookup_push(p.skip(1), k, v, x);
    }
}

/// What two ways to a point tell of the names together: a name that both
/// bind alike is bound so, one that they bind differently may hold any
/// value, one that only one binds is bound as it is there.
pub open spec fn join(a: Map<Seq<char>, Value>, b: Map<Seq<char>, Value>) -> Map<Seq<char>, Value> {
    Map::new(
        |k: Seq<char>| a.contains_key(k) || b.contains_key(k),
        |k: Seq<char>|
            if a.contains_key(k) && b.contains_key(k) {
                if a[k] == b[k] {
                    a[k]
                } else {
                    Value::Any
                }
            } else if a.contains_key(k) {
                a[k]
            } else {
                b[k]
            },
    )
}

/// What several ways to a point tell together.
pub open spec fn join_all(vals: Seq<Map<Seq<char>, Value>>) -> Map<Seq<char>, Value>
    decreases vals.len(),
{
    if vals.len() == 0 {
        Map::empty()
    } else {
        join(join_all(vals.drop_last()), vals.last())
    }
}

/// The literals that the names are known to hold.
pub open spec fn known(m: Map<Seq<char>, Value>, args: Seq<Seq<char>>) -> Seq<Option<Literal>> {
    Seq::new(
        args.len(),
        |i: int|
            if m.contains_key(args[i]) {
                match m[args[i]] {
                    Value::Const(c) => Some(c),
                    Value::Any => None,
                }
            } else {
                None
            },
    )
}

/// What is known after the first `k` instructions of a block, given what
/// is known at its entry: an instruction that folds to a literal binds its
/// destination to it, any other one that writes lets its destination hold
/// any value. Every instruction is folded with what is known where it
/// stands: after the instructions before it.
pub open spec fn propagate<F: Fn(FloatQuery) -> Literal>(
    all: Seq<InstrView>,
    k: int,
    inp: Map<Seq<char>, Value>,
    fl: &F,
) -> Result<Map<Seq<char>, Value>, PassError>
    decreases k,
{
    if k <= 0 {
        Ok(inp)
    } else {
        match propagate(all, k - 1, inp, fl) {
            Err(e) => Err(e),
            Ok(out) => match fold_spec(all[k - 1], known(out, all[k - 1].arg_list()), fl) {
                Err(e) => Err(PassError::Fold(e)),
                Ok(None) => Ok(out),
                Ok(Some((d, Some(l)))) => Ok(out.insert(d, Value::Const(l))),
                Ok(Some((d, None))) => Ok(out.insert(d, Value::Any)),
            },
        }
    }
}

/// A propagation that failed on some instructions fails on more.
pub proof fn lemma_propagate_failed<F: Fn(FloatQuery) -> Literal>(
    all: Seq<InstrView>,
    k: int,
    n: int,
    inp: Map<Seq<char>, Value>,
    fl: &F,
)
    requires
        0 <= k <= n,
        propagate(all, k, inp, fl).is_err(),
    ensures
        propagate(all, n, inp, fl) == propagate(all, k, inp, fl),
    decreases n - k,
{
    if k < n {
        lemma_propagate_failed(all, k, n - 1, inp, fl);
    }
}

/// The analysis of constant propagation, with the floating-point unit that
/// it folds float operations with.
pub struct ConstProp<F: Fn(FloatQuery) -> Literal> {
    pub float: F,
}

impl<F: Fn(FloatQuery) -> Literal> DataflowPass for ConstProp<F> {
    type Val = ConstMap;

    type Model = Map<Seq<char>, Value>;

    open spec fn model(v: &ConstMap) -> Map<Seq<char>, Value> {
        v@
    }

    open spec fn usable(&self) -> bool {
        unit_ok(&self.float)
    }

    open spec fn reversed_spec(&self) -> bool {
        false
    }

    open spec fn entry_spec(&self, f: BBFunctionView) -> Map<Seq<char>, Value> {
        Map::empty()
    }

    open spec fn init_spec(&self, f: BBFunctionView) -> Map<Seq<char>, Value> {
        Map::empty()
    }

    open spec fn meet_spec(&self, vals: Seq<Map<Seq<char>, Value>>) -> Map<Seq<char>, Value> {
        join_all(vals)
    }

    open spec fn transfer_spec(&self, b: BlockView, v: Map<Seq<char>, Value>) -> Result<
        Map<Seq<char>, Value>,
        PassError,
    > {
        propagate(b.all(), b.all().len() as int, v, &self.float)
    }

    open spec fn finish_spec(&self, f: BBFunctionView, v: Map<Seq<char>, Value>) -> Map<
        Seq<char>,
        Value,
    > {
        v
    }

    fn reversed(&self) -> (r: bool) {
        false
    }

    fn entry(&self, func: &BBFunction) -> (r: ConstMap) {
        ConstMap::new()
    }

    fn init(&self, func: &BBFunction) -> (r: ConstMap) {
        ConstMap::new()
    }

    fn meet(&self, in_vals: &Vec<ConstMap>) -> (r: ConstMap) {
        let ghost vals = Seq::new(in_vals@.len(), |i: int| in_vals@[i]@);
        assert(vals =~= Seq::new(in_vals@.len(), |i: int| Self::model(&in_vals@[i])));
        let mut out = ConstMap::new();
        let mut i: usize = 0;
        assert(vals.take(0) =~= seq![]);
        while i < in_vals.len()
            invariant
                i <= in_vals.len(),
                vals == Seq::new(in_vals@.len(), |i: int| in_vals@[i]@),
                out@ == join_all(vals.take(i as int)),
            decreases in_vals.len() - i,
        {
            proof {
                let next = vals.take(i + 1);
                assert(next.drop_last() =~= vals.take(i as int));
                assert(next.last() == in_vals@[i as int]@);
            }
            let m = &in_vals[i];
            let ghost acc = out@;
            let ghost p = m.pairs();
            let mut j: usize = 0;
            assert(out@ =~= join(acc, part(m@, p, 0)));
            while j < m.entries.len()
                invariant
                    j <= m.entries.len(),
                    p == m.pairs(),
                    out@ == join(acc, part(m@, p, j as int)),
                decreases m.entries.len() - j,
            {
                let name = &m.entries[j].0;
                proof {
                    lemma_lookup_member(p, j as int);
                }
                let bind = m.get(name).unwrap();
                let ghost before = out@;
                match out.get(name) {
                    Some(v) => {
                        if v != bind {
                            out.insert(name.clone(), Value::Any);
                        }
                    },
                    None => {
                        out.insert(name.clone(), bind);
                    },
                }
                proof {
                    let k = name@;
                    let a = part(m@, p, j as int);
                    let b = part(m@, p, j + 1);
                    assert forall|x: Seq<char>| b.contains_key(x) <==> (a.contains_key(x) || x
                        == k) by {
                        if b.contains_key(x) {
                            let t = choose|t: int| 0 <= t < j + 1 && (#[trigger] p[t]).0 == x;
                            if t < j {
                                assert(p[t].0 == x);
                            }
                        }
                        if a.contains_key(x) {
                            let t = choose|t: int| 0 <= t < j && (#[trigger] p[t]).0 == x;
                            assert(p[t].0 == x);
                        }
                        if x == k {
                            assert(p[j as int].0 == x);
                        }
                    }
                    assert(out@ =~= join(acc, b));
                }
                j += 1;
            }
            proof {
                assert(part(m@, p, m.entries.len() as int) =~= m@) by {
                    assert forall|x: Seq<char>| m@.contains_key(x) implies part(
                        m@,
                        p,
                        m.entries.len() as int,
                    ).contains_key(x) by {
                        lemma_lookup_found(p, x);
                    }
                    assert forall|x: Seq<char>|
                        part(m@, p, m.entries.len() as int).contains_key(
                            x,
                        ) implies m@.contains_key(x) by {
                        let t = choose|t: int| 0 <= t < p.len() && (#[trigger] p[t]).0 == x;
                        lemma_lookup_member(p, t);
                    }
                }
            }
            i += 1;
        }
        assert(vals.take(in_vals.len() as int) =~= vals);
        out
    }

    fn transfer(&self, block: &BasicBlock, in_val: &ConstMap) -> (r: Result<ConstMap, PassError>) {
        let all = block.iter();
        let ghost view = block@.all();
        let mut out = in_val.dup();
        let mut k: usize = 0;
        while k < all.len()
            invariant
                k <= all.len(),
                view == all.deep_view(),
                view == block@.all(),
                unit_ok(&self.float),
                propagate(view, k as int, in_val@, &self.float) == Ok::<
                    Map<Seq<char>, Value>,
                    PassError,
                >(out@),
            decreases all.len() - k,
        {
            proof {
                lemma_deep_index(all);
            }
            let instr = &all[k];
            let mut lits: Vec<Option<Literal>> = Vec::new();
            match instr.args_ref() {
                Some(args) => {
                    let mut j: usize = 0;
                    while j < args.len()
                        invariant
                            j <= args.len(),
                            lits.len() == j,
                            forall|n: int|
                                0 <= n < j ==> #[trigger] lits[n] == known(
                                    out@,
                                    args.deep_view(),
                                )[n],
                        decreases args.len() - j,
                    {
                        proof {
                            lemma_deep_index(*args);
                        }
                        let l = match out.get(&args[j]) {
                            Some(Value::Const(c)) => Some(c),
                            _ => None,
                        };
                        lits.push(l);
                        j += 1;
                    }
                    assert(lits@ =~= known(out@, instr@.arg_list()));
                },
                None => {
                    assert(lits@ =~= known(out@, instr@.arg_list()));
                },
            }
            match fold_literals(instr, &lits, &self.float) {
                Err(e) => {
                    proof {
                        assert(propagate(view, k + 1, in_val@, &self.float).is_err());
                        lemma_propagate_failed(view, k + 1, all.len() as int, in_val@, &self.float);
                    }
                    return Err(PassError::Fold(e));
                },
                Ok(None) => {},
                Ok(Some((d, Some(l)))) => {
                    out.insert(d, Value::Const(l));
                },
                Ok(Some((d, None))) => {
                    out.insert(d, Value::Any);
                },
            }
            k += 1;
        }
        Ok(out)
    }

    fn finish(&self, func: &BBFunction, exit_val: ConstMap) -> (r: ConstMap) {
        exit_val
    }

    fn same(&self, a: &ConstMap, b: &ConstMap) -> (r: bool) {
        a.same_map(b)
    }

    fn copy(&self, v: &ConstMap) -> (r: ConstMap) {
        v.dup()
    }
}

/// The bindings of a map for the names of its first `j` entries.
pub open spec fn part(m: Map<Seq<char>, Value>, p: Seq<(Seq<char>, Value)>, j: int) -> Map<
    Seq<char>,
    Value,
> {
    Map::new(
        |k: Seq<char>| exists|t: int| 0 <= t < j && (#[trigger] p[t]).0 == k,
        |k: Seq<char>| m[k],
    )
}

} // verus!
