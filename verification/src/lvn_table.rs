//! The table of local value numbering: one row for each value seen in a
//! block, with the name that stands for it, found again by name and by
//! value.
use crate::float::{unit_ok, FloatQuery};
use crate::fold::{fold_literals, fold_spec, FoldError};
use crate::instr::InstrExt;
use crate::ir::{
    lemma_deep_index, lemma_deep_push, ArgView, Argument, ConstOps, InstrView, Instruction,
    Literal, Type, ValueOps,
};
use crate::names::NameMap;
use vstd::prelude::*;

verus! {

/// What a row of the table stands for.
#[derive(Debug)]
pub enum LVNValue {
    /// A constant.
    Literal(Literal),
    /// An operation on the values of other rows.
    Op(ValueOps, Type, Vec<usize>),
    /// A value of which nothing is known, told apart by its number.
    Unknown(usize),
}

/// The value of an [`LVNValue`].
pub enum ValueKey {
    Literal(Literal),
    Op(ValueOps, Type, Seq<usize>),
    Unknown(usize),
}

impl View for LVNValue {
    type V = ValueKey;

    open spec fn view(&self) -> ValueKey {
        match *self {
            LVNValue::Literal(l) => ValueKey::Literal(l),
            LVNValue::Op(op, ty, ids) => ValueKey::Op(op, ty, ids@),
            LVNValue::Unknown(u) => ValueKey::Unknown(u),
        }
    }
}

impl Clone for LVNValue {
    fn clone(&self) -> (r: Self)
        ensures
            r@ == self@,
    {
        match self {
            LVNValue::Literal(l) => LVNValue::Literal(*l),
            LVNValue::Op(op, ty, ids) => LVNValue::Op(*op, ty.clone(), ids.clone()),
            LVNValue::Unknown(u) => LVNValue::Unknown(*u),
        }
    }
}

impl LVNValue {
    /// Whether two values are the same.
    pub fn same(&self, other: &LVNValue) -> (r: bool)
        ensures
            r == (self@ == other@),
    {
        match (self, other) {
            (LVNValue::Literal(a), LVNValue::Literal(b)) => *a == *b,
            (LVNValue::Unknown(a), LVNValue::Unknown(b)) => *a == *b,
            (LVNValue::Op(op1, ty1, ids1), LVNValue::Op(op2, ty2, ids2)) => {
                if !(*op1 == *op2) || !ty1.same(ty2) || ids1.len() != ids2.len() {
                    return false;
                }
                let mut i: usize = 0;
                while i < ids1.len()
                    invariant
                        i <= ids1.len(),
                        ids1.len() == ids2.len(),
                        self@ == ValueKey::Op(*op1, *ty1, ids1@),
                        other@ == ValueKey::Op(*op2, *ty2, ids2@),
                        *op1 == *op2,
                        *ty1 == *ty2,
                        forall|j: int| 0 <= j < i ==> ids1[j] == ids2[j],
                    decreases ids1.len() - i,
                {
                    if ids1[i] != ids2[i] {
                        assert(ids1@[i as int] != ids2@[i as int]);
                        return false;
                    }
                    i += 1;
                }
                assert(ids1@ =~= ids2@);
                true
            },
            _ => false,
        }
    }
}

/// A list of row numbers with one more put in its place among sorted ones.
pub open spec fn insert_sorted(s: Seq<usize>, x: usize) -> Seq<usize>
    decreases s.len(),
{
    if s.len() == 0 {
        seq![x]
    } else if s.last() <= x {
        s.push(x)
    } else {
        insert_sorted(s.drop_last(), x).push(s.last())
    }
}

/// A list of row numbers in rising order.
pub open spec fn sorted_ids(s: Seq<usize>) -> Seq<usize>
    decreases s.len(),
{
    if s.len() == 0 {
        seq![]
    } else {
        insert_sorted(sorted_ids(s.drop_last()), s.last())
    }
}

/// Whether a list of row numbers rises.
pub open spec fn rising(s: Seq<usize>) -> bool {
    forall|i: int, j: int| 0 <= i <= j < s.len() ==> s[i] <= s[j]
}

/// Putting a number in its place keeps a rising list rising, and holds what
/// the list held and the number.
pub proof fn lemma_insert_sorted(s: Seq<usize>, x: usize)
    requires
        rising(s),
    ensures
        rising(insert_sorted(s, x)),
        insert_sorted(s, x).len() == s.len() + 1,
        insert_sorted(s, x).to_multiset() == s.to_multiset().insert(x),
    decreases s.len(),
{
    broadcast use vstd::seq_lib::group_to_multiset_ensures;

    if s.len() == 0 {
        assert(seq![x] =~= Seq::<usize>::empty().push(x));
        assert(s =~= Seq::<usize>::empty());
    } else if s.last() <= x {
    } else {
        let head = s.drop_last();
        lemma_insert_sorted(head, x);
        let r = insert_sorted(head, x);
        assert(s =~= head.push(s.last()));
        assert forall|i: int, j: int| 0 <= i <= j < r.push(s.last()).len() implies r.push(
            s.last(),
        )[i] <= r.push(s.last())[j] by {
            if j == r.len() && i < r.len() {
                r.to_multiset_ensures();
                head.to_multiset_ensures();
                assert(r.to_multiset().count(r[i]) > 0);
                if r[i] != x {
                    assert(head.to_multiset().count(r[i]) > 0);
                    assert(head.contains(r[i]));
                    let k = choose|k: int| 0 <= k < head.len() && head[k] == r[i];
                    assert(s[k] <= s[s.len() - 1]);
                }
            }
        }
        assert(r.push(s.last()).to_multiset() =~= s.to_multiset().insert(x));
    }
}

/// Sorting gives a rising list that holds what the list held.
pub proof fn lemma_sorted_ids(s: Seq<usize>)
    ensures
        rising(sorted_ids(s)),
        sorted_ids(s).len() == s.len(),
        sorted_ids(s).to_multiset() == s.to_multiset(),
    decreases s.len(),
{
    broadcast use vstd::seq_lib::group_to_multiset_ensures;

    if s.len() > 0 {
        lemma_sorted_ids(s.drop_last());
        lemma_insert_sorted(sorted_ids(s.drop_last()), s.last());
        assert(s =~= s.drop_last().push(s.last()));
    } else {
        assert(s =~= Seq::<usize>::empty());
    }
}

/// Sorts a list of row numbers.
pub fn sort_ids(v: Vec<usize>) -> (r: Vec<usize>)
    ensures
        r@ == sorted_ids(v@),
{
    let mut r: Vec<usize> = Vec::new();
    let mut i: usize = 0;
    assert(v@.take(0) =~= seq![]);
    while i < v.len()
        invariant
            i <= v.len(),
            r@ == sorted_ids(v@.take(i as int)),
        decreases v.len() - i,
    {
        let x = v[i];
        proof {
            let next = v@.take(i + 1);
            assert(next.drop_last() =~= v@.take(i as int));
            assert(next.last() == x);
        }
        let ghost base = r@;
        // Find the place from the end, as the definition does.
        let mut k: usize = r.len();
        proof {
            assert(base.take(base.len() as int) =~= base);
            assert(base.skip(base.len() as int) =~= seq![]);
            assert(insert_sorted(base, x) + Seq::<usize>::empty() =~= insert_sorted(base, x));
        }
        while k > 0 && r[k - 1] > x
            invariant
                k <= r.len(),
                r@ == base,
                insert_sorted(base, x) == insert_sorted(base.take(k as int), x) + base.skip(
                    k as int,
                ),
            decreases k,
        {
            proof {
                let cur = base.take(k as int);
                assert(cur.last() == base[k - 1]);
                assert(cur.drop_last() =~= base.take(k - 1));
                assert(insert_sorted(cur.drop_last(), x).push(cur.last()) + base.skip(k as int)
                    =~= insert_sorted(base.take(k - 1), x) + base.skip(k - 1));
            }
            k -= 1;
        }
        proof {
            assert(base.take(base.len() as int) =~= base);
            assert(base.skip(base.len() as int) =~= seq![]);
            let cur = base.take(k as int);
            if k > 0 {
                assert(cur.last() == base[k - 1]);
            }
            assert(insert_sorted(cur, x) =~= cur.push(x));
        }
        r.insert(k, x);
        assert(r@ =~= base.take(k as int).push(x) + base.skip(k as int));
        i += 1;
    }
    assert(v@.take(v.len() as int) =~= v@);
    r
}

/// The value of the table: its counter of unknown values, its rows (the
/// name that stands for each value, and the value), the values that can be
/// found again with their rows, and the row of each name.
pub struct TableView {
    pub vid: usize,
    pub rows: Seq<(Seq<char>, ValueKey)>,
    pub values: Seq<(ValueKey, usize)>,
    pub names: Map<Seq<char>, usize>,
}

/// Whether a value, if it is an unknown one, is one that the counter of
/// unknown values has passed.
pub open spec fn counted(v: ValueKey, vid: usize) -> bool {
    match v {
        ValueKey::Unknown(u) => u < vid,
        _ => true,
    }
}

/// The row of the first entry with the given value.
pub open spec fn find_value(values: Seq<(ValueKey, usize)>, v: ValueKey) -> Option<usize>
    decreases values.len(),
{
    if values.len() == 0 {
        None
    } else if values[0].0 == v {
        Some(values[0].1)
    } else {
        find_value(values.skip(1), v)
    }
}

/// What interning an instruction found: nothing for an effect, else the
/// row of its value, and whether another instruction had given that value
/// before.
pub struct Interned {
    pub table: TableView,
    pub row: Option<(bool, usize)>,
}

impl TableView {
    /// Every row number in the table is that of a row, every name that
    /// stands for a row has a row, there are no more unknown values than
    /// rows, and every unknown value in the table is one that the counter
    /// has passed.
    pub open spec fn wf(self) -> bool {
        &&& forall|n: Seq<char>| #[trigger] self.names.contains_key(n) ==> self.names[n] < self.rows.len()
        &&& forall|k: int| 0 <= k < self.values.len() ==> (#[trigger] self.values[k]).1 < self.rows.len()
        &&& forall|r: int| 0 <= r < self.rows.len() ==> self.names.contains_key((#[trigger] self.rows[r]).0)
        &&& self.vid <= self.rows.len()
        &&& self.rows.len() <= usize::MAX
        &&& forall|r: int| 0 <= r < self.rows.len() ==> counted((#[trigger] self.rows[r]).1, self.vid)
        &&& forall|k: int|
            0 <= k < self.values.len() ==> counted((#[trigger] self.values[k]).0, self.vid)
    }

    /// The empty table.
    pub open spec fn empty() -> TableView {
        TableView { vid: 0, rows: seq![], values: seq![], names: Map::empty() }
    }

    /// The table with a new row for a name, of a value of which nothing is
    /// known.
    pub open spec fn push_unknown(self, name: Seq<char>) -> TableView {
        TableView {
            vid: (self.vid + 1) as usize,
            rows: self.rows.push((name, ValueKey::Unknown(self.vid))),
            values: self.values,
            names: self.names.insert(name, self.rows.len() as usize),
        }
    }

    /// The table at the start of a block: one unknown value for each
    /// argument of the function.
    pub open spec fn seed(args: Seq<ArgView>) -> TableView
        decreases args.len(),
    {
        if args.len() == 0 {
            TableView::empty()
        } else {
            TableView::seed(args.drop_last()).push_unknown(args.last().name)
        }
    }

    /// The row of a name.
    pub open spec fn idx(self, name: Seq<char>) -> Option<usize> {
        if self.names.contains_key(name) {
            Some(self.names[name])
        } else {
            None
        }
    }

    /// The table in which the name has a row, a new one of unknown value
    /// if it had none.
    pub open spec fn with_name(self, name: Seq<char>) -> TableView {
        if self.names.contains_key(name) {
            self
        } else {
            self.push_unknown(name)
        }
    }

    /// The table after each of the names was given a row, and for each the
    /// name that stands for its row.
    pub open spec fn rename_args(self, args: Seq<Seq<char>>) -> (TableView, Seq<Seq<char>>)
        decreases args.len(),
    {
        if args.len() == 0 {
            (self, seq![])
        } else {
            let (t, done) = self.rename_args(args.drop_last());
            let t2 = t.with_name(args.last());
            (t2, done.push(t2.rows[t2.names[args.last()] as int].0))
        }
    }

    /// An instruction with each argument replaced by the name that stands
    /// for its value; a constant is left as it is.
    pub open spec fn transform(self, i: InstrView) -> (TableView, InstrView) {
        match i {
            InstrView::Constant { .. } => (self, i),
            _ => {
                let (t, names) = self.rename_args(i.arg_list());
                (t, i.set_args(names))
            },
        }
    }

    /// The literal that a name is known to hold.
    pub open spec fn literal_of(self, name: Seq<char>) -> Option<Literal> {
        match self.idx(name) {
            Some(r) => match self.rows[r as int].1 {
                ValueKey::Literal(l) => Some(l),
                _ => None,
            },
            None => None,
        }
    }

    /// The literals that the names are known to hold.
    pub open spec fn literals(self, args: Seq<Seq<char>>) -> Seq<Option<Literal>> {
        Seq::new(args.len(), |i: int| self.literal_of(args[i]))
    }

    /// The rows of the names.
    pub open spec fn ids(self, args: Seq<Seq<char>>) -> Seq<usize> {
        Seq::new(args.len(), |i: int| self.names[args[i]])
    }

    /// The value of a value operation that did not fold to a literal: that
    /// of its argument for a copy, the operation on the rows of its
    /// arguments, sorted if the opcode is commutative, for any other pure
    /// opcode; nothing for an impure one.
    pub open spec fn op_key(self, i: InstrView) -> Result<Option<ValueKey>, FoldError> {
        match i {
            InstrView::Value { op, args, op_type, .. } => if !i.is_pure() {
                Ok(None)
            } else if op == ValueOps::Id {
                if args.len() == 1 {
                    Ok(Some(self.rows[self.names[args[0]] as int].1))
                } else {
                    Err(FoldError::Mismatch)
                }
            } else {
                Ok(
                    Some(
                        ValueKey::Op(
                            op,
                            op_type,
                            if i.is_commutative() {
                                sorted_ids(self.ids(args))
                            } else {
                                self.ids(args)
                            },
                        ),
                    ),
                )
            },
            _ => Ok(None),
        }
    }

    /// Whether the value of an instruction is told by the rows of its
    /// arguments: it is a pure operation that does not fold to a literal.
    pub open spec fn keyed<F: Fn(FloatQuery) -> Literal>(self, i: InstrView, fl: &F) -> bool {
        i is Value && i.is_pure() && fold_spec(i, self.literals(i.arg_list()), fl) matches Ok(
            Some((_, None)),
        )
    }

    /// The table with the name bound to the row of a value that can be
    /// found again: the row it has, or a new one that the name stands for.
    pub open spec fn bind(self, name: Seq<char>, v: ValueKey) -> Interned {
        match find_value(self.values, v) {
            Some(r) => Interned {
                table: TableView { names: self.names.insert(name, r), ..self },
                row: Some((true, r)),
            },
            None => Interned {
                table: TableView {
                    rows: self.rows.push((name, v)),
                    values: self.values.push((v, self.rows.len() as usize)),
                    names: self.names.insert(name, self.rows.len() as usize),
                    ..self
                },
                row: Some((false, self.rows.len() as usize)),
            },
        }
    }

    /// The table with the name bound to the row of a new value of which
    /// nothing is known. The value can be found again, so a later copy of
    /// the name shares its row.
    pub open spec fn bind_unknown(self, name: Seq<char>) -> Interned {
        (TableView { vid: (self.vid + 1) as usize, ..self }).bind(
            name,
            ValueKey::Unknown(self.vid),
        )
    }

    /// Interns the value of an instruction. An effect has none. The value
    /// of any other instruction is the literal it folds to, if it folds;
    /// else what `op_key` gives; else a new unknown value.
    pub open spec fn intern<F: Fn(FloatQuery) -> Literal>(self, i: InstrView, fl: &F) -> Result<
        Interned,
        FoldError,
    > {
        match fold_spec(i, self.literals(i.arg_list()), fl) {
            Err(e) => Err(e),
            Ok(None) => Ok(Interned { table: self, row: None }),
            Ok(Some((name, Some(l)))) => Ok(self.bind(name, ValueKey::Literal(l))),
            Ok(Some((name, None))) => match self.op_key(i) {
                Err(e) => Err(e),
                Ok(Some(v)) => Ok(self.bind(name, v)),
                Ok(None) => Ok(self.bind_unknown(name)),
            },
        }
    }

    /// The instruction that gives `dest` the value of its row from the name
    /// that stands for it: a constant for a literal, a copy for an
    /// operation, nothing for an unknown value or a name without a row.
    pub open spec fn build_ref(self, dest: Seq<char>) -> Option<InstrView> {
        match self.idx(dest) {
            Some(r) => match self.rows[r as int].1 {
                ValueKey::Literal(l) => Some(
                    InstrView::Constant {
                        dest,
                        const_type: l.type_of(),
                        value: l,
                        op: ConstOps::Const,
                        pos: None,
                    },
                ),
                ValueKey::Op(_, ty, _) => Some(
                    InstrView::Value {
                        dest,
                        op: ValueOps::Id,
                        args: seq![self.rows[r as int].0],
                        funcs: seq![],
                        labels: seq![],
                        pos: None,
                        op_type: ty,
                    },
                ),
                ValueKey::Unknown(_) => None,
            },
            None => None,
        }
    }

    /// The table in which another name stands for a row.
    pub open spec fn clobber(self, r: usize, name: Seq<char>) -> TableView {
        TableView {
            rows: self.rows.update(r as int, (name, self.rows[r as int].1)),
            names: self.names.insert(name, r),
            ..self
        }
    }
}

/// The table of local value numbering.
#[derive(Debug)]
pub struct LVNTable {
    pub vid: usize,
    pub table: Vec<(String, LVNValue)>,
    pub vtable: Vec<(LVNValue, usize)>,
    pub ntable: NameMap<usize>,
}

impl View for LVNTable {
    type V = TableView;

    open spec fn view(&self) -> TableView {
        TableView {
            vid: self.vid,
            rows: Seq::new(self.table@.len(), |i: int| (self.table@[i].0@, self.table@[i].1@)),
            values: Seq::new(self.vtable@.len(), |i: int| (self.vtable@[i].0@, self.vtable@[i].1)),
            names: self.ntable@,
        }
    }
}

impl LVNTable {
    /// The table is in order.
    pub open spec fn wf(&self) -> bool {
        &&& self.ntable.wf()
        &&& self@.wf()
    }

    /// The table at the start of a block.
    pub fn new(args: &Vec<Argument>) -> (t: Self)
        ensures
            t.wf(),
            t@ == TableView::seed(args.deep_view()),
    {
        let mut t = LVNTable { vid: 0, table: Vec::new(), vtable: Vec::new(), ntable: NameMap::new() };
        assert(t@.rows =~= seq![]);
        assert(t@.values =~= seq![]);
        let ghost all = args.deep_view();
        assert(all.take(0) =~= seq![]);
        let mut i: usize = 0;
        while i < args.len()
            invariant
                i <= args.len(),
                all == args.deep_view(),
                t.wf(),
                t@ == TableView::seed(all.take(i as int)),
            decreases args.len() - i,
        {
            proof {
                let next = all.take(i + 1);
                assert(next.drop_last() =~= all.take(i as int));
                assert(next.last() == args[i as int]@);
            }
            t.push_unknown(args[i].name.clone());
            i += 1;
        }
        assert(all.take(args.len() as int) =~= all);
        t
    }

    /// Adds a row for a name, of a value of which nothing is known.
    fn push_unknown(&mut self, name: String) -> (r: usize)
        requires
            old(self).wf(),
        ensures
            final(self).wf(),
            final(self)@ == old(self)@.push_unknown(name@),
            r == old(self)@.rows.len(),
    {
        let r = self.table.len();
        let value = LVNValue::Unknown(self.vid);
        self.table.push((name.clone(), value));
        let n = self.table.len();
        self.ntable.insert(name, r);
        self.vid = self.vid + 1;
        proof {
            assert(self@.rows =~= old(self)@.rows.push((name@, ValueKey::Unknown(old(self).vid))));
            assert(self@.values =~= old(self)@.values);
            let t = self@;
            assert forall|n: Seq<char>| #[trigger] t.names.contains_key(n) implies t.names[n]
                < t.rows.len() by {
                if n != name@ {
                    assert(old(self)@.names.contains_key(n));
                }
            }
            assert forall|k: int| 0 <= k < t.rows.len() implies t.names.contains_key(
                (#[trigger] t.rows[k]).0,
            ) by {
                if k < old(self)@.rows.len() {
                    assert(old(self)@.names.contains_key(old(self)@.rows[k].0));
                }
            }
            assert forall|k: int| 0 <= k < t.values.len() implies (#[trigger] t.values[k]).1
                < t.rows.len() by {
                assert(old(self)@.values[k].1 < old(self)@.rows.len());
            }
        }
        r
    }

    /// The row of a name.
    pub fn idx(&self, name: &String) -> (r: Option<usize>)
        requires
            self.wf(),
        ensures
            r == self@.idx(name@),
            r.is_some() ==> r.unwrap() < self@.rows.len(),
    {
        match self.ntable.get(name) {
            Some(i) => Some(*i),
            None => None,
        }
    }

    /// The row of a name, a new one of unknown value if it had none.
    pub fn idx_or_insert(&mut self, name: &String) -> (r: usize)
        requires
            old(self).wf(),
        ensures
            final(self).wf(),
            final(self)@ == old(self)@.with_name(name@),
            r == final(self)@.names[name@],
            r < final(self)@.rows.len(),
    {
        match self.idx(name) {
            Some(i) => i,
            None => self.push_unknown(name.clone()),
        }
    }

    /// The value of a row.
    pub fn value(&self, idx: usize) -> (r: &LVNValue)
        requires
            idx < self@.rows.len(),
        ensures
            r@ == self@.rows[idx as int].1,
    {
        &self.table[idx].1
    }

    /// The name that stands for a row.
    pub fn representative(&self, idx: usize) -> (r: &String)
        requires
            idx < self@.rows.len(),
        ensures
            r@ == self@.rows[idx as int].0,
    {
        &self.table[idx].0
    }

    /// The literals that the names are known to hold.
    fn literals(&self, args: &Vec<String>) -> (r: Vec<Option<Literal>>)
        requires
            self.wf(),
        ensures
            r@ == self@.literals(args.deep_view()),
    {
        let mut r: Vec<Option<Literal>> = Vec::new();
        let mut i: usize = 0;
        while i < args.len()
            invariant
                i <= args.len(),
                self.wf(),
                r.len() == i,
                forall|j: int| 0 <= j < i ==> r[j] == self@.literal_of(args[j]@),
            decreases args.len() - i,
        {
            let l = match self.idx(&args[i]) {
                Some(row) => match self.value(row) {
                    LVNValue::Literal(l) => Some(*l),
                    _ => None,
                },
                None => None,
            };
            r.push(l);
            i += 1;
        }
        proof {
            lemma_deep_index(*args);
            assert(r@ =~= self@.literals(args.deep_view()));
        }
        r
    }

    /// The row of the first entry with the given value.
    fn find(&self, v: &LVNValue) -> (r: Option<usize>)
        ensures
            r == find_value(self@.values, v@),
    {
        let ghost values = self@.values;
        let mut i: usize = 0;
        assert(values.skip(0) =~= values);
        while i < self.vtable.len()
            invariant
                i <= self.vtable.len(),
                values == self@.values,
                find_value(values, v@) == find_value(values.skip(i as int), v@),
            decreases self.vtable.len() - i,
        {
            proof {
                assert(values.skip(i as int)[0] == values[i as int]);
                assert(values.skip(i as int).skip(1) =~= values.skip(i + 1));
            }
            if self.vtable[i].0.same(v) {
                return Some(self.vtable[i].1);
            }
            i += 1;
        }
        assert(values.skip(self.vtable.len() as int) =~= seq![]);
        None
    }

    /// Binds a name to the row of a value that can be found again.
    fn bind(&mut self, name: String, v: LVNValue) -> (r: (bool, usize))
        requires
            old(self).wf(),
            counted(v@, old(self).vid),
        ensures
            final(self).wf(),
            final(self)@ == old(self)@.bind(name@, v@).table,
            Some(r) == old(self)@.bind(name@, v@).row,
            r.1 < final(self)@.rows.len(),
    {
        let ghost before = self@;
        match self.find(&v) {
            Some(row) => {
                proof {
                    lemma_find_value(before.values, v@);
                }
                self.ntable.insert(name, row);
                proof {
                    assert(self@.rows =~= before.rows);
                    assert(self@.values =~= before.values);
                }
                (true, row)
            },
            None => {
                let row = self.table.len();
                self.table.push((name.clone(), v.clone()));
                let n = self.table.len();
                self.vtable.push((v, row));
                self.ntable.insert(name, row);
                proof {
                    assert(self@.rows =~= before.rows.push((name@, v@)));
                    assert(self@.values =~= before.values.push((v@, row)));
                    let t = self@;
                    assert forall|k: int| 0 <= k < t.rows.len() implies t.names.contains_key(
                        (#[trigger] t.rows[k]).0,
                    ) by {
                        if k < before.rows.len() {
                            assert(before.names.contains_key(before.rows[k].0));
                        }
                    }
                    assert forall|k: int| 0 <= k < t.values.len() implies (#[trigger] t.values[k]).1
                        < t.rows.len() by {
                        if k < before.values.len() {
                            assert(before.values[k].1 < before.rows.len());
                        }
                    }
                }
                (false, row)
            },
        }
    }

    /// Binds a name to the row of a new value of which nothing is known: a
    /// new row, since no entry holds a value that the counter has not
    /// passed.
    fn bind_unknown(&mut self, name: String) -> (r: (bool, usize))
        requires
            old(self).wf(),
        ensures
            final(self).wf(),
            final(self)@ == old(self)@.bind_unknown(name@).table,
            Some(r) == old(self)@.bind_unknown(name@).row,
            r == (false, old(self)@.rows.len() as usize),
            r.1 < final(self)@.rows.len(),
    {
        let ghost before = self@;
        let ghost v = ValueKey::Unknown(self.vid);
        proof {
            lemma_find_value(before.values, v);
            if find_value(before.values, v).is_some() {
                let k = choose|k: int|
                    0 <= k < before.values.len() && (#[trigger] before.values[k]).1 == find_value(
                        before.values,
                        v,
                    ).unwrap() && before.values[k].0 == v;
                assert(counted(before.values[k].0, before.vid));
            }
        }
        let row = self.table.len();
        self.table.push((name.clone(), LVNValue::Unknown(self.vid)));
        let n = self.table.len();
        self.vtable.push((LVNValue::Unknown(self.vid), row));
        self.ntable.insert(name, row);
        self.vid = self.vid + 1;
        proof {
            assert(self@.rows =~= before.rows.push((name@, v)));
            assert(self@.values =~= before.values.push((v, row)));
            let t = self@;
            assert forall|k: int| 0 <= k < t.rows.len() implies t.names.contains_key(
                (#[trigger] t.rows[k]).0,
            ) && counted(t.rows[k].1, t.vid) by {
                if k < before.rows.len() {
                    assert(before.names.contains_key(before.rows[k].0));
                    assert(counted(before.rows[k].1, before.vid));
                }
            }
            assert forall|k: int| 0 <= k < t.values.len() implies (#[trigger] t.values[k]).1
                < t.rows.len() && counted(t.values[k].0, t.vid) by {
                if k < before.values.len() {
                    assert(before.values[k].1 < before.rows.len());
                    assert(counted(before.values[k].0, before.vid));
                }
            }
        }
        (false, row)
    }

    /// The rows of the names.
    fn ids(&self, args: &Vec<String>) -> (r: Vec<usize>)
        requires
            self.wf(),
            forall|k: int| 0 <= k < args.len() ==> self@.names.contains_key(#[trigger] args[k]@),
        ensures
            r@ == self@.ids(args.deep_view()),
    {
        let mut r: Vec<usize> = Vec::new();
        let mut i: usize = 0;
        while i < args.len()
            invariant
                i <= args.len(),
                self.wf(),
                r.len() == i,
                forall|k: int| 0 <= k < args.len() ==> self@.names.contains_key(#[trigger] args[k]@),
                forall|j: int| 0 <= j < i ==> r[j] == self@.names[args[j]@],
            decreases args.len() - i,
        {
            assert(self@.names.contains_key(args[i as int]@));
            let row = self.idx(&args[i]).unwrap();
            r.push(row);
            i += 1;
        }
        proof {
            lemma_deep_index(*args);
            assert(r@ =~= self@.ids(args.deep_view()));
        }
        r
    }

    /// Interns the value of an instruction. Returns nothing for an effect,
    /// else the row of the value and whether another instruction had given
    /// that value before. The arguments need rows only where the value is
    /// told by them: for a pure operation that does not fold.
    pub fn intern<F: Fn(FloatQuery) -> Literal>(&mut self, instr: &Instruction, fl: &F) -> (r: Result<
        Option<(bool, usize)>,
        FoldError,
    >)
        requires
            old(self).wf(),
            unit_ok(fl),
            old(self)@.keyed(instr@, fl) ==> forall|k: int|
                0 <= k < instr@.arg_list().len() ==> old(self)@.names.contains_key(
                    #[trigger] instr@.arg_list()[k],
                ),
        ensures
            final(self).wf(),
            match old(self)@.intern(instr@, fl) {
                Ok(i) => r == Ok::<Option<(bool, usize)>, FoldError>(i.row) && final(self)@
                    == i.table,
                Err(e) => r == Err::<Option<(bool, usize)>, FoldError>(e) && final(self)@ == old(
                    self,
                )@,
            },
            r.is_ok() && r.unwrap().is_some() ==> r.unwrap().unwrap().1 < final(self)@.rows.len(),
    {
        let lits = match instr.args_ref() {
            Some(args) => self.literals(args),
            None => {
                let v: Vec<Option<Literal>> = Vec::new();
                assert(v@ =~= self@.literals(instr@.arg_list()));
                v
            },
        };
        let folded = match fold_literals(instr, &lits, fl) {
            Ok(f) => f,
            Err(e) => {
                return Err(e);
            },
        };
        match folded {
            None => Ok(None),
            Some((name, Some(l))) => Ok(Some(self.bind(name, LVNValue::Literal(l)))),
            Some((name, None)) => {
                match instr {
                    Instruction::Value { op, args, op_type, .. } => {
                        proof {
                            lemma_deep_index(*args);
                        }
                        if !op.is_pure() {
                            Ok(Some(self.bind_unknown(name)))
                        } else if *op == ValueOps::Id {
                            if args.len() != 1 {
                                return Err(FoldError::Mismatch);
                            }
                            assert(self@.names.contains_key(instr@.arg_list()[0]));
                            let row = self.idx(&args[0]).unwrap();
                            let v = self.value(row).clone();
                            Ok(Some(self.bind(name, v)))
                        } else {
                            let ghost names = instr@.arg_list();
                            assert forall|k: int| 0 <= k < args.len() implies self@.names.contains_key(
                                #[trigger] args[k]@,
                            ) by {
                                assert(self@.names.contains_key(names[k]));
                            }
                            let mut ids = self.ids(args);
                            if op.is_commutative() {
                                ids = sort_ids(ids);
                            }
                            let v = LVNValue::Op(*op, op_type.clone(), ids);
                            Ok(Some(self.bind(name, v)))
                        }
                    },
                    _ => Ok(Some(self.bind_unknown(name))),
                }
            },
        }
    }

    /// Replaces each argument of an instruction by the name that stands
    /// for its value, giving a row to every argument that had none.
    pub fn transform(&mut self, instr: Instruction) -> (r: Instruction)
        requires
            old(self).wf(),
        ensures
            final(self).wf(),
            (final(self)@, r@) == old(self)@.transform(instr@),
            forall|k: int|
                0 <= k < r@.arg_list().len() ==> final(self)@.names.contains_key(
                    #[trigger] r@.arg_list()[k],
                ),
    {
        let ghost start = self@;
        match &instr {
            Instruction::Constant { .. } => instr,
            _ => {
                let mut instr = instr;
                let args = instr.args().unwrap();
                let ghost names = args.deep_view();
                let mut out: Vec<String> = Vec::new();
                let mut i: usize = 0;
                assert(names.take(0) =~= seq![]);
                assert(out.deep_view() =~= seq![]);
                while i < args.len()
                    invariant
                        i <= args.len(),
                        names == args.deep_view(),
                        self.wf(),
                        start.wf(),
                        (self@, out.deep_view()) == start.rename_args(names.take(i as int)),
                    decreases args.len() - i,
                {
                    proof {
                        let next = names.take(i + 1);
                        assert(next.drop_last() =~= names.take(i as int));
                        lemma_deep_index(args);
                        assert(next.last() == args[i as int]@);
                    }
                    let row = self.idx_or_insert(&args[i]);
                    let ghost before = out;
                    let rep = self.representative(row).clone();
                    out.push(rep);
                    proof {
                        lemma_deep_push(before, out, rep);
                    }
                    i += 1;
                }
                proof {
                    assert(names.take(args.len() as int) =~= names);
                    assert(self@.rows.len() == self.table@.len());
                    lemma_rename_names(start, names);
                }
                instr.set_args(out);
                instr
            },
        }
    }

    /// The instruction that gives `dest` the value of its row.
    pub fn build_ref(&self, dest: &String) -> (r: Option<Instruction>)
        requires
            self.wf(),
        ensures
            r.deep_view() == self@.build_ref(dest@),
    {
        match self.idx(dest) {
            Some(row) => match self.value(row) {
                LVNValue::Literal(l) => Some(
                    Instruction::Constant {
                        dest: dest.clone(),
                        const_type: l.get_type(),
                        value: *l,
                        op: ConstOps::Const,
                        pos: None,
                    },
                ),
                LVNValue::Op(_, ty, _) => {
                    let mut args: Vec<String> = Vec::new();
                    let rep = self.representative(row).clone();
                    args.push(rep);
                    let funcs: Vec<String> = Vec::new();
                    let labels: Vec<String> = Vec::new();
                    proof {
                        assert(args.deep_view() =~= seq![rep@]);
                        assert(funcs.deep_view() =~= seq![]);
                        assert(labels.deep_view() =~= seq![]);
                    }
                    Some(
                        Instruction::Value {
                            dest: dest.clone(),
                            op: ValueOps::Id,
                            args,
                            funcs,
                            labels,
                            pos: None,
                            op_type: ty.clone(),
                        },
                    )
                },
                LVNValue::Unknown(_) => None,
            },
            None => None,
        }
    }

    /// Lets another name stand for a row.
    pub fn clobber(&mut self, idx: usize, name: &String)
        requires
            old(self).wf(),
            idx < old(self)@.rows.len(),
        ensures
            final(self).wf(),
            final(self)@ == old(self)@.clobber(idx, name@),
    {
        let ghost before = self@;
        let v = self.table[idx].1.clone();
        self.table.set(idx, (name.clone(), v));
        self.ntable.insert(name.clone(), idx);
        proof {
            assert(self@.rows =~= before.rows.update(idx as int, (name@, before.rows[idx as int].1)));
            assert(self@.values =~= before.values);
            let t = self@;
            assert forall|k: int| 0 <= k < t.rows.len() implies t.names.contains_key(
                (#[trigger] t.rows[k]).0,
            ) by {
                if k != idx {
                    assert(before.names.contains_key(before.rows[k].0));
                }
            }
            assert forall|k: int| 0 <= k < t.values.len() implies (#[trigger] t.values[k]).1
                < t.rows.len() by {
                assert(before.values[k].1 < before.rows.len());
            }
        }
    }
}

/// A value that is found is one of the entries.
pub proof fn lemma_find_value(values: Seq<(ValueKey, usize)>, v: ValueKey)
    ensures
        find_value(values, v).is_some() ==> exists|k: int|
            0 <= k < values.len() && (#[trigger] values[k]).1 == find_value(values, v).unwrap()
                && values[k].0 == v,
    decreases values.len(),
{
    if values.len() > 0 && values[0].0 != v {
        lemma_find_value(values.skip(1), v);
        if find_value(values, v).is_some() {
            let k = choose|k: int|
                0 <= k < values.skip(1).len() && (#[trigger] values.skip(1)[k]).1 == find_value(
                    values.skip(1),
                    v,
                ).unwrap() && values.skip(1)[k].0 == v;
            assert(values[k + 1].1 == find_value(values, v).unwrap() && values[k + 1].0 == v);
        }
    }
}

/// After the arguments were given rows, every name that replaces one has a
/// row.
pub proof fn lemma_rename_names(t: TableView, args: Seq<Seq<char>>)
    requires
        t.wf(),
        t.rename_args(args).0.rows.len() <= usize::MAX,
    ensures
        t.rename_args(args).0.wf(),
        t.rename_args(args).1.len() == args.len(),
        forall|k: int|
            0 <= k < args.len() ==> t.rename_args(args).0.names.contains_key(
                #[trigger] t.rename_args(args).1[k],
            ),
    decreases args.len(),
{
    if args.len() > 0 {
        lemma_rename_grows(t, args.drop_last(), args);
        lemma_rename_names(t, args.drop_last());
        let (t1, done) = t.rename_args(args.drop_last());
        let t2 = t1.with_name(args.last());
        assert(t2.wf());
        assert forall|k: int| 0 <= k < args.len() implies t.rename_args(args).0.names.contains_key(
            #[trigger] t.rename_args(args).1[k],
        ) by {
            if k < args.len() - 1 {
                assert(t1.names.contains_key(done[k]));
            }
        }
    }
}

/// Giving more names rows leaves no fewer rows.
pub proof fn lemma_rename_grows(t: TableView, fewer: Seq<Seq<char>>, more: Seq<Seq<char>>)
    requires
        more.len() > 0,
        fewer == more.drop_last(),
    ensures
        t.rename_args(fewer).0.rows.len() <= t.rename_args(more).0.rows.len(),
{
}

} // verus!
