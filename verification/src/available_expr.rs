//! Available expressions: for each point of the program, the pure
//! expressions that were computed on every way to it and whose operands
//! were not written since.
use crate::basic_block::{BasicBlock, BlockView};
use crate::bb_function::{BBFunction, BBFunctionView};
use crate::dataflow::DataflowPass;
use crate::instr::InstrExt;
use crate::ir::{clone_names, lemma_deep_index, InstrView, Instruction, Literal, ValueOps};
use crate::names::lemma_take_set;
use crate::passes::PassError;
use crate::vec_set::{Keyed, VecSet};
use vstd::prelude::*;

verus! {

/// A pure expression.
#[derive(Debug, PartialEq, Eq)]
pub enum Expr {
    /// A constant.
    Const(Literal),
    /// An operation on names.
    Op(ValueOps, Vec<String>),
}

/// The value of an [`Expr`].
pub enum ExprView {
    Const(Literal),
    Op(ValueOps, Seq<Seq<char>>),
}

impl ExprView {
    /// Whether the expression reads a name.
    pub open spec fn mentions(self, name: Seq<char>) -> bool {
        match self {
            ExprView::Const(_) => false,
            ExprView::Op(_, args) => args.contains(name),
        }
    }
}

/// The expression that a pure instruction computes.
pub open spec fn expr_of(i: InstrView) -> Option<ExprView> {
    if i.is_pure() {
        match i {
            InstrView::Value { args, op, .. } => Some(ExprView::Op(op, args)),
            InstrView::Constant { value, .. } => Some(ExprView::Const(value)),
            _ => None,
        }
    } else {
        None
    }
}

impl Keyed for Expr {
    type Key = ExprView;

    open spec fn key(&self) -> ExprView {
        match *self {
            Expr::Const(l) => ExprView::Const(l),
            Expr::Op(op, args) => ExprView::Op(op, args.deep_view()),
        }
    }

    fn same_key(&self, other: &Self) -> (r: bool) {
        match (self, other) {
            (Expr::Const(a), Expr::Const(b)) => *a == *b,
            (Expr::Op(op1, a1), Expr::Op(op2, a2)) => {
                if !(*op1 == *op2) || a1.len() != a2.len() {
                    proof {
                        lemma_deep_index(*a1);
                        lemma_deep_index(*a2);
                    }
                    return false;
                }
                let mut i: usize = 0;
                while i < a1.len()
                    invariant
                        i <= a1.len(),
                        a1.len() == a2.len(),
                        self.key() == ExprView::Op(*op1, a1.deep_view()),
                        other.key() == ExprView::Op(*op2, a2.deep_view()),
                        *op1 == *op2,
                        forall|j: int| 0 <= j < i ==> a1[j]@ == a2[j]@,
                    decreases a1.len() - i,
                {
                    proof {
                        lemma_deep_index(*a1);
                        lemma_deep_index(*a2);
                    }
                    if !a1[i].eq(&a2[i]) {
                        assert(a1.deep_view()[i as int] != a2.deep_view()[i as int]);
                        return false;
                    }
                    i += 1;
                }
                proof {
                    lemma_deep_index(*a1);
                    lemma_deep_index(*a2);
                    assert(a1.deep_view() =~= a2.deep_view());
                }
                true
            },
            _ => false,
        }
    }

    fn dup(&self) -> (r: Self) {
        match self {
            Expr::Const(l) => Expr::Const(*l),
            Expr::Op(op, args) => Expr::Op(*op, clone_names(args)),
        }
    }
}

impl Expr {
    /// Whether the expression reads a name.
    pub fn contains(&self, arg: &String) -> (r: bool)
        ensures
            r == self.key().mentions(arg@),
    {
        match self {
            Expr::Const(_) => false,
            Expr::Op(op, args) => {
                let mut i: usize = 0;
                while i < args.len()
                    invariant
                        i <= args.len(),
                        self.key() == ExprView::Op(*op, args.deep_view()),
                        forall|j: int| 0 <= j < i ==> args.deep_view()[j] != arg@,
                    decreases args.len() - i,
                {
                    proof {
                        lemma_deep_index(*args);
                    }
                    if args[i].eq(arg) {
                        assert(args.deep_view()[i as int] == arg@);
                        return true;
                    }
                    i += 1;
                }
                proof {
                    lemma_deep_index(*args);
                }
                false
            },
        }
    }

    /// The expression that a pure instruction computes.
    pub fn new(instr: &Instruction) -> (r: Option<Self>)
        ensures
            match r {
                Some(e) => expr_of(instr@) == Some(e.key()),
                None => expr_of(instr@).is_none(),
            },
    {
        if instr.is_pure() {
            match instr {
                Instruction::Value { args, op, .. } => Some(Expr::Op(*op, clone_names(args))),
                Instruction::Constant { value, .. } => Some(Expr::Const(*value)),
                _ => None,
            }
        } else {
            None
        }
    }
}

/// A set of expressions: all expressions, or finitely many.
pub enum ExprSet {
    /// Every expression.
    Full,
    /// The listed expressions.
    Finite(VecSet<Expr>),
}

impl ExprSet {
    /// The set as a mathematical set, or nothing for the set of all
    /// expressions.
    pub open spec fn view(&self) -> Option<Set<ExprView>> {
        match *self {
            ExprSet::Full => None,
            ExprSet::Finite(s) => Some(s@),
        }
    }

    /// The set without an expression.
    pub fn empty() -> (r: Self)
        ensures
            r@ == Some(Set::<ExprView>::empty()),
    {
        ExprSet::Finite(VecSet::new())
    }

    /// The set of all expressions.
    pub fn full() -> (r: Self)
        ensures
            r@.is_none(),
    {
        ExprSet::Full
    }

    /// A set that holds the same.
    pub fn dup(&self) -> (r: Self)
        ensures
            r@ == self@,
    {
        match self {
            ExprSet::Full => ExprSet::Full,
            ExprSet::Finite(s) => ExprSet::Finite(s.dup()),
        }
    }

    /// What both sets hold.
    pub fn intersect(&self, other: &Self) -> (r: Self)
        ensures
            r@ == meet2(self@, other@),
    {
        match (self, other) {
            (ExprSet::Full, _) => other.dup(),
            (_, ExprSet::Full) => self.dup(),
            (ExprSet::Finite(a), ExprSet::Finite(b)) => ExprSet::Finite(a.intersect(b)),
        }
    }

    /// Adds an expression; the set of all expressions stays as it is.
    pub fn insert(&mut self, expr: Expr)
        ensures
            final(self)@ == added(old(self)@, expr.key()),
    {
        match self {
            ExprSet::Full => {},
            ExprSet::Finite(set) => {
                set.insert(expr);
            },
        }
    }

    /// Takes out every expression that reads a name; the set of all
    /// expressions stays as it is.
    pub fn forget(&mut self, name: &String)
        ensures
            final(self)@ == forgotten(old(self)@, name@),
    {
        match self {
            ExprSet::Full => {},
            ExprSet::Finite(set) => {
                let ghost before = set@;
                let ghost keys = set.keys();
                let mut kept: VecSet<Expr> = VecSet::new();
                let mut i: usize = 0;
                while i < set.items.len()
                    invariant
                        i <= set.items.len(),
                        keys == set.keys(),
                        forall|e: ExprView|
                            #[trigger] kept@.contains(e) <==> (keys.take(i as int).contains(e)
                                && !e.mentions(name@)),
                    decreases set.items.len() - i,
                {
                    let ghost old_kept = kept@;
                    proof {
                        lemma_take_set(keys, i as int);
                    }
                    if !set.items[i].contains(name) {
                        kept.insert(set.items[i].dup());
                    }
                    proof {
                        let key = keys[i as int];
                        assert forall|e: ExprView|
                            #[trigger] kept@.contains(e) <==> (keys.take(i + 1).contains(e)
                                && !e.mentions(name@)) by {
                            assert(keys.take(i + 1).to_set().contains(e) <==> keys.take(
                                i as int,
                            ).to_set().insert(key).contains(e));
                            assert(old_kept.contains(e) <==> (keys.take(i as int).contains(e)
                                && !e.mentions(name@)));
                        }
                    }
                    i += 1;
                }
                proof {
                    assert(keys.take(set.items.len() as int) =~= keys);
                    assert(kept@ =~= before.filter(|e: ExprView| !e.mentions(name@)));
                }
                *set = kept;
            },
        }
    }

    /// Whether two sets hold the same.
    pub fn same_set(&self, other: &Self) -> (r: bool)
        ensures
            r == (self@ == other@),
    {
        match (self, other) {
            (ExprSet::Full, ExprSet::Full) => true,
            (ExprSet::Finite(a), ExprSet::Finite(b)) => a.same_set(b),
            _ => false,
        }
    }
}

/// What two sets hold both, where nothing stands for the set of all
/// expressions.
pub open spec fn meet2(a: Option<Set<ExprView>>, b: Option<Set<ExprView>>) -> Option<Set<ExprView>> {
    match (a, b) {
        (None, _) => b,
        (_, None) => a,
        (Some(x), Some(y)) => Some(x.intersect(y)),
    }
}

/// What all of some sets hold.
pub open spec fn meet_all(vals: Seq<Option<Set<ExprView>>>) -> Option<Set<ExprView>>
    decreases vals.len(),
{
    if vals.len() == 0 {
        None
    } else {
        meet2(meet_all(vals.drop_last()), vals.last())
    }
}

/// A set with one more expression.
pub open spec fn added(s: Option<Set<ExprView>>, e: ExprView) -> Option<Set<ExprView>> {
    match s {
        None => None,
        Some(x) => Some(x.insert(e)),
    }
}

/// A set without the expressions that read a name.
pub open spec fn forgotten(s: Option<Set<ExprView>>, name: Seq<char>) -> Option<Set<ExprView>> {
    match s {
        None => None,
        Some(x) => Some(x.filter(|e: ExprView| !e.mentions(name))),
    }
}

/// The expressions available after an instruction: its own is added if it
/// is pure, and those that read its destination go.
pub open spec fn after_instr(i: InstrView, s: Option<Set<ExprView>>) -> Option<Set<ExprView>> {
    let with_own = match expr_of(i) {
        Some(e) => added(s, e),
        None => s,
    };
    match i.dest() {
        Some(d) => forgotten(with_own, d),
        None => with_own,
    }
}

/// The expressions available after the first `k` instructions of a run.
pub open spec fn after_run(all: Seq<InstrView>, k: int, s: Option<Set<ExprView>>) -> Option<
    Set<ExprView>,
>
    decreases k,
{
    if k <= 0 {
        s
    } else {
        after_instr(all[k - 1], after_run(all, k - 1, s))
    }
}

/// The analysis of available expressions.
#[derive(Clone, Copy, Debug, PartialEq, Eq, Structural)]
pub struct AvailableExpr;

impl DataflowPass for AvailableExpr {
    type Val = ExprSet;

    type Model = Option<Set<ExprView>>;

    open spec fn model(v: &ExprSet) -> Option<Set<ExprView>> {
        v@
    }

    open spec fn usable(&self) -> bool {
        true
    }

    open spec fn reversed_spec(&self) -> bool {
        false
    }

    open spec fn entry_spec(&self, f: BBFunctionView) -> Option<Set<ExprView>> {
        Some(Set::empty())
    }

    open spec fn init_spec(&self, f: BBFunctionView) -> Option<Set<ExprView>> {
        None
    }

    open spec fn meet_spec(&self, vals: Seq<Option<Set<ExprView>>>) -> Option<Set<ExprView>> {
        meet_all(vals)
    }

    open spec fn transfer_spec(&self, b: BlockView, v: Option<Set<ExprView>>) -> Result<
        Option<Set<ExprView>>,
        PassError,
    > {
        Ok(after_run(b.all(), b.all().len() as int, v))
    }

    open spec fn finish_spec(&self, f: BBFunctionView, v: Option<Set<ExprView>>) -> Option<
        Set<ExprView>,
    > {
        v
    }

    fn reversed(&self) -> (r: bool) {
        false
    }

    fn entry(&self, func: &BBFunction) -> (r: ExprSet) {
        ExprSet::empty()
    }

    fn init(&self, func: &BBFunction) -> (r: ExprSet) {
        ExprSet::full()
    }

    fn meet(&self, in_vals: &Vec<ExprSet>) -> (r: ExprSet) {
        let ghost vals = Seq::new(in_vals@.len(), |i: int| in_vals@[i]@);
        assert(vals =~= Seq::new(in_vals@.len(), |i: int| Self::model(&in_vals@[i])));
        let mut acc = ExprSet::full();
        let mut i: usize = 0;
        assert(vals.take(0) =~= seq![]);
        while i < in_vals.len()
            invariant
                i <= in_vals.len(),
                vals == Seq::new(in_vals@.len(), |i: int| in_vals@[i]@),
                acc@ == meet_all(vals.take(i as int)),
            decreases in_vals.len() - i,
        {
            proof {
                let next = vals.take(i + 1);
                assert(next.drop_last() =~= vals.take(i as int));
                assert(next.last() == in_vals@[i as int]@);
            }
            acc = acc.intersect(&in_vals[i]);
            i += 1;
        }
        assert(vals.take(in_vals.len() as int) =~= vals);
        acc
    }

    fn transfer(&self, block: &BasicBlock, in_val: &ExprSet) -> (r: Result<ExprSet, PassError>) {
        let all = block.iter();
        let ghost view = block@.all();
        let mut out = in_val.dup();
        let mut k: usize = 0;
        while k < all.len()
            invariant
                k <= all.len(),
                view == all.deep_view(),
                out@ == after_run(view, k as int, in_val@),
            decreases all.len() - k,
        {
            proof {
                lemma_deep_index(all);
            }
            match Expr::new(&all[k]) {
                Some(e) => {
                    out.insert(e);
                },
                None => {},
            }
            match all[k].dest_ref() {
                Some(d) => {
                    out.forget(d);
                },
                None => {},
            }
            k += 1;
        }
        Ok(out)
    }

    fn finish(&self, func: &BBFunction, exit_val: ExprSet) -> (r: ExprSet) {
        exit_val
    }

    fn same(&self, a: &ExprSet, b: &ExprSet) -> (r: bool) {
        a.same_set(b)
    }

    fn copy(&self, v: &ExprSet) -> (r: ExprSet) {
        v.dup()
    }
}

} // verus!
