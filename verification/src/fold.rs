//! Constant folding: the literal that a value instruction computes, given
//! the literals of its arguments.
use crate::float::{answer, ask, unit_ok, FloatQuery};
use crate::ir::{InstrView, Instruction, Literal, ValueOps};
use crate::names::NameMap;
use vstd::prelude::*;

verus! {

/// Why an instruction could not be folded although its arguments are known.
#[derive(Clone, Copy, Debug, PartialEq, Eq, Structural)]
pub enum FoldError {
    /// The number or the shapes of the argument literals do not suit the
    /// opcode.
    Mismatch,
    /// An integer division by zero.
    DivisionByZero,
    /// The one integer division whose quotient is not a 64-bit integer.
    Overflow,
}

/// The quotient of two integers, rounded towards zero.
pub open spec fn trunc_div(a: int, b: int) -> int {
    if a >= 0 && b > 0 {
        a / b
    } else if a < 0 && b > 0 {
        -((-a) / b)
    } else if a >= 0 && b < 0 {
        -(a / (-b))
    } else {
        (-a) / (-b)
    }
}

/// The result of an integer opcode. Sums, differences and products wrap
/// round in 64 bits.
pub open spec fn fold_int(op: ValueOps, a: i64, b: i64) -> Result<Option<Literal>, FoldError> {
    match op {
        ValueOps::Add => Ok(Some(Literal::Int(a.wrapping_add(b)))),
        ValueOps::Sub => Ok(Some(Literal::Int(a.wrapping_sub(b)))),
        ValueOps::Mul => Ok(Some(Literal::Int(a.wrapping_mul(b)))),
        ValueOps::Div => if b == 0 {
            Err(FoldError::DivisionByZero)
        } else if a == i64::MIN && b == -1 {
            Err(FoldError::Overflow)
        } else {
            Ok(Some(Literal::Int(trunc_div(a as int, b as int) as i64)))
        },
        ValueOps::Eq => Ok(Some(Literal::Bool(a == b))),
        ValueOps::Gt => Ok(Some(Literal::Bool(a > b))),
        ValueOps::Ge => Ok(Some(Literal::Bool(a >= b))),
        ValueOps::Lt => Ok(Some(Literal::Bool(a < b))),
        ValueOps::Le => Ok(Some(Literal::Bool(a <= b))),
        _ => Ok(None),
    }
}

/// The result of a character comparison, by code point.
pub open spec fn fold_char(op: ValueOps, a: char, b: char) -> Result<Option<Literal>, FoldError> {
    match op {
        ValueOps::Ceq => Ok(Some(Literal::Bool(a == b))),
        ValueOps::Cgt => Ok(Some(Literal::Bool(a as u32 > b as u32))),
        ValueOps::Cge => Ok(Some(Literal::Bool(a as u32 >= b as u32))),
        ValueOps::Clt => Ok(Some(Literal::Bool((a as u32) < (b as u32)))),
        ValueOps::Cle => Ok(Some(Literal::Bool(a as u32 <= b as u32))),
        _ => Ok(None),
    }
}

/// The question that folding an opcode over some literals puts to the
/// floating-point unit, if it puts one.
pub open spec fn fold_query(op: ValueOps, vals: Seq<Literal>) -> Option<FloatQuery> {
    match op {
        ValueOps::Fadd
        | ValueOps::Fsub
        | ValueOps::Fmul
        | ValueOps::Fdiv
        | ValueOps::Feq
        | ValueOps::Fgt
        | ValueOps::Fge
        | ValueOps::Flt
        | ValueOps::Fle => match (vals.len() == 2, vals[0], vals[1]) {
            (true, Literal::Float(a), Literal::Float(b)) => Some(FloatQuery::Binary(op, a, b)),
            _ => None,
        },
        _ => None,
    }
}

/// The literal that an opcode computes from the literals of its arguments:
/// `Ok(None)` for an opcode that is never folded, an error where the
/// arguments do not suit the opcode.
pub open spec fn fold_op<F: Fn(FloatQuery) -> Literal>(
    op: ValueOps,
    vals: Seq<Literal>,
    fl: &F,
) -> Result<Option<Literal>, FoldError> {
    match op {
        ValueOps::Id => if vals.len() == 1 {
            Ok(Some(vals[0]))
        } else {
            Err(FoldError::Mismatch)
        },
        ValueOps::Add
        | ValueOps::Sub
        | ValueOps::Mul
        | ValueOps::Div
        | ValueOps::Eq
        | ValueOps::Gt
        | ValueOps::Ge
        | ValueOps::Lt
        | ValueOps::Le => match (vals.len() == 2, vals[0], vals[1]) {
            (true, Literal::Int(a), Literal::Int(b)) => fold_int(op, a, b),
            _ => Err(FoldError::Mismatch),
        },
        ValueOps::And => match (vals.len() == 2, vals[0], vals[1]) {
            (true, Literal::Bool(a), Literal::Bool(b)) => Ok(Some(Literal::Bool(a && b))),
            _ => Err(FoldError::Mismatch),
        },
        ValueOps::Or => match (vals.len() == 2, vals[0], vals[1]) {
            (true, Literal::Bool(a), Literal::Bool(b)) => Ok(Some(Literal::Bool(a || b))),
            _ => Err(FoldError::Mismatch),
        },
        ValueOps::Not => match (vals.len() == 1, vals[0]) {
            (true, Literal::Bool(a)) => Ok(Some(Literal::Bool(!a))),
            _ => Err(FoldError::Mismatch),
        },
        ValueOps::Fadd
        | ValueOps::Fsub
        | ValueOps::Fmul
        | ValueOps::Fdiv
        | ValueOps::Feq
        | ValueOps::Fgt
        | ValueOps::Fge
        | ValueOps::Flt
        | ValueOps::Fle => match (vals.len() == 2, vals[0], vals[1]) {
            (true, Literal::Float(a), Literal::Float(b)) => Ok(
                Some(answer(fl, FloatQuery::Binary(op, a, b))),
            ),
            _ => Err(FoldError::Mismatch),
        },
        ValueOps::Ceq | ValueOps::Cgt | ValueOps::Cge | ValueOps::Clt | ValueOps::Cle => match (
            vals.len() == 2,
            vals[0],
            vals[1],
        ) {
            (true, Literal::Char(a), Literal::Char(b)) => fold_char(op, a, b),
            _ => Err(FoldError::Mismatch),
        },
        _ => Ok(None),
    }
}

/// Whether the literal of every argument is known.
pub open spec fn all_known(lits: Seq<Option<Literal>>) -> bool {
    forall|i: int| 0 <= i < lits.len() ==> (#[trigger] lits[i]).is_some()
}

/// The known literals, unwrapped.
pub open spec fn unwrap_all(lits: Seq<Option<Literal>>) -> Seq<Literal> {
    Seq::new(lits.len(), |i: int| lits[i].unwrap())
}

/// What folding an instruction gives, where `lits` holds for each argument
/// its literal, if that is known. An effect gives nothing. A constant gives
/// its destination and its value. A value operation gives its destination,
/// and the literal it computes if every argument is known and the opcode
/// folds.
pub open spec fn fold_spec<F: Fn(FloatQuery) -> Literal>(
    instr: InstrView,
    lits: Seq<Option<Literal>>,
    fl: &F,
) -> Result<Option<(Seq<char>, Option<Literal>)>, FoldError> {
    match instr {
        InstrView::Constant { dest, value, .. } => Ok(Some((dest, Some(value)))),
        InstrView::Value { dest, op, .. } => if all_known(lits) {
            match fold_op(op, unwrap_all(lits), fl) {
                Ok(v) => Ok(Some((dest, v))),
                Err(e) => Err(e),
            }
        } else {
            Ok(Some((dest, None)))
        },
        InstrView::Effect { .. } => Ok(None),
    }
}

/// The value of what a fold returns.
pub open spec fn folded_view(r: Result<Option<(String, Option<Literal>)>, FoldError>) -> Result<
    Option<(Seq<char>, Option<Literal>)>,
    FoldError,
> {
    match r {
        Ok(Some((d, v))) => Ok(Some((d@, v))),
        Ok(None) => Ok(None),
        Err(e) => Err(e),
    }
}

/// The size of an integer, as an unsigned number.
fn magnitude(a: i64) -> (m: u64)
    ensures
        m == (if a < 0 {
            -(a as int)
        } else {
            a as int
        }),
{
    if a >= 0 {
        a as u64
    } else if a == i64::MIN {
        9223372036854775808u64
    } else {
        (-a) as u64
    }
}

/// Divides two integers, rounding towards zero.
pub fn div_trunc(a: i64, b: i64) -> (r: i64)
    requires
        b != 0,
        !(a == i64::MIN && b == -1),
    ensures
        r == trunc_div(a as int, b as int),
{
    let ua = magnitude(a);
    let ub = magnitude(b);
    let q = ua / ub;
    assert(q <= ua) by (nonlinear_arith)
        requires
            q == ua / ub,
            ub >= 1,
    ;
    if ub >= 2 {
        assert(2 * q <= ua) by (nonlinear_arith)
            requires
                q == ua / ub,
                ub >= 2,
        ;
    }
    if (a < 0) == (b < 0) {
        q as i64
    } else if q == 9223372036854775808u64 {
        i64::MIN
    } else {
        -(q as i64)
    }
}

/// Folds one integer opcode.
fn fold_int_exec(op: ValueOps, a: i64, b: i64) -> (r: Result<Option<Literal>, FoldError>)
    ensures
        r == fold_int(op, a, b),
{
    match op {
        ValueOps::Add => Ok(Some(Literal::Int(a.wrapping_add(b)))),
        ValueOps::Sub => Ok(Some(Literal::Int(a.wrapping_sub(b)))),
        ValueOps::Mul => Ok(Some(Literal::Int(a.wrapping_mul(b)))),
        ValueOps::Div => if b == 0 {
            Err(FoldError::DivisionByZero)
        } else if a == i64::MIN && b == -1 {
            Err(FoldError::Overflow)
        } else {
            Ok(Some(Literal::Int(div_trunc(a, b))))
        },
        ValueOps::Eq => Ok(Some(Literal::Bool(a == b))),
        ValueOps::Gt => Ok(Some(Literal::Bool(a > b))),
        ValueOps::Ge => Ok(Some(Literal::Bool(a >= b))),
        ValueOps::Lt => Ok(Some(Literal::Bool(a < b))),
        ValueOps::Le => Ok(Some(Literal::Bool(a <= b))),
        _ => Ok(None),
    }
}

/// Folds one character comparison.
fn fold_char_exec(op: ValueOps, a: char, b: char) -> (r: Result<Option<Literal>, FoldError>)
    ensures
        r == fold_char(op, a, b),
{
    match op {
        ValueOps::Ceq => Ok(Some(Literal::Bool(a == b))),
        ValueOps::Cgt => Ok(Some(Literal::Bool(a > b))),
        ValueOps::Cge => Ok(Some(Literal::Bool(a >= b))),
        ValueOps::Clt => Ok(Some(Literal::Bool(a < b))),
        ValueOps::Cle => Ok(Some(Literal::Bool(a <= b))),
        _ => Ok(None),
    }
}

/// Folds an opcode over the literals of its arguments. Where it asks the
/// floating-point unit, the result is what the unit promises.
pub fn fold_values<F: Fn(FloatQuery) -> Literal>(op: ValueOps, vals: &Vec<Literal>, fl: &F) -> (r:
    Result<Option<Literal>, FoldError>)
    requires
        unit_ok(fl),
    ensures
        r == fold_op(op, vals@, fl),
        fold_query(op, vals@) matches Some(q) ==> r matches Ok(Some(l)) && fl.ensures((q,), l),
{
    match op {
        ValueOps::Id => if vals.len() == 1 {
            Ok(Some(vals[0]))
        } else {
            Err(FoldError::Mismatch)
        },
        ValueOps::Add
        | ValueOps::Sub
        | ValueOps::Mul
        | ValueOps::Div
        | ValueOps::Eq
        | ValueOps::Gt
        | ValueOps::Ge
        | ValueOps::Lt
        | ValueOps::Le => {
            if vals.len() != 2 {
                return Err(FoldError::Mismatch);
            }
            match (vals[0], vals[1]) {
                (Literal::Int(a), Literal::Int(b)) => fold_int_exec(op, a, b),
                _ => Err(FoldError::Mismatch),
            }
        },
        ValueOps::And => {
            if vals.len() != 2 {
                return Err(FoldError::Mismatch);
            }
            match (vals[0], vals[1]) {
                (Literal::Bool(a), Literal::Bool(b)) => Ok(Some(Literal::Bool(a && b))),
                _ => Err(FoldError::Mismatch),
            }
        },
        ValueOps::Or => {
            if vals.len() != 2 {
                return Err(FoldError::Mismatch);
            }
            match (vals[0], vals[1]) {
                (Literal::Bool(a), Literal::Bool(b)) => Ok(Some(Literal::Bool(a || b))),
                _ => Err(FoldError::Mismatch),
            }
        },
        ValueOps::Not => {
            if vals.len() != 1 {
                return Err(FoldError::Mismatch);
            }
            match vals[0] {
                Literal::Bool(a) => Ok(Some(Literal::Bool(!a))),
                _ => Err(FoldError::Mismatch),
            }
        },
        ValueOps::Fadd
        | ValueOps::Fsub
        | ValueOps::Fmul
        | ValueOps::Fdiv
        | ValueOps::Feq
        | ValueOps::Fgt
        | ValueOps::Fge
        | ValueOps::Flt
        | ValueOps::Fle => {
            if vals.len() != 2 {
                return Err(FoldError::Mismatch);
            }
            match (vals[0], vals[1]) {
                (Literal::Float(a), Literal::Float(b)) => Ok(
                    Some(ask(fl, FloatQuery::Binary(op, a, b))),
                ),
                _ => Err(FoldError::Mismatch),
            }
        },
        ValueOps::Ceq | ValueOps::Cgt | ValueOps::Cge | ValueOps::Clt | ValueOps::Cle => {
            if vals.len() != 2 {
                return Err(FoldError::Mismatch);
            }
            match (vals[0], vals[1]) {
                (Literal::Char(a), Literal::Char(b)) => fold_char_exec(op, a, b),
                _ => Err(FoldError::Mismatch),
            }
        },
        _ => Ok(None),
    }
}

/// The known literals of a list, or nothing if one is unknown.
fn collect_known(lits: &Vec<Option<Literal>>) -> (r: Option<Vec<Literal>>)
    ensures
        r.is_some() == all_known(lits@),
        r.is_some() ==> r.unwrap()@ == unwrap_all(lits@),
{
    let mut vals: Vec<Literal> = Vec::new();
    let mut i: usize = 0;
    while i < lits.len()
        invariant
            i <= lits.len(),
            vals.len() == i,
            forall|j: int| 0 <= j < i ==> (#[trigger] lits[j]).is_some() && vals[j] == lits[j].unwrap(),
        decreases lits.len() - i,
    {
        match lits[i] {
            Some(v) => {
                vals.push(v);
            },
            None => {
                return None;
            },
        }
        i += 1;
    }
    assert(vals@ =~= unwrap_all(lits@));
    Some(vals)
}

/// Folds an instruction, given for each of its arguments the literal it is
/// known to hold, if any.
pub fn fold_literals<F: Fn(FloatQuery) -> Literal>(
    instr: &Instruction,
    lits: &Vec<Option<Literal>>,
    fl: &F,
) -> (r: Result<Option<(String, Option<Literal>)>, FoldError>)
    requires
        unit_ok(fl),
    ensures
        folded_view(r) == fold_spec(instr@, lits@, fl),
{
    match instr {
        Instruction::Constant { dest, value, .. } => Ok(Some((dest.clone(), Some(*value)))),
        Instruction::Value { dest, op, .. } => {
            match collect_known(lits) {
                Some(vals) => {
                    match fold_values(*op, &vals, fl) {
                        Ok(v) => Ok(Some((dest.clone(), v))),
                        Err(e) => Err(e),
                    }
                },
                None => Ok(Some((dest.clone(), None))),
            }
        },
        Instruction::Effect { .. } => Ok(None),
    }
}

/// Whether `lits` holds, for each of `names`, an answer of `f` to a key that
/// spells that name.
pub open spec fn asked<L: Fn(&String) -> Option<Literal>>(
    f: &L,
    keys: Seq<String>,
    names: Seq<Seq<char>>,
    lits: Seq<Option<Literal>>,
) -> bool {
    &&& lits.len() == names.len()
    &&& keys.len() == names.len()
    &&& forall|i: int|
        0 <= i < names.len() ==> (#[trigger] keys[i])@ == names[i] && f.ensures(
            (&keys[i],),
            lits[i],
        )
}

/// Things that fold to a literal bound to a name, given what is known of
/// the names they read and a floating-point unit of type `F`.
pub trait Foldable<F: Fn(FloatQuery) -> Literal> {
    /// The names read, in order.
    spec fn operands(&self) -> Seq<Seq<char>>;

    /// What folding gives for the given literals of the operands.
    spec fn folds_to(&self, lits: Seq<Option<Literal>>, fl: &F) -> Result<
        Option<(Seq<char>, Option<Literal>)>,
        FoldError,
    >;

    /// Folds, asking `f` for the literal of each name read. The result is
    /// what `folds_to` gives for some answers of `f`, one for each operand.
    fn fold<L: Fn(&String) -> Option<Literal>>(&self, f: &L, fl: &F) -> (r: Result<
        Option<(String, Option<Literal>)>,
        FoldError,
    >)
        requires
            unit_ok(fl),
            forall|k: &String| #[trigger] f.requires((k,)),
        ensures
            exists|lits: Seq<Option<Literal>>, keys: Seq<String>|
                #[trigger] asked(f, keys, self.operands(), lits) && folded_view(r)
                    == self.folds_to(lits, fl),
    ;
}

impl<F: Fn(FloatQuery) -> Literal> Foldable<F> for Instruction {
    open spec fn operands(&self) -> Seq<Seq<char>> {
        self@.arg_list()
    }

    open spec fn folds_to(&self, lits: Seq<Option<Literal>>, fl: &F) -> Result<
        Option<(Seq<char>, Option<Literal>)>,
        FoldError,
    > {
        fold_spec(self@, lits, fl)
    }

    fn fold<L: Fn(&String) -> Option<Literal>>(&self, f: &L, fl: &F) -> (r: Result<
        Option<(String, Option<Literal>)>,
        FoldError,
    >) {
        let mut lits: Vec<Option<Literal>> = Vec::new();
        match self.args_ref() {
            Some(args) => {
                let mut i: usize = 0;
                while i < args.len()
                    invariant
                        i <= args.len(),
                        lits.len() == i,
                        forall|k: &String| #[trigger] f.requires((k,)),
                        forall|j: int|
                            0 <= j < i ==> f.ensures((&#[trigger] args[j],), lits[j]),
                    decreases args.len() - i,
                {
                    let v = f(&args[i]);
                    lits.push(v);
                    i += 1;
                }
                let r = fold_literals(self, &lits, fl);
                proof {
                    let keys = args@;
                    assert(args.deep_view() =~= self@.arg_list());
                    assert forall|i: int| 0 <= i < lits@.len() implies (#[trigger] keys[i])@
                        == self@.arg_list()[i] && f.ensures((&keys[i],), lits@[i]) by {
                        assert(args.deep_view()[i] == args[i]@);
                    }
                    assert(asked(f, keys, self@.arg_list(), lits@));
                    assert(asked(f, keys, <Instruction as Foldable<F>>::operands(self), lits@));
                }
                r
            },
            None => {
                let r = fold_literals(self, &lits, fl);
                proof {
                    let keys = Seq::<String>::empty();
                    assert(asked(f, keys, <Instruction as Foldable<F>>::operands(self), lits@));
                }
                r
            },
        }
    }
}

/// What is known of the literals that names hold.
pub struct ValueTable {
    map: NameMap<Literal>,
}

/// The literals of a list of names, as a map knows them.
pub open spec fn lookup_all(m: Map<Seq<char>, Literal>, names: Seq<Seq<char>>) -> Seq<
    Option<Literal>,
> {
    Seq::new(
        names.len(),
        |i: int|
            if m.contains_key(names[i]) {
                Some(m[names[i]])
            } else {
                None
            },
    )
}

impl ValueTable {
    /// The table as a map from names to literals.
    pub closed spec fn view(&self) -> Map<Seq<char>, Literal> {
        self.map@
    }

    /// The table is in order.
    pub closed spec fn wf(&self) -> bool {
        self.map.wf()
    }

    /// The empty table.
    pub fn new() -> (r: Self)
        ensures
            r.wf(),
            r@ == Map::<Seq<char>, Literal>::empty(),
    {
        ValueTable { map: NameMap::new() }
    }

    /// The literal that a name is known to hold.
    pub fn get(&self, k: &String) -> (r: Option<&Literal>)
        requires
            self.wf(),
        ensures
            match r {
                Some(v) => self@.contains_key(k@) && *v == self@[k@],
                None => !self@.contains_key(k@),
            },
    {
        self.map.get(k)
    }

    /// Folds an instruction with what the table knows and, if it gives a
    /// literal, records it under the destination. Otherwise the table is
    /// unchanged.
    pub fn intern<F: Fn(FloatQuery) -> Literal>(&mut self, i: &Instruction, fl: &F) -> (r: Result<
        (),
        FoldError,
    >)
        requires
            old(self).wf(),
            unit_ok(fl),
        ensures
            final(self).wf(),
            match fold_spec(i@, lookup_all(old(self)@, i@.arg_list()), fl) {
                Ok(Some((k, Some(v)))) => r.is_ok() && final(self)@ == old(self)@.insert(k, v),
                Ok(_) => r.is_ok() && final(self)@ == old(self)@,
                Err(e) => r == Err::<(), FoldError>(e) && final(self)@ == old(self)@,
            },
    {
        let mut lits: Vec<Option<Literal>> = Vec::new();
        match i.args_ref() {
            Some(args) => {
                let mut j: usize = 0;
                while j < args.len()
                    invariant
                        j <= args.len(),
                        lits.len() == j,
                        self.wf(),
                        forall|n: int|
                            0 <= n < j ==> #[trigger] lits[n] == lookup_all(
                                self@,
                                args.deep_view(),
                            )[n],
                    decreases args.len() - j,
                {
                    let v = match self.map.get(&args[j]) {
                        Some(l) => Some(*l),
                        None => None,
                    };
                    assert(args.deep_view()[j as int] == args[j as int]@);
                    lits.push(v);
                    j += 1;
                }
                assert(lits@ =~= lookup_all(self@, i@.arg_list()));
            },
            None => {
                assert(lits@ =~= lookup_all(self@, i@.arg_list()));
            },
        }
        match fold_literals(i, &lits, fl) {
            Ok(Some((k, Some(v)))) => {
                self.map.insert(k, v);
                Ok(())
            },
            Ok(_) => Ok(()),
            Err(e) => Err(e),
        }
    }
}

} // verus!
