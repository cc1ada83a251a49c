//! Uniform access to the parts of an instruction, whatever its shape:
//! destination, arguments, type, purity and commutativity.
use crate::float::{answer, ask, unit_ok, FloatQuery};
use crate::ir::{
    clone_names, EffectOps, InstrView, Instruction, Literal, PositionView, Type, ValueOps,
};
use vstd::prelude::*;

verus! {

/// Whether a value opcode computes its result from its arguments alone.
pub open spec fn pure_op(op: ValueOps) -> bool {
    match op {
        ValueOps::Add
        | ValueOps::Mul
        | ValueOps::Sub
        | ValueOps::Div
        | ValueOps::And
        | ValueOps::Or
        | ValueOps::Not
        | ValueOps::Eq
        | ValueOps::Lt
        | ValueOps::Gt
        | ValueOps::Le
        | ValueOps::Ge
        | ValueOps::Id
        | ValueOps::Fadd
        | ValueOps::Fsub
        | ValueOps::Fmul
        | ValueOps::Fdiv
        | ValueOps::Feq
        | ValueOps::Flt
        | ValueOps::Fgt
        | ValueOps::Fle
        | ValueOps::Fge
        | ValueOps::Ceq
        | ValueOps::Clt
        | ValueOps::Cgt
        | ValueOps::Cle
        | ValueOps::Cge => true,
        _ => false,
    }
}

/// Whether a value opcode gives the same result with its two arguments
/// exchanged.
pub open spec fn commutative_op(op: ValueOps) -> bool {
    match op {
        ValueOps::Add
        | ValueOps::Mul
        | ValueOps::And
        | ValueOps::Or
        | ValueOps::Eq
        | ValueOps::Fadd
        | ValueOps::Fmul
        | ValueOps::Feq
        | ValueOps::Ceq => true,
        _ => false,
    }
}

/// Whether an effect opcode ends a basic block.
pub open spec fn terminator_op(op: EffectOps) -> bool {
    op == EffectOps::Jump || op == EffectOps::Branch || op == EffectOps::Return
}

impl InstrView {
    /// The arguments; a constant has none to speak of.
    pub open spec fn args(self) -> Option<Seq<Seq<char>>> {
        match self {
            InstrView::Value { args, .. } => Some(args),
            InstrView::Effect { args, .. } => Some(args),
            InstrView::Constant { .. } => None,
        }
    }

    /// The arguments as a list, empty for a constant.
    pub open spec fn arg_list(self) -> Seq<Seq<char>> {
        match self.args() {
            Some(a) => a,
            None => Seq::empty(),
        }
    }

    /// The name that the instruction writes, if it writes one.
    pub open spec fn dest(self) -> Option<Seq<char>> {
        match self {
            InstrView::Value { dest, .. } => Some(dest),
            InstrView::Constant { dest, .. } => Some(dest),
            InstrView::Effect { .. } => None,
        }
    }

    /// The type of the value written, if one is written.
    pub open spec fn get_type(self) -> Option<Type> {
        match self {
            InstrView::Constant { const_type, .. } => Some(const_type),
            InstrView::Value { op_type, .. } => Some(op_type),
            InstrView::Effect { .. } => None,
        }
    }

    /// The source position.
    pub open spec fn pos(self) -> Option<PositionView> {
        match self {
            InstrView::Constant { pos, .. } => pos,
            InstrView::Value { pos, .. } => pos,
            InstrView::Effect { pos, .. } => pos,
        }
    }

    /// The instruction with its arguments replaced; a constant is unchanged.
    pub open spec fn set_args(self, new: Seq<Seq<char>>) -> InstrView {
        match self {
            InstrView::Value { args, dest, funcs, labels, op, pos, op_type } => InstrView::Value {
                args: new,
                dest,
                funcs,
                labels,
                op,
                pos,
                op_type,
            },
            InstrView::Effect { args, funcs, labels, op, pos } => InstrView::Effect {
                args: new,
                funcs,
                labels,
                op,
                pos,
            },
            InstrView::Constant { .. } => self,
        }
    }

    /// The instruction with its destination replaced; an effect is
    /// unchanged.
    pub open spec fn set_dest(self, new: Seq<char>) -> InstrView {
        match self {
            InstrView::Value { args, dest, funcs, labels, op, pos, op_type } => InstrView::Value {
                args,
                dest: new,
                funcs,
                labels,
                op,
                pos,
                op_type,
            },
            InstrView::Constant { dest, op, pos, const_type, value } => InstrView::Constant {
                dest: new,
                op,
                pos,
                const_type,
                value,
            },
            InstrView::Effect { .. } => self,
        }
    }

    /// Whether the instruction ends a basic block.
    pub open spec fn is_terminator(self) -> bool {
        match self {
            InstrView::Effect { op, .. } => terminator_op(op),
            _ => false,
        }
    }

    /// The labels that a terminator may pass control to: those of a jump or
    /// a branch, none for a return; nothing for any other instruction.
    pub open spec fn branch(self) -> Option<Seq<Seq<char>>> {
        match self {
            InstrView::Effect { op, labels, .. } => if op == EffectOps::Jump || op
                == EffectOps::Branch {
                Some(labels)
            } else if op == EffectOps::Return {
                Some(Seq::empty())
            } else {
                None
            },
            _ => None,
        }
    }

    /// Whether the instruction is a value operation with a commutative
    /// opcode.
    pub open spec fn is_commutative(self) -> bool {
        match self {
            InstrView::Value { op, .. } => commutative_op(op),
            _ => false,
        }
    }

    /// Whether the instruction is a constant or a value operation with a
    /// pure opcode.
    pub open spec fn is_pure(self) -> bool {
        match self {
            InstrView::Constant { .. } => true,
            InstrView::Value { op, .. } => pure_op(op),
            InstrView::Effect { .. } => false,
        }
    }
}

impl ValueOps {
    /// Whether the opcode computes its result from its arguments alone.
    pub fn is_pure(&self) -> (r: bool)
        ensures
            r == pure_op(*self),
    {
        match self {
            ValueOps::Add
            | ValueOps::Mul
            | ValueOps::Sub
            | ValueOps::Div
            | ValueOps::And
            | ValueOps::Or
            | ValueOps::Not
            | ValueOps::Eq
            | ValueOps::Lt
            | ValueOps::Gt
            | ValueOps::Le
            | ValueOps::Ge
            | ValueOps::Id
            | ValueOps::Fadd
            | ValueOps::Fsub
            | ValueOps::Fmul
            | ValueOps::Fdiv
            | ValueOps::Feq
            | ValueOps::Flt
            | ValueOps::Fgt
            | ValueOps::Fle
            | ValueOps::Fge
            | ValueOps::Ceq
            | ValueOps::Clt
            | ValueOps::Cgt
            | ValueOps::Cle
            | ValueOps::Cge => true,
            _ => false,
        }
    }

    /// Whether the opcode gives the same result with its two arguments
    /// exchanged.
    pub fn is_commutative(&self) -> (r: bool)
        ensures
            r == commutative_op(*self),
    {
        match self {
            ValueOps::Add
            | ValueOps::Mul
            | ValueOps::And
            | ValueOps::Or
            | ValueOps::Eq
            | ValueOps::Fadd
            | ValueOps::Fmul
            | ValueOps::Feq
            | ValueOps::Ceq => true,
            _ => false,
        }
    }
}

impl EffectOps {
    /// Whether the opcode ends a basic block.
    pub fn is_terminator(&self) -> (r: bool)
        ensures
            r == terminator_op(*self),
    {
        match self {
            EffectOps::Jump | EffectOps::Branch | EffectOps::Return => true,
            _ => false,
        }
    }
}

impl Instruction {
    /// The destination, borrowed.
    pub fn dest_ref(&self) -> (r: Option<&String>)
        ensures
            r.is_some() == self@.dest().is_some(),
            r.is_some() ==> r.unwrap()@ == self@.dest().unwrap(),
    {
        match self {
            Instruction::Value { dest, .. } => Some(dest),
            Instruction::Constant { dest, .. } => Some(dest),
            Instruction::Effect { .. } => None,
        }
    }

    /// The arguments, borrowed.
    pub fn args_ref(&self) -> (r: Option<&Vec<String>>)
        ensures
            r.is_some() == self@.args().is_some(),
            r.is_some() ==> r.unwrap().deep_view() == self@.args().unwrap(),
    {
        match self {
            Instruction::Value { args, .. } => Some(args),
            Instruction::Effect { args, .. } => Some(args),
            Instruction::Constant { .. } => None,
        }
    }

    /// Whether the instruction ends a basic block.
    pub fn is_terminator(&self) -> (r: bool)
        ensures
            r == self@.is_terminator(),
    {
        match self {
            Instruction::Effect { op, .. } => op.is_terminator(),
            _ => false,
        }
    }
}

/// Uniform access to an instruction.
pub trait InstrExt {
    /// The value that the contracts speak of.
    spec fn model(&self) -> InstrView;

    /// The arguments; a constant has none.
    fn args(&self) -> (r: Option<Vec<String>>)
        ensures
            r.deep_view() == self.model().args(),
    ;

    /// The name written, if any.
    fn dest(&self) -> (r: Option<String>)
        ensures
            r.deep_view() == self.model().dest(),
    ;

    /// The type of the value written, if any.
    fn get_type(&self) -> (r: Option<Type>)
        ensures
            r == self.model().get_type(),
    ;

    /// Replaces the arguments; a constant is left as it is.
    fn set_args(&mut self, args: Vec<String>)
        ensures
            final(self).model() == old(self).model().set_args(args.deep_view()),
    ;

    /// Replaces the destination; an effect is left as it is.
    fn set_dest(&mut self, dest: String)
        ensures
            final(self).model() == old(self).model().set_dest(dest@),
    ;

    /// The labels that a terminator may pass control to.
    fn branch(&self) -> (r: Option<Vec<String>>)
        ensures
            r.deep_view() == self.model().branch(),
    ;

    /// Whether the opcode is commutative.
    fn is_commutative(&self) -> (r: bool)
        ensures
            r == self.model().is_commutative(),
    ;

    /// Whether the instruction is pure.
    fn is_pure(&self) -> (r: bool)
        ensures
            r == self.model().is_pure(),
    ;
}

impl InstrExt for Instruction {
    open spec fn model(&self) -> InstrView {
        self@
    }

    fn args(&self) -> (r: Option<Vec<String>>) {
        match self {
            Instruction::Value { args, .. } => Some(clone_names(args)),
            Instruction::Effect { args, .. } => Some(clone_names(args)),
            Instruction::Constant { .. } => None,
        }
    }

    fn dest(&self) -> (r: Option<String>) {
        match self {
            Instruction::Value { dest, .. } => Some(dest.clone()),
            Instruction::Constant { dest, .. } => Some(dest.clone()),
            Instruction::Effect { .. } => None,
        }
    }

    fn get_type(&self) -> (r: Option<Type>) {
        match self {
            Instruction::Constant { const_type, .. } => Some(const_type.clone()),
            Instruction::Value { op_type, .. } => Some(op_type.clone()),
            Instruction::Effect { .. } => None,
        }
    }

    fn set_args(&mut self, args: Vec<String>) {
        match self {
            Instruction::Value { args: a, .. } => {
                *a = args;
            },
            Instruction::Effect { args: a, .. } => {
                *a = args;
            },
            Instruction::Constant { .. } => {},
        }
    }

    fn set_dest(&mut self, dest: String) {
        match self {
            Instruction::Value { dest: d, .. } => {
                *d = dest;
            },
            Instruction::Constant { dest: d, .. } => {
                *d = dest;
            },
            Instruction::Effect { .. } => {},
        }
    }

    fn branch(&self) -> (r: Option<Vec<String>>) {
        match self {
            Instruction::Effect { op, labels, .. } => {
                if *op == EffectOps::Jump || *op == EffectOps::Branch {
                    Some(clone_names(labels))
                } else if *op == EffectOps::Return {
                    let none: Vec<String> = Vec::new();
                    assert(none.deep_view() =~= Seq::<Seq<char>>::empty());
                    Some(none)
                } else {
                    None
                }
            },
            _ => None,
        }
    }

    fn is_commutative(&self) -> (r: bool) {
        match self {
            Instruction::Value { op, .. } => op.is_commutative(),
            _ => false,
        }
    }

    fn is_pure(&self) -> (r: bool) {
        match self {
            Instruction::Constant { .. } => true,
            Instruction::Value { op, .. } => op.is_pure(),
            Instruction::Effect { .. } => false,
        }
    }
}

/// The literal that `lit` stands for where a value of type `ty` is
/// declared: itself where the shapes agree, the float of an integer where
/// a float is declared.
pub open spec fn cast_spec<F: Fn(FloatQuery) -> Literal>(lit: Literal, ty: Type, fl: &F) -> Literal {
    match (lit, ty) {
        (Literal::Int(i), Type::Float) => answer(fl, FloatQuery::FromInt(i)),
        _ => lit,
    }
}

/// Whether a literal can stand where a value of type `ty` is declared.
pub open spec fn castable(lit: Literal, ty: Type) -> bool {
    lit.type_of() == ty || (lit is Int && ty == Type::Float)
}

/// Literals that adapt to a declared type, with the help of a
/// floating-point unit of type `F`.
pub trait LiteralExt<F: Fn(FloatQuery) -> Literal>: Sized {
    /// Whether the literal can stand for a value of type `ty`.
    spec fn fits(&self, ty: Type) -> bool;

    /// What `implicit_cast` returns.
    spec fn cast_to(&self, ty: Type, fl: &F) -> Self;

    /// Whether `r` is what the unit promises, where the cast to `ty` asks
    /// the unit.
    spec fn cast_told(&self, ty: Type, fl: &F, r: Self) -> bool;

    /// The literal as one of type `ty`.
    fn implicit_cast(&self, ty: &Type, fl: &F) -> (r: Self)
        requires
            unit_ok(fl),
            self.fits(*ty),
        ensures
            r == self.cast_to(*ty, fl),
            self.cast_told(*ty, fl, r),
    ;
}

impl<F: Fn(FloatQuery) -> Literal> LiteralExt<F> for Literal {
    open spec fn fits(&self, ty: Type) -> bool {
        castable(*self, ty)
    }

    open spec fn cast_to(&self, ty: Type, fl: &F) -> Literal {
        cast_spec(*self, ty, fl)
    }

    open spec fn cast_told(&self, ty: Type, fl: &F, r: Literal) -> bool {
        match (*self, ty) {
            (Literal::Int(i), Type::Float) => fl.ensures((FloatQuery::FromInt(i),), r),
            _ => true,
        }
    }

    fn implicit_cast(&self, ty: &Type, fl: &F) -> (r: Literal) {
        match (self, ty) {
            (Literal::Int(i), Type::Float) => ask(fl, FloatQuery::FromInt(*i)),
            _ => *self,
        }
    }
}

} // verus!
