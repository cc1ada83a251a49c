//! The intermediate representation: types, literals, opcodes, the three
//! shapes of instruction, labels, functions and programs, each with the
//! mathematical value that the contracts of the passes speak of.
use vstd::prelude::*;

verus! {

/// The type of a value.
#[derive(Debug, PartialEq, Eq, Hash)]
pub enum Type {
    Int,
    Bool,
    Float,
    Char,
    Ptr(Box<Type>),
}

impl Type {
    /// Whether two types are the same.
    pub fn same(&self, other: &Type) -> (r: bool)
        ensures
            r == (*self == *other),
        decreases *self,
    {
        match (self, other) {
            (Type::Int, Type::Int) => true,
            (Type::Bool, Type::Bool) => true,
            (Type::Float, Type::Float) => true,
            (Type::Char, Type::Char) => true,
            (Type::Ptr(a), Type::Ptr(b)) => a.same(b),
            _ => false,
        }
    }
}

impl Clone for Type {
    fn clone(&self) -> (r: Self)
        ensures
            r == *self,
        decreases *self,
    {
        match self {
            Type::Int => Type::Int,
            Type::Bool => Type::Bool,
            Type::Float => Type::Float,
            Type::Char => Type::Char,
            Type::Ptr(inner) => Type::Ptr(Box::new((**inner).clone())),
        }
    }
}

/// A literal value. A floating-point literal is held as the 64 bits of its
/// IEEE-754 encoding, so two float literals are equal when their bits are.
#[derive(Clone, Copy, Debug, PartialEq, Eq, Structural, Hash)]
pub enum Literal {
    Int(i64),
    Bool(bool),
    Float(u64),
    Char(char),
}

impl Literal {
    /// The type that a literal of this shape has.
    pub open spec fn type_of(self) -> Type {
        match self {
            Literal::Int(_) => Type::Int,
            Literal::Bool(_) => Type::Bool,
            Literal::Float(_) => Type::Float,
            Literal::Char(_) => Type::Char,
        }
    }

    /// The type that a literal of this shape has.
    pub fn get_type(&self) -> (t: Type)
        ensures
            t == self.type_of(),
    {
        match self {
            Literal::Int(_) => Type::Int,
            Literal::Bool(_) => Type::Bool,
            Literal::Float(_) => Type::Float,
            Literal::Char(_) => Type::Char,
        }
    }
}

/// The one opcode of a constant instruction.
#[derive(Clone, Copy, Debug, PartialEq, Eq, Structural, Hash)]
pub enum ConstOps {
    Const,
}

/// The opcodes of instructions that produce a value.
#[derive(Clone, Copy, Debug, PartialEq, Eq, Structural, Hash)]
pub enum ValueOps {
    Add,
    Sub,
    Mul,
    Div,
    Eq,
    Lt,
    Gt,
    Le,
    Ge,
    Not,
    And,
    Or,
    Call,
    Id,
    Get,
    Undef,
    Fadd,
    Fsub,
    Fmul,
    Fdiv,
    Feq,
    Flt,
    Fgt,
    Fle,
    Fge,
    Ceq,
    Clt,
    Cgt,
    Cle,
    Cge,
    Char2int,
    Int2char,
    Alloc,
    Load,
    PtrAdd,
}

/// The opcodes of instructions that only have an effect.
#[derive(Clone, Copy, Debug, PartialEq, Eq, Structural, Hash)]
pub enum EffectOps {
    Jump,
    Branch,
    Call,
    Return,
    Print,
    Nop,
    /// The write half of a merge: `set shadow value`.
    SetVar,
    Store,
    Free,
    Speculate,
    Commit,
    Guard,
}

/// A column and a row of a source text.
#[derive(Clone, Copy, Debug, PartialEq, Eq, Structural, Hash)]
pub struct ColRow {
    pub col: u64,
    pub row: u64,
}

/// Where an instruction stood in the source text.
#[derive(Debug, PartialEq, Eq)]
pub struct Position {
    pub pos: ColRow,
    pub pos_end: Option<ColRow>,
    pub src: Option<String>,
}

/// The value of a [`Position`].
pub struct PositionView {
    pub pos: ColRow,
    pub pos_end: Option<ColRow>,
    pub src: Option<Seq<char>>,
}

impl View for Position {
    type V = PositionView;

    open spec fn view(&self) -> PositionView {
        PositionView {
            pos: self.pos,
            pos_end: self.pos_end,
            src: match self.src {
                Some(s) => Some(s@),
                None => None,
            },
        }
    }
}

impl Clone for Position {
    fn clone(&self) -> (r: Self)
        ensures
            r@ == self@,
    {
        Position {
            pos: self.pos,
            pos_end: self.pos_end,
            src: match &self.src {
                Some(s) => Some(s.clone()),
                None => None,
            },
        }
    }
}

/// The value of a list that grew by one item is the value it had, with the
/// value of the item at the end.
pub proof fn lemma_deep_push<T: DeepView>(before: Vec<T>, after: Vec<T>, x: T)
    requires
        after@ == before@.push(x),
    ensures
        after.deep_view() == before.deep_view().push(x.deep_view()),
{
    assert(after.deep_view() =~= before.deep_view().push(x.deep_view()));
}

/// The value of a list holds the value of each item at the item's place.
pub proof fn lemma_deep_index<T: DeepView>(v: Vec<T>)
    ensures
        v.deep_view().len() == v@.len(),
        forall|i: int| 0 <= i < v@.len() ==> #[trigger] v.deep_view()[i] == v@[i].deep_view(),
{
}

/// The value of an optional position.
pub open spec fn pos_view(p: Option<Position>) -> Option<PositionView> {
    match p {
        Some(p) => Some(p@),
        None => None,
    }
}

/// Copies an optional position.
pub fn clone_pos(p: &Option<Position>) -> (r: Option<Position>)
    ensures
        pos_view(r) == pos_view(*p),
{
    match p {
        Some(p) => Some(p.clone()),
        None => None,
    }
}

/// Copies a list of names.
pub fn clone_names(v: &Vec<String>) -> (r: Vec<String>)
    ensures
        r.deep_view() == v.deep_view(),
{
    let mut r: Vec<String> = Vec::new();
    let mut i: usize = 0;
    while i < v.len()
        invariant
            i <= v.len(),
            r.len() == i,
            forall|j: int| 0 <= j < i ==> r[j]@ == v[j]@,
        decreases v.len() - i,
    {
        r.push(v[i].clone());
        i += 1;
    }
    assert(r.deep_view() =~= v.deep_view());
    r
}

/// An instruction.
#[allow(inconsistent_fields)]
#[derive(Debug, PartialEq, Eq)]
pub enum Instruction {
    Constant { dest: String, op: ConstOps, pos: Option<Position>, const_type: Type, value: Literal },
    Value {
        args: Vec<String>,
        dest: String,
        funcs: Vec<String>,
        labels: Vec<String>,
        op: ValueOps,
        pos: Option<Position>,
        op_type: Type,
    },
    Effect {
        args: Vec<String>,
        funcs: Vec<String>,
        labels: Vec<String>,
        op: EffectOps,
        pos: Option<Position>,
    },
}

/// The value of an [`Instruction`].
#[allow(inconsistent_fields)]
pub enum InstrView {
    Constant {
        dest: Seq<char>,
        op: ConstOps,
        pos: Option<PositionView>,
        const_type: Type,
        value: Literal,
    },
    Value {
        args: Seq<Seq<char>>,
        dest: Seq<char>,
        funcs: Seq<Seq<char>>,
        labels: Seq<Seq<char>>,
        op: ValueOps,
        pos: Option<PositionView>,
        op_type: Type,
    },
    Effect {
        args: Seq<Seq<char>>,
        funcs: Seq<Seq<char>>,
        labels: Seq<Seq<char>>,
        op: EffectOps,
        pos: Option<PositionView>,
    },
}

impl View for Instruction {
    type V = InstrView;

    open spec fn view(&self) -> InstrView {
        match *self {
            Instruction::Constant { dest, op, pos, const_type, value } => InstrView::Constant {
                dest: dest@,
                op,
                pos: pos_view(pos),
                const_type,
                value,
            },
            Instruction::Value { args, dest, funcs, labels, op, pos, op_type } => InstrView::Value {
                args: args.deep_view(),
                dest: dest@,
                funcs: funcs.deep_view(),
                labels: labels.deep_view(),
                op,
                pos: pos_view(pos),
                op_type,
            },
            Instruction::Effect { args, funcs, labels, op, pos } => InstrView::Effect {
                args: args.deep_view(),
                funcs: funcs.deep_view(),
                labels: labels.deep_view(),
                op,
                pos: pos_view(pos),
            },
        }
    }
}

impl DeepView for Instruction {
    type V = InstrView;

    open spec fn deep_view(&self) -> InstrView {
        self@
    }
}

impl Clone for Instruction {
    fn clone(&self) -> (r: Self)
        ensures
            r@ == self@,
    {
        match self {
            Instruction::Constant { dest, op, pos, const_type, value } => Instruction::Constant {
                dest: dest.clone(),
                op: *op,
                pos: clone_pos(pos),
                const_type: const_type.clone(),
                value: *value,
            },
            Instruction::Value { args, dest, funcs, labels, op, pos, op_type } => Instruction::Value {
                args: clone_names(args),
                dest: dest.clone(),
                funcs: clone_names(funcs),
                labels: clone_names(labels),
                op: *op,
                pos: clone_pos(pos),
                op_type: op_type.clone(),
            },
            Instruction::Effect { args, funcs, labels, op, pos } => Instruction::Effect {
                args: clone_names(args),
                funcs: clone_names(funcs),
                labels: clone_names(labels),
                op: *op,
                pos: clone_pos(pos),
            },
        }
    }
}

/// Copies a list of instructions.
pub fn clone_instrs(v: &Vec<Instruction>) -> (r: Vec<Instruction>)
    ensures
        r.deep_view() == v.deep_view(),
{
    let mut r: Vec<Instruction> = Vec::new();
    let mut i: usize = 0;
    while i < v.len()
        invariant
            i <= v.len(),
            r.len() == i,
            forall|j: int| 0 <= j < i ==> r[j]@ == v[j]@,
        decreases v.len() - i,
    {
        r.push(v[i].clone());
        i += 1;
    }
    assert(r.deep_view() =~= v.deep_view());
    r
}

/// One line of a function: a label or an instruction.
#[derive(Debug, PartialEq, Eq)]
pub enum Code {
    Label { label: String, pos: Option<Position> },
    Instruction(Instruction),
}

/// The value of a [`Code`].
pub enum CodeView {
    Label { label: Seq<char>, pos: Option<PositionView> },
    Instruction(InstrView),
}

impl View for Code {
    type V = CodeView;

    open spec fn view(&self) -> CodeView {
        match *self {
            Code::Label { label, pos } => CodeView::Label { label: label@, pos: pos_view(pos) },
            Code::Instruction(i) => CodeView::Instruction(i@),
        }
    }
}

impl DeepView for Code {
    type V = CodeView;

    open spec fn deep_view(&self) -> CodeView {
        self@
    }
}

impl Clone for Code {
    fn clone(&self) -> (r: Self)
        ensures
            r@ == self@,
    {
        match self {
            Code::Label { label, pos } => Code::Label { label: label.clone(), pos: clone_pos(pos) },
            Code::Instruction(i) => Code::Instruction(i.clone()),
        }
    }
}

/// Copies a list of labels and instructions.
pub fn clone_code(v: &Vec<Code>) -> (r: Vec<Code>)
    ensures
        r.deep_view() == v.deep_view(),
{
    let mut r: Vec<Code> = Vec::new();
    let mut i: usize = 0;
    while i < v.len()
        invariant
            i <= v.len(),
            r.len() == i,
            forall|j: int| 0 <= j < i ==> r[j]@ == v[j]@,
        decreases v.len() - i,
    {
        r.push(v[i].clone());
        i += 1;
    }
    assert(r.deep_view() =~= v.deep_view());
    r
}

/// A formal argument of a function.
#[derive(Debug, PartialEq, Eq)]
pub struct Argument {
    pub name: String,
    pub arg_type: Type,
}

/// The value of an [`Argument`].
pub struct ArgView {
    pub name: Seq<char>,
    pub arg_type: Type,
}

impl View for Argument {
    type V = ArgView;

    open spec fn view(&self) -> ArgView {
        ArgView { name: self.name@, arg_type: self.arg_type }
    }
}

impl DeepView for Argument {
    type V = ArgView;

    open spec fn deep_view(&self) -> ArgView {
        self@
    }
}

impl Clone for Argument {
    fn clone(&self) -> (r: Self)
        ensures
            r@ == self@,
    {
        Argument { name: self.name.clone(), arg_type: self.arg_type.clone() }
    }
}

/// Copies a list of arguments.
pub fn clone_args(v: &Vec<Argument>) -> (r: Vec<Argument>)
    ensures
        r.deep_view() == v.deep_view(),
{
    let mut r: Vec<Argument> = Vec::new();
    let mut i: usize = 0;
    while i < v.len()
        invariant
            i <= v.len(),
            r.len() == i,
            forall|j: int| 0 <= j < i ==> r[j]@ == v[j]@,
        decreases v.len() - i,
    {
        r.push(v[i].clone());
        i += 1;
    }
    assert(r.deep_view() =~= v.deep_view());
    r
}

/// The names of a list of arguments, in order.
pub open spec fn arg_names(args: Seq<ArgView>) -> Seq<Seq<char>> {
    args.map_values(|a: ArgView| a.name)
}

/// Copies an optional type.
pub fn clone_opt_type(t: &Option<Type>) -> (r: Option<Type>)
    ensures
        r == *t,
{
    match t {
        Some(t) => Some(t.clone()),
        None => None,
    }
}

/// A function in its flat form: labels and instructions in one list.
#[derive(Debug, PartialEq, Eq)]
pub struct Function {
    pub args: Vec<Argument>,
    pub instrs: Vec<Code>,
    pub name: String,
    pub pos: Option<Position>,
    pub return_type: Option<Type>,
}

/// The value of a [`Function`].
pub struct FunctionView {
    pub args: Seq<ArgView>,
    pub instrs: Seq<CodeView>,
    pub name: Seq<char>,
    pub pos: Option<PositionView>,
    pub return_type: Option<Type>,
}

impl View for Function {
    type V = FunctionView;

    open spec fn view(&self) -> FunctionView {
        FunctionView {
            args: self.args.deep_view(),
            instrs: self.instrs.deep_view(),
            name: self.name@,
            pos: pos_view(self.pos),
            return_type: self.return_type,
        }
    }
}

impl DeepView for Function {
    type V = FunctionView;

    open spec fn deep_view(&self) -> FunctionView {
        self@
    }
}

impl Clone for Function {
    fn clone(&self) -> (r: Self)
        ensures
            r@ == self@,
    {
        Function {
            args: clone_args(&self.args),
            instrs: clone_code(&self.instrs),
            name: self.name.clone(),
            pos: clone_pos(&self.pos),
            return_type: clone_opt_type(&self.return_type),
        }
    }
}

/// A program: its functions, in order.
#[derive(Debug, PartialEq, Eq)]
pub struct Program {
    pub functions: Vec<Function>,
}

/// The value of a [`Program`].
pub struct ProgramView {
    pub functions: Seq<FunctionView>,
}

impl View for Program {
    type V = ProgramView;

    open spec fn view(&self) -> ProgramView {
        ProgramView { functions: self.functions.deep_view() }
    }
}

impl Clone for Program {
    fn clone(&self) -> (r: Self)
        ensures
            r@ == self@,
    {
        let mut fs: Vec<Function> = Vec::new();
        let mut i: usize = 0;
        while i < self.functions.len()
            invariant
                i <= self.functions.len(),
                fs.len() == i,
                forall|j: int| 0 <= j < i ==> fs[j]@ == self.functions[j]@,
            decreases self.functions.len() - i,
        {
            fs.push(self.functions[i].clone());
            i += 1;
        }
        assert(fs.deep_view() =~= self.functions.deep_view());
        Program { functions: fs }
    }
}

} // verus!
