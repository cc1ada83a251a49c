//! Basic blocks: a run of instructions that control enters at the top and
//! leaves at the bottom, with at most one terminator, kept apart from the
//! rest.
use crate::ir::{
    clone_instrs, lemma_deep_push, Code, CodeView, EffectOps, InstrView, Instruction,
};
use vstd::prelude::*;
use vstd::string::StringExecFns;

verus! {

/// How control leaves a basic block.
#[derive(Debug, PartialEq, Eq)]
pub enum ControlFlow {
    Jump(String),
    Branch(String, String),
    Return(String),
    Fallthrough,
}

/// The value of a [`ControlFlow`].
pub enum ControlFlowView {
    Jump(Seq<char>),
    Branch(Seq<char>, Seq<char>),
    Return(Seq<char>),
    Fallthrough,
}

impl View for ControlFlow {
    type V = ControlFlowView;

    open spec fn view(&self) -> ControlFlowView {
        match *self {
            ControlFlow::Jump(l) => ControlFlowView::Jump(l@),
            ControlFlow::Branch(t, f) => ControlFlowView::Branch(t@, f@),
            ControlFlow::Return(v) => ControlFlowView::Return(v@),
            ControlFlow::Fallthrough => ControlFlowView::Fallthrough,
        }
    }
}

impl ControlFlowView {
    /// The terminator that brings this control flow about, without a source
    /// position; falling through needs none.
    pub open spec fn instruction(self) -> Option<InstrView> {
        match self {
            ControlFlowView::Jump(l) => Some(
                InstrView::Effect {
                    op: EffectOps::Jump,
                    args: seq![],
                    funcs: seq![],
                    labels: seq![l],
                    pos: None,
                },
            ),
            ControlFlowView::Branch(t, f) => Some(
                InstrView::Effect {
                    op: EffectOps::Branch,
                    args: seq![],
                    funcs: seq![],
                    labels: seq![t, f],
                    pos: None,
                },
            ),
            ControlFlowView::Return(v) => Some(
                InstrView::Effect {
                    op: EffectOps::Return,
                    args: seq![v],
                    funcs: seq![],
                    labels: seq![],
                    pos: None,
                },
            ),
            ControlFlowView::Fallthrough => None,
        }
    }
}

impl Default for ControlFlow {
    fn default() -> (r: Self)
        ensures
            r@ == ControlFlowView::Fallthrough,
    {
        ControlFlow::Fallthrough
    }
}

/// A list of one name.
fn one_name(a: String) -> (v: Vec<String>)
    ensures
        v.deep_view() == seq![a@],
{
    let mut v: Vec<String> = Vec::new();
    v.push(a);
    assert(v.deep_view() =~= seq![a@]);
    v
}

/// A list of no names.
fn no_names() -> (v: Vec<String>)
    ensures
        v.deep_view() == Seq::<Seq<char>>::empty(),
{
    let v: Vec<String> = Vec::new();
    assert(v.deep_view() =~= Seq::<Seq<char>>::empty());
    v
}

impl ControlFlow {
    /// The terminator that brings this control flow about.
    pub fn into_instruction(self) -> (r: Option<Instruction>)
        ensures
            r.deep_view() == self@.instruction(),
    {
        match self {
            ControlFlow::Jump(l) => Some(
                Instruction::Effect {
                    op: EffectOps::Jump,
                    args: no_names(),
                    funcs: no_names(),
                    labels: one_name(l),
                    pos: None,
                },
            ),
            ControlFlow::Branch(t, f) => {
                let mut labels = one_name(t);
                let ghost first = labels;
                labels.push(f);
                proof {
                    lemma_deep_push(first, labels, f);
                    assert(labels.deep_view() =~= seq![t@, f@]);
                }
                Some(
                    Instruction::Effect {
                        op: EffectOps::Branch,
                        args: no_names(),
                        funcs: no_names(),
                        labels,
                        pos: None,
                    },
                )
            },
            ControlFlow::Return(v) => Some(
                Instruction::Effect {
                    op: EffectOps::Return,
                    args: one_name(v),
                    funcs: no_names(),
                    labels: no_names(),
                    pos: None,
                },
            ),
            ControlFlow::Fallthrough => None,
        }
    }
}

/// A basic block.
#[derive(Debug, PartialEq, Eq)]
pub struct BasicBlock {
    pub idx: usize,
    pub label: Option<String>,
    pub instrs: Vec<Instruction>,
    pub control_flow: Option<Instruction>,
}

/// The value of a [`BasicBlock`].
pub struct BlockView {
    pub idx: usize,
    pub label: Option<Seq<char>>,
    /// The instructions that are no terminators, in order.
    pub instrs: Seq<InstrView>,
    /// The terminator, if the block has one.
    pub control_flow: Option<InstrView>,
}

/// How many of the instructions are terminators.
pub open spec fn terminators(s: Seq<InstrView>) -> nat
    decreases s.len(),
{
    if s.len() == 0 {
        0
    } else {
        terminators(s.drop_last()) + if s.last().is_terminator() {
            1nat
        } else {
            0nat
        }
    }
}

impl BlockView {
    /// No terminator stands among the plain instructions, and the
    /// terminator is one.
    pub open spec fn wf(self) -> bool {
        &&& forall|i: int| 0 <= i < self.instrs.len() ==> !(#[trigger] self.instrs[i]).is_terminator()
        &&& self.control_flow.is_some() ==> self.control_flow.unwrap().is_terminator()
    }

    /// Every instruction of the block in the order of execution: the
    /// terminator last.
    pub open spec fn all(self) -> Seq<InstrView> {
        match self.control_flow {
            Some(t) => self.instrs.push(t),
            None => self.instrs,
        }
    }

    /// Whether an instruction can be added: a second terminator cannot.
    pub open spec fn accepts(self, i: InstrView) -> bool {
        i.is_terminator() ==> self.control_flow.is_none()
    }

    /// The block with one more instruction: a terminator becomes the
    /// block's terminator, any other goes to the end of the plain
    /// instructions.
    pub open spec fn push(self, i: InstrView) -> BlockView {
        if i.is_terminator() {
            BlockView { control_flow: Some(i), ..self }
        } else {
            BlockView { instrs: self.instrs.push(i), ..self }
        }
    }

    /// Whether a run of instructions can be added one after the other.
    pub open spec fn accepts_all(self, s: Seq<InstrView>) -> bool {
        terminators(s) + (if self.control_flow.is_some() {
            1nat
        } else {
            0nat
        }) <= 1
    }

    /// The block with a run of instructions added one after the other.
    pub open spec fn extend(self, s: Seq<InstrView>) -> BlockView
        decreases s.len(),
    {
        if s.len() == 0 {
            self
        } else {
            self.extend(s.drop_last()).push(s.last())
        }
    }

    /// The block as lines of a function: its label, if it has one, then its
    /// instructions.
    pub open spec fn flatten(self) -> Seq<CodeView> {
        let head = match self.label {
            Some(l) => seq![CodeView::Label { label: l, pos: None }],
            None => seq![],
        };
        head + self.all().map_values(|i: InstrView| CodeView::Instruction(i))
    }

    /// The label, or `entry` for an unlabelled first block and `?` for any
    /// other unlabelled block.
    pub open spec fn label_or_default(self) -> Seq<char> {
        match self.label {
            Some(l) => l,
            None => if self.idx == 0 {
                "entry"@
            } else {
                "?"@
            },
        }
    }
}

/// Adding a run of instructions keeps a block in order, and leaves it with
/// a terminator exactly if it had one or the run holds one.
pub proof fn lemma_extend(b: BlockView, s: Seq<InstrView>)
    requires
        b.wf(),
        b.accepts_all(s),
    ensures
        b.extend(s).wf(),
        b.extend(s).idx == b.idx,
        b.extend(s).label == b.label,
        b.extend(s).control_flow.is_some() <==> (b.control_flow.is_some() || terminators(s) == 1),
        b.extend(s).instrs.len() + terminators(s) == b.instrs.len() + s.len(),
    decreases s.len(),
{
    if s.len() > 0 {
        lemma_extend(b, s.drop_last());
    }
}

impl View for BasicBlock {
    type V = BlockView;

    open spec fn view(&self) -> BlockView {
        BlockView {
            idx: self.idx,
            label: match self.label {
                Some(l) => Some(l@),
                None => None,
            },
            instrs: self.instrs.deep_view(),
            control_flow: self.control_flow.deep_view(),
        }
    }
}

impl DeepView for BasicBlock {
    type V = BlockView;

    open spec fn deep_view(&self) -> BlockView {
        self@
    }
}

impl Clone for BasicBlock {
    fn clone(&self) -> (r: Self)
        ensures
            r@ == self@,
    {
        BasicBlock {
            idx: self.idx,
            label: match &self.label {
                Some(l) => Some(l.clone()),
                None => None,
            },
            instrs: clone_instrs(&self.instrs),
            control_flow: match &self.control_flow {
                Some(i) => Some(i.clone()),
                None => None,
            },
        }
    }
}

impl BasicBlock {
    /// The block is in order.
    pub open spec fn wf(&self) -> bool {
        self@.wf()
    }

    /// A block made of the given instructions.
    pub fn new(idx: usize, label: Option<String>, instrs: Vec<Instruction>) -> (bb: Self)
        requires
            terminators(instrs.deep_view()) <= 1,
        ensures
            bb.wf(),
            bb@ == (BlockView {
                idx,
                label: label.deep_view(),
                instrs: seq![],
                control_flow: None,
            }).extend(instrs.deep_view()),
    {
        let mut bb = BasicBlock { idx, label, instrs: Vec::new(), control_flow: None };
        assert(bb@.instrs =~= seq![]);
        bb.extend(instrs);
        bb
    }

    /// Whether the block has no plain instruction.
    pub fn is_empty(&self) -> (r: bool)
        ensures
            r == (self@.instrs.len() == 0),
    {
        self.instrs.is_empty()
    }

    /// The plain instructions, in order.
    pub fn instrs(&self) -> (r: &Vec<Instruction>)
        ensures
            r.deep_view() == self@.instrs,
    {
        &self.instrs
    }

    /// The terminator, if the block has one.
    pub fn control_flow(&self) -> (r: Option<&Instruction>)
        ensures
            r.is_some() == self@.control_flow.is_some(),
            r.is_some() ==> r.unwrap()@ == self@.control_flow.unwrap(),
    {
        self.control_flow.as_ref()
    }

    /// Every instruction in the order of execution, copied.
    pub fn iter(&self) -> (r: Vec<Instruction>)
        ensures
            r.deep_view() == self@.all(),
    {
        let mut r = clone_instrs(&self.instrs);
        match &self.control_flow {
            Some(t) => {
                r.push(t.clone());
                assert(r.deep_view() =~= self@.all());
            },
            None => {},
        }
        r
    }

    /// Whether this is the first block of its function.
    pub fn is_entry(&self) -> (r: bool)
        ensures
            r == (self.idx == 0),
    {
        self.idx == 0
    }

    /// The label, or a stand-in for an unlabelled block.
    pub fn label_or_default(&self) -> (r: String)
        ensures
            r@ == self@.label_or_default(),
    {
        match &self.label {
            Some(l) => l.clone(),
            None => if self.is_entry() {
                "entry".to_owned()
            } else {
                "?".to_owned()
            },
        }
    }

    /// The label between double quotes, as a graph node shows it.
    pub fn node_label(&self) -> (r: String)
        ensures
            r@ == "\""@ + self@.label_or_default() + "\""@,
    {
        let mut r = "\"".to_owned();
        r.append(self.label_or_default().as_str());
        r.append("\"");
        r
    }

    /// Adds an instruction: a terminator becomes the block's terminator,
    /// any other goes to the end of the plain instructions.
    pub fn push(&mut self, instr: Instruction)
        requires
            old(self)@.accepts(instr@),
        ensures
            final(self)@ == old(self)@.push(instr@),
            old(self).wf() ==> final(self).wf(),
    {
        if instr.is_terminator() {
            self.control_flow = Some(instr);
        } else {
            self.instrs.push(instr);
            assert(self@.instrs =~= old(self)@.instrs.push(instr@));
        }
    }

    /// Puts an instruction at a position among the plain instructions; a
    /// terminator becomes the block's terminator whatever the position.
    pub fn insert(&mut self, idx: usize, instr: Instruction)
        requires
            old(self)@.accepts(instr@),
            instr@.is_terminator() ==> idx != old(self)@.instrs.len(),
            !instr@.is_terminator() ==> idx <= old(self)@.instrs.len(),
        ensures
            instr@.is_terminator() ==> final(self)@ == old(self)@.push(instr@),
            !instr@.is_terminator() ==> final(self)@ == (BlockView {
                instrs: old(self)@.instrs.insert(idx as int, instr@),
                ..old(self)@
            }),
            old(self).wf() ==> final(self).wf(),
    {
        if instr.is_terminator() {
            self.control_flow = Some(instr);
        } else {
            self.instrs.insert(idx, instr);
            assert(self@.instrs =~= old(self)@.instrs.insert(idx as int, instr@));
        }
    }

    /// Adds a run of instructions one after the other.
    pub fn extend(&mut self, instrs: Vec<Instruction>)
        requires
            old(self).wf(),
            old(self)@.accepts_all(instrs.deep_view()),
        ensures
            final(self).wf(),
            final(self)@ == old(self)@.extend(instrs.deep_view()),
    {
        let ghost all = instrs.deep_view();
        let ghost start = self@;
        let mut n: usize = 0;
        while n < instrs.len()
            invariant
                n <= instrs.len(),
                all == instrs.deep_view(),
                self@ == start.extend(all.take(n as int)),
                start.wf(),
                start.accepts_all(all),
            decreases instrs.len() - n,
        {
            let i = instrs[n].clone();
            proof {
                let next = all.take(n + 1);
                assert(next.drop_last() =~= all.take(n as int));
                assert(next.last() == i@);
                lemma_terminators_split(all, n + 1);
                lemma_terminators_split(all, n as int);
                lemma_extend(start, all.take(n as int));
            }
            self.push(i);
            n += 1;
        }
        proof {
            assert(all.take(all.len() as int) =~= all);
            lemma_extend(start, all);
        }
    }

    /// The block as lines of a function.
    pub fn flatten(self) -> (r: Vec<Code>)
        ensures
            r.deep_view() == self@.flatten(),
    {
        let ghost view = self@;
        let mut r: Vec<Code> = Vec::new();
        match self.label {
            Some(label) => {
                let ghost before = r;
                let c = Code::Label { label, pos: None };
                r.push(c);
                proof {
                    lemma_deep_push(before, r, c);
                }
            },
            None => {},
        }
        let ghost head = r.deep_view();
        assert(head =~= match view.label {
            Some(l) => seq![CodeView::Label { label: l, pos: None }],
            None => seq![],
        });
        let instrs = self.instrs;
        let mut i: usize = 0;
        while i < instrs.len()
            invariant
                i <= instrs.len(),
                instrs.deep_view() == view.instrs,
                r.deep_view() == head + view.instrs.take(i as int).map_values(
                    |x: InstrView| CodeView::Instruction(x),
                ),
            decreases instrs.len() - i,
        {
            let ghost before = r;
            let c = Code::Instruction(instrs[i].clone());
            r.push(c);
            proof {
                lemma_deep_push(before, r, c);
                assert(view.instrs.take(i as int + 1) =~= view.instrs.take(i as int).push(
                    instrs[i as int]@,
                ));
                assert(r.deep_view() =~= head + view.instrs.take(i as int + 1).map_values(
                    |x: InstrView| CodeView::Instruction(x),
                ));
            }
            i += 1;
        }
        assert(view.instrs.take(instrs.len() as int) =~= view.instrs);
        match self.control_flow {
            Some(t) => {
                let ghost before = r;
                let c = Code::Instruction(t);
                r.push(c);
                proof {
                    lemma_deep_push(before, r, c);
                    assert(r.deep_view() =~= view.flatten());
                }
            },
            None => {
                assert(r.deep_view() =~= view.flatten());
            },
        }
        r
    }
}

/// The terminators of a run are those of its first part and those of the
/// rest.
pub proof fn lemma_terminators_split(s: Seq<InstrView>, k: int)
    requires
        0 <= k <= s.len(),
    ensures
        terminators(s) == terminators(s.take(k)) + terminators(s.skip(k)),
    decreases s.len(),
{
    if k == s.len() {
        assert(s.take(k) =~= s);
        assert(s.skip(k) =~= Seq::<InstrView>::empty());
    } else {
        lemma_terminators_split(s.drop_last(), k);
        assert(s.drop_last().take(k) =~= s.take(k));
        assert(s.drop_last().skip(k) =~= s.skip(k).drop_last());
        assert(s.skip(k).last() == s.last());
    }
}

} // verus!
