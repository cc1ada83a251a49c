//! The names that SSA construction makes up, and the stacks that tell,
//! for each variable, the name that holds its value at some point of the
//! walk over the dominator tree.
use crate::ir::{lemma_deep_index, lemma_deep_push, ArgView, Argument};
use crate::names::NameMap;
use crate::text::{decimal, decimal_string, lemma_decimal_digits, lemma_decimal_injective};
use vstd::prelude::*;
use vstd::string::StringExecFns;

verus! {

/// The name of the merge reader of a variable at a block.
pub open spec fn shadow_spec(name: Seq<char>, bidx: nat) -> Seq<char> {
    name + "."@ + decimal(bidx) + ".shadow"@
}

/// The name of what the instruction at a position of a block writes.
pub open spec fn unique_spec(name: Seq<char>, bidx: nat, iidx: nat) -> Seq<char> {
    name + "."@ + decimal(bidx) + "."@ + decimal(iidx)
}

/// The name that holds the value of a variable: the last one pushed.
pub open spec fn top(stacks: Map<Seq<char>, Seq<Seq<char>>>, name: Seq<char>) -> Option<Seq<char>> {
    if stacks.contains_key(name) && stacks[name].len() > 0 {
        Some(stacks[name].last())
    } else {
        None
    }
}

/// The stacks after a name was pushed for a variable.
pub open spec fn pushed(
    stacks: Map<Seq<char>, Seq<Seq<char>>>,
    name: Seq<char>,
    new: Seq<char>,
) -> Map<Seq<char>, Seq<Seq<char>>> {
    stacks.insert(
        name,
        (if stacks.contains_key(name) {
            stacks[name]
        } else {
            seq![]
        }).push(new),
    )
}

/// The stacks at the start of a function: each argument holds itself.
pub open spec fn initial(args: Seq<ArgView>) -> Map<Seq<char>, Seq<Seq<char>>>
    decreases args.len(),
{
    if args.len() == 0 {
        Map::empty()
    } else {
        initial(args.drop_last()).insert(args.last().name, seq![args.last().name])
    }
}

/// For each variable the names that hold its value, the current one last.
#[derive(Debug)]
pub struct NameStack {
    pub names: NameMap<Vec<String>>,
}

impl NameStack {
    /// The stacks are in order.
    pub open spec fn wf(&self) -> bool {
        self.names.wf()
    }

    /// The stack of each variable.
    pub open spec fn view(&self) -> Map<Seq<char>, Seq<Seq<char>>> {
        Map::new(
            |k: Seq<char>| self.names@.contains_key(k),
            |k: Seq<char>| self.names@[k].deep_view(),
        )
    }

    /// The stacks at the start of a function.
    pub fn new(args: &Vec<Argument>) -> (r: Self)
        ensures
            r.wf(),
            r@ == initial(args.deep_view()),
    {
        let mut r = NameStack { names: NameMap::new() };
        let ghost all = args.deep_view();
        assert(all.take(0) =~= seq![]);
        assert(r@ =~= initial(all.take(0)));
        let mut i: usize = 0;
        while i < args.len()
            invariant
                i <= args.len(),
                all == args.deep_view(),
                r.wf(),
                r@ == initial(all.take(i as int)),
            decreases args.len() - i,
        {
            proof {
                let next = all.take(i + 1);
                assert(next.drop_last() =~= all.take(i as int));
                lemma_deep_index(*args);
                assert(next.last() == args[i as int]@);
            }
            let ghost before = r@;
            let mut stack: Vec<String> = Vec::new();
            stack.push(args[i].name.clone());
            assert(stack.deep_view() =~= seq![args[i as int].name@]);
            r.names.insert(args[i].name.clone(), stack);
            assert(r@ =~= before.insert(args[i as int].name@, seq![args[i as int].name@]));
            i += 1;
        }
        assert(all.take(args.len() as int) =~= all);
        r
    }

    /// The name that holds the value of a variable.
    pub fn get(&self, name: &String) -> (r: Option<String>)
        requires
            self.wf(),
        ensures
            r.deep_view() == top(self@, name@),
    {
        match self.names.get(name) {
            Some(stack) => {
                proof {
                    lemma_deep_index(*stack);
                }
                if stack.len() > 0 {
                    Some(stack[stack.len() - 1].clone())
                } else {
                    None
                }
            },
            None => None,
        }
    }

    /// Lets a new name hold the value of a variable, and gives it back.
    pub fn push(&mut self, name: &String, new: String) -> (r: String)
        requires
            old(self).wf(),
        ensures
            final(self).wf(),
            final(self)@ == pushed(old(self)@, name@, new@),
            r@ == new@,
    {
        let ghost before = self@;
        let mut stack: Vec<String> = match self.names.get(name) {
            Some(s) => crate::ir::clone_names(s),
            None => {
                let v: Vec<String> = Vec::new();
                assert(v.deep_view() =~= seq![]);
                v
            },
        };
        let ghost old_stack = stack;
        let r = new.clone();
        stack.push(new);
        proof {
            lemma_deep_push(old_stack, stack, new);
        }
        self.names.insert(name.clone(), stack);
        assert(self@ =~= pushed(before, name@, new@));
        r
    }

    /// The name of the merge reader of a variable at a block.
    pub fn shadow_name(name: &String, bidx: usize) -> (r: String)
        ensures
            r@ == shadow_spec(name@, bidx as nat),
    {
        let mut r = name.clone();
        r.append(".");
        r.append(decimal_string(bidx).as_str());
        r.append(".shadow");
        r
    }

    /// The name of what the instruction at a position of a block writes.
    pub fn unique_name(name: &String, bidx: usize, iidx: usize) -> (r: String)
        ensures
            r@ == unique_spec(name@, bidx as nat, iidx as nat),
    {
        let mut r = name.clone();
        r.append(".");
        r.append(decimal_string(bidx).as_str());
        r.append(".");
        r.append(decimal_string(iidx).as_str());
        r
    }
}

impl Clone for NameStack {
    fn clone(&self) -> (r: Self)
        ensures
            r.wf(),
            self.wf() ==> r@ == self@,
    {
        let mut names: NameMap<Vec<String>> = NameMap::new();
        let n = self.names.len();
        let mut i: usize = 0;
        while i < n
            invariant
                i <= n,
                n == self.names.keys().len(),
                n == self.names.values().len(),
                names.wf(),
                forall|k: Seq<char>|
                    names@.contains_key(k) <==> self.names.keys().take(i as int).contains(k),
                forall|j: int|
                    0 <= j < i ==> names@.contains_key(#[trigger] self.names.keys()[j]),
                self.wf() ==> forall|j: int|
                    0 <= j < i ==> (#[trigger] names@[self.names.keys()[j]]).deep_view()
                        == self.names.values()[j].deep_view(),
            decreases n - i,
        {
            let ghost before = names@;
            let ghost keys = self.names.keys();
            let k = self.names.key(i).clone();
            let v = crate::ir::clone_names(self.names.value(i));
            names.insert(k, v);
            proof {
                assert forall|x: Seq<char>|
                    names@.contains_key(x) <==> keys.take(i + 1).contains(x) by {
                    crate::names::lemma_take_set(keys, i as int);
                    assert(keys.take(i + 1).to_set().contains(x) <==> keys.take(
                        i as int,
                    ).to_set().insert(keys[i as int]).contains(x));
                }
                if self.wf() {
                    assert forall|j: int| 0 <= j < i + 1 implies (#[trigger] names@[keys[j]]).deep_view()
                        == self.names.values()[j].deep_view() by {
                        if j < i {
                            assert(keys[j] != keys[i as int]);
                            assert(before.contains_key(keys[j]));
                        }
                    }
                }
            }
            i += 1;
        }
        let r = NameStack { names };
        proof {
            let keys = self.names.keys();
            assert(keys.take(n as int) =~= keys);
            if self.wf() {
                assert forall|k: Seq<char>| r@.contains_key(k) implies r@[k] == self@[k] by {
                    let j = keys.index_of(k);
                    assert(keys[j] == k);
                }
            }
            assert(r@.dom() =~= self@.dom());
            if self.wf() {
                assert(r@ =~= self@);
            }
        }
        r
    }
}

/// The number at the end of a name that ends in a dot and a number is
/// the same for equal names.
pub proof fn lemma_suffix_number(a: Seq<char>, x: nat, b: Seq<char>, y: nat)
    requires
        a + "."@ + decimal(x) == b + "."@ + decimal(y),
    ensures
        x == y,
        a == b,
{
    reveal_strlit(".");
    lemma_decimal_digits(x);
    lemma_decimal_digits(y);
    let s = a + "."@ + decimal(x);
    let t = b + "."@ + decimal(y);
    let dx = decimal(x);
    let dy = decimal(y);
    // The dot before the number is the last dot of the name.
    if dx.len() < dy.len() {
        let p = s.len() - dx.len() - 1;
        assert(s[p] == '.');
        assert(t[p] == dy[p - (b.len() + 1)]);
        assert(crate::text::is_digit(dy[p - (b.len() + 1)]));
        assert(false);
    }
    if dy.len() < dx.len() {
        let p = t.len() - dy.len() - 1;
        assert(t[p] == '.');
        assert(s[p] == dx[p - (a.len() + 1)]);
        assert(crate::text::is_digit(dx[p - (a.len() + 1)]));
        assert(false);
    }
    assert("."@.len() == 1);
    assert(s.len() == a.len() + 1 + dx.len());
    assert(t.len() == b.len() + 1 + dy.len());
    assert(dx.len() == dy.len());
    assert(a.len() == b.len());
    assert(dx =~= s.skip(a.len() as int + 1));
    assert(dy =~= t.skip(b.len() as int + 1));
    lemma_decimal_injective(x, y);
    assert(a =~= s.take(a.len() as int));
    assert(b =~= t.take(b.len() as int));
}

/// Names made up for different positions differ, whatever variables they
/// are made up for.
pub proof fn lemma_unique_injective(a: Seq<char>, b1: nat, i1: nat, c: Seq<char>, b2: nat, i2: nat)
    requires
        unique_spec(a, b1, i1) == unique_spec(c, b2, i2),
    ensures
        a == c,
        b1 == b2,
        i1 == i2,
{
    lemma_suffix_number(a + "."@ + decimal(b1), i1, c + "."@ + decimal(b2), i2);
    lemma_suffix_number(a, b1, c, b2);
}

/// The names of the merge readers of different variables, or at different
/// blocks, differ.
pub proof fn lemma_shadow_injective(a: Seq<char>, b1: nat, c: Seq<char>, b2: nat)
    requires
        shadow_spec(a, b1) == shadow_spec(c, b2),
    ensures
        a == c,
        b1 == b2,
{
    let x = a + "."@ + decimal(b1);
    let y = c + "."@ + decimal(b2);
    let tail = ".shadow"@;
    assert(x =~= (x + tail).take(x.len() as int));
    assert(y =~= (y + tail).take(y.len() as int));
    assert((x + tail).len() == x.len() + tail.len());
    assert((y + tail).len() == y.len() + tail.len());
    lemma_suffix_number(a, b1, c, b2);
}

/// The name of a merge reader is not the name made up for a position.
pub proof fn lemma_shadow_not_unique(a: Seq<char>, b1: nat, c: Seq<char>, b2: nat, i2: nat)
    ensures
        shadow_spec(a, b1) != unique_spec(c, b2, i2),
{
    reveal_strlit(".shadow");
    lemma_decimal_digits(i2);
    let s = shadow_spec(a, b1);
    let u = unique_spec(c, b2, i2);
    if s == u {
        assert(s.last() == 'w');
        assert(u.last() == decimal(i2).last());
        assert(crate::text::is_digit(decimal(i2)[decimal(i2).len() - 1]));
        assert(false);
    }
}

} // verus!
