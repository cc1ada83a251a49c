//! Finite sets kept as lists without repetition, for items that are told
//! apart by a key.
use vstd::prelude::*;

verus! {

/// Items that are told apart by a key.
pub trait Keyed: Sized {
    /// The key of an item.
    type Key;

    /// The key of an item.
    spec fn key(&self) -> Self::Key;

    /// Whether two items have the same key.
    fn same_key(&self, other: &Self) -> (r: bool)
        ensures
            r == (self.key() == other.key()),
    ;

    /// An item with the same key.
    fn dup(&self) -> (r: Self)
        ensures
            r.key() == self.key(),
    ;
}

/// A finite set of items.
pub struct VecSet<T: Keyed> {
    pub items: Vec<T>,
}

impl<T: Keyed> VecSet<T> {
    /// The keys of the items, in the order of the list.
    pub open spec fn keys(&self) -> Seq<T::Key> {
        Seq::new(self.items@.len(), |i: int| self.items@[i].key())
    }

    /// The set of the keys.
    pub open spec fn view(&self) -> Set<T::Key> {
        self.keys().to_set()
    }

    /// The empty set.
    pub fn new() -> (r: Self)
        ensures
            r@ == Set::<T::Key>::empty(),
    {
        let r = VecSet { items: Vec::new() };
        assert(r.keys() =~= Seq::<T::Key>::empty());
        assert(r@ =~= Set::<T::Key>::empty());
        r
    }

    /// Whether the set holds an item with the key of `x`.
    pub fn contains(&self, x: &T) -> (r: bool)
        ensures
            r == self@.contains(x.key()),
    {
        let mut i: usize = 0;
        while i < self.items.len()
            invariant
                i <= self.items.len(),
                forall|j: int| 0 <= j < i ==> self.keys()[j] != x.key(),
            decreases self.items.len() - i,
        {
            if self.items[i].same_key(x) {
                assert(self.keys()[i as int] == x.key());
                return true;
            }
            i += 1;
        }
        false
    }

    /// Adds an item unless the set holds one with its key. Returns whether
    /// it was added.
    pub fn insert(&mut self, x: T) -> (fresh: bool)
        ensures
            final(self)@ == old(self)@.insert(x.key()),
            fresh == !old(self)@.contains(x.key()),
    {
        let ghost before = self.keys();
        if self.contains(&x) {
            assert(self@ =~= old(self)@.insert(x.key()));
            false
        } else {
            self.items.push(x);
            proof {
                assert(self.keys() =~= before.push(x.key()));
                lemma_push_set(before, x.key());
            }
            true
        }
    }

    /// A set with the same keys.
    pub fn dup(&self) -> (r: Self)
        ensures
            r@ == self@,
    {
        let mut items: Vec<T> = Vec::new();
        let mut i: usize = 0;
        while i < self.items.len()
            invariant
                i <= self.items.len(),
                items.len() == i,
                forall|j: int| 0 <= j < i ==> (#[trigger] items[j]).key() == self.items[j].key(),
            decreases self.items.len() - i,
        {
            items.push(self.items[i].dup());
            i += 1;
        }
        let r = VecSet { items };
        assert(r.keys() =~= self.keys());
        r
    }

    /// Whether every key of this set is a key of the other.
    pub fn subset_of(&self, other: &Self) -> (r: bool)
        ensures
            r == self@.subset_of(other@),
    {
        let mut i: usize = 0;
        while i < self.items.len()
            invariant
                i <= self.items.len(),
                forall|j: int| 0 <= j < i ==> other@.contains(#[trigger] self.keys()[j]),
            decreases self.items.len() - i,
        {
            if !other.contains(&self.items[i]) {
                assert(self@.contains(self.keys()[i as int]));
                return false;
            }
            i += 1;
        }
        proof {
            assert forall|k: T::Key| self@.contains(k) implies other@.contains(k) by {
                let j = choose|j: int| 0 <= j < self.keys().len() && self.keys()[j] == k;
                assert(other@.contains(self.keys()[j]));
            }
        }
        true
    }

    /// Whether two sets hold the same keys.
    pub fn same_set(&self, other: &Self) -> (r: bool)
        ensures
            r == (self@ == other@),
    {
        let r = self.subset_of(other) && other.subset_of(self);
        proof {
            if r {
                assert(self@ =~= other@);
            }
        }
        r
    }

    /// Adds every item of another set.
    pub fn extend(&mut self, other: &Self)
        ensures
            final(self)@ == old(self)@.union(other@),
    {
        let ghost start = self@;
        let mut i: usize = 0;
        proof {
            crate::names::lemma_take_none(other.keys());
            assert(other.keys().take(0).to_set() =~= Set::<T::Key>::empty());
            assert(start.union(Set::<T::Key>::empty()) =~= start);
        }
        while i < other.items.len()
            invariant
                i <= other.items.len(),
                self@ == start.union(other.keys().take(i as int).to_set()),
            decreases other.items.len() - i,
        {
            proof {
                crate::names::lemma_take_set(other.keys(), i as int);
            }
            self.insert(other.items[i].dup());
            assert(self@ =~= start.union(other.keys().take(i + 1).to_set()));
            i += 1;
        }
        assert(other.keys().take(other.items.len() as int) =~= other.keys());
    }

    /// The items that the other set holds too.
    pub fn intersect(&self, other: &Self) -> (r: Self)
        ensures
            r@ == self@.intersect(other@),
    {
        let mut r = VecSet::new();
        let mut i: usize = 0;
        proof {
            crate::names::lemma_take_none(self.keys());
            assert(self.keys().take(0).to_set() =~= Set::<T::Key>::empty());
            assert(Set::<T::Key>::empty().intersect(other@) =~= Set::<T::Key>::empty());
        }
        while i < self.items.len()
            invariant
                i <= self.items.len(),
                r@ == self.keys().take(i as int).to_set().intersect(other@),
            decreases self.items.len() - i,
        {
            proof {
                crate::names::lemma_take_set(self.keys(), i as int);
            }
            if other.contains(&self.items[i]) {
                r.insert(self.items[i].dup());
            }
            assert(r@ =~= self.keys().take(i + 1).to_set().intersect(other@));
            i += 1;
        }
        assert(self.keys().take(self.items.len() as int) =~= self.keys());
        r
    }
}

/// The union of some sets.
pub open spec fn union_of<A>(vals: Seq<Set<A>>) -> Set<A>
    decreases vals.len(),
{
    if vals.len() == 0 {
        Set::empty()
    } else {
        union_of(vals.drop_last()).union(vals.last())
    }
}

/// The union of some sets holds a value exactly if one of them holds it.
pub proof fn lemma_union_of<A>(vals: Seq<Set<A>>, x: A)
    ensures
        union_of(vals).contains(x) <==> exists|k: int|
            0 <= k < vals.len() && (#[trigger] vals[k]).contains(x),
    decreases vals.len(),
{
    if vals.len() > 0 {
        lemma_union_of(vals.drop_last(), x);
        let head = vals.drop_last();
        if union_of(vals).contains(x) {
            if vals.last().contains(x) {
                assert(vals[vals.len() - 1].contains(x));
            } else {
                let k = choose|k: int| 0 <= k < head.len() && (#[trigger] head[k]).contains(x);
                assert(vals[k].contains(x));
            }
        }
        if exists|k: int| 0 <= k < vals.len() && (#[trigger] vals[k]).contains(x) {
            let k = choose|k: int| 0 <= k < vals.len() && (#[trigger] vals[k]).contains(x);
            if k < head.len() {
                assert(head[k].contains(x));
            }
        }
    }
}

/// The set of a list with one more item is the set of the list with the
/// item added.
pub proof fn lemma_push_set<A>(s: Seq<A>, x: A)
    ensures
        s.push(x).to_set() == s.to_set().insert(x),
{
    let t = s.push(x);
    assert forall|a: A| t.contains(a) <==> (s.contains(a) || a == x) by {
        if t.contains(a) {
            let k = choose|k: int| 0 <= k < t.len() && t[k] == a;
            if k < s.len() {
                assert(s[k] == a);
            }
        }
        if s.contains(a) {
            let k = choose|k: int| 0 <= k < s.len() && s[k] == a;
            assert(t[k] == a);
        }
        if a == x {
            assert(t[s.len() as int] == a);
        }
    }
    assert(t.to_set() =~= s.to_set().insert(x));
}

} // verus!
