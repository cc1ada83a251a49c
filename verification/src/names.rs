//! Collections keyed by name: a map and a set that keep their keys in the
//! order in which they first came, and never hold a key twice.
use vstd::prelude::*;

verus! {

/// The set of the first `m + 1` items of a list is the set of the first `m`
/// with the next item added.
pub proof fn lemma_take_set<A>(s: Seq<A>, m: int)
    requires
        0 <= m < s.len(),
    ensures
        s.take(m + 1).to_set() == s.take(m).to_set().insert(s[m]),
{
    let a = s.take(m + 1);
    let b = s.take(m);
    assert forall|x: A| a.contains(x) <==> (b.contains(x) || x == s[m]) by {
        if a.contains(x) {
            let k = choose|k: int| 0 <= k < a.len() && a[k] == x;
            if k < m {
                assert(b[k] == x);
            }
        }
        if b.contains(x) {
            let k = choose|k: int| 0 <= k < b.len() && b[k] == x;
            assert(a[k] == x);
        }
        if x == s[m] {
            assert(a[m] == x);
        }
    }
    assert(a.to_set() =~= b.to_set().insert(s[m]));
}

/// The set of no items of a list is empty.
pub proof fn lemma_take_none<A>(s: Seq<A>)
    ensures
        s.take(0).to_set() == Set::<A>::empty(),
{
    assert(s.take(0).to_set() =~= Set::<A>::empty());
}

/// A map from names to values that remembers the order of first insertion.
#[derive(Debug)]
pub struct NameMap<V> {
    entries: Vec<(String, V)>,
}

impl<V> NameMap<V> {
    /// The keys, in the order in which they were first inserted.
    pub closed spec fn keys(&self) -> Seq<Seq<char>> {
        Seq::new(self.entries@.len(), |i: int| self.entries@[i].0@)
    }

    /// The values, each at the position of its key.
    pub closed spec fn values(&self) -> Seq<V> {
        Seq::new(self.entries@.len(), |i: int| self.entries@[i].1)
    }

    /// No key occurs twice.
    pub open spec fn wf(&self) -> bool {
        &&& self.keys().no_duplicates()
        &&& self.keys().len() == self.values().len()
    }

    /// The map as a mathematical map.
    pub open spec fn view(&self) -> Map<Seq<char>, V> {
        Map::new(
            |k: Seq<char>| self.keys().contains(k),
            |k: Seq<char>| self.values()[self.keys().index_of(k)],
        )
    }

    /// The empty map.
    pub fn new() -> (r: Self)
        ensures
            r.wf(),
            r.keys() == Seq::<Seq<char>>::empty(),
            r.values() == Seq::<V>::empty(),
            r@ == Map::<Seq<char>, V>::empty(),
    {
        let r = NameMap { entries: Vec::new() };
        assert(r.keys() =~= Seq::<Seq<char>>::empty());
        assert(r.values() =~= Seq::<V>::empty());
        assert(r@ =~= Map::<Seq<char>, V>::empty());
        r
    }

    /// The number of keys.
    pub fn len(&self) -> (n: usize)
        ensures
            n == self.keys().len(),
            n == self.values().len(),
    {
        self.entries.len()
    }

    /// The key at a position.
    pub fn key(&self, i: usize) -> (k: &String)
        requires
            i < self.keys().len(),
        ensures
            k@ == self.keys()[i as int],
    {
        &self.entries[i].0
    }

    /// The value at a position.
    pub fn value(&self, i: usize) -> (v: &V)
        requires
            i < self.values().len(),
        ensures
            *v == self.values()[i as int],
    {
        &self.entries[i].1
    }

    /// The position of a key, if the map holds it.
    pub fn index_of(&self, k: &String) -> (r: Option<usize>)
        ensures
            match r {
                Some(i) => i < self.keys().len() && self.keys()[i as int] == k@,
                None => !self.keys().contains(k@),
            },
            self.wf() && r.is_some() ==> r.unwrap() == self.keys().index_of(k@),
    {
        let mut i: usize = 0;
        while i < self.entries.len()
            invariant
                i <= self.entries.len(),
                forall|j: int| 0 <= j < i ==> self.keys()[j] != k@,
            decreases self.entries.len() - i,
        {
            if self.entries[i].0.eq(k) {
                proof {
                    if self.wf() {
                        let j = self.keys().index_of(k@);
                        assert(self.keys()[i as int] == k@);
                        assert(self.keys()[j] == k@);
                    }
                }
                return Some(i);
            }
            i += 1;
        }
        None
    }

    /// Whether the map holds a key.
    pub fn contains_key(&self, k: &String) -> (r: bool)
        ensures
            r == self.keys().contains(k@),
            r == self@.contains_key(k@),
    {
        self.index_of(k).is_some()
    }

    /// The value of a key, if the map holds it.
    pub fn get(&self, k: &String) -> (r: Option<&V>)
        requires
            self.wf(),
        ensures
            match r {
                Some(v) => self@.contains_key(k@) && *v == self@[k@],
                None => !self@.contains_key(k@),
            },
    {
        match self.index_of(k) {
            Some(i) => Some(&self.entries[i].1),
            None => None,
        }
    }

    /// Binds a key to a value. A key that the map already holds keeps its
    /// position; a new key goes to the end. Returns whether the key was
    /// new.
    pub fn insert(&mut self, k: String, v: V) -> (fresh: bool)
        requires
            old(self).wf(),
        ensures
            final(self).wf(),
            fresh == !old(self).keys().contains(k@),
            final(self)@ == old(self)@.insert(k@, v),
            fresh ==> final(self).keys() == old(self).keys().push(k@) && final(self).values()
                == old(self).values().push(v),
            !fresh ==> final(self).keys() == old(self).keys() && final(self).values() == old(
                self,
            ).values().update(old(self).keys().index_of(k@), v),
    {
        let ghost before = *self;
        match self.index_of(&k) {
            Some(i) => {
                self.entries.set(i, (k, v));
                proof {
                    assert(self.keys() =~= before.keys());
                    assert(self.values() =~= before.values().update(i as int, v));
                    assert(self@ =~= before@.insert(k@, v));
                }
                false
            },
            None => {
                self.entries.push((k, v));
                proof {
                    assert(self.keys() =~= before.keys().push(k@));
                    assert(self.values() =~= before.values().push(v));
                    assert forall|key: Seq<char>| #[trigger]
                        self@.contains_key(key) implies self@[key] == before@.insert(k@, v)[key] by {
                        let j = self.keys().index_of(key);
                        if key != k@ {
                            assert(before.keys().contains(key));
                            let j0 = before.keys().index_of(key);
                            assert(self.keys()[j0] == key);
                        }
                    }
                    assert(self@.dom() =~= before@.insert(k@, v).dom()) by {
                        assert forall|key: Seq<char>|
                            self.keys().contains(key) <==> (before.keys().contains(key) || key
                                == k@) by {
                            if before.keys().contains(key) {
                                let j0 = before.keys().index_of(key);
                                assert(self.keys()[j0] == key);
                            }
                            if key == k@ {
                                assert(self.keys()[before.keys().len() as int] == key);
                            }
                        }
                    }
                    assert(self@ =~= before@.insert(k@, v));
                }
                true
            },
        }
    }
}

/// A set of names that remembers the order of first insertion.
#[derive(Debug)]
pub struct NameSet {
    items: Vec<String>,
}

impl NameSet {
    /// The names, in the order in which they were first inserted.
    pub closed spec fn elems(&self) -> Seq<Seq<char>> {
        self.items.deep_view()
    }

    /// No name occurs twice.
    pub open spec fn wf(&self) -> bool {
        self.elems().no_duplicates()
    }

    /// The set as a mathematical set.
    pub open spec fn view(&self) -> Set<Seq<char>> {
        self.elems().to_set()
    }

    /// The empty set.
    pub fn new() -> (r: Self)
        ensures
            r.wf(),
            r.elems() == Seq::<Seq<char>>::empty(),
            r@ == Set::<Seq<char>>::empty(),
    {
        let r = NameSet { items: Vec::new() };
        assert(r.elems() =~= Seq::<Seq<char>>::empty());
        assert(r@ =~= Set::<Seq<char>>::empty());
        r
    }

    /// The number of names.
    pub fn len(&self) -> (n: usize)
        ensures
            n == self.elems().len(),
    {
        self.items.len()
    }

    /// The name at a position.
    pub fn get(&self, i: usize) -> (k: &String)
        requires
            i < self.elems().len(),
        ensures
            k@ == self.elems()[i as int],
    {
        &self.items[i]
    }

    /// The position of a name, if the set holds it.
    pub fn index_of(&self, k: &String) -> (r: Option<usize>)
        ensures
            match r {
                Some(i) => i < self.elems().len() && self.elems()[i as int] == k@,
                None => !self.elems().contains(k@),
            },
    {
        let mut i: usize = 0;
        while i < self.items.len()
            invariant
                i <= self.items.len(),
                forall|j: int| 0 <= j < i ==> self.elems()[j] != k@,
            decreases self.items.len() - i,
        {
            if self.items[i].eq(k) {
                return Some(i);
            }
            i += 1;
        }
        None
    }

    /// Whether the set holds a name.
    pub fn contains(&self, k: &String) -> (r: bool)
        ensures
            r == self.elems().contains(k@),
            r == self@.contains(k@),
    {
        self.index_of(k).is_some()
    }

    /// Adds a name, at the end if it is new. Returns whether it was new.
    pub fn insert(&mut self, k: String) -> (fresh: bool)
        requires
            old(self).wf(),
        ensures
            final(self).wf(),
            fresh == !old(self).elems().contains(k@),
            final(self)@ == old(self)@.insert(k@),
            fresh ==> final(self).elems() == old(self).elems().push(k@),
            !fresh ==> final(self).elems() == old(self).elems(),
    {
        let ghost before = *self;
        if self.contains(&k) {
            assert(self@ =~= before@.insert(k@));
            false
        } else {
            self.items.push(k);
            proof {
                assert(self.elems() =~= before.elems().push(k@));
                assert forall|key: Seq<char>|
                    self.elems().contains(key) <==> (before.elems().contains(key) || key
                        == k@) by {
                    if before.elems().contains(key) {
                        let j0 = before.elems().index_of(key);
                        assert(self.elems()[j0] == key);
                    }
                    if key == k@ {
                        assert(self.elems()[before.elems().len() as int] == key);
                    }
                }
                assert(self@ =~= before@.insert(k@));
            }
            true
        }
    }

    /// A set that holds the same names, in the same order.
    pub fn dup(&self) -> (r: Self)
        ensures
            r.elems() == self.elems(),
            r@ == self@,
            self.wf() ==> r.wf(),
    {
        NameSet { items: crate::ir::clone_names(&self.items) }
    }

    /// Whether every name of this set is in the other.
    pub fn subset_of(&self, other: &Self) -> (r: bool)
        ensures
            r == self@.subset_of(other@),
    {
        let mut i: usize = 0;
        while i < self.items.len()
            invariant
                i <= self.items.len(),
                forall|j: int| 0 <= j < i ==> other@.contains(#[trigger] self.elems()[j]),
            decreases self.items.len() - i,
        {
            if !other.contains(&self.items[i]) {
                assert(self.elems()[i as int] == self.items[i as int]@);
                assert(self@.contains(self.elems()[i as int]));
                return false;
            }
            assert(self.elems()[i as int] == self.items[i as int]@);
            i += 1;
        }
        proof {
            assert forall|k: Seq<char>| self@.contains(k) implies other@.contains(k) by {
                let j = choose|j: int| 0 <= j < self.elems().len() && self.elems()[j] == k;
                assert(other@.contains(self.elems()[j]));
            }
        }
        true
    }

    /// Whether two sets hold the same names.
    pub fn same_set(&self, other: &Self) -> (r: bool)
        ensures
            r == (self@ == other@),
    {
        let r = self.subset_of(other) && other.subset_of(self);
        proof {
            if r {
                assert(self@ =~= other@);
            }
        }
        r
    }

    /// Takes a name out. Returns whether the set held it.
    pub fn remove(&mut self, k: &String) -> (found: bool)
        requires
            old(self).wf(),
        ensures
            final(self).wf(),
            found == old(self).elems().contains(k@),
            final(self)@ == old(self)@.remove(k@),
            found ==> final(self).elems() == old(self).elems().remove(
                old(self).elems().index_of(k@),
            ),
            !found ==> final(self).elems() == old(self).elems(),
    {
        let ghost before = *self;
        match self.index_of(k) {
            Some(i) => {
                self.items.remove(i);
                proof {
                    assert(self.elems() =~= before.elems().remove(i as int));
                    assert forall|key: Seq<char>|
                        self.elems().contains(key) <==> (before.elems().contains(key) && key
                            != k@) by {
                        if self.elems().contains(key) {
                            let j = self.elems().index_of(key);
                            if j < i {
                                assert(before.elems()[j] == key);
                            } else {
                                assert(before.elems()[j + 1] == key);
                            }
                        }
                        if before.elems().contains(key) && key != k@ {
                            let j = before.elems().index_of(key);
                            if j < i {
                                assert(self.elems()[j] == key);
                            } else {
                                assert(self.elems()[j - 1] == key);
                            }
                        }
                    }
                    assert(self@ =~= before@.remove(k@));
                }
                true
            },
            None => {
                assert(self@ =~= before@.remove(k@));
                false
            },
        }
    }
}

} // verus!
