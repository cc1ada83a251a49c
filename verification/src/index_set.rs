//! Sets of block indices, kept in the insertion-ordered hash set of the
//! `linked_hash_set` crate. Each operation that the library uses is one
//! call of the crate, stated over the set of indices that the value holds.
use linked_hash_set::LinkedHashSet;
use vstd::prelude::*;

verus! {

/// `LinkedHashSet`: the type of the crate, taken as it is. What a value
/// holds is told by `set_items`.
#[verifier::external_type_specification]
#[verifier::external_body]
#[verifier::reject_recursive_types(T)]
#[verifier::reject_recursive_types(S)]
pub struct ExLinkedHashSet<T, S>(LinkedHashSet<T, S>);

/// The indices that a set holds.
pub uninterp spec fn set_items(s: LinkedHashSet<usize>) -> Set<usize>;

/// `LinkedHashSet::new`: a set that holds nothing.
#[verifier::external_body]
pub(crate) fn set_new() -> (s: LinkedHashSet<usize>)
    ensures
        set_items(s) == Set::<usize>::empty(),
        set_items(s).finite(),
{
    LinkedHashSet::new()
}

/// `LinkedHashSet::insert`: afterwards the set holds the value besides
/// what it held; the result tells whether the value was absent.
#[verifier::external_body]
pub(crate) fn set_insert(s: &mut LinkedHashSet<usize>, v: usize) -> (fresh: bool)
    ensures
        set_items(*final(s)) == set_items(*old(s)).insert(v),
        fresh == !set_items(*old(s)).contains(v),
{
    s.insert(v)
}

/// `LinkedHashSet::contains`: whether the set holds the value.
#[verifier::external_body]
pub(crate) fn set_contains(s: &LinkedHashSet<usize>, v: usize) -> (r: bool)
    ensures
        r == set_items(*s).contains(v),
{
    s.contains(&v)
}

/// `LinkedHashSet::clone`: a set that holds the same.
#[verifier::external_body]
pub(crate) fn set_clone(s: &LinkedHashSet<usize>) -> (r: LinkedHashSet<usize>)
    ensures
        set_items(r) == set_items(*s),
{
    s.clone()
}

/// `LinkedHashSet::eq`: whether two sets hold the same.
#[verifier::external_body]
pub(crate) fn set_eq(a: &LinkedHashSet<usize>, b: &LinkedHashSet<usize>) -> (r: bool)
    ensures
        r == (set_items(*a) == set_items(*b)),
{
    a.eq(b)
}

/// `BitAnd::bitand` on two sets: a set that holds what both hold.
#[verifier::external_body]
pub(crate) fn set_intersect(a: &LinkedHashSet<usize>, b: &LinkedHashSet<usize>) -> (r:
    LinkedHashSet<usize>)
    ensures
        set_items(r) == set_items(*a).intersect(set_items(*b)),
{
    a & b
}

/// `LinkedHashSet::iter`: every value that the set holds, once each.
#[verifier::external_body]
pub(crate) fn set_to_vec(s: &LinkedHashSet<usize>) -> (r: Vec<usize>)
    ensures
        r@.no_duplicates(),
        r@.to_set() == set_items(*s),
{
    s.iter().copied().collect()
}

/// `LinkedHashSet::remove`: afterwards the set holds what it held but for
/// the value; the result tells whether the value was present.
#[verifier::external_body]
pub(crate) fn set_remove(s: &mut LinkedHashSet<usize>, v: usize) -> (found: bool)
    ensures
        set_items(*final(s)) == set_items(*old(s)).remove(v),
        found == set_items(*old(s)).contains(v),
{
    s.remove(&v)
}

/// `LinkedHashSet::pop_front`: takes a value out of the set and returns it;
/// returns nothing, and leaves the set as it is, if the set holds nothing.
#[verifier::external_body]
pub(crate) fn set_pop(s: &mut LinkedHashSet<usize>) -> (r: Option<usize>)
    ensures
        match r {
            Some(x) => set_items(*old(s)).contains(x) && set_items(*final(s)) == set_items(
                *old(s),
            ).remove(x),
            None => set_items(*old(s)) == Set::<usize>::empty() && set_items(*final(s))
                == set_items(*old(s)),
        },
{
    s.pop_front()
}

} // verus!
