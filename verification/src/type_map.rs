//! Maps from names to types that keep the order of insertion, kept in the
//! linked hash map of the `linked_hash_map` crate. Each operation that the
//! library uses is one call of the crate, stated over the entries of the
//! map in their order.
use crate::ir::Type;
use linked_hash_map::LinkedHashMap;
use vstd::prelude::*;

verus! {

/// `LinkedHashMap`: the type of the crate, taken as it is. What a value
/// holds is told by `map_entries`.
#[verifier::external_type_specification]
#[verifier::external_body]
#[verifier::reject_recursive_types(K)]
#[verifier::reject_recursive_types(V)]
#[verifier::reject_recursive_types(S)]
pub struct ExLinkedHashMap<K, V, S>(LinkedHashMap<K, V, S>);

/// The entries of a map, in the order in which their keys were last
/// inserted.
pub uninterp spec fn map_entries(m: LinkedHashMap<String, Type>) -> Seq<(Seq<char>, Type)>;

/// The entries without the one of a key.
pub open spec fn without_key(s: Seq<(Seq<char>, Type)>, k: Seq<char>) -> Seq<(Seq<char>, Type)>
    decreases s.len(),
{
    if s.len() == 0 {
        s
    } else if s.last().0 != k {
        without_key(s.drop_last(), k).push(s.last())
    } else {
        without_key(s.drop_last(), k)
    }
}

/// Whether some entry has the key.
pub open spec fn has_key(s: Seq<(Seq<char>, Type)>, k: Seq<char>) -> bool {
    exists|i: int| 0 <= i < s.len() && (#[trigger] s[i]).0 == k
}

/// Taking a key out leaves the entries of the other keys, and only those.
pub proof fn lemma_without_key(s: Seq<(Seq<char>, Type)>, k: Seq<char>)
    ensures
        without_key(s, k).len() <= s.len(),
        forall|x: Seq<char>|
            #[trigger] has_key(without_key(s, k), x) <==> (x != k && has_key(s, x)),
    decreases s.len(),
{
    if s.len() > 0 {
        lemma_without_key(s.drop_last(), k);
        let r = without_key(s.drop_last(), k);
        let w = without_key(s, k);
        assert forall|x: Seq<char>| #[trigger] has_key(w, x) <==> (x != k && has_key(s, x)) by {
            assert(has_key(r, x) <==> (x != k && has_key(s.drop_last(), x)));
            if has_key(w, x) {
                let i = choose|i: int| 0 <= i < w.len() && (#[trigger] w[i]).0 == x;
                if i < r.len() {
                    assert(r[i].0 == x);
                    assert(has_key(r, x));
                    let j = choose|j: int|
                        0 <= j < s.drop_last().len() && (#[trigger] s.drop_last()[j]).0 == x;
                    assert(s[j].0 == x);
                } else {
                    assert(s[s.len() - 1].0 == x);
                }
            }
            if x != k && has_key(s, x) {
                let j = choose|j: int| 0 <= j < s.len() && (#[trigger] s[j]).0 == x;
                if j < s.len() - 1 {
                    assert(s.drop_last()[j].0 == x);
                    assert(has_key(s.drop_last(), x));
                    let i = choose|i: int| 0 <= i < r.len() && (#[trigger] r[i]).0 == x;
                    assert(w[i].0 == x);
                } else {
                    assert(w[w.len() - 1].0 == x);
                }
            }
        }
    }
}

/// Whether no two entries have the same key.
pub open spec fn distinct_keys(s: Seq<(Seq<char>, Type)>) -> bool {
    forall|i: int, j: int| 0 <= i < j < s.len() ==> (#[trigger] s[i]).0 != (#[trigger] s[j]).0
}

/// Taking a key out of entries with different keys leaves entries with
/// different keys.
pub proof fn lemma_without_distinct(s: Seq<(Seq<char>, Type)>, k: Seq<char>)
    requires
        distinct_keys(s),
    ensures
        distinct_keys(without_key(s, k)),
    decreases s.len(),
{
    if s.len() > 0 {
        let head = s.drop_last();
        assert(distinct_keys(head)) by {
            assert forall|i: int, j: int| 0 <= i < j < head.len() implies (#[trigger] head[i]).0
                != (#[trigger] head[j]).0 by {
                assert(s[i].0 != s[j].0);
            }
        }
        lemma_without_distinct(head, k);
        lemma_without_key(head, k);
        let w = without_key(head, k);
        if s.last().0 != k {
            let n = w.push(s.last());
            assert forall|i: int, j: int| 0 <= i < j < n.len() implies (#[trigger] n[i]).0
                != (#[trigger] n[j]).0 by {
                if j == w.len() {
                    if w[i].0 == s.last().0 {
                        assert(has_key(w, s.last().0));
                        assert(has_key(head, s.last().0));
                        let t = choose|t: int| 0 <= t < head.len() && (#[trigger] head[t]).0 == s.last().0;
                        assert(s[t].0 != s[s.len() - 1].0);
                    }
                } else {
                    assert(w[i].0 != w[j].0);
                }
            }
        }
    }
}

/// An insertion into entries with different keys gives entries with
/// different keys.
pub proof fn lemma_insert_distinct(s: Seq<(Seq<char>, Type)>, k: Seq<char>, v: Type)
    requires
        distinct_keys(s),
    ensures
        distinct_keys(without_key(s, k).push((k, v))),
{
    lemma_without_distinct(s, k);
    lemma_without_key(s, k);
    let w = without_key(s, k);
    let n = w.push((k, v));
    assert forall|i: int, j: int| 0 <= i < j < n.len() implies (#[trigger] n[i]).0 != (#[trigger] n[j]).0 by {
        if j == w.len() {
            if w[i].0 == k {
                assert(has_key(w, k));
            }
        } else {
            assert(w[i].0 != w[j].0);
        }
    }
}

/// After an insertion a map has the keys it had, and the inserted one.
pub proof fn lemma_insert_keys(s: Seq<(Seq<char>, Type)>, k: Seq<char>, v: Type)
    ensures
        forall|x: Seq<char>|
            #[trigger] has_key(without_key(s, k).push((k, v)), x) <==> (x == k || has_key(s, x)),
{
    lemma_without_key(s, k);
    let w = without_key(s, k);
    let n = w.push((k, v));
    assert forall|x: Seq<char>| #[trigger] has_key(n, x) <==> (x == k || has_key(s, x)) by {
        assert(has_key(w, x) <==> (x != k && has_key(s, x)));
        if has_key(n, x) {
            let i = choose|i: int| 0 <= i < n.len() && (#[trigger] n[i]).0 == x;
            if i < w.len() {
                assert(w[i].0 == x);
                assert(has_key(w, x));
            }
        }
        if x == k {
            assert(n[n.len() - 1].0 == x);
        } else if has_key(s, x) {
            assert(has_key(w, x));
            let i = choose|i: int| 0 <= i < w.len() && (#[trigger] w[i]).0 == x;
            assert(n[i].0 == x);
        }
    }
}

/// Taking out a key that no entry has leaves the entries as they are.
pub proof fn lemma_without_absent(s: Seq<(Seq<char>, Type)>, k: Seq<char>)
    requires
        !has_key(s, k),
    ensures
        without_key(s, k) == s,
    decreases s.len(),
{
    if s.len() > 0 {
        assert(s[s.len() - 1].0 != k);
        assert(!has_key(s.drop_last(), k)) by {
            if has_key(s.drop_last(), k) {
                let i = choose|i: int|
                    0 <= i < s.drop_last().len() && (#[trigger] s.drop_last()[i]).0 == k;
                assert(s[i].0 == k);
            }
        }
        lemma_without_absent(s.drop_last(), k);
        assert(s.drop_last().push(s.last()) =~= s);
    }
}

/// An insertion made twice is an insertion made once.
pub proof fn lemma_insert_twice(s: Seq<(Seq<char>, Type)>, k: Seq<char>, v: Type)
    ensures
        without_key(without_key(s, k).push((k, v)), k) == without_key(s, k),
{
    let once = without_key(s, k).push((k, v));
    lemma_without_key(s, k);
    lemma_without_absent(without_key(s, k), k);
    assert(once.drop_last() =~= without_key(s, k));
}

/// The value of a list of pairs of a name and a type.
pub open spec fn pairs_view(v: Seq<(String, Type)>) -> Seq<(Seq<char>, Type)> {
    v.map_values(|e: (String, Type)| (e.0@, e.1))
}

/// `LinkedHashMap::new`: a map without entries.
#[verifier::external_body]
pub(crate) fn map_new() -> (m: LinkedHashMap<String, Type>)
    ensures
        map_entries(m) == Seq::<(Seq<char>, Type)>::empty(),
{
    LinkedHashMap::new()
}

/// `LinkedHashMap::insert`: afterwards the key is bound to the value in
/// the last entry, whether it had an entry or not, and the other entries
/// stand as they stood; the result is the value that the key was bound to
/// before, if it was bound.
#[verifier::external_body]
pub(crate) fn map_insert(m: &mut LinkedHashMap<String, Type>, k: String, v: Type) -> (r: Option<
    Type,
>)
    ensures
        map_entries(*final(m)) == without_key(map_entries(*old(m)), k@).push((k@, v)),
        r.is_some() == has_key(map_entries(*old(m)), k@),
        r.is_some() ==> map_entries(*old(m)).contains((k@, r.unwrap())),
{
    m.insert(k, v)
}

/// `LinkedHashMap::iter`: the entries in their order, each copied.
#[verifier::external_body]
pub(crate) fn map_pairs(m: &LinkedHashMap<String, Type>) -> (r: Vec<(String, Type)>)
    ensures
        pairs_view(r@) == map_entries(*m),
{
    m.iter().map(|(k, v)| (k.clone(), v.clone())).collect()
}

} // verus!
