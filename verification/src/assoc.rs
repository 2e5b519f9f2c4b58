//! Keyed stores.  Each store is kept as a vector of key-value pairs and is
//! read in contracts as a finite map; the lemmas here relate the vector
//! operations to the map operations.

use vstd::prelude::*;

verus! {

/// Interprets a sequence of key-value pairs as a finite map.  A later pair
/// shadows an earlier one with the same key; the stores in this crate keep
/// their keys distinct, so nothing is ever shadowed.
pub open spec fn entries_as_map<M>(s: Seq<(u64, M)>) -> Map<u64, M>
    decreases s.len(),
{
    if s.len() == 0 {
        Map::empty()
    } else {
        entries_as_map(s.drop_last()).insert(s.last().0, s.last().1)
    }
}

/// No two pairs share a key.
pub open spec fn distinct_keys<M>(s: Seq<(u64, M)>) -> bool {
    forall|i: int, j: int| 0 <= i < j < s.len() ==> s[i].0 != s[j].0
}

/// A key is in the map iff some pair holds it.
pub proof fn lemma_entries_contains<M>(s: Seq<(u64, M)>, k: u64)
    ensures
        entries_as_map(s).contains_key(k) <==> exists|i: int| 0 <= i < s.len() && s[i].0 == k,
    decreases s.len(),
{
    if s.len() > 0 {
        lemma_entries_contains(s.drop_last(), k);
        if entries_as_map(s).contains_key(k) {
            if s.last().0 == k {
                assert(s[s.len() - 1].0 == k);
            } else {
                let i = choose|i: int| 0 <= i < s.drop_last().len() && s.drop_last()[i].0 == k;
                assert(s[i].0 == k);
            }
        }
        if exists|i: int| 0 <= i < s.len() && s[i].0 == k {
            let i = choose|i: int| 0 <= i < s.len() && s[i].0 == k;
            if i < s.len() - 1 {
                assert(s.drop_last()[i].0 == k);
            }
        }
    }
}

/// With distinct keys, the map sends each stored key to its stored value.
pub proof fn lemma_entries_index<M>(s: Seq<(u64, M)>, i: int)
    requires
        distinct_keys(s),
        0 <= i < s.len(),
    ensures
        entries_as_map(s).contains_key(s[i].0),
        entries_as_map(s)[s[i].0] == s[i].1,
    decreases s.len(),
{
    if i < s.len() - 1 {
        assert(distinct_keys(s.drop_last())) by {
            assert(forall|a: int, b: int|
                0 <= a < b < s.drop_last().len() ==> s.drop_last()[a].0 != s.drop_last()[b].0);
        }
        lemma_entries_index(s.drop_last(), i);
        assert(s.drop_last()[i] == s[i]);
        assert(s[i].0 != s.last().0);
    }
}

/// Appending a pair inserts its key.
pub proof fn lemma_entries_push<M>(s: Seq<(u64, M)>, k: u64, v: M)
    ensures
        entries_as_map(s.push((k, v))) == entries_as_map(s).insert(k, v),
{
    assert(s.push((k, v)).drop_last() =~= s);
    assert(s.push((k, v)).last() == (k, v));
}

/// Overwriting the pair that holds a key updates that key in the map.
pub proof fn lemma_entries_update<M>(s: Seq<(u64, M)>, i: int, v: M)
    requires
        distinct_keys(s),
        0 <= i < s.len(),
    ensures
        entries_as_map(s.update(i, (s[i].0, v))) == entries_as_map(s).insert(s[i].0, v),
    decreases s.len(),
{
    let k = s[i].0;
    let t = s.update(i, (k, v));
    if i == s.len() - 1 {
        assert(t.drop_last() =~= s.drop_last());
        assert(entries_as_map(t) == entries_as_map(s.drop_last()).insert(k, v));
        assert(entries_as_map(s.drop_last()).insert(k, s.last().1).insert(k, v)
            =~= entries_as_map(s.drop_last()).insert(k, v));
    } else {
        assert(distinct_keys(s.drop_last())) by {
            assert(forall|a: int, b: int|
                0 <= a < b < s.drop_last().len() ==> s.drop_last()[a].0 != s.drop_last()[b].0);
        }
        assert(t.drop_last() =~= s.drop_last().update(i, (k, v)));
        lemma_entries_update(s.drop_last(), i, v);
        assert(t.last() == s.last());
        assert(k != s.last().0);
        assert(entries_as_map(s.drop_last()).insert(k, v).insert(s.last().0, s.last().1)
            =~= entries_as_map(s.drop_last()).insert(s.last().0, s.last().1).insert(k, v));
    }
}

/// Removing the pair that holds a key removes that key from the map.
pub proof fn lemma_entries_remove<M>(s: Seq<(u64, M)>, i: int)
    requires
        distinct_keys(s),
        0 <= i < s.len(),
    ensures
        entries_as_map(s.remove(i)) == entries_as_map(s).remove(s[i].0),
    decreases s.len(),
{
    let k = s[i].0;
    assert(distinct_keys(s.drop_last())) by {
        assert(forall|a: int, b: int|
            0 <= a < b < s.drop_last().len() ==> s.drop_last()[a].0 != s.drop_last()[b].0);
    }
    if i == s.len() - 1 {
        assert(s.remove(i) =~= s.drop_last());
        lemma_entries_contains(s.drop_last(), k);
        assert(forall|j: int| 0 <= j < s.drop_last().len() ==> s.drop_last()[j].0 != k);
        assert(!entries_as_map(s.drop_last()).contains_key(k));
        assert(entries_as_map(s.drop_last()).insert(k, s.last().1).remove(k)
            =~= entries_as_map(s.drop_last()));
    } else {
        assert(s.remove(i).drop_last() =~= s.drop_last().remove(i));
        assert(s.remove(i).last() == s.last());
        lemma_entries_remove(s.drop_last(), i);
        assert(k != s.last().0);
        assert(entries_as_map(s.drop_last()).remove(k).insert(s.last().0, s.last().1)
            =~= entries_as_map(s.drop_last()).insert(s.last().0, s.last().1).remove(k));
    }
}

/// Finds the position of a key in a store.
pub fn find_entry<M>(v: &Vec<(u64, M)>, key: u64) -> (r: Option<usize>)
    ensures
        match r {
            Some(i) => i < v@.len() && v@[i as int].0 == key,
            None => forall|j: int| 0 <= j < v@.len() ==> v@[j].0 != key,
        },
{
    let mut i: usize = 0;
    while i < v.len()
        invariant
            i <= v@.len(),
            forall|j: int| 0 <= j < i ==> v@[j].0 != key,
        decreases v@.len() - i,
    {
        if v[i].0 == key {
            return Some(i);
        }
        i = i + 1;
    }
    None
}

} // verus!
