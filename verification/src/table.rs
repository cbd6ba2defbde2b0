//! Association lists with pairwise-distinct keys, read in
//! specifications as finite maps. The passes keep their transient
//! tables as vectors of entries; these definitions and lemmas connect
//! a linear scan of such a vector to lookup in the map it denotes.

use vstd::prelude::*;

verus! {

/// The map an entry sequence denotes; a later entry overrides an
/// earlier one with the same key.
pub open spec fn assoc_map<K, V>(entries: Seq<(K, V)>) -> Map<K, V>
    decreases entries.len(),
{
    if entries.len() == 0 {
        Map::empty()
    } else {
        assoc_map(entries.drop_last()).insert(entries.last().0, entries.last().1)
    }
}

/// No two entries share a key.
pub open spec fn unique_keys<K, V>(entries: Seq<(K, V)>) -> bool {
    forall|a: int, b: int|
        0 <= a < b < entries.len() ==> (#[trigger] entries[a]).0 != (#[trigger] entries[b]).0
}

/// A key is in the denoted map exactly when some entry carries it.
pub proof fn lemma_assoc_map_dom<K, V>(entries: Seq<(K, V)>, k: K)
    ensures
        assoc_map(entries).contains_key(k) <==> exists|i: int|
            0 <= i < entries.len() && (#[trigger] entries[i]).0 == k,
    decreases entries.len(),
{
    if entries.len() > 0 {
        lemma_assoc_map_dom(entries.drop_last(), k);
        if entries.last().0 == k {
            assert(entries[entries.len() - 1].0 == k);
        } else {
            if exists|i: int| 0 <= i < entries.len() && (#[trigger] entries[i]).0 == k {
                let i = choose|i: int| 0 <= i < entries.len() && (#[trigger] entries[i]).0 == k;
                assert(i < entries.len() - 1);
                assert(entries.drop_last()[i].0 == k);
            }
            if exists|i: int|
                0 <= i < entries.drop_last().len() && (#[trigger] entries.drop_last()[i]).0
                    == k {
                let i = choose|i: int|
                    0 <= i < entries.drop_last().len() && (#[trigger] entries.drop_last()[i]).0
                        == k;
                assert(entries[i].0 == k);
            }
        }
    }
}

/// Under distinct keys, the entry at `i` gives exactly the map's value
/// for its key.
pub proof fn lemma_assoc_map_index<K, V>(entries: Seq<(K, V)>, i: int)
    requires
        unique_keys(entries),
        0 <= i < entries.len(),
    ensures
        assoc_map(entries).contains_key(entries[i].0),
        assoc_map(entries)[entries[i].0] == entries[i].1,
    decreases entries.len(),
{
    if i == entries.len() - 1 {
    } else {
        assert(unique_keys(entries.drop_last())) by {
            assert(forall|m: int|
                0 <= m < entries.drop_last().len() ==> #[trigger] entries.drop_last()[m]
                    == entries[m]);
        }
        lemma_assoc_map_index(entries.drop_last(), i);
        assert(entries.drop_last()[i] == entries[i]);
        assert(entries[i].0 != entries.last().0) by {
            assert(entries.last() == entries[entries.len() - 1]);
        }
    }
}

/// Appending one entry inserts its binding.
pub proof fn lemma_assoc_map_push<K, V>(entries: Seq<(K, V)>, k: K, v: V)
    ensures
        assoc_map(entries.push((k, v))) == assoc_map(entries).insert(k, v),
{
    assert(entries.push((k, v)).drop_last() =~= entries);
    assert(entries.push((k, v)).last() == (k, v));
}

/// Under distinct keys, deleting the entry at `i` removes exactly its
/// binding.
pub proof fn lemma_assoc_map_remove<K, V>(entries: Seq<(K, V)>, i: int)
    requires
        unique_keys(entries),
        0 <= i < entries.len(),
    ensures
        assoc_map(entries.remove(i)) == assoc_map(entries).remove(entries[i].0),
    decreases entries.len(),
{
    if i == entries.len() - 1 {
        assert(entries.remove(i) =~= entries.drop_last());
        assert(assoc_map(entries) == assoc_map(entries.drop_last()).insert(
            entries.last().0,
            entries.last().1,
        ));
        lemma_assoc_map_dom(entries.drop_last(), entries[i].0);
        assert(!assoc_map(entries.drop_last()).contains_key(entries[i].0)) by {
            if exists|m: int|
                0 <= m < entries.drop_last().len() && (#[trigger] entries.drop_last()[m]).0
                    == entries[i].0 {
                let m = choose|m: int|
                    0 <= m < entries.drop_last().len() && (#[trigger] entries.drop_last()[m]).0
                        == entries[i].0;
                assert(entries[m].0 == entries[i].0);
            }
        }
        assert(assoc_map(entries.remove(i)) =~= assoc_map(entries).remove(entries[i].0));
    } else {
        assert(unique_keys(entries.drop_last())) by {
            assert(forall|m: int|
                0 <= m < entries.drop_last().len() ==> #[trigger] entries.drop_last()[m]
                    == entries[m]);
        }
        lemma_assoc_map_remove(entries.drop_last(), i);
        assert(entries.remove(i).drop_last() =~= entries.drop_last().remove(i));
        assert(entries.remove(i).last() == entries.last()) by {
            assert(entries.remove(i)[entries.len() - 2] == entries[entries.len() - 1]);
        }
        assert(assoc_map(entries.remove(i)) == assoc_map(
            entries.drop_last().remove(i),
        ).insert(entries.last().0, entries.last().1));
        assert(entries[i].0 != entries.last().0) by {
            assert(entries.last() == entries[entries.len() - 1]);
        }
        assert(assoc_map(entries.drop_last()).remove(entries[i].0).insert(
            entries.last().0,
            entries.last().1,
        ) =~= assoc_map(entries.drop_last()).insert(entries.last().0, entries.last().1).remove(
            entries[i].0,
        ));
        assert(assoc_map(entries.remove(i)) =~= assoc_map(entries).remove(entries[i].0));
    }
}

/// Removing an entry keeps the keys pairwise distinct.
pub proof fn lemma_unique_keys_remove<K, V>(entries: Seq<(K, V)>, i: int)
    requires
        unique_keys(entries),
        0 <= i < entries.len(),
    ensures
        unique_keys(entries.remove(i)),
{
    assert forall|a: int, b: int| 0 <= a < b < entries.remove(i).len() implies (
    #[trigger] entries.remove(i)[a]).0 != (#[trigger] entries.remove(i)[b]).0 by {
        let a0 = if a < i { a } else { a + 1 };
        let b0 = if b < i { b } else { b + 1 };
        assert(entries.remove(i)[a] == entries[a0]);
        assert(entries.remove(i)[b] == entries[b0]);
    }
}

/// Appending an entry with a fresh key keeps the keys pairwise
/// distinct.
pub proof fn lemma_unique_keys_push<K, V>(entries: Seq<(K, V)>, k: K, v: V)
    requires
        unique_keys(entries),
        forall|i: int| 0 <= i < entries.len() ==> (#[trigger] entries[i]).0 != k,
    ensures
        unique_keys(entries.push((k, v))),
{
    assert forall|a: int, b: int| 0 <= a < b < entries.push((k, v)).len() implies (
    #[trigger] entries.push((k, v))[a]).0 != (#[trigger] entries.push((k, v))[b]).0 by {
        if b < entries.len() {
            assert(entries.push((k, v))[a] == entries[a]);
            assert(entries.push((k, v))[b] == entries[b]);
        } else {
            assert(entries.push((k, v))[a] == entries[a]);
            assert(entries.push((k, v))[b] == (k, v));
        }
    }
}

} // verus!
