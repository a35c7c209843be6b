//! Keyed stores. Each chain keeps its records (balances, stakes, pending
//! withdrawals, tips, registrations) in a vector with pairwise-distinct
//! keys; contracts speak of the store through a map view from key to the
//! data the protocol reads, built here, and these lemmas carry push,
//! update and remove on the vector over to insert and remove on the map.

use vstd::prelude::*;

verus! {

/// The map view of a keyed record sequence: each record's data under its
/// key, later records overriding earlier ones (with distinct keys nothing
/// is overridden).
pub open spec fn map_of<T, K, V>(s: Seq<T>, key: spec_fn(T) -> K, val: spec_fn(T) -> V) -> Map<
    K,
    V,
>
    decreases s.len(),
{
    if s.len() == 0 {
        Map::empty()
    } else {
        map_of(s.drop_last(), key, val).insert(key(s.last()), val(s.last()))
    }
}

/// Whether the records' keys are pairwise distinct.
pub open spec fn unique_keys<T, K>(s: Seq<T>, key: spec_fn(T) -> K) -> bool {
    forall|i: int, j: int| 0 <= i < j < s.len() ==> key(s[i]) != key(s[j])
}

/// The map view has a key exactly when some record carries it.
pub proof fn lemma_map_of_contains<T, K, V>(s: Seq<T>, key: spec_fn(T) -> K, val: spec_fn(T) -> V, k: K)
    ensures
        map_of(s, key, val).contains_key(k) <==> exists|i: int| 0 <= i < s.len() && key(s[i]) == k,
    decreases s.len(),
{
    if s.len() > 0 {
        lemma_map_of_contains(s.drop_last(), key, val, k);
        if map_of(s, key, val).contains_key(k) {
            if key(s.last()) != k {
                let i = choose|i: int| 0 <= i < s.drop_last().len() && key(s.drop_last()[i]) == k;
                assert(key(s[i]) == k);
            }
        }
        if exists|i: int| 0 <= i < s.len() && key(s[i]) == k {
            let i = choose|i: int| 0 <= i < s.len() && key(s[i]) == k;
            if i < s.len() - 1 {
                assert(key(s.drop_last()[i]) == k);
            }
        }
    }
}

/// With distinct keys, the record at index `i` supplies the map's entry
/// under its key.
pub proof fn lemma_map_of_index<T, K, V>(s: Seq<T>, key: spec_fn(T) -> K, val: spec_fn(T) -> V, i: int)
    requires
        unique_keys(s, key),
        0 <= i < s.len(),
    ensures
        map_of(s, key, val).contains_key(key(s[i])),
        map_of(s, key, val)[key(s[i])] == val(s[i]),
    decreases s.len(),
{
    lemma_map_of_contains(s, key, val, key(s[i]));
    if i < s.len() - 1 {
        assert(unique_keys(s.drop_last(), key));
        assert(s.drop_last()[i] == s[i]);
        lemma_map_of_index(s.drop_last(), key, val, i);
        assert(key(s.last()) != key(s[i]));
    }
}

/// Appending a record inserts its data into the map view.
pub proof fn lemma_map_of_push<T, K, V>(s: Seq<T>, key: spec_fn(T) -> K, val: spec_fn(T) -> V, t: T)
    ensures
        map_of(s.push(t), key, val) == map_of(s, key, val).insert(key(t), val(t)),
{
    assert(s.push(t).drop_last() =~= s);
    assert(s.push(t).last() == t);
}

/// With distinct keys, overwriting the record at index `i` by one carrying
/// the same key re-inserts that key in the map view.
pub proof fn lemma_map_of_update<T, K, V>(s: Seq<T>, key: spec_fn(T) -> K, val: spec_fn(T) -> V, i: int, t: T)
    requires
        unique_keys(s, key),
        0 <= i < s.len(),
        key(t) == key(s[i]),
    ensures
        map_of(s.update(i, t), key, val) == map_of(s, key, val).insert(key(t), val(t)),
    decreases s.len(),
{
    if i == s.len() - 1 {
        assert(s.update(i, t).drop_last() =~= s.drop_last());
        assert(s.update(i, t).last() == t);
        assert(map_of(s.update(i, t), key, val) =~= map_of(s, key, val).insert(key(t), val(t)));
    } else {
        assert(unique_keys(s.drop_last(), key));
        assert(s.drop_last()[i] == s[i]);
        lemma_map_of_update(s.drop_last(), key, val, i, t);
        assert(s.update(i, t).drop_last() =~= s.drop_last().update(i, t));
        assert(s.update(i, t).last() == s.last());
        assert(key(s.last()) != key(t));
        assert(map_of(s.update(i, t), key, val) =~= map_of(s, key, val).insert(key(t), val(t)));
    }
}

/// With distinct keys, removing the record at index `i` removes its key
/// from the map view.
pub proof fn lemma_map_of_remove<T, K, V>(s: Seq<T>, key: spec_fn(T) -> K, val: spec_fn(T) -> V, i: int)
    requires
        unique_keys(s, key),
        0 <= i < s.len(),
    ensures
        map_of(s.remove(i), key, val) == map_of(s, key, val).remove(key(s[i])),
    decreases s.len(),
{
    if i == s.len() - 1 {
        assert(s.remove(i) =~= s.drop_last());
        lemma_map_of_contains(s.drop_last(), key, val, key(s[i]));
        assert(map_of(s.remove(i), key, val) =~= map_of(s, key, val).remove(key(s[i])));
    } else {
        assert(unique_keys(s.drop_last(), key));
        assert(s.drop_last()[i] == s[i]);
        lemma_map_of_remove(s.drop_last(), key, val, i);
        assert(s.remove(i).drop_last() =~= s.drop_last().remove(i));
        assert(s.remove(i).last() == s.last());
        assert(key(s.last()) != key(s[i]));
        assert(map_of(s.remove(i), key, val) =~= map_of(s, key, val).remove(key(s[i])));
    }
}

/// Appending a record whose key is fresh keeps the keys distinct.
pub proof fn lemma_unique_push<T, K>(s: Seq<T>, key: spec_fn(T) -> K, t: T)
    requires
        unique_keys(s, key),
        forall|i: int| 0 <= i < s.len() ==> key(s[i]) != key(t),
    ensures
        unique_keys(s.push(t), key),
{
}

/// Overwriting a record by one carrying the same key keeps the keys
/// distinct.
pub proof fn lemma_unique_update<T, K>(s: Seq<T>, key: spec_fn(T) -> K, i: int, t: T)
    requires
        unique_keys(s, key),
        0 <= i < s.len(),
        key(t) == key(s[i]),
    ensures
        unique_keys(s.update(i, t), key),
{
}

/// Removing a record keeps the keys distinct.
pub proof fn lemma_unique_remove<T, K>(s: Seq<T>, key: spec_fn(T) -> K, i: int)
    requires
        unique_keys(s, key),
        0 <= i < s.len(),
    ensures
        unique_keys(s.remove(i), key),
{
    assert forall|a: int, b: int| 0 <= a < b < s.remove(i).len() implies key(s.remove(i)[a])
        != key(s.remove(i)[b]) by {
        let a0 = if a < i { a } else { a + 1 };
        let b0 = if b < i { b } else { b + 1 };
        assert(s.remove(i)[a] == s[a0]);
        assert(s.remove(i)[b] == s[b0]);
    }
}

/// Whether `post` is `pre` with exactly `n` entries appended: the frame
/// condition of an append-only log.
pub open spec fn appended<T>(pre: Seq<T>, post: Seq<T>, n: int) -> bool {
    &&& post.len() == pre.len() + n
    &&& post.subrange(0, pre.len() as int) == pre
}

/// Pushing appends one entry.
pub proof fn lemma_appended_push<T>(pre: Seq<T>, e: T)
    ensures
        appended(pre, pre.push(e), 1),
{
    assert(pre.push(e).subrange(0, pre.len() as int) =~= pre);
}

/// Pushing twice appends two entries.
pub proof fn lemma_appended_push2<T>(pre: Seq<T>, e1: T, e2: T)
    ensures
        appended(pre, pre.push(e1).push(e2), 2),
{
    assert(pre.push(e1).push(e2).subrange(0, pre.len() as int) =~= pre);
}

} // verus!
