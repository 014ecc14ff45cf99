//! A sequence of keyed records, read as a mapping from key to record.
//!
//! The store keeps each collection as a flat sequence of records; this module
//! says which mapping such a sequence denotes and proves the facts the store's
//! operations need: membership, lookup, size, and how the mapping changes when
//! a record is appended or replaced in place.

use vstd::prelude::*;

verus! {

/// The mapping that a sequence of keyed records denotes: a later record
/// overwrites an earlier one with the same key (last writer wins).
pub open spec fn keyed_map<T>(s: Seq<T>, key: spec_fn(T) -> u8) -> Map<u8, T>
    decreases s.len(),
{
    if s.len() == 0 {
        Map::empty()
    } else {
        keyed_map(s.drop_last(), key).insert(key(s.last()), s.last())
    }
}

/// No two records of the sequence share a key.
pub open spec fn keys_distinct<T>(s: Seq<T>, key: spec_fn(T) -> u8) -> bool {
    forall|i: int, j: int| 0 <= i < j < s.len() ==> key(s[i]) != key(s[j])
}

/// A key is in the denoted mapping exactly when some record of the sequence
/// carries it.
pub proof fn lemma_keyed_map_dom<T>(s: Seq<T>, key: spec_fn(T) -> u8)
    ensures
        forall|k: u8|
            keyed_map(s, key).contains_key(k) <==> exists|i: int|
                0 <= i < s.len() && key(#[trigger] s[i]) == k,
    decreases s.len(),
{
    if s.len() > 0 {
        lemma_keyed_map_dom(s.drop_last(), key);
        assert forall|k: u8| keyed_map(s, key).contains_key(k) implies exists|i: int|
            0 <= i < s.len() && key(#[trigger] s[i]) == k by {
            if k == key(s.last()) {
                assert(key(s[s.len() - 1]) == k);
            } else {
                assert(keyed_map(s.drop_last(), key).contains_key(k));
                let i = choose|i: int| 0 <= i < s.drop_last().len() && key(
                    #[trigger] s.drop_last()[i],
                ) == k;
                assert(s.drop_last()[i] == s[i]);
                assert(key(s[i]) == k);
            }
        }
        assert forall|k: u8|
            exists|i: int| 0 <= i < s.len() && key(#[trigger] s[i]) == k implies keyed_map(
            s,
            key,
        ).contains_key(k) by {
            let i = choose|i: int| 0 <= i < s.len() && key(#[trigger] s[i]) == k;
            if i < s.len() - 1 {
                assert(s.drop_last()[i] == s[i]);
                assert(0 <= i < s.drop_last().len() && key(s.drop_last()[i]) == k);
                assert(keyed_map(s.drop_last(), key).contains_key(k));
            } else {
                assert(k == key(s.last()));
            }
        }
    }
}

/// The mapping is always finite: a sequence holds finitely many records.
pub proof fn lemma_keyed_map_finite<T>(s: Seq<T>, key: spec_fn(T) -> u8)
    ensures
        keyed_map(s, key).dom().finite(),
    decreases s.len(),
{
    if s.len() > 0 {
        lemma_keyed_map_finite(s.drop_last(), key);
    }
}

/// When keys are distinct, the mapping sends each record's key to that record.
pub proof fn lemma_keyed_map_index<T>(s: Seq<T>, key: spec_fn(T) -> u8, i: int)
    requires
        keys_distinct(s, key),
        0 <= i < s.len(),
    ensures
        keyed_map(s, key).contains_key(key(s[i])),
        keyed_map(s, key)[key(s[i])] == s[i],
    decreases s.len(),
{
    if i < s.len() - 1 {
        assert forall|m: int, n: int|
            0 <= m < n < s.drop_last().len() implies key(s.drop_last()[m]) != key(
            s.drop_last()[n],
        ) by {
            assert(s.drop_last()[m] == s[m] && s.drop_last()[n] == s[n]);
        }
        lemma_keyed_map_index(s.drop_last(), key, i);
        assert(s.drop_last()[i] == s[i]);
        assert(key(s[i]) != key(s.last()));
    }
}

/// When keys are distinct, the mapping has exactly one entry per record.
pub proof fn lemma_keyed_map_len<T>(s: Seq<T>, key: spec_fn(T) -> u8)
    requires
        keys_distinct(s, key),
    ensures
        keyed_map(s, key).dom().len() == s.len(),
    decreases s.len(),
{
    if s.len() > 0 {
        assert forall|m: int, n: int|
            0 <= m < n < s.drop_last().len() implies key(s.drop_last()[m]) != key(
            s.drop_last()[n],
        ) by {
            assert(s.drop_last()[m] == s[m] && s.drop_last()[n] == s[n]);
        }
        lemma_keyed_map_len(s.drop_last(), key);
        lemma_keyed_map_finite(s.drop_last(), key);
        lemma_keyed_map_dom(s.drop_last(), key);
        assert(!keyed_map(s.drop_last(), key).contains_key(key(s.last()))) by {
            if exists|i: int| 0 <= i < s.drop_last().len() && key(#[trigger] s.drop_last()[i])
                == key(s.last()) {
                let i = choose|i: int| 0 <= i < s.drop_last().len() && key(
                    #[trigger] s.drop_last()[i],
                ) == key(s.last());
                assert(key(s[i]) == key(s[s.len() - 1]));
            }
        }
    }
}

/// Appending a record with a fresh key extends the mapping by one entry and
/// keeps the keys distinct.
pub proof fn lemma_keyed_map_push<T>(s: Seq<T>, key: spec_fn(T) -> u8, v: T)
    ensures
        keyed_map(s.push(v), key) == keyed_map(s, key).insert(key(v), v),
        keys_distinct(s, key) && (forall|i: int| 0 <= i < s.len() ==> key(#[trigger] s[i]) != key(
            v,
        )) ==> keys_distinct(s.push(v), key),
{
    assert(s.push(v).drop_last() =~= s);
    assert(s.push(v).last() == v);
    if keys_distinct(s, key) && (forall|i: int|
        0 <= i < s.len() ==> key(#[trigger] s[i]) != key(v)) {
        assert forall|i: int, j: int|
            0 <= i < j < s.push(v).len() implies key(s.push(v)[i]) != key(s.push(v)[j]) by {
            if j < s.len() {
                assert(s.push(v)[i] == s[i] && s.push(v)[j] == s[j]);
            } else {
                assert(s.push(v)[i] == s[i] && s.push(v)[j] == v);
            }
        }
    }
}

/// Replacing in place the record that carries a key rewrites that key's entry
/// and nothing else, and keeps the keys distinct.
pub proof fn lemma_keyed_map_update<T>(s: Seq<T>, key: spec_fn(T) -> u8, i: int, v: T)
    requires
        keys_distinct(s, key),
        0 <= i < s.len(),
        key(v) == key(s[i]),
    ensures
        keyed_map(s.update(i, v), key) == keyed_map(s, key).insert(key(v), v),
        keys_distinct(s.update(i, v), key),
    decreases s.len(),
{
    assert forall|m: int, n: int|
        0 <= m < n < s.update(i, v).len() implies key(s.update(i, v)[m]) != key(
        s.update(i, v)[n],
    ) by {
        if m != i && n != i {
            assert(s.update(i, v)[m] == s[m] && s.update(i, v)[n] == s[n]);
        } else if m == i {
            assert(s.update(i, v)[m] == v && s.update(i, v)[n] == s[n]);
        } else {
            assert(s.update(i, v)[m] == s[m] && s.update(i, v)[n] == v);
        }
    }
    if i == s.len() - 1 {
        assert(s.update(i, v).drop_last() =~= s.drop_last());
        assert(s.update(i, v).last() == v);
        assert(keyed_map(s.update(i, v), key) =~= keyed_map(s, key).insert(key(v), v));
    } else {
        assert forall|m: int, n: int|
            0 <= m < n < s.drop_last().len() implies key(s.drop_last()[m]) != key(
            s.drop_last()[n],
        ) by {
            assert(s.drop_last()[m] == s[m] && s.drop_last()[n] == s[n]);
        }
        lemma_keyed_map_update(s.drop_last(), key, i, v);
        assert(s.update(i, v).drop_last() =~= s.drop_last().update(i, v));
        assert(s.update(i, v).last() == s.last());
        assert(key(v) != key(s.last()));
        assert(keyed_map(s.update(i, v), key) =~= keyed_map(s, key).insert(key(v), v));
    }
}

} // verus!
