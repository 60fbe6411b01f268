//! Association sequences: the shared spec vocabulary for key-ordered
//! `(key, value)` lists, used by both storage engines.

use vstd::prelude::*;

verus! {

/// First-match lookup in a sequence of key-value pairs.
pub open spec fn assoc_get<V>(s: Seq<(u64, V)>, key: u64) -> Option<V>
    decreases s.len(),
{
    if s.len() == 0 {
        None
    } else if s[0].0 == key {
        Some(s[0].1)
    } else {
        assoc_get(s.drop_first(), key)
    }
}

pub open spec fn has_key<V>(s: Seq<(u64, V)>, key: u64) -> bool {
    assoc_get(s, key) is Some
}

/// The keys of the pairs are strictly ascending, so each key occurs once.
pub open spec fn sorted_by_key<V>(s: Seq<(u64, V)>) -> bool {
    forall|i: int, j: int| 0 <= i < j < s.len() ==> s[i].0 < s[j].0
}

/// Strictly ascending sequence of keys alone.
pub open spec fn strictly_sorted(s: Seq<u64>) -> bool {
    forall|i: int, j: int| 0 <= i < j < s.len() ==> s[i] < s[j]
}

/// A pair at an index whose key has no earlier occurrence is what lookup finds.
pub proof fn lemma_assoc_get_at<V>(s: Seq<(u64, V)>, i: int)
    requires
        0 <= i < s.len(),
        forall|j: int| 0 <= j < i ==> s[j].0 != s[i].0,
    ensures
        assoc_get(s, s[i].0) == Some(s[i].1),
    decreases i,
{
    if i > 0 {
        lemma_assoc_get_at(s.drop_first(), i - 1);
    }
}

/// Inserting a fresh key at any position updates lookup exactly at that key.
pub proof fn lemma_assoc_get_insert<V>(s: Seq<(u64, V)>, i: int, key: u64, value: V, probe: u64)
    requires
        0 <= i <= s.len(),
        forall|j: int| 0 <= j < s.len() ==> (#[trigger] s[j]).0 != key,
    ensures
        assoc_get(s.insert(i, (key, value)), probe) == if probe == key {
            Some(value)
        } else {
            assoc_get(s, probe)
        },
    decreases i,
{
    let r = s.insert(i, (key, value));
    if i == 0 {
        assert(r.drop_first() =~= s);
    } else {
        assert(r[0] == s[0]);
        if s[0].0 != probe {
            assert(r.drop_first() =~= s.drop_first().insert(i - 1, (key, value)));
            lemma_assoc_get_insert(s.drop_first(), i - 1, key, value, probe);
        }
    }
}

/// Overwriting the value at the first occurrence of a key updates lookup there alone.
pub proof fn lemma_assoc_get_update<V>(s: Seq<(u64, V)>, i: int, value: V, probe: u64)
    requires
        0 <= i < s.len(),
        forall|j: int| 0 <= j < i ==> (#[trigger] s[j]).0 != s[i].0,
    ensures
        assoc_get(s.update(i, (s[i].0, value)), probe) == if probe == s[i].0 {
            Some(value)
        } else {
            assoc_get(s, probe)
        },
    decreases i,
{
    let r = s.update(i, (s[i].0, value));
    if i == 0 {
        if s[0].0 != probe {
            assert(r.drop_first() =~= s.drop_first());
        }
    } else {
        assert(r[0] == s[0]);
        if s[0].0 == probe {
        } else {
            assert(r.drop_first() =~= s.drop_first().update(i - 1, (s[i].0, value)));
            lemma_assoc_get_update(s.drop_first(), i - 1, value, probe);
        }
    }
}

/// Appending a pair with a fresh key extends lookup at that key alone.
pub proof fn lemma_assoc_get_push<V>(s: Seq<(u64, V)>, key: u64, value: V, probe: u64)
    requires
        forall|j: int| 0 <= j < s.len() ==> (#[trigger] s[j]).0 != key,
    ensures
        assoc_get(s.push((key, value)), probe) == if probe == key {
            Some(value)
        } else {
            assoc_get(s, probe)
        },
{
    assert(s.push((key, value)) =~= s.insert(s.len() as int, (key, value)));
    lemma_assoc_get_insert(s, s.len() as int, key, value, probe);
}

/// In a key-sorted sequence a found key really occurs, within the key bounds.
pub proof fn lemma_assoc_get_some_position<V>(s: Seq<(u64, V)>, key: u64)
    requires
        assoc_get(s, key) is Some,
    ensures
        exists|i: int|
            0 <= i < s.len() && s[i].0 == key && s[i].1 == assoc_get(s, key)->Some_0,
    decreases s.len(),
{
    if s.len() > 0 && s[0].0 != key {
        lemma_assoc_get_some_position(s.drop_first(), key);
        let i = choose|i: int|
            0 <= i < s.drop_first().len() && s.drop_first()[i].0 == key && s.drop_first()[i].1
                == assoc_get(s.drop_first(), key)->Some_0;
        assert(s[i + 1].0 == key && s[i + 1].1 == assoc_get(s, key)->Some_0);
    }
}

/// Pairwise ascending adjacent keys make the whole sequence key-sorted.
pub proof fn lemma_adjacent_sorted<V>(s: Seq<(u64, V)>)
    requires
        forall|p: int| 0 <= p < s.len() - 1 ==> (#[trigger] s[p]).0 < s[p + 1].0,
    ensures
        sorted_by_key(s),
{
    assert forall|a: int, b: int| 0 <= a < b < s.len() implies s[a].0 < s[b].0 by {
        lemma_key_chain(s, a, b);
    }
}

proof fn lemma_key_chain<V>(s: Seq<(u64, V)>, a: int, b: int)
    requires
        forall|p: int| 0 <= p < s.len() - 1 ==> (#[trigger] s[p]).0 < s[p + 1].0,
        0 <= a < b < s.len(),
    ensures
        s[a].0 < s[b].0,
    decreases b - a,
{
    if b > a + 1 {
        lemma_key_chain(s, a, b - 1);
        assert(s[b - 1].0 < s[b].0);
    }
}

} // verus!
