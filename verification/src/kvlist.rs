//! The mapping denoted by an association sequence, shared by the stores.

use vstd::prelude::*;

verus! {

/// The map an association sequence denotes, later entries winning.
pub open spec fn kv_map<K, V>(s: Seq<(K, V)>) -> Map<K, V>
    decreases s.len(),
{
    if s.len() == 0 {
        Map::empty()
    } else {
        kv_map(s.drop_last()).insert(s.last().0, s.last().1)
    }
}

/// Extending the first `i` entries by one more inserts that pair.
pub proof fn lemma_kv_map_take_unfold<K, V>(s: Seq<(K, V)>, i: int)
    requires
        0 <= i < s.len(),
    ensures
        kv_map(s.take(i + 1)) == kv_map(s.take(i)).insert(s[i].0, s[i].1),
{
    assert(s.take(i + 1).drop_last() =~= s.take(i));
    assert(s.take(i + 1).last() == s[i]);
}

/// Every key of the map stands in the sequence.
pub proof fn lemma_kv_map_dom<K, V>(s: Seq<(K, V)>, k: K)
    requires
        kv_map(s).contains_key(k),
    ensures
        exists|i: int| 0 <= i < s.len() && s[i].0 == k,
    decreases s.len(),
{
    if s.len() > 0 {
        if s.last().0 == k {
            assert(s[s.len() - 1].0 == k);
        } else {
            lemma_kv_map_dom(s.drop_last(), k);
            let i = choose|i: int| 0 <= i < s.drop_last().len() && s.drop_last()[i].0 == k;
            assert(s[i].0 == k);
        }
    }
}

/// The map holds, for a key, the value of the key's last occurrence.
pub proof fn lemma_kv_map_last_occurrence<K, V>(s: Seq<(K, V)>, i: int)
    requires
        0 <= i < s.len(),
        forall|j: int| i < j < s.len() ==> (#[trigger] s[j]).0 != s[i].0,
    ensures
        kv_map(s).contains_key(s[i].0),
        kv_map(s)[s[i].0] == s[i].1,
    decreases s.len(),
{
    if i == s.len() - 1 {
    } else {
        assert(s.last().0 != s[i].0);
        lemma_kv_map_last_occurrence(s.drop_last(), i);
        assert(s.drop_last()[i] == s[i]);
    }
}

/// Every key in the map has a last occurrence in the sequence.
pub proof fn lemma_kv_map_has_last_occurrence<K, V>(s: Seq<(K, V)>, k: K)
    requires
        kv_map(s).contains_key(k),
    ensures
        exists|i: int|
            0 <= i < s.len() && (#[trigger] s[i]).0 == k && (forall|j: int|
                i < j < s.len() ==> (#[trigger] s[j]).0 != k),
    decreases s.len(),
{
    if s.len() > 0 {
        if s.last().0 == k {
            let i = s.len() - 1;
            assert(s[i].0 == k && (forall|j: int| i < j < s.len() ==> (#[trigger] s[j]).0 != k));
        } else {
            lemma_kv_map_has_last_occurrence(s.drop_last(), k);
            let i = choose|i: int|
                0 <= i < s.drop_last().len() && (#[trigger] s.drop_last()[i]).0 == k && (
                forall|j: int|
                    i < j < s.drop_last().len() ==> (#[trigger] s.drop_last()[j]).0 != k);
            assert(s[i].0 == k);
            assert forall|j: int| i < j < s.len() implies (#[trigger] s[j]).0 != k by {
                if j < s.len() - 1 {
                    assert(s.drop_last()[j] == s[j]);
                }
            }
        }
    }
}

/// A pair in the sequence puts its key in the map.
pub proof fn lemma_kv_map_contains<K, V>(s: Seq<(K, V)>, i: int)
    requires
        0 <= i < s.len(),
    ensures
        kv_map(s).contains_key(s[i].0),
    decreases s.len(),
{
    if i < s.len() - 1 {
        lemma_kv_map_contains(s.drop_last(), i);
        assert(s.drop_last()[i] == s[i]);
    }
}

} // verus!
