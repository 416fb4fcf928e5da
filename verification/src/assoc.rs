//! Maps held as two sequences of equal length: keys, and the value of each.

use vstd::prelude::*;

verus! {

/// The map that gives each key the value at the key's place.
pub open spec fn pairing<K, V>(keys: Seq<K>, values: Seq<V>) -> Map<K, V> {
    Map::new(|k: K| keys.contains(k), |k: K| values[keys.index_of(k)])
}

/// With no key twice, a key is found at its own place.
pub proof fn lemma_index_of_unique<K>(keys: Seq<K>, i: int)
    requires
        keys.no_duplicates(),
        0 <= i < keys.len(),
    ensures
        keys.index_of(keys[i]) == i,
{
    let j = keys.index_of(keys[i]);
    assert(keys[j] == keys[i]);
}

/// The pairing gives the key at place `i` the value at place `i`.
pub proof fn lemma_pairing_at<K, V>(keys: Seq<K>, values: Seq<V>, i: int)
    requires
        keys.no_duplicates(),
        0 <= i < keys.len(),
    ensures
        pairing(keys, values).dom().contains(keys[i]),
        pairing(keys, values)[keys[i]] == values[i],
{
    lemma_index_of_unique(keys, i);
}

/// A new key with its value at the end is one more entry of the map.
pub proof fn lemma_pairing_push<K, V>(keys: Seq<K>, values: Seq<V>, k: K, v: V)
    requires
        keys.no_duplicates(),
        keys.len() == values.len(),
        !keys.contains(k),
    ensures
        keys.push(k).no_duplicates(),
        pairing(keys.push(k), values.push(v)) == pairing(keys, values).insert(k, v),
{
    let keys2 = keys.push(k);
    let values2 = values.push(v);
    assert forall|i: int, j: int| 0 <= i < keys2.len() && 0 <= j < keys2.len() && i != j implies keys2[i]
        != keys2[j] by {
        if i < keys.len() && j == keys.len() {
            assert(keys.contains(keys[i]));
        }
        if j < keys.len() && i == keys.len() {
            assert(keys.contains(keys[j]));
        }
    }
    let m2 = pairing(keys2, values2);
    let m = pairing(keys, values).insert(k, v);
    assert forall|x: K| m2.dom().contains(x) == m.dom().contains(x) by {
        if keys2.contains(x) && x != k {
            let i = choose|i: int| 0 <= i < keys2.len() && keys2[i] == x;
            assert(keys[i] == x);
        }
        if keys.contains(x) {
            let i = choose|i: int| 0 <= i < keys.len() && keys[i] == x;
            assert(keys2[i] == x);
        }
        if x == k {
            assert(keys2[keys.len() as int] == x);
        }
    }
    assert forall|x: K| m2.dom().contains(x) implies m2[x] == m[x] by {
        let i = choose|i: int| 0 <= i < keys2.len() && keys2[i] == x;
        lemma_index_of_unique(keys2, i);
        if i < keys.len() {
            lemma_index_of_unique(keys, i);
        }
    }
    assert(m2 =~= m);
}

/// A new value at the place of a key is a new value for that key.
pub proof fn lemma_pairing_update<K, V>(keys: Seq<K>, values: Seq<V>, i: int, v: V)
    requires
        keys.no_duplicates(),
        keys.len() == values.len(),
        0 <= i < keys.len(),
    ensures
        pairing(keys, values.update(i, v)) == pairing(keys, values).insert(keys[i], v),
{
    let m2 = pairing(keys, values.update(i, v));
    let m = pairing(keys, values).insert(keys[i], v);
    assert forall|x: K| m2.dom().contains(x) implies m2[x] == m[x] by {
        let j = choose|j: int| 0 <= j < keys.len() && keys[j] == x;
        lemma_index_of_unique(keys, j);
    }
    assert(m2 =~= m);
}

/// The keys of the pairing are as many as the places.
pub proof fn lemma_pairing_dom<K, V>(keys: Seq<K>, values: Seq<V>)
    requires
        keys.no_duplicates(),
    ensures
        pairing(keys, values).dom() == keys.to_set(),
        pairing(keys, values).dom().finite(),
        pairing(keys, values).dom().len() == keys.len(),
{
    keys.unique_seq_to_set();
    vstd::seq_lib::seq_to_set_is_finite(keys);
}

/// The map that holds `entries`, a later entry in place of an earlier one
/// with the same key.
pub open spec fn entry_map<K, V>(entries: Seq<(K, V)>) -> Map<K, V>
    decreases entries.len(),
{
    if entries.len() == 0 {
        Map::empty()
    } else {
        entry_map(entries.drop_last()).insert(entries.last().0, entries.last().1)
    }
}

/// Keys and values side by side.
pub open spec fn zipped<K, V>(keys: Seq<K>, values: Seq<V>) -> Seq<(K, V)> {
    Seq::new(keys.len(), |i: int| (keys[i], values[i]))
}

/// Where no key stands twice, the map of the entries is the pairing.
pub proof fn lemma_entry_map_zipped<K, V>(keys: Seq<K>, values: Seq<V>)
    requires
        keys.no_duplicates(),
        keys.len() == values.len(),
    ensures
        entry_map(zipped(keys, values)) == pairing(keys, values),
    decreases keys.len(),
{
    if keys.len() == 0 {
        assert(pairing(keys, values) =~= Map::<K, V>::empty());
    } else {
        let keys0 = keys.drop_last();
        let values0 = values.drop_last();
        lemma_entry_map_zipped(keys0, values0);
        assert(zipped(keys, values).drop_last() =~= zipped(keys0, values0));
        assert(!keys0.contains(keys.last())) by {
            if keys0.contains(keys.last()) {
                let j = choose|j: int| 0 <= j < keys0.len() && keys0[j] == keys.last();
                assert(keys[j] == keys[keys.len() - 1]);
            }
        }
        lemma_pairing_push(keys0, values0, keys.last(), values.last());
        assert(keys0.push(keys.last()) =~= keys);
        assert(values0.push(values.last()) =~= values);
    }
}

} // verus!
