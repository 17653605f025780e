//! Finite maps held as sequences of key-value pairs with distinct keys.
use vstd::prelude::*;

verus! {

/// The map that a sequence of pairs describes; a later pair wins over an
/// earlier one with the same key.
pub open spec fn pairs_to_map<K, V>(pairs: Seq<(K, V)>) -> Map<K, V>
    decreases pairs.len(),
{
    if pairs.len() == 0 {
        Map::empty()
    } else {
        pairs_to_map(pairs.drop_last()).insert(pairs.last().0, pairs.last().1)
    }
}

/// No key occurs in two pairs.
pub open spec fn keys_distinct<K, V>(pairs: Seq<(K, V)>) -> bool {
    forall|i: int, j: int|
        0 <= i < pairs.len() && 0 <= j < pairs.len() && i != j ==> #[trigger] pairs[i].0
            != #[trigger] pairs[j].0
}

/// The keys of the map are the keys of the pairs.
pub proof fn lemma_pairs_dom<K, V>(pairs: Seq<(K, V)>, k: K)
    ensures
        pairs_to_map(pairs).contains_key(k) <==> exists|i: int|
            0 <= i < pairs.len() && #[trigger] pairs[i].0 == k,
    decreases pairs.len(),
{
    if pairs.len() > 0 {
        lemma_pairs_dom(pairs.drop_last(), k);
        if pairs_to_map(pairs.drop_last()).contains_key(k) {
            let i = choose|i: int| 0 <= i < pairs.drop_last().len() && #[trigger] pairs.drop_last()[i].0 == k;
            assert(pairs[i].0 == k);
        }
        if exists|i: int| 0 <= i < pairs.len() && #[trigger] pairs[i].0 == k {
            let i = choose|i: int| 0 <= i < pairs.len() && #[trigger] pairs[i].0 == k;
            if i < pairs.len() - 1 {
                assert(pairs.drop_last()[i].0 == k);
            }
        }
    }
}

/// With distinct keys, each pair's key maps to that pair's value.
pub proof fn lemma_pairs_index<K, V>(pairs: Seq<(K, V)>, i: int)
    requires
        keys_distinct(pairs),
        0 <= i < pairs.len(),
    ensures
        pairs_to_map(pairs).contains_key(pairs[i].0),
        pairs_to_map(pairs)[pairs[i].0] == pairs[i].1,
    decreases pairs.len(),
{
    if i < pairs.len() - 1 {
        let rest = pairs.drop_last();
        assert(rest[i] == pairs[i]);
        assert forall|a: int, b: int|
            0 <= a < rest.len() && 0 <= b < rest.len() && a != b implies #[trigger] rest[a].0
            != #[trigger] rest[b].0 by {
            assert(rest[a] == pairs[a] && rest[b] == pairs[b]);
        }
        lemma_pairs_index(rest, i);
        assert(pairs[i].0 != pairs[pairs.len() - 1].0);
    }
}

/// Changing the value of one pair changes the map at that pair's key only.
pub proof fn lemma_pairs_update<K, V>(pairs: Seq<(K, V)>, i: int, v: V)
    requires
        keys_distinct(pairs),
        0 <= i < pairs.len(),
    ensures
        pairs_to_map(pairs.update(i, (pairs[i].0, v))) == pairs_to_map(pairs).insert(
            pairs[i].0,
            v,
        ),
        keys_distinct(pairs.update(i, (pairs[i].0, v))),
    decreases pairs.len(),
{
    let k = pairs[i].0;
    let up = pairs.update(i, (k, v));
    assert forall|a: int, b: int|
        0 <= a < up.len() && 0 <= b < up.len() && a != b implies #[trigger] up[a].0
        != #[trigger] up[b].0 by {
        assert(up[a].0 == pairs[a].0 && up[b].0 == pairs[b].0);
    }
    if i == pairs.len() - 1 {
        assert(up.drop_last() =~= pairs.drop_last());
        assert(pairs_to_map(up) =~= pairs_to_map(pairs).insert(k, v));
    } else {
        let rest = pairs.drop_last();
        assert forall|a: int, b: int|
            0 <= a < rest.len() && 0 <= b < rest.len() && a != b implies #[trigger] rest[a].0
            != #[trigger] rest[b].0 by {
            assert(rest[a] == pairs[a] && rest[b] == pairs[b]);
        }
        assert(rest[i] == pairs[i]);
        lemma_pairs_update(rest, i, v);
        assert(up.drop_last() =~= rest.update(i, (k, v)));
        assert(up.last() == pairs.last());
        assert(pairs.last().0 != k);
        assert(pairs_to_map(up) =~= pairs_to_map(pairs).insert(k, v));
    }
}

/// Adding a pair with a new key adds that key to the map.
pub proof fn lemma_pairs_push<K, V>(pairs: Seq<(K, V)>, k: K, v: V)
    requires
        keys_distinct(pairs),
        !pairs_to_map(pairs).contains_key(k),
    ensures
        pairs_to_map(pairs.push((k, v))) == pairs_to_map(pairs).insert(k, v),
        keys_distinct(pairs.push((k, v))),
{
    let up = pairs.push((k, v));
    assert(up.drop_last() =~= pairs);
    assert forall|a: int, b: int|
        0 <= a < up.len() && 0 <= b < up.len() && a != b implies #[trigger] up[a].0
        != #[trigger] up[b].0 by {
        if a == pairs.len() {
            lemma_pairs_dom(pairs, k);
            assert(pairs[b].0 == up[b].0);
        } else if b == pairs.len() {
            lemma_pairs_dom(pairs, k);
            assert(pairs[a].0 == up[a].0);
        } else {
            assert(up[a] == pairs[a] && up[b] == pairs[b]);
        }
    }
}

/// The position of the pair whose key reads as `key`, if there is one.
pub fn find_key<V>(pairs: &Vec<(String, V)>, key: &String) -> (r: Option<usize>)
    ensures
        match r {
            Some(i) => i < pairs@.len() && pairs@[i as int].0@ == key@,
            None => forall|i: int| 0 <= i < pairs@.len() ==> (#[trigger] pairs@[i]).0@ != key@,
        },
{
    let n = pairs.len();
    for i in 0..n
        invariant
            n == pairs@.len(),
            forall|j: int| 0 <= j < i ==> (#[trigger] pairs@[j]).0@ != key@,
    {
        if pairs[i].0 == *key {
            return Some(i);
        }
    }
    None
}

} // verus!
