//! Entries kept in strictly increasing order of a byte-string key: the
//! ordered maps of a derivation, held in vectors.

use crate::refscan::bytes_view;
use crate::sorted::{bytes_lt, lemma_lt_irreflexive, lemma_lt_total, lemma_lt_transitive, seq_lt, strictly_sorted};
use vstd::prelude::*;

verus! {

/// Index `i` is where `k` belongs among the increasing `keys`: every key
/// before it is smaller; `found` says that `keys[i]` is `k`; every other key
/// from `i` on is larger.
pub open spec fn slot_ok(keys: Seq<Seq<u8>>, k: Seq<u8>, i: int, found: bool) -> bool {
    &&& 0 <= i <= keys.len()
    &&& forall|j: int| 0 <= j < i ==> seq_lt(#[trigger] keys[j], k)
    &&& found ==> i < keys.len() && keys[i] == k
    &&& forall|j: int| i <= j < keys.len() && !(found && j == i) ==> seq_lt(k, #[trigger] keys[j])
}

/// Finds where `k` belongs among the strictly increasing `keys`, and
/// whether it is there.
pub fn find_slot(keys: &Vec<Vec<u8>>, k: &[u8]) -> (r: (usize, bool))
    requires
        strictly_sorted(bytes_view(keys@)),
    ensures
        slot_ok(bytes_view(keys@), k@, r.0 as int, r.1),
{
    let ghost ks = bytes_view(keys@);
    let mut i: usize = 0;
    while i < keys.len()
        invariant
            ks == bytes_view(keys@),
            strictly_sorted(ks),
            i <= keys@.len(),
            forall|j: int| 0 <= j < i ==> seq_lt(#[trigger] ks[j], k@),
        ensures
            i <= keys@.len(),
            forall|j: int| 0 <= j < i ==> seq_lt(#[trigger] ks[j], k@),
            i < keys@.len() ==> !seq_lt(ks[i as int], k@),
        decreases keys@.len() - i,
    {
        assert(ks[i as int] == keys@[i as int]@);
        if !bytes_lt(keys[i].as_slice(), k) {
            break;
        }
        i = i + 1;
    }
    if i < keys.len() {
        assert(ks[i as int] == keys@[i as int]@);
        let found = crate::refscan::bytes_eq(keys[i].as_slice(), k);
        proof {
            lemma_lt_total(ks[i as int], k@);
            assert forall|j: int| i <= j < ks.len() && !(found && j == i) implies seq_lt(k@, #[trigger] ks[j]) by {
                if j > i {
                    if found {
                        assert(seq_lt(ks[i as int], ks[j]));
                    } else {
                        lemma_lt_transitive(k@, ks[i as int], ks[j]);
                    }
                }
            }
        }
        (i, found)
    } else {
        (i, false)
    }
}

/// Putting a missing key into its slot keeps the keys strictly increasing.
pub proof fn lemma_insert_keeps_sorted(keys: Seq<Seq<u8>>, k: Seq<u8>, i: int)
    requires
        strictly_sorted(keys),
        slot_ok(keys, k, i, false),
    ensures
        strictly_sorted(keys.insert(i, k)),
{
    let n = keys.insert(i, k);
    assert forall|a: int, b: int| 0 <= a < b < n.len() implies seq_lt(#[trigger] n[a], #[trigger] n[b]) by {
        if b < i {
        } else if b == i {
            assert(n[a] == keys[a]);
        } else if a == i {
            assert(n[b] == keys[b - 1]);
        } else if a < i {
            assert(n[a] == keys[a]);
            assert(n[b] == keys[b - 1]);
            assert(seq_lt(keys[a], k));
            assert(seq_lt(k, keys[b - 1]));
            lemma_lt_transitive(keys[a], k, keys[b - 1]);
        } else {
            assert(n[a] == keys[a - 1]);
            assert(n[b] == keys[b - 1]);
        }
    }
}

/// The map from each key to the value at the same index.
pub open spec fn keyed_map<V>(keys: Seq<Seq<u8>>, vals: Seq<V>) -> Map<Seq<u8>, V> {
    Map::new(
        |k: Seq<u8>| keys.contains(k),
        |k: Seq<u8>| vals[choose|i: int| 0 <= i < keys.len() && keys[i] == k],
    )
}

/// With strictly increasing keys, a key's value is the one at its index.
pub proof fn lemma_keyed_map_at<V>(keys: Seq<Seq<u8>>, vals: Seq<V>, i: int)
    requires
        strictly_sorted(keys),
        0 <= i < keys.len(),
    ensures
        keyed_map(keys, vals).contains_key(keys[i]),
        keyed_map(keys, vals)[keys[i]] == vals[i],
{
    assert(keys.contains(keys[i]));
    let j = choose|j: int| 0 <= j < keys.len() && keys[j] == keys[i];
    if j != i {
        if j < i {
            assert(seq_lt(keys[j], keys[i]));
        } else {
            assert(seq_lt(keys[i], keys[j]));
        }
        lemma_lt_irreflexive(keys[i]);
    }
}

/// Putting a missing key and its value into the slot inserts into the map.
pub proof fn lemma_keyed_map_insert<V>(keys: Seq<Seq<u8>>, vals: Seq<V>, k: Seq<u8>, v: V, i: int)
    requires
        strictly_sorted(keys),
        keys.len() == vals.len(),
        slot_ok(keys, k, i, false),
    ensures
        keyed_map(keys.insert(i, k), vals.insert(i, v)) == keyed_map(keys, vals).insert(k, v),
{
    let nk = keys.insert(i, k);
    let nv = vals.insert(i, v);
    lemma_insert_keeps_sorted(keys, k, i);
    let m1 = keyed_map(nk, nv);
    let m2 = keyed_map(keys, vals).insert(k, v);
    assert forall|x: Seq<u8>| m1.contains_key(x) <==> m2.contains_key(x) by {
        if nk.contains(x) {
            let j = choose|j: int| 0 <= j < nk.len() && nk[j] == x;
            if j < i {
                assert(keys[j] == x);
            } else if j > i {
                assert(keys[j - 1] == x);
            }
        }
        if keys.contains(x) {
            let j = choose|j: int| 0 <= j < keys.len() && keys[j] == x;
            if j < i {
                assert(nk[j] == x);
            } else {
                assert(nk[j + 1] == x);
            }
        }
        if x == k {
            assert(nk[i] == x);
        }
    }
    assert forall|x: Seq<u8>| #[trigger] m1.contains_key(x) implies m1[x] == m2[x] by {
        let j = choose|j: int| 0 <= j < nk.len() && nk[j] == x;
        lemma_keyed_map_at(nk, nv, j);
        if j < i {
            lemma_keyed_map_at(keys, vals, j);
            assert(seq_lt(keys[j], k));
            lemma_lt_irreflexive(k);
        } else if j > i {
            lemma_keyed_map_at(keys, vals, j - 1);
            assert(seq_lt(k, keys[j - 1]));
            lemma_lt_irreflexive(k);
        }
    }
    assert(m1 =~= m2);
}

/// Replacing the value of a key that is there updates the map.
pub proof fn lemma_keyed_map_update<V>(keys: Seq<Seq<u8>>, vals: Seq<V>, v: V, i: int)
    requires
        strictly_sorted(keys),
        keys.len() == vals.len(),
        0 <= i < keys.len(),
    ensures
        keyed_map(keys, vals.update(i, v)) == keyed_map(keys, vals).insert(keys[i], v),
{
    let nv = vals.update(i, v);
    let m1 = keyed_map(keys, nv);
    let m2 = keyed_map(keys, vals).insert(keys[i], v);
    assert(keys.contains(keys[i]));
    lemma_keyed_map_at(keys, nv, i);
    assert forall|x: Seq<u8>| #[trigger] m1.contains_key(x) implies m1[x] == m2[x] by {
        assert(keys.contains(x));
        let j = choose|j: int| 0 <= j < keys.len() && keys[j] == x;
        lemma_keyed_map_at(keys, nv, j);
        lemma_keyed_map_at(keys, vals, j);
        if x != keys[i] {
            assert(j != i);
        }
    }
    assert(m1 =~= m2);
}

} // verus!
