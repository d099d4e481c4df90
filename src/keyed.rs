//! A finite map kept as a strictly sorted sequence of keys beside a
//! sequence of values of the same length.
use vstd::prelude::*;

use crate::text::{lex_lt, lemma_lex_irreflexive, strictly_sorted};

verus! {

/// The position of `k` among `keys`.
pub open spec fn key_index(keys: Seq<Seq<char>>, k: Seq<char>) -> int {
    choose|j: int| 0 <= j < keys.len() && keys[j] == k
}

/// The map that sends each key to the value beside it.
pub open spec fn map_of<V>(keys: Seq<Seq<char>>, vals: Seq<V>) -> Map<Seq<char>, V> {
    Map::new(|k: Seq<char>| keys.contains(k), |k: Seq<char>| vals[key_index(keys, k)])
}

pub proof fn lemma_key_index(keys: Seq<Seq<char>>, j: int)
    requires
        strictly_sorted(keys),
        0 <= j < keys.len(),
    ensures
        key_index(keys, keys[j]) == j,
{
    let i = key_index(keys, keys[j]);
    assert(0 <= i < keys.len() && keys[i] == keys[j]);
    if i < j {
        assert(lex_lt(keys[i], keys[j]));
        lemma_lex_irreflexive(keys[j]);
    } else if j < i {
        assert(lex_lt(keys[j], keys[i]));
        lemma_lex_irreflexive(keys[j]);
    }
}

/// Replacing the value at `i` replaces what the map holds for `keys[i]`.
pub proof fn lemma_map_of_update<V>(keys: Seq<Seq<char>>, vals: Seq<V>, i: int, v: V)
    requires
        strictly_sorted(keys),
        keys.len() == vals.len(),
        0 <= i < keys.len(),
    ensures
        map_of(keys, vals.update(i, v)) == map_of(keys, vals).insert(keys[i], v),
{
    lemma_key_index(keys, i);
    assert forall|k: Seq<char>| keys.contains(k) && k != keys[i] implies #[trigger] vals.update(i, v)[key_index(keys, k)] == vals[key_index(keys, k)] by {
        let j = key_index(keys, k);
        lemma_key_index(keys, j);
    }
    assert(map_of(keys, vals.update(i, v)) =~= map_of(keys, vals).insert(keys[i], v));
}

/// Inserting a new key and its value at `i` adds them to the map.
pub proof fn lemma_map_of_insert<V>(keys: Seq<Seq<char>>, vals: Seq<V>, i: int, k: Seq<char>, v: V)
    requires
        strictly_sorted(keys),
        strictly_sorted(keys.insert(i, k)),
        keys.len() == vals.len(),
        0 <= i <= keys.len(),
    ensures
        map_of(keys.insert(i, k), vals.insert(i, v)) == map_of(keys, vals).insert(k, v),
{
    let nk = keys.insert(i, k);
    let nv = vals.insert(i, v);
    assert(nk[i] == k);
    lemma_key_index(nk, i);
    assert forall|x: Seq<char>| nk.contains(x) <==> keys.contains(x) || x == k by {
        if nk.contains(x) {
            let j = choose|j: int| 0 <= j < nk.len() && nk[j] == x;
            if j < i {
                assert(keys[j] == x);
            } else if j > i {
                assert(keys[j - 1] == x);
            }
        }
        if keys.contains(x) {
            let j = choose|j: int| 0 <= j < keys.len() && keys[j] == x;
            if j < i {
                assert(nk[j] == x);
            } else {
                assert(nk[j + 1] == x);
            }
        }
    }
    assert forall|x: Seq<char>| keys.contains(x) && x != k implies #[trigger] nv[key_index(nk, x)] == vals[key_index(keys, x)] by {
        let j = key_index(keys, x);
        lemma_key_index(keys, j);
        if j < i {
            assert(nk[j] == x);
            lemma_key_index(nk, j);
        } else {
            assert(nk[j + 1] == x);
            lemma_key_index(nk, j + 1);
        }
    }
    assert(map_of(nk, nv) =~= map_of(keys, vals).insert(k, v));
}

/// The keys of the map are those of the sequence, and there are as many.
pub proof fn lemma_map_of_dom<V>(keys: Seq<Seq<char>>, vals: Seq<V>)
    requires
        strictly_sorted(keys),
    ensures
        map_of(keys, vals).dom() == keys.to_set(),
        map_of(keys, vals).dom().len() == keys.len(),
{
    assert(map_of(keys, vals).dom() =~= keys.to_set());
    crate::text::lemma_strictly_sorted_no_duplicates(keys);
    keys.unique_seq_to_set();
}

/// What the map holds for the key at `j` is the value at `j`.
pub proof fn lemma_map_of_index<V>(keys: Seq<Seq<char>>, vals: Seq<V>, j: int)
    requires
        strictly_sorted(keys),
        0 <= j < keys.len(),
    ensures
        map_of(keys, vals).contains_key(keys[j]),
        map_of(keys, vals)[keys[j]] == vals[j],
{
    lemma_key_index(keys, j);
}

} // verus!
