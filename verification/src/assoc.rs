//! Association lists keyed by strings: sequences of (key, value) entries, as
//! the filters keep their keyword groups and their per-field filters.
use vstd::prelude::*;
use crate::result::distinct;

verus! {

/// The keys of a list of entries, in order.
pub open spec fn assoc_keys<V>(es: Seq<(Seq<char>, V)>) -> Seq<Seq<char>> {
    es.map_values(|e: (Seq<char>, V)| e.0)
}

/// The value of the last entry with key `key`, if there is one.
pub open spec fn assoc<V>(es: Seq<(Seq<char>, V)>, key: Seq<char>) -> Option<V>
    decreases es.len(),
{
    if es.len() == 0 {
        None
    } else if es.last().0 == key {
        Some(es.last().1)
    } else {
        assoc(es.drop_last(), key)
    }
}

pub proof fn lemma_assoc_found<V>(es: Seq<(Seq<char>, V)>, i: int)
    requires
        distinct(assoc_keys(es)),
        0 <= i < es.len(),
    ensures
        assoc(es, es[i].0) == Some(es[i].1),
    decreases es.len(),
{
    if i < es.len() - 1 {
        assert(assoc_keys(es)[i] != assoc_keys(es)[es.len() - 1]);
        assert(assoc_keys(es.drop_last()) =~= assoc_keys(es).drop_last());
        assert(es.drop_last()[i] == es[i]);
        lemma_assoc_found(es.drop_last(), i);
    }
}

pub proof fn lemma_assoc_absent<V>(es: Seq<(Seq<char>, V)>, key: Seq<char>)
    requires
        !assoc_keys(es).contains(key),
    ensures
        assoc(es, key) is None,
    decreases es.len(),
{
    if es.len() > 0 {
        assert(assoc_keys(es)[es.len() - 1] == es.last().0);
        assert(assoc_keys(es.drop_last()) =~= assoc_keys(es).drop_last());
        assert(!assoc_keys(es.drop_last()).contains(key)) by {
            if assoc_keys(es.drop_last()).contains(key) {
                let j = choose|j: int|
                    0 <= j < es.len() - 1 && #[trigger] assoc_keys(es.drop_last())[j] == key;
                assert(assoc_keys(es)[j] == key);
            }
        }
        lemma_assoc_absent(es.drop_last(), key);
    }
}

/// Replacing the value of the entry at `i` changes what `assoc` gives for its
/// key only.
pub proof fn lemma_assoc_update<V>(es: Seq<(Seq<char>, V)>, i: int, v: V)
    requires
        distinct(assoc_keys(es)),
        0 <= i < es.len(),
    ensures
        assoc_keys(es.update(i, (es[i].0, v))) == assoc_keys(es),
        forall|k: Seq<char>|
            #[trigger] assoc(es.update(i, (es[i].0, v)), k) == (if k == es[i].0 {
                Some(v)
            } else {
                assoc(es, k)
            }),
{
    let nes = es.update(i, (es[i].0, v));
    assert(assoc_keys(nes) =~= assoc_keys(es));
    lemma_assoc_found(nes, i);
    assert forall|k: Seq<char>| k != es[i].0 implies #[trigger] assoc(nes, k) == assoc(es, k) by {
        if assoc_keys(es).contains(k) {
            let j = choose|j: int| 0 <= j < es.len() && #[trigger] assoc_keys(es)[j] == k;
            lemma_assoc_found(es, j);
            lemma_assoc_found(nes, j);
        } else {
            lemma_assoc_absent(es, k);
            lemma_assoc_absent(nes, k);
        }
    }
}

/// Appending an entry with a new key keeps the keys distinct and makes
/// `assoc` give its value for that key.
pub proof fn lemma_assoc_push<V>(es: Seq<(Seq<char>, V)>, key: Seq<char>, v: V)
    requires
        distinct(assoc_keys(es)),
        !assoc_keys(es).contains(key),
    ensures
        assoc_keys(es.push((key, v))) == assoc_keys(es).push(key),
        distinct(assoc_keys(es.push((key, v)))),
        forall|k: Seq<char>|
            #[trigger] assoc(es.push((key, v)), k) == (if k == key {
                Some(v)
            } else {
                assoc(es, k)
            }),
{
    assert(assoc_keys(es.push((key, v))) =~= assoc_keys(es).push(key));
    assert(es.push((key, v)).drop_last() == es);
    assert forall|i: int, j: int|
        0 <= i < j < assoc_keys(es).push(key).len() implies assoc_keys(es).push(key)[i]
        != assoc_keys(es).push(key)[j] by {
        if j == assoc_keys(es).len() {
            assert(assoc_keys(es)[i] == assoc_keys(es).push(key)[i]);
        }
    }
}

} // verus!
