//! Keyed entry sequences: the contents of one directory level are a
//! sequence of (key, payload) pairs in creation order. Lookup, store,
//! and delete act on the first entry with a given key; the store
//! operations never create a second entry for a key that is present.

use vstd::prelude::*;

verus! {

/// The payload stored under `key`, if any: the first entry with that key.
pub open spec fn find_entry<K, T>(es: Seq<(K, T)>, key: K) -> Option<T>
    decreases es.len(),
{
    if es.len() == 0 {
        Option::None
    } else if es[0].0 == key {
        Option::Some(es[0].1)
    } else {
        find_entry(es.skip(1), key)
    }
}

/// Whether an entry with `key` is present.
pub open spec fn has_entry<K, T>(es: Seq<(K, T)>, key: K) -> bool {
    find_entry(es, key) is Some
}

/// The entries after storing `val` under `key`: the first entry with that
/// key is replaced in place, or a new entry is appended.
pub open spec fn entry_put<K, T>(es: Seq<(K, T)>, key: K, val: T) -> Seq<(K, T)>
    decreases es.len(),
{
    if es.len() == 0 {
        seq![(key, val)]
    } else if es[0].0 == key {
        seq![(key, val)] + es.skip(1)
    } else {
        seq![es[0]] + entry_put(es.skip(1), key, val)
    }
}

/// The entries after deleting `key`: the first entry with that key is
/// removed.
pub open spec fn entry_del<K, T>(es: Seq<(K, T)>, key: K) -> Seq<(K, T)>
    decreases es.len(),
{
    if es.len() == 0 {
        es
    } else if es[0].0 == key {
        es.skip(1)
    } else {
        seq![es[0]] + entry_del(es.skip(1), key)
    }
}

/// The keys of the entries, in order.
pub open spec fn entry_keys<K, T>(es: Seq<(K, T)>) -> Seq<K> {
    es.map(|i: int, e: (K, T)| e.0)
}

/// No two entries share a key.
pub open spec fn distinct_keys<K, T>(es: Seq<(K, T)>) -> bool {
    forall|i: int, j: int| 0 <= i < j < es.len() ==> es[i].0 != es[j].0
}

/// Lookup, store and delete all act on the first entry whose key matches.
pub proof fn lemma_first_index<K, T>(es: Seq<(K, T)>, key: K, val: T, i: int)
    requires
        0 <= i < es.len(),
        es[i].0 == key,
        forall|k: int| 0 <= k < i ==> es[k].0 != key,
    ensures
        find_entry(es, key) == Option::Some(es[i].1),
        entry_put(es, key, val) =~= es.update(i, (key, val)),
        entry_del(es, key) =~= es.take(i) + es.skip(i + 1),
    decreases i,
{
    if i == 0 {
        assert(entry_put(es, key, val) =~= es.update(0, (key, val)));
        assert(entry_del(es, key) =~= es.take(0) + es.skip(1));
    } else {
        lemma_first_index(es.skip(1), key, val, i - 1);
        assert(entry_put(es, key, val) =~= es.update(i, (key, val)));
        assert(entry_del(es, key) =~= es.take(i) + es.skip(i + 1));
    }
}

/// When no entry has the key, lookup fails, a store appends, and a
/// delete changes nothing.
pub proof fn lemma_no_match<K, T>(es: Seq<(K, T)>, key: K, val: T)
    requires
        forall|k: int| 0 <= k < es.len() ==> es[k].0 != key,
    ensures
        find_entry(es, key) == Option::None::<T>,
        entry_put(es, key, val) =~= es.push((key, val)),
        entry_del(es, key) =~= es,
    decreases es.len(),
{
    if es.len() > 0 {
        lemma_no_match(es.skip(1), key, val);
        assert(entry_put(es, key, val) =~= es.push((key, val)));
        assert(entry_del(es, key) =~= es);
    }
}

/// A store is observed by the very next lookup of the same key.
pub proof fn lemma_put_found<K, T>(es: Seq<(K, T)>, key: K, val: T)
    ensures
        find_entry(entry_put(es, key, val), key) == Option::Some(val),
    decreases es.len(),
{
    if es.len() > 0 && es[0].0 != key {
        lemma_put_found(es.skip(1), key, val);
        assert(entry_put(es, key, val).skip(1) =~= entry_put(es.skip(1), key, val));
    }
}

/// When keys are distinct, a deleted key is gone.
pub proof fn lemma_del_gone<K, T>(es: Seq<(K, T)>, key: K)
    requires
        distinct_keys(es),
    ensures
        find_entry(entry_del(es, key), key) == Option::None::<T>,
    decreases es.len(),
{
    if es.len() == 0 {
    } else if es[0].0 == key {
        assert forall|k: int| 0 <= k < es.skip(1).len() implies es.skip(1)[k].0 != key by {
            assert(es.skip(1)[k] == es[k + 1]);
        }
        lemma_no_match(es.skip(1), key, es[0].1);
    } else {
        assert(distinct_keys(es.skip(1))) by {
            assert(forall|i: int| 0 <= i < es.skip(1).len() ==> es.skip(1)[i] == es[i + 1]);
        }
        lemma_del_gone(es.skip(1), key);
        assert(entry_del(es, key).skip(1) =~= entry_del(es.skip(1), key));
    }
}

/// A store keeps the keys distinct.
pub proof fn lemma_put_distinct<K, T>(es: Seq<(K, T)>, key: K, val: T)
    requires
        distinct_keys(es),
    ensures
        distinct_keys(entry_put(es, key, val)),
{
    if exists|i: int| 0 <= i < es.len() && es[i].0 == key {
        let i = least_match(es, key);
        lemma_least_match(es, key);
        lemma_first_index(es, key, val, i);
        assert(distinct_keys(es.update(i, (key, val))));
    } else {
        assert(forall|k: int| 0 <= k < es.len() ==> es[k].0 != key);
        lemma_no_match(es, key, val);
        assert(distinct_keys(es.push((key, val))));
    }
}

/// A delete keeps the keys distinct.
pub proof fn lemma_del_distinct<K, T>(es: Seq<(K, T)>, key: K)
    requires
        distinct_keys(es),
    ensures
        distinct_keys(entry_del(es, key)),
{
    if exists|i: int| 0 <= i < es.len() && es[i].0 == key {
        let i = least_match(es, key);
        lemma_least_match(es, key);
        lemma_first_index(es, key, es[i].1, i);
        assert(distinct_keys(es.take(i) + es.skip(i + 1)));
    } else {
        assert(forall|k: int| 0 <= k < es.len() ==> es[k].0 != key);
        lemma_no_match(es, key, es[0].1);
    }
}

/// The least index whose entry has the key (meaningful only when one
/// exists).
pub open spec fn least_match<K, T>(es: Seq<(K, T)>, key: K) -> int
    decreases es.len(),
{
    if es.len() == 0 {
        0
    } else if es[0].0 == key {
        0
    } else {
        1 + least_match(es.skip(1), key)
    }
}

/// When some entry has the key, `least_match` names the first one.
pub proof fn lemma_least_match<K, T>(es: Seq<(K, T)>, key: K)
    requires
        exists|i: int| 0 <= i < es.len() && es[i].0 == key,
    ensures
        0 <= least_match(es, key) < es.len(),
        es[least_match(es, key)].0 == key,
        forall|k: int| 0 <= k < least_match(es, key) ==> es[k].0 != key,
    decreases es.len(),
{
    if es[0].0 == key {
    } else {
        let i = choose|i: int| 0 <= i < es.len() && es[i].0 == key;
        assert(es.skip(1)[i - 1] == es[i]);
        lemma_least_match(es.skip(1), key);
        let j = least_match(es.skip(1), key);
        assert(es[1 + j] == es.skip(1)[j]);
        assert(forall|k: int| 1 <= k < 1 + j ==> es[k] == es.skip(1)[k - 1]);
    }
}

/// The index of the first entry whose name matches, if any.
pub(crate) fn find_index<T>(es: &Vec<(String, T)>, name: &String) -> (r: Option<usize>)
    ensures
        match r {
            Option::Some(i) => i < es@.len() && es@[i as int].0@ == name@ && (forall|k: int|
                0 <= k < i ==> es@[k].0@ != name@),
            Option::None => forall|k: int| 0 <= k < es@.len() ==> es@[k].0@ != name@,
        },
{
    let mut i: usize = 0;
    while i < es.len()
        invariant
            i <= es@.len(),
            forall|k: int| 0 <= k < i ==> es@[k].0@ != name@,
        decreases es@.len() - i,
    {
        let e = &es[i];
        if e.0 == *name {
            return Option::Some(i);
        }
        i = i + 1;
    }
    Option::None
}

} // verus!
