//! The laws of the store, stated over the models that the operation
//! contracts use: entry sequences for the flat and two-level buckets,
//! and the directory-tree model for the hierarchical bucket.

use vstd::prelude::*;

use crate::entries::distinct_keys;
use crate::entries::entry_del;
use crate::entries::entry_put;
use crate::entries::find_entry;
use crate::entries::has_entry;
use crate::entries::entry_keys;
use crate::entries::lemma_del_gone;
use crate::entries::lemma_first_index;
use crate::entries::lemma_least_match;
use crate::entries::lemma_no_match;
use crate::entries::lemma_put_found;
use crate::entries::least_match;
use crate::fs_model::dir_create;
use crate::fs_model::dirs_without;
use crate::fs_model::files_without;
use crate::fs_model::has_dir;
use crate::fs_model::is_under;
use crate::fs_model::lemma_dirs_without_membership;
use crate::fs_model::lemma_files_without_find;
use crate::fs_model::parent_ok;
use crate::fs_model::prepare_upto;
use crate::fs_model::Files;
use crate::fs_model::SegPath;
use crate::fs_model::joined;
use crate::fs_model::lemma_segments_of_joined;
use crate::paths::lemma_resolved_concat;
use crate::paths::resolved;
use crate::paths::segments_of;
use crate::paths::sep_free;
use crate::paths::truncated;

verus! {

/// Round trip: storing bytes under a key and looking the key up at once
/// returns exactly those bytes, whatever was stored before. (A typed
/// round trip follows through the codec contract, whose decode inverts
/// its byte image.)
pub proof fn law_put_then_get<K>(es: Seq<(K, Seq<u8>)>, key: K, bytes: Seq<u8>)
    ensures
        find_entry(entry_put(es, key, bytes), key) == Option::Some(bytes),
{
    lemma_put_found(es, key, bytes);
}

/// Lifecycle of a key: absent before any store, present right after a
/// store, and absent right after a delete (keys of a valid store are
/// distinct).
pub proof fn law_exists_lifecycle<K>(es: Seq<(K, Seq<u8>)>, key: K, bytes: Seq<u8>)
    requires
        distinct_keys(es),
    ensures
        !has_entry(Seq::<(K, Seq<u8>)>::empty(), key),
        has_entry(entry_put(es, key, bytes), key),
        !has_entry(entry_del(es, key), key),
{
    lemma_no_match(Seq::<(K, Seq<u8>)>::empty(), key, bytes);
    lemma_put_found(es, key, bytes);
    lemma_del_gone(es, key);
}

/// Truncation collision: two keys sharing their first `m` characters
/// resolve to one stored name, so the second store overwrites the first.
pub proof fn law_truncation_collision(
    k1: Seq<char>,
    k2: Seq<char>,
    m: usize,
    es: Seq<(Seq<char>, Seq<u8>)>,
    b1: Seq<u8>,
    b2: Seq<u8>,
)
    requires
        m <= k1.len(),
        m <= k2.len(),
        k1.take(m as int) == k2.take(m as int),
    ensures
        truncated(k1, Option::Some(m)) == truncated(k2, Option::Some(m)),
        find_entry(
            entry_put(entry_put(es, truncated(k1, Option::Some(m)), b1), truncated(k2, Option::Some(m)), b2),
            truncated(k1, Option::Some(m)),
        ) == Option::Some(b2),
{
    if k1.len() == m {
        assert(k1.take(m as int) =~= k1);
    }
    if k2.len() == m {
        assert(k2.take(m as int) =~= k2);
    }
    lemma_put_found(entry_put(es, truncated(k1, Option::Some(m)), b1), truncated(k2, Option::Some(m)), b2);
}

/// Nesting: when nothing blocks the chain, the resolution pass creates
/// every directory it visits, so after a store of `a/b/c` the
/// directories `a` and `a/b` exist.
pub proof fn law_prepare_creates_ancestors(
    dirs: Seq<SegPath>,
    files: Files,
    segs: SegPath,
    bound: int,
)
    requires
        0 <= bound <= segs.len(),
        forall|k: int| 1 <= k <= bound ==> !has_entry(files, #[trigger] segs.take(k)),
    ensures
        forall|k: int|
            1 <= k <= bound ==> has_dir(prepare_upto(dirs, files, segs, bound), #[trigger] segs.take(k)),
    decreases bound,
{
    if bound > 0 {
        law_prepare_creates_ancestors(dirs, files, segs, bound - 1);
        let d1 = prepare_upto(dirs, files, segs, bound - 1);
        let d2 = prepare_upto(dirs, files, segs, bound);
        let p = segs.take(bound);
        assert(d2 == dir_create(d1, files, p));
        assert forall|q: SegPath| has_dir(d1, q) implies has_dir(d2, q) by {
            let j = choose|j: int| 0 <= j < d1.len() && d1[j] == q;
            if !has_dir(d1, p) && !has_entry(files, p) && parent_ok(d1, p) {
                assert(d1.push(p)[j] == q);
            }
        }
        if !has_dir(d1, p) {
            assert(parent_ok(d1, p)) by {
                if bound > 1 {
                    assert(has_dir(d1, segs.take(bound - 1)));
                    assert(p.drop_last() =~= segs.take(bound - 1));
                } else {
                    assert(p.len() == 1);
                }
            }
            assert(d2 == d1.push(p));
            assert(d2[d1.len() as int] == p);
            assert(has_dir(d2, p));
        }
    }
}

/// Clearing a subtree removes every key under it, files and directories
/// alike, and touches nothing outside it.
pub proof fn law_clear_removes_subtree(files: Files, dirs: Seq<SegPath>, p: SegPath)
    ensures
        forall|q: SegPath|
            is_under(p, q) ==> find_entry(files_without(files, p), q) == Option::<Seq<u8>>::None,
        forall|q: SegPath| is_under(p, q) ==> !has_dir(dirs_without(dirs, p), q),
        forall|q: SegPath|
            !is_under(p, q) ==> find_entry(files_without(files, p), q) == find_entry(files, q),
        forall|q: SegPath| !is_under(p, q) ==> has_dir(dirs_without(dirs, p), q) == has_dir(dirs, q),
{
    lemma_files_without_find(files, p);
    lemma_dirs_without_membership(dirs, p);
    assert forall|q: SegPath| !is_under(p, q) implies has_dir(dirs_without(dirs, p), q) == has_dir(
        dirs,
        q,
    ) by {
        if has_dir(dirs, q) {
            assert(dirs_without(dirs, p).contains(q));
        }
    }
}

/// Two-level store: storing under (sub, key) is observed by the very
/// next lookup of the same pair, and the sub-bucket entry itself is
/// created by the store when absent.
pub proof fn law_double_put_get(
    subs: Seq<(Seq<char>, Seq<(Seq<char>, Seq<u8>)>)>,
    sname: Seq<char>,
    kname: Seq<char>,
    inner0: Seq<(Seq<char>, Seq<u8>)>,
    bytes: Seq<u8>,
)
    ensures
        ({
            let subs2 = entry_put(subs, sname, entry_put(inner0, kname, bytes));
            find_entry(subs2, sname) matches Some(inner) && find_entry(inner, kname)
                == Option::Some(bytes)
        }),
{
    lemma_put_found(subs, sname, entry_put(inner0, kname, bytes));
    lemma_put_found(inner0, kname, bytes);
}

/// Idempotence: running the directory-creation step twice for one path
/// is a no-op the second time, with no error either way.
pub proof fn law_dir_create_idempotent(dirs: Seq<SegPath>, files: Files, p: SegPath)
    ensures
        dir_create(dir_create(dirs, files, p), files, p) == dir_create(dirs, files, p),
{
    let d2 = dir_create(dirs, files, p);
    if !has_dir(dirs, p) && !has_entry(files, p) && parent_ok(dirs, p) {
        assert(d2[dirs.len() as int] == p);
        assert(has_dir(d2, p));
    }
}


/// Truncation keeps every stored name within the limit, so a key longer
/// than the limit is never itself a stored name: a listing after such a
/// store contains the truncated name, never the raw key.
pub proof fn law_names_stay_bounded(
    es: Seq<(Seq<char>, Seq<u8>)>,
    key: Seq<char>,
    m: usize,
    bytes: Seq<u8>,
)
    requires
        forall|i: int| 0 <= i < es.len() ==> (#[trigger] es[i]).0.len() <= m,
    ensures
        ({
            let es2 = entry_put(es, truncated(key, Option::Some(m)), bytes);
            &&& forall|i: int| 0 <= i < es2.len() ==> (#[trigger] es2[i]).0.len() <= m
            &&& key.len() > m ==> !entry_keys(es2).contains(key)
        }),
{
    let name = truncated(key, Option::Some(m));
    let es2 = entry_put(es, name, bytes);
    assert(name.len() <= m);
    if exists|i: int| 0 <= i < es.len() && (#[trigger] es[i]).0 == name {
        let i = least_match(es, name);
        lemma_least_match(es, name);
        lemma_first_index(es, name, bytes, i);
        assert(es2 =~= es.update(i, (name, bytes)));
        assert(forall|k: int| 0 <= k < es2.len() ==> (#[trigger] es2[k]).0.len() <= m);
    } else {
        assert(forall|k: int| 0 <= k < es.len() ==> es[k].0 != name);
        lemma_no_match(es, name, bytes);
        assert(es2 =~= es.push((name, bytes)));
        assert(forall|k: int| 0 <= k < es2.len() ==> (#[trigger] es2[k]).0.len() <= m);
    }
    if key.len() > m {
        if entry_keys(es2).contains(key) {
            let k = choose|k: int| 0 <= k < entry_keys(es2).len() && entry_keys(es2)[k] == key;
            assert(es2[k].0 == key);
        }
    }
}


/// Resolution distributes over the root: the resolved segments of a
/// bucket's full key path are the resolved root followed by the resolved
/// key. This bridges a raw key to the segment paths the nesting and
/// listing laws speak of.
pub proof fn law_resolution_decomposes(dir: Seq<char>, key: Seq<char>, max: Option<usize>)
    ensures
        resolved(dir + seq!['/'] + key, max) == resolved(dir, max) + resolved(key, max),
{
    lemma_resolved_concat(dir, key, max);
}

/// The traversal names keys exactly: joining a path of non-empty,
/// separator-free segments — the only segments resolution ever stores —
/// and splitting the result recovers the path.
pub proof fn law_joined_splits_back(p: SegPath)
    requires
        forall|i: int| 0 <= i < p.len() ==> (#[trigger] p[i]).len() > 0 && sep_free(p[i]),
    ensures
        segments_of(joined(p)) == p,
{
    lemma_segments_of_joined(p);
}

} // verus!
