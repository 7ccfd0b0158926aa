//! The directory-tree model behind the hierarchical bucket: a set of
//! existing directories and a sequence of files, both addressed by
//! segment paths. Directories are created one intermediate at a time
//! while a key is resolved; a failed creation is skipped so that the
//! leaf operation reports the failure instead.

use vstd::prelude::*;

use crate::entries::distinct_keys;
use crate::entries::find_entry;
use crate::entries::has_entry;
use crate::paths::lemma_segments_concat;
use crate::paths::lemma_segments_of_sep_free;
use crate::paths::segments_of;
use crate::paths::sep_free;

verus! {

/// A filesystem path as its sequence of segments.
pub type SegPath = Seq<Seq<char>>;

/// The files of the model: segment path to stored bytes.
pub type Files = Seq<(SegPath, Seq<u8>)>;

/// Whether the directory `p` exists.
pub open spec fn has_dir(dirs: Seq<SegPath>, p: SegPath) -> bool {
    dirs.contains(p)
}

/// Whether the parent of `p` exists (the root always does).
pub open spec fn parent_ok(dirs: Seq<SegPath>, p: SegPath) -> bool {
    p.len() == 1 || has_dir(dirs, p.drop_last())
}

/// One directory-creation step: create `p` unless something already
/// exists there; a creation whose parent is missing or is a file fails
/// and is skipped.
pub open spec fn dir_create(dirs: Seq<SegPath>, files: Files, p: SegPath) -> Seq<SegPath> {
    if has_dir(dirs, p) || has_entry(files, p) {
        dirs
    } else if parent_ok(dirs, p) {
        dirs.push(p)
    } else {
        dirs
    }
}

/// The preparation pass of key resolution: the prefixes of length
/// `1..=k` of `segs` go through one creation step each, in order.
pub open spec fn prepare_upto(dirs: Seq<SegPath>, files: Files, segs: SegPath, k: int) -> Seq<
    SegPath,
>
    decreases k,
{
    if k <= 0 {
        dirs
    } else {
        dir_create(prepare_upto(dirs, files, segs, k - 1), files, segs.take(k))
    }
}

/// The directories after a key is resolved: every proper prefix goes
/// through a creation step; with `make_all` (a path ending in a
/// separator) the full path does too.
pub open spec fn prepared(dirs: Seq<SegPath>, files: Files, segs: SegPath, make_all: bool) -> Seq<
    SegPath,
> {
    prepare_upto(dirs, files, segs, if make_all { segs.len() as int } else { segs.len() - 1 })
}

/// Whether a file can be written at `segs`: the path is non-empty, no
/// directory sits there, and the parent directory exists.
pub open spec fn file_writable(dirs: Seq<SegPath>, segs: SegPath) -> bool {
    segs.len() > 0 && !has_dir(dirs, segs) && parent_ok(dirs, segs)
}

/// Whether `q` lies at or under `p`.
pub open spec fn is_under(p: SegPath, q: SegPath) -> bool {
    q.len() >= p.len() && q.take(p.len() as int) == p
}

/// Whether `q` is an immediate child of `p`.
pub open spec fn is_child(p: SegPath, q: SegPath) -> bool {
    q.len() == p.len() + 1 && q.take(p.len() as int) == p
}

/// The directories left when the subtree at `p` is removed.
pub open spec fn dirs_without(dirs: Seq<SegPath>, p: SegPath) -> Seq<SegPath>
    decreases dirs.len(),
{
    if dirs.len() == 0 {
        dirs
    } else {
        (if is_under(p, dirs[0]) {
            Seq::empty()
        } else {
            seq![dirs[0]]
        }) + dirs_without(dirs.skip(1), p)
    }
}

/// The files left when the subtree at `p` is removed.
pub open spec fn files_without(files: Files, p: SegPath) -> Files
    decreases files.len(),
{
    if files.len() == 0 {
        files
    } else {
        (if is_under(p, files[0].0) {
            Seq::empty()
        } else {
            seq![files[0]]
        }) + files_without(files.skip(1), p)
    }
}

/// The names of the immediate child directories of `p`, in creation
/// order.
pub open spec fn dir_child_names(dirs: Seq<SegPath>, p: SegPath) -> Seq<Seq<char>>
    decreases dirs.len(),
{
    if dirs.len() == 0 {
        Seq::empty()
    } else {
        (if is_child(p, dirs[0]) {
            seq![dirs[0].last()]
        } else {
            Seq::empty()
        }) + dir_child_names(dirs.skip(1), p)
    }
}

/// The names of the files directly in `p`, in creation order.
pub open spec fn file_child_names(files: Files, p: SegPath) -> Seq<Seq<char>>
    decreases files.len(),
{
    if files.len() == 0 {
        Seq::empty()
    } else {
        (if is_child(p, files[0].0) {
            seq![files[0].0.last()]
        } else {
            Seq::empty()
        }) + file_child_names(files.skip(1), p)
    }
}

/// What one directory level lists: child directories first, then files.
pub open spec fn children_of(dirs: Seq<SegPath>, files: Files, p: SegPath) -> Seq<Seq<char>> {
    dir_child_names(dirs, p) + file_child_names(files, p)
}

/// A path joined back into a `/`-separated string.
pub open spec fn joined(p: SegPath) -> Seq<char>
    decreases p.len(),
{
    if p.len() == 0 {
        Seq::empty()
    } else if p.len() == 1 {
        p[0]
    } else {
        joined(p.drop_last()) + seq!['/'] + p.last()
    }
}

/// Whether the recursive listing of the subtree at `abs`, reached under
/// the relative prefix `relp`, contains the string `s`.
pub open spec fn listed(files: Files, abs: SegPath, relp: SegPath, s: Seq<char>) -> bool {
    exists|q: SegPath|
        #![auto]
        has_entry(files, q) && is_under(abs, q) && q.len() > abs.len() && s == joined(
            relp + q.skip(abs.len() as int),
        )
}

/// The well-formedness of the model: directories are non-empty paths
/// closed under non-empty prefixes; every file hangs off an existing
/// directory chain, never coincides with a directory, and file paths are
/// distinct.
pub open spec fn tree_wf(files: Files, dirs: Seq<SegPath>) -> bool {
    &&& (forall|i: int|
        0 <= i < dirs.len() ==> (#[trigger] dirs[i]).len() > 0 && (forall|k: int|
            1 <= k < dirs[i].len() ==> has_dir(dirs, #[trigger] dirs[i].take(k))))
    &&& (forall|i: int|
        0 <= i < files.len() ==> (#[trigger] files[i].0).len() > 0 && !has_dir(dirs, files[i].0)
            && (forall|k: int|
            1 <= k < files[i].0.len() ==> has_dir(dirs, #[trigger] files[i].0.take(k))))
    &&& distinct_keys(files)
}

/// Prefixes of prefixes are prefixes: lying under `p` transfers between
/// a path and its truncations.
pub proof fn lemma_under_take(p: SegPath, q: SegPath, k: int)
    requires
        p.len() <= k <= q.len(),
    ensures
        is_under(p, q.take(k)) == is_under(p, q),
{
    assert(q.take(k).take(p.len() as int) =~= q.take(p.len() as int));
}

/// One creation step keeps the model well-formed.
pub proof fn lemma_dir_create_wf(dirs: Seq<SegPath>, files: Files, p: SegPath)
    requires
        tree_wf(files, dirs),
        p.len() > 0,
    ensures
        tree_wf(files, dir_create(dirs, files, p)),
{
    let d2 = dir_create(dirs, files, p);
    if d2 != dirs {
        assert(d2 == dirs.push(p));
        assert(forall|q: SegPath| has_dir(dirs, q) ==> has_dir(d2, q)) by {
            assert(forall|q: SegPath|
                has_dir(dirs, q) ==> dirs[choose|j: int| 0 <= j < dirs.len() && dirs[j] == q]
                    == q);
            assert(forall|j: int| 0 <= j < dirs.len() ==> d2[j] == dirs[j]);
        }
        assert(d2[dirs.len() as int] == p);
        assert(has_dir(d2, p));
        // the new directory's proper prefixes are those of its parent,
        // plus the parent itself
        assert forall|k: int| 1 <= k < p.len() implies has_dir(d2, #[trigger] p.take(k)) by {
            if p.len() == 1 {
            } else if k == p.len() - 1 {
                assert(p.take(k) =~= p.drop_last());
            } else {
                let parent = p.drop_last();
                let j = choose|j: int| 0 <= j < dirs.len() && dirs[j] == parent;
                assert(has_dir(dirs, parent.take(k)));
                assert(parent.take(k) =~= p.take(k));
            }
        }
        // no file sits at the new directory: creation checked for one
        assert forall|i: int| 0 <= i < files.len() implies files[i].0 != p by {
            if files[i].0 == p {
                lemma_has_entry_at(files, i);
            }
        }
    }
}

/// An entry at index `i` makes `has_entry` true for its key.
pub proof fn lemma_has_entry_at<K, T>(es: Seq<(K, T)>, i: int)
    requires
        0 <= i < es.len(),
    ensures
        has_entry(es, es[i].0),
    decreases i,
{
    if es[0].0 == es[i].0 {
    } else {
        assert(es.skip(1)[i - 1] == es[i]);
        lemma_has_entry_at(es.skip(1), i - 1);
    }
}

/// What survives the removal of the subtree at `p`: exactly the
/// directories that were not at or under `p`.
pub proof fn lemma_dirs_without_membership(dirs: Seq<SegPath>, p: SegPath)
    ensures
        forall|q: SegPath|
            #[trigger] dirs_without(dirs, p).contains(q) <==> (dirs.contains(q) && !is_under(p, q)),
    decreases dirs.len(),
{
    if dirs.len() > 0 {
        lemma_dirs_without_membership(dirs.skip(1), p);
        let dw = dirs_without(dirs, p);
        let head = if is_under(p, dirs[0]) {
            Seq::<SegPath>::empty()
        } else {
            seq![dirs[0]]
        };
        assert forall|q: SegPath| #[trigger] dw.contains(q) implies (dirs.contains(q) && !is_under(
            p,
            q,
        )) by {
            let j = choose|j: int| 0 <= j < dw.len() && dw[j] == q;
            if j < head.len() {
                assert(q == dirs[0]);
            } else {
                assert(dirs_without(dirs.skip(1), p)[j - head.len()] == q);
                assert(dirs_without(dirs.skip(1), p).contains(q));
                assert(dirs.skip(1).contains(q) ==> dirs.contains(q)) by {
                    if dirs.skip(1).contains(q) {
                        let m = choose|m: int|
                            0 <= m < dirs.skip(1).len() && dirs.skip(1)[m] == q;
                        assert(dirs[m + 1] == q);
                    }
                }
            }
        }
        assert forall|q: SegPath| (dirs.contains(q) && !is_under(p, q)) implies #[trigger] dw
            .contains(q) by {
            let j = choose|j: int| 0 <= j < dirs.len() && dirs[j] == q;
            if j == 0 {
                assert(dw[0] == q);
            } else {
                assert(dirs.skip(1)[j - 1] == q);
                assert(dirs.skip(1).contains(q));
                assert(dirs_without(dirs.skip(1), p).contains(q));
                let m = choose|m: int|
                    0 <= m < dirs_without(dirs.skip(1), p).len() && dirs_without(dirs.skip(1), p)[m]
                        == q;
                assert(dw[head.len() + m] == q);
            }
        }
    }
}

/// Removing a subtree removes exactly the entries at or under `p`:
/// any other key still finds what it found before.
pub proof fn lemma_files_without_find(files: Files, p: SegPath)
    ensures
        forall|q: SegPath|
            #[trigger] find_entry(files_without(files, p), q) == (if is_under(p, q) {
                Option::<Seq<u8>>::None
            } else {
                find_entry(files, q)
            }),
    decreases files.len(),
{
    if files.len() > 0 {
        lemma_files_without_find(files.skip(1), p);
        let fw = files_without(files, p);
        assert forall|q: SegPath| #[trigger] find_entry(fw, q) == (if is_under(p, q) {
            Option::<Seq<u8>>::None
        } else {
            find_entry(files, q)
        }) by {
            if is_under(p, files[0].0) {
                assert(fw =~= files_without(files.skip(1), p));
                if !is_under(p, q) {
                    assert(files[0].0 != q);
                }
            } else {
                assert(fw[0] == files[0]);
                assert(fw.skip(1) =~= files_without(files.skip(1), p));
                if files[0].0 == q {
                } else {
                    assert(find_entry(fw, q) == find_entry(files_without(files.skip(1), p), q));
                }
            }
        }
    }
}

/// The entries that survive the removal of a subtree were there before.
pub proof fn lemma_files_without_membership(files: Files, p: SegPath)
    ensures
        forall|e: (SegPath, Seq<u8>)|
            #[trigger] files_without(files, p).contains(e) ==> files.contains(e) && !is_under(
                p,
                e.0,
            ),
    decreases files.len(),
{
    if files.len() > 0 {
        lemma_files_without_membership(files.skip(1), p);
        let fw = files_without(files, p);
        let head = if is_under(p, files[0].0) {
            Seq::<(SegPath, Seq<u8>)>::empty()
        } else {
            seq![files[0]]
        };
        assert forall|e: (SegPath, Seq<u8>)| #[trigger] fw.contains(e) implies files.contains(e)
            && !is_under(p, e.0) by {
            let j = choose|j: int| 0 <= j < fw.len() && fw[j] == e;
            if j < head.len() {
                assert(e == files[0]);
            } else {
                assert(files_without(files.skip(1), p)[j - head.len()] == e);
                assert(files_without(files.skip(1), p).contains(e));
                let m = choose|m: int|
                    0 <= m < files.skip(1).len() && files.skip(1)[m] == e;
                assert(files[m + 1] == e);
            }
        }
    }
}

/// File keys stay distinct when a subtree is removed.
pub proof fn lemma_files_without_distinct(files: Files, p: SegPath)
    requires
        distinct_keys(files),
    ensures
        distinct_keys(files_without(files, p)),
    decreases files.len(),
{
    if files.len() > 0 {
        assert(forall|i: int| 0 <= i < files.skip(1).len() ==> files.skip(1)[i] == files[i + 1]);
        lemma_files_without_distinct(files.skip(1), p);
        let fw = files_without(files, p);
        let tail = files_without(files.skip(1), p);
        if !is_under(p, files[0].0) {
            lemma_files_without_membership(files.skip(1), p);
            assert forall|j: int| 0 < j < fw.len() implies (#[trigger] fw[j]).0 != fw[0].0 by {
                assert(fw[0] == files[0]);
                assert(tail[j - 1] == fw[j]);
                assert(tail.contains(fw[j]));
                let m = choose|m: int|
                    0 <= m < files.skip(1).len() && files.skip(1)[m] == fw[j];
                assert(files[m + 1] == fw[j]);
            }
            assert(forall|i: int| 0 <= i < tail.len() ==> fw[i + 1] == tail[i]);
        } else {
            assert(fw =~= tail);
        }
    }
}

/// Removing a subtree keeps the model well-formed.
pub proof fn lemma_clear_wf(files: Files, dirs: Seq<SegPath>, p: SegPath)
    requires
        tree_wf(files, dirs),
    ensures
        tree_wf(files_without(files, p), dirs_without(dirs, p)),
{
    let f2 = files_without(files, p);
    let d2 = dirs_without(dirs, p);
    lemma_dirs_without_membership(dirs, p);
    lemma_files_without_membership(files, p);
    lemma_files_without_distinct(files, p);
    assert forall|i: int| 0 <= i < d2.len() implies (#[trigger] d2[i]).len() > 0 && (forall|k: int|
        1 <= k < d2[i].len() ==> has_dir(d2, #[trigger] d2[i].take(k))) by {
        assert(d2.contains(d2[i]));
        let q = d2[i];
        assert(dirs.contains(q) && !is_under(p, q));
        let j = choose|j: int| 0 <= j < dirs.len() && dirs[j] == q;
        assert forall|k: int| 1 <= k < q.len() implies has_dir(d2, #[trigger] q.take(k)) by {
            assert(has_dir(dirs, q.take(k)));
            assert(!is_under(p, q.take(k))) by {
                if is_under(p, q.take(k)) {
                    lemma_under_take(p, q, k);
                }
            }
        }
    }
    assert forall|i: int| 0 <= i < f2.len() implies (#[trigger] f2[i].0).len() > 0 && !has_dir(
        d2,
        f2[i].0,
    ) && (forall|k: int| 1 <= k < f2[i].0.len() ==> has_dir(d2, #[trigger] f2[i].0.take(k))) by {
        assert(f2.contains(f2[i]));
        let e = f2[i];
        assert(files.contains(e) && !is_under(p, e.0));
        let j = choose|j: int| 0 <= j < files.len() && files[j] == e;
        assert(!has_dir(d2, e.0));
        assert forall|k: int| 1 <= k < e.0.len() implies has_dir(d2, #[trigger] e.0.take(k)) by {
            assert(has_dir(dirs, e.0.take(k)));
            assert(!is_under(p, e.0.take(k))) by {
                if is_under(p, e.0.take(k)) {
                    lemma_under_take(p, e.0, k);
                }
            }
        }
    }
}

/// Writing a file at a writable path keeps the model well-formed.
pub proof fn lemma_file_put_wf(files: Files, dirs: Seq<SegPath>, segs: SegPath, bytes: Seq<u8>)
    requires
        tree_wf(files, dirs),
        file_writable(dirs, segs),
    ensures
        tree_wf(crate::entries::entry_put(files, segs, bytes), dirs),
{
    let f2 = crate::entries::entry_put(files, segs, bytes);
    crate::entries::lemma_put_distinct(files, segs, bytes);
    assert forall|k: int| 1 <= k < segs.len() implies has_dir(dirs, #[trigger] segs.take(k)) by {
        let parent = segs.drop_last();
        let j = choose|j: int| 0 <= j < dirs.len() && dirs[j] == parent;
        if k == segs.len() - 1 {
            assert(segs.take(k) =~= parent);
        } else {
            assert(has_dir(dirs, parent.take(k)));
            assert(parent.take(k) =~= segs.take(k));
        }
    }
    if has_entry(files, segs) {
        lemma_has_entry_index(files, segs);
        let i = crate::entries::least_match(files, segs);
        crate::entries::lemma_least_match(files, segs);
        crate::entries::lemma_first_index(files, segs, bytes, i);
        assert(f2 =~= files.update(i, (segs, bytes)));
        assert(forall|m: int| 0 <= m < f2.len() && m != i ==> f2[m] == files[m]);
    } else {
        assert(forall|m: int| 0 <= m < files.len() ==> (#[trigger] files[m]).0 != segs) by {
            if exists|m: int| 0 <= m < files.len() && (#[trigger] files[m]).0 == segs {
                let m = choose|m: int| 0 <= m < files.len() && (#[trigger] files[m]).0 == segs;
                lemma_has_entry_at(files, m);
            }
        }
        crate::entries::lemma_no_match(files, segs, bytes);
        assert(f2 =~= files.push((segs, bytes)));
    }
}

/// Deleting a file keeps the model well-formed.
pub proof fn lemma_file_del_wf(files: Files, dirs: Seq<SegPath>, segs: SegPath)
    requires
        tree_wf(files, dirs),
    ensures
        tree_wf(crate::entries::entry_del(files, segs), dirs),
{
    let f2 = crate::entries::entry_del(files, segs);
    crate::entries::lemma_del_distinct(files, segs);
    if has_entry(files, segs) {
        lemma_has_entry_index(files, segs);
        let i = crate::entries::least_match(files, segs);
        crate::entries::lemma_least_match(files, segs);
        crate::entries::lemma_first_index(files, segs, files[i].1, i);
        assert(f2 =~= files.take(i) + files.skip(i + 1));
        assert(forall|m: int| 0 <= m < f2.len() ==> f2[m] == (if m < i {
            files[m]
        } else {
            files[m + 1]
        }));
    } else {
        assert(forall|m: int| 0 <= m < files.len() ==> (#[trigger] files[m]).0 != segs) by {
            if exists|m: int| 0 <= m < files.len() && (#[trigger] files[m]).0 == segs {
                let m = choose|m: int| 0 <= m < files.len() && (#[trigger] files[m]).0 == segs;
                lemma_has_entry_at(files, m);
            }
        }
        crate::entries::lemma_no_match(files, segs, Seq::<u8>::empty());
        assert(f2 =~= files);
    }
}

/// How many directories lie at or under `p`.
pub open spec fn count_under(dirs: Seq<SegPath>, p: SegPath) -> nat
    decreases dirs.len(),
{
    if dirs.len() == 0 {
        0
    } else {
        (if is_under(p, dirs[0]) {
            1nat
        } else {
            0nat
        }) + count_under(dirs.skip(1), p)
    }
}

/// A narrower region never holds more directories.
pub proof fn lemma_count_under_le(dirs: Seq<SegPath>, p: SegPath, c: SegPath)
    requires
        forall|q: SegPath| is_under(c, q) ==> is_under(p, q),
    ensures
        count_under(dirs, c) <= count_under(dirs, p),
    decreases dirs.len(),
{
    if dirs.len() > 0 {
        lemma_count_under_le(dirs.skip(1), p, c);
    }
}

/// A child region holds strictly fewer directories than its parent's,
/// witnessed by any directory under the parent but outside the child.
pub proof fn lemma_count_under_lt(dirs: Seq<SegPath>, p: SegPath, c: SegPath, wit: SegPath)
    requires
        forall|q: SegPath| is_under(c, q) ==> is_under(p, q),
        dirs.contains(wit),
        is_under(p, wit),
        !is_under(c, wit),
    ensures
        count_under(dirs, c) < count_under(dirs, p),
    decreases dirs.len(),
{
    if dirs[0] == wit {
        lemma_count_under_le(dirs.skip(1), p, c);
    } else {
        let j = choose|j: int| 0 <= j < dirs.len() && dirs[j] == wit;
        assert(dirs.skip(1)[j - 1] == wit);
        assert(dirs.skip(1).contains(wit));
        lemma_count_under_lt(dirs.skip(1), p, c, wit);
    }
}

/// A key that `has_entry` finds sits at some index.
pub proof fn lemma_has_entry_index<K, T>(es: Seq<(K, T)>, key: K)
    requires
        has_entry(es, key),
    ensures
        exists|i: int| 0 <= i < es.len() && (#[trigger] es[i]).0 == key,
    decreases es.len(),
{
    if es.len() > 0 {
        if es[0].0 == key {
            assert(es[0].0 == key);
        } else {
            lemma_has_entry_index(es.skip(1), key);
            let i = choose|i: int| 0 <= i < es.skip(1).len() && (#[trigger] es.skip(1)[i]).0 == key;
            assert(es[i + 1] == es.skip(1)[i]);
        }
    }
}

/// Membership in a concatenation is membership in either part.
pub proof fn lemma_contains_concat<T>(a: Seq<T>, b: Seq<T>)
    ensures
        forall|x: T| #[trigger] (a + b).contains(x) <==> a.contains(x) || b.contains(x),
{
    assert forall|x: T| #[trigger] (a + b).contains(x) implies a.contains(x) || b.contains(x) by {
        let j = choose|j: int| 0 <= j < (a + b).len() && (a + b)[j] == x;
        if j < a.len() {
            assert(a[j] == x);
        } else {
            assert(b[j - a.len()] == x);
        }
    }
    assert forall|x: T| a.contains(x) || b.contains(x) implies #[trigger] (a + b).contains(x) by {
        if a.contains(x) {
            let j = choose|j: int| 0 <= j < a.len() && a[j] == x;
            assert((a + b)[j] == x);
        } else {
            let j = choose|j: int| 0 <= j < b.len() && b[j] == x;
            assert((a + b)[a.len() + j] == x);
        }
    }
}

/// What the subtree at `abs` lists: the listings of its child
/// directories, and its own files.
pub proof fn lemma_listed_decompose(files: Files, dirs: Seq<SegPath>, abs: SegPath, relp: SegPath)
    requires
        tree_wf(files, dirs),
    ensures
        forall|s: Seq<char>|
            #[trigger] listed(files, abs, relp, s) <==> ((exists|j: int|
                #![auto]
                0 <= j < dirs.len() && is_child(abs, dirs[j]) && listed(
                    files,
                    dirs[j],
                    relp.push(dirs[j].last()),
                    s,
                )) || (exists|j: int|
                #![auto]
                0 <= j < files.len() && is_child(abs, files[j].0) && s == joined(
                    relp.push(files[j].0.last()),
                ))),
{
    let a = abs.len() as int;
    assert forall|s: Seq<char>| #[trigger] listed(files, abs, relp, s) implies ((exists|j: int|
        #![auto]
        0 <= j < dirs.len() && is_child(abs, dirs[j]) && listed(
            files,
            dirs[j],
            relp.push(dirs[j].last()),
            s,
        )) || (exists|j: int|
        #![auto]
        0 <= j < files.len() && is_child(abs, files[j].0) && s == joined(
            relp.push(files[j].0.last()),
        ))) by {
        let q = choose|q: SegPath|
            #![auto]
            has_entry(files, q) && is_under(abs, q) && q.len() > abs.len() && s == joined(
                relp + q.skip(a),
            );
        lemma_has_entry_index(files, q);
        let fi = choose|i: int| 0 <= i < files.len() && (#[trigger] files[i]).0 == q;
        if q.len() == abs.len() + 1 {
            assert(is_child(abs, q));
            assert(q.skip(a) =~= seq![q.last()]);
            assert(relp + q.skip(a) =~= relp.push(q.last()));
        } else {
            let c = q.take(a + 1);
            assert(has_dir(dirs, c));
            let j = choose|j: int| 0 <= j < dirs.len() && dirs[j] == c;
            assert(c.take(a) =~= q.take(a));
            assert(is_child(abs, c));
            assert(is_under(c, q)) by {
                assert(q.take(c.len() as int) == c);
            }
            assert(c.last() == q[a]);
            assert(relp.push(c.last()) + q.skip(a + 1) =~= relp + q.skip(a));
            assert(listed(files, c, relp.push(c.last()), s));
        }
    }
    assert forall|s: Seq<char>|
        ((exists|j: int|
            #![auto]
            0 <= j < dirs.len() && is_child(abs, dirs[j]) && listed(
                files,
                dirs[j],
                relp.push(dirs[j].last()),
                s,
            )) || (exists|j: int|
            #![auto]
            0 <= j < files.len() && is_child(abs, files[j].0) && s == joined(
                relp.push(files[j].0.last()),
            ))) implies #[trigger] listed(files, abs, relp, s) by {
        if exists|j: int|
            #![auto]
            0 <= j < dirs.len() && is_child(abs, dirs[j]) && listed(
                files,
                dirs[j],
                relp.push(dirs[j].last()),
                s,
            ) {
            let j = choose|j: int|
                #![auto]
                0 <= j < dirs.len() && is_child(abs, dirs[j]) && listed(
                    files,
                    dirs[j],
                    relp.push(dirs[j].last()),
                    s,
                );
            let c = dirs[j];
            let q = choose|q: SegPath|
                #![auto]
                has_entry(files, q) && is_under(c, q) && q.len() > c.len() && s == joined(
                    relp.push(c.last()) + q.skip(c.len() as int),
                );
            assert(is_under(abs, q)) by {
                assert(q.take(a) =~= q.take(c.len() as int).take(a));
            }
            assert(q[a] == c[a]) by {
                assert(q.take(c.len() as int) == c);
            }
            assert(relp + q.skip(a) =~= relp.push(c.last()) + q.skip(c.len() as int));
            assert(listed(files, abs, relp, s));
        } else {
            let j = choose|j: int|
                #![auto]
                0 <= j < files.len() && is_child(abs, files[j].0) && s == joined(
                    relp.push(files[j].0.last()),
                );
            let q = files[j].0;
            lemma_has_entry_at(files, j);
            assert(q.skip(a) =~= seq![q.last()]);
            assert(relp + q.skip(a) =~= relp.push(q.last()));
            assert(listed(files, abs, relp, s));
        }
    }
}

/// Everything under a child directory is under the directory itself.
pub proof fn lemma_under_child(p: SegPath, c: SegPath)
    requires
        is_under(p, c),
    ensures
        forall|q: SegPath| is_under(c, q) ==> is_under(p, q),
{
    assert forall|q: SegPath| is_under(c, q) implies is_under(p, q) by {
        assert(q.take(p.len() as int) =~= q.take(c.len() as int).take(p.len() as int));
    }
}


/// The files directly in `abs`, as the traversal emits them: each child
/// file's `/`-joined relative path, in creation order, among the first
/// `j` files.
pub open spec fn file_listing(files: Files, abs: SegPath, relp: SegPath, j: int) -> Seq<Seq<char>>
    decreases j,
{
    if j <= 0 {
        Seq::empty()
    } else {
        file_listing(files, abs, relp, j - 1) + (if 0 <= j - 1 < files.len() && is_child(
            abs,
            files[j - 1].0,
        ) {
            seq![joined(relp.push(files[j - 1].0.last()))]
        } else {
            Seq::empty()
        })
    }
}

/// What the child directories of `abs` among the first `i` directories
/// contribute to the traversal, in creation order: the complete listing
/// of each child's subtree.
pub open spec fn dir_listing(
    files: Files,
    dirs: Seq<SegPath>,
    abs: SegPath,
    relp: SegPath,
    i: int,
) -> Seq<Seq<char>>
    decreases count_under(dirs, abs), i,
    via dir_listing_decreases
{
    if i <= 0 {
        Seq::empty()
    } else {
        dir_listing(files, dirs, abs, relp, i - 1) + (if 0 <= i - 1 < dirs.len() && is_child(
            abs,
            dirs[i - 1],
        ) && has_dir(dirs, abs) {
            subtree_listing(files, dirs, dirs[i - 1], relp.push(dirs[i - 1].last()))
        } else {
            Seq::empty()
        })
    }
}

#[via_fn]
proof fn dir_listing_decreases(
    files: Files,
    dirs: Seq<SegPath>,
    abs: SegPath,
    relp: SegPath,
    i: int,
) {
    if i > 0 && 0 <= i - 1 < dirs.len() && is_child(abs, dirs[i - 1]) && has_dir(dirs, abs) {
        let child = dirs[i - 1];
        assert(is_under(abs, child));
        lemma_under_child(abs, child);
        assert(is_under(abs, abs)) by {
            assert(abs.take(abs.len() as int) =~= abs);
        }
        assert(!is_under(child, abs));
        lemma_count_under_lt(dirs, abs, child, abs);
    }
}

/// The complete depth-first listing of the subtree at `abs`, reached
/// under the relative prefix `relp`: the listings of its child
/// directories in creation order, then its own files in creation order,
/// each file as its `/`-joined relative path.
pub open spec fn subtree_listing(
    files: Files,
    dirs: Seq<SegPath>,
    abs: SegPath,
    relp: SegPath,
) -> Seq<Seq<char>>
    decreases count_under(dirs, abs), dirs.len() + 1,
{
    dir_listing(files, dirs, abs, relp, dirs.len() as int) + file_listing(
        files,
        abs,
        relp,
        files.len() as int,
    )
}


/// Splitting a joined path recovers its segments, when every segment is
/// non-empty and separator-free — as every segment a resolution
/// produces is.
pub proof fn lemma_segments_of_joined(p: SegPath)
    requires
        forall|i: int| 0 <= i < p.len() ==> (#[trigger] p[i]).len() > 0 && sep_free(p[i]),
    ensures
        segments_of(joined(p)) == p,
    decreases p.len(),
{
    if p.len() == 0 {
        assert(segments_of(joined(p)) =~= p);
    } else if p.len() == 1 {
        lemma_segments_of_sep_free(p[0]);
        assert(joined(p) == p[0]);
        assert(seq![p[0]] =~= p);
    } else {
        assert(forall|i: int|
            0 <= i < p.drop_last().len() ==> #[trigger] p.drop_last()[i] == p[i]);
        lemma_segments_of_joined(p.drop_last());
        lemma_segments_concat(joined(p.drop_last()), p.last());
        lemma_segments_of_sep_free(p.last());
        assert(p.drop_last() + seq![p.last()] =~= p);
    }
}

} // verus!
