//! The hierarchical bucket: a key is an arbitrary `/`-delimited relative
//! path. The bucket root is concatenated with the raw key, the whole
//! path is split into segments, each segment is truncated independently,
//! and every intermediate directory is created on demand while the key
//! is resolved. A trailing separator (or an empty key) makes the final
//! segment count as an intermediate too, so listing an empty key
//! recreates the bucket directory itself.
//!
//! A read resolves its key the same way, so even a lookup may create
//! intermediate directories — an accepted cost of sharing one resolution
//! path, inherited from the store's design.

use core::marker::PhantomData;

use vstd::prelude::*;
use vstd::string::*;

use crate::codec::Codec;
use crate::entries::entry_del;
use crate::entries::entry_put;
use crate::entries::find_entry;
use crate::entries::has_entry;
use crate::entries::lemma_first_index;
use crate::entries::lemma_no_match;
use crate::fs_model::children_of;
use crate::fs_model::count_under;
use crate::fs_model::dir_listing;
use crate::fs_model::dir_child_names;
use crate::fs_model::dir_create;
use crate::fs_model::dirs_without;
use crate::fs_model::file_child_names;
use crate::fs_model::file_writable;
use crate::fs_model::file_listing;
use crate::fs_model::files_without;
use crate::fs_model::has_dir;
use crate::fs_model::is_child;
use crate::fs_model::is_under;
use crate::fs_model::joined;
use crate::fs_model::lemma_clear_wf;
use crate::fs_model::lemma_count_under_lt;
use crate::fs_model::lemma_dir_create_wf;
use crate::fs_model::lemma_has_entry_at;
use crate::fs_model::lemma_listed_decompose;
use crate::fs_model::lemma_under_child;
use crate::fs_model::listed;
use crate::fs_model::prepare_upto;
use crate::fs_model::prepared;
use crate::fs_model::subtree_listing;
use crate::fs_model::tree_wf;
use crate::fs_model::Files;
use crate::fs_model::SegPath;
use crate::paths::ends_in_sep;
use crate::paths::path_ends_in_sep;
use crate::paths::resolve_segments;
use crate::paths::resolved;
use crate::paths::segments_of;
use crate::paths::split_segments;
use crate::Error;

verus! {

/// A hierarchical key space: keys are `/`-delimited relative paths under
/// the bucket root. `V` is the stored value type.
pub struct AnyBucket<V> {
    dir: String,
    max_file_name: Option<usize>,
    files: Vec<(Vec<String>, Vec<u8>)>,
    dirs: Vec<Vec<String>>,
    _v: PhantomData<V>,
}

/// The abstract state of a hierarchical bucket: its root path, the
/// optional segment limit, the stored files and the existing
/// directories.
pub struct AnyBucketView {
    pub dir: Seq<char>,
    pub max_file_name: Option<usize>,
    pub files: Files,
    pub dirs: Seq<SegPath>,
}

impl<V> View for AnyBucket<V> {
    type V = AnyBucketView;

    closed spec fn view(&self) -> AnyBucketView {
        AnyBucketView {
            dir: self.dir@,
            max_file_name: self.max_file_name,
            files: self.files.deep_view(),
            dirs: self.dirs.deep_view(),
        }
    }
}

impl<V> AnyBucket<V> {
    #[verifier::type_invariant]
    spec fn inv(self) -> bool {
        tree_wf(self.files.deep_view(), self.dirs.deep_view())
    }
}

/// Whether two segment paths are equal.
fn path_eq(a: &Vec<String>, b: &Vec<String>) -> (r: bool)
    ensures
        r == (a.deep_view() == b.deep_view()),
{
    if a.len() != b.len() {
        proof {
            assert(a.deep_view().len() == a@.len());
            assert(b.deep_view().len() == b@.len());
        }
        return false;
    }
    let mut i: usize = 0;
    while i < a.len()
        invariant
            a@.len() == b@.len(),
            i <= a@.len(),
            forall|k: int| 0 <= k < i ==> a.deep_view()[k] == b.deep_view()[k],
        decreases a@.len() - i,
    {
        proof {
            assert(a.deep_view()[i as int] == a@[i as int]@);
            assert(b.deep_view()[i as int] == b@[i as int]@);
        }
        if !(a[i] == b[i]) {
            return false;
        }
        i = i + 1;
    }
    proof {
        assert(a.deep_view() =~= b.deep_view());
    }
    true
}

/// Whether the directory `p` exists in `ds`.
fn contains_path(ds: &Vec<Vec<String>>, p: &Vec<String>) -> (r: bool)
    ensures
        r == has_dir(ds.deep_view(), p.deep_view()),
{
    let ghost dd = ds.deep_view();
    let mut i: usize = 0;
    while i < ds.len()
        invariant
            dd == ds.deep_view(),
            dd.len() == ds@.len(),
            i <= ds@.len(),
            forall|k: int| 0 <= k < i ==> dd[k] != p.deep_view(),
        decreases ds@.len() - i,
    {
        proof {
            assert(dd[i as int] == ds@[i as int].deep_view());
        }
        if path_eq(&ds[i], p) {
            return true;
        }
        i = i + 1;
    }
    proof {
        if has_dir(dd, p.deep_view()) {
            let j = choose|j: int| 0 <= j < dd.len() && dd[j] == p.deep_view();
        }
    }
    false
}

/// The index of the first file stored at `p`, if any.
fn find_path_index(files: &Vec<(Vec<String>, Vec<u8>)>, p: &Vec<String>) -> (r: Option<usize>)
    ensures
        match r {
            Option::Some(i) => i < files.deep_view().len() && files.deep_view()[i as int].0
                == p.deep_view() && (forall|k: int|
                0 <= k < i ==> files.deep_view()[k].0 != p.deep_view()),
            Option::None => forall|k: int|
                0 <= k < files.deep_view().len() ==> files.deep_view()[k].0 != p.deep_view(),
        },
{
    let ghost fd = files.deep_view();
    let mut i: usize = 0;
    while i < files.len()
        invariant
            fd == files.deep_view(),
            fd.len() == files@.len(),
            i <= files@.len(),
            forall|k: int| 0 <= k < i ==> fd[k].0 != p.deep_view(),
        decreases files@.len() - i,
    {
        proof {
            assert(fd[i as int] == files@[i as int].deep_view());
        }
        if path_eq(&files[i].0, p) {
            return Option::Some(i);
        }
        i = i + 1;
    }
    Option::None
}

/// A clone of the first `n` segments of a path.
fn prefix_of(segs: &Vec<String>, n: usize) -> (r: Vec<String>)
    requires
        n <= segs@.len(),
    ensures
        r.deep_view() == segs.deep_view().take(n as int),
{
    let mut r: Vec<String> = Vec::new();
    let mut i: usize = 0;
    while i < n
        invariant
            n <= segs@.len(),
            i <= n,
            r.deep_view().len() == i,
            forall|k: int| 0 <= k < i ==> r.deep_view()[k] == segs.deep_view()[k],
        decreases n - i,
    {
        let ghost prev = r.deep_view();
        r.push(segs[i].clone());
        proof {
            assert(segs.deep_view()[i as int] == segs@[i as int]@);
            assert(r.deep_view() =~= prev.push(segs@[i as int]@));
        }
        i = i + 1;
    }
    proof {
        assert(r.deep_view() =~= segs.deep_view().take(n as int));
    }
    r
}

/// The views of the stored file entries.
proof fn bridge_files(files: &Vec<(Vec<String>, Vec<u8>)>)
    ensures
        files.deep_view().len() == files@.len(),
        forall|k: int|
            0 <= k < files@.len() ==> #[trigger] files.deep_view()[k] == (
            files@[k].0.deep_view(),
            files@[k].1@,
            ),
{
    assert(forall|k: int| 0 <= k < files@.len() ==> files.deep_view()[k] == files@[k].deep_view());
}

/// The views of the stored directory paths.
proof fn bridge_dirs(ds: &Vec<Vec<String>>)
    ensures
        ds.deep_view().len() == ds@.len(),
        forall|k: int| 0 <= k < ds@.len() ==> #[trigger] ds.deep_view()[k] == ds@[k].deep_view(),
{
}

impl<V: Codec> AnyBucket<V> {
    /// A bucket rooted at `dir`: the root directory chain exists, as the
    /// store factory created it, and no file is stored yet.
    pub(crate) fn new(dir: String, max_file_name: Option<usize>) -> (r: AnyBucket<V>)
        ensures
            r@.dir == dir@,
            r@.max_file_name == max_file_name,
            r@.files == Seq::<(SegPath, Seq<u8>)>::empty(),
            r@.dirs.len() == segments_of(dir@).len(),
            forall|k: int|
                0 <= k < r@.dirs.len() ==> r@.dirs[k] == segments_of(dir@).take(k + 1),
    {
        let raw = split_segments(dir.as_str());
        let ghost rawd = raw.deep_view();
        let mut dirs: Vec<Vec<String>> = Vec::new();
        let mut i: usize = 0;
        while i < raw.len()
            invariant
                rawd == raw.deep_view(),
                rawd.len() == raw@.len(),
                i <= raw@.len(),
                dirs.deep_view().len() == i,
                forall|k: int| 0 <= k < i ==> dirs.deep_view()[k] == rawd.take(k + 1),
            decreases raw@.len() - i,
        {
            let pfx = prefix_of(&raw, i + 1);
            let ghost prev = dirs.deep_view();
            dirs.push(pfx);
            proof {
                assert(dirs.deep_view() =~= prev.push(rawd.take(i + 1)));
            }
            i = i + 1;
        }
        let files: Vec<(Vec<String>, Vec<u8>)> = Vec::new();
        proof {
            assert(files.deep_view() =~= Seq::<(SegPath, Seq<u8>)>::empty());
            let dd = dirs.deep_view();
            assert forall|j: int| 0 <= j < dd.len() implies (#[trigger] dd[j]).len() > 0 && (
            forall|k: int| 1 <= k < dd[j].len() ==> has_dir(dd, #[trigger] dd[j].take(k))) by {
                assert(dd[j] == rawd.take(j + 1));
                assert(dd[j].len() == j + 1);
                assert forall|k: int| 1 <= k < dd[j].len() implies has_dir(
                    dd,
                    #[trigger] dd[j].take(k),
                ) by {
                    assert(dd[j].take(k) =~= rawd.take(k));
                    assert(dd[k - 1] == rawd.take(k));
                }
            }
        }
        AnyBucket { dir, max_file_name, files, dirs, _v: PhantomData }
    }

    /// The root directory of this bucket.
    pub fn dir(&self) -> (r: String)
        ensures
            r@ == self@.dir,
    {
        self.dir.clone()
    }

    /// The full raw path of a key: the root, a separator, and the key.
    fn full_path(&self, key: &str) -> (r: String)
        ensures
            r@ == self@.dir + seq!['/'] + key@,
    {
        proof {
            reveal_strlit("/");
        }
        let r = self.dir.clone().concat("/").concat(key);
        proof {
            assert(("/")@ =~= seq!['/']);
        }
        r
    }

    /// Resolve a key against the root: the truncated segments of the
    /// full path, and whether the final segment counts as intermediate.
    fn resolve(&self, key: &str) -> (r: (Vec<String>, bool))
        ensures
            ({
                let full = self@.dir + seq!['/'] + key@;
                r.0.deep_view() == resolved(full, self@.max_file_name) && r.1 == ends_in_sep(full)
            }),
    {
        let full = self.full_path(key);
        let ma = path_ends_in_sep(full.as_str());
        let segs = resolve_segments(full.as_str(), self.max_file_name);
        (segs, ma)
    }

    /// The preparation pass: every intermediate prefix of the resolved
    /// path goes through one create-if-absent step, in order; a failed
    /// creation is skipped, deferring the failure to the leaf operation.
    fn prepare(&mut self, segs: &Vec<String>, make_all: bool)
        ensures
            final(self)@.dir == old(self)@.dir,
            final(self)@.max_file_name == old(self)@.max_file_name,
            final(self)@.files == old(self)@.files,
            final(self)@.dirs == prepared(
                old(self)@.dirs,
                old(self)@.files,
                segs.deep_view(),
                make_all,
            ),
    {
        proof {
            use_type_invariant(&*self);
        }
        let ghost dirs0 = self.dirs.deep_view();
        let ghost files0 = self.files.deep_view();
        let ghost segsd = segs.deep_view();
        let bound: usize = if make_all {
            segs.len()
        } else if segs.len() == 0 {
            0
        } else {
            segs.len() - 1
        };
        let mut files_v: Vec<(Vec<String>, Vec<u8>)> = Vec::new();
        core::mem::swap(&mut self.files, &mut files_v);
        proof {
            assert(self.files.deep_view() =~= Seq::<(SegPath, Seq<u8>)>::empty());
        }
        let mut dirs_v: Vec<Vec<String>> = Vec::new();
        core::mem::swap(&mut self.dirs, &mut dirs_v);
        proof {
            assert(self.dirs.deep_view() =~= Seq::<SegPath>::empty());
        }
        let mut pfx: Vec<String> = Vec::new();
        let mut k: usize = 0;
        while k < bound
            invariant
                bound <= segs@.len(),
                k <= bound,
                segsd == segs.deep_view(),
                segsd.len() == segs@.len(),
                files_v.deep_view() == files0,
                pfx.deep_view() == segsd.take(k as int),
                dirs_v.deep_view() == prepare_upto(dirs0, files0, segsd, k as int),
                tree_wf(files0, dirs_v.deep_view()),
            decreases bound - k,
        {
            let ghost dcur = dirs_v.deep_view();
            let parent_present = k == 0 || contains_path(&dirs_v, &pfx);
            pfx.push(segs[k].clone());
            proof {
                assert(segs.deep_view()[k as int] == segs@[k as int]@);
                assert(pfx.deep_view() =~= segsd.take(k as int + 1));
            }
            let in_dirs = contains_path(&dirs_v, &pfx);
            let in_files = find_path_index(&files_v, &pfx).is_some();
            proof {
                let p = segsd.take(k as int + 1);
                if in_files {
                    let i = choose|i: int|
                        0 <= i < files0.len() && files0[i].0 == p && (forall|m: int|
                            0 <= m < i ==> files0[m].0 != p);
                    lemma_has_entry_at(files0, i);
                } else {
                    lemma_no_match(files0, p, Seq::<u8>::empty());
                }
                assert(p.drop_last() =~= segsd.take(k as int));
            }
            if !in_dirs && !in_files && parent_present {
                let ghost prev = dirs_v.deep_view();
                dirs_v.push(pfx.clone());
                proof {
                    assert(dirs_v.deep_view() =~= prev.push(segsd.take(k as int + 1)));
                }
            }
            proof {
                let p = segsd.take(k as int + 1);
                assert(p.len() == k + 1);
                assert(dirs_v.deep_view() == dir_create(dcur, files0, p));
                assert(dirs_v.deep_view() == prepare_upto(dirs0, files0, segsd, k as int + 1));
                lemma_dir_create_wf(dcur, files0, p);
            }
            k = k + 1;
        }
        proof {
            if !make_all && segsd.len() == 0 {
                assert(prepare_upto(dirs0, files0, segsd, -1) == dirs0);
                assert(prepare_upto(dirs0, files0, segsd, 0) == dirs0);
            }
        }
        core::mem::swap(&mut self.dirs, &mut dirs_v);
        proof {
            assert(self.files.deep_view() =~= Seq::<(SegPath, Seq<u8>)>::empty());
        }
        core::mem::swap(&mut self.files, &mut files_v);
    }

    /// Whether a key resolves to an existing file or directory. Even
    /// this check creates the intermediate directories of its key.
    pub fn contains_key(&mut self, key: &str) -> (r: bool)
        ensures
            final(self)@.dir == old(self)@.dir,
            final(self)@.max_file_name == old(self)@.max_file_name,
            final(self)@.files == old(self)@.files,
            final(self)@.dirs == prepared_of(old(self)@, key@),
            r == (has_dir(prepared_of(old(self)@, key@), resolved_of(old(self)@, key@))
                || has_entry(old(self)@.files, resolved_of(old(self)@, key@))),
    {
        let (segs, ma) = self.resolve(key);
        self.prepare(&segs, ma);
        let ghost files0 = self.files.deep_view();
        let ghost segsd = segs.deep_view();
        if contains_path(&self.dirs, &segs) {
            return true;
        }
        let r = find_path_index(&self.files, &segs);
        proof {
            match r {
                Option::Some(i) => lemma_first_index(files0, segsd, files0[i as int].1, i as int),
                Option::None => lemma_no_match(files0, segsd, Seq::<u8>::empty()),
            }
        }
        r.is_some()
    }

    /// Store a value under a key: ancestors are created on demand, then
    /// the leaf file is written. Fails with an I/O error when the leaf
    /// cannot be a file (an empty path, an existing directory, or a
    /// missing parent), or with an encode error from the codec; the
    /// value is encoded before the leaf is touched.
    pub fn put(&mut self, key: &str, value: &V) -> (r: Result<(), Error>)
        ensures
            final(self)@.dir == old(self)@.dir,
            final(self)@.max_file_name == old(self)@.max_file_name,
            final(self)@.dirs == prepared_of(old(self)@, key@),
            ({
                let segs = resolved_of(old(self)@, key@);
                let dirs2 = prepared_of(old(self)@, key@);
                if file_writable(dirs2, segs) {
                    &&& (r is Ok ==> final(self)@.files == entry_put(
                        old(self)@.files,
                        segs,
                        value.encoding(),
                    ))
                    &&& (r matches Err(e) ==> e is Encode && final(self)@.files == old(
                        self,
                    )@.files)
                } else {
                    final(self)@.files == old(self)@.files && (r matches Err(e) && e is Io)
                }
            }),
    {
        let (segs, ma) = self.resolve(key);
        self.prepare(&segs, ma);
        match self.write_leaf_checks(&segs) {
            Ok(()) => {},
            Err(e) => {
                return Err(e);
            },
        }
        let bytes = match value.encode() {
            Ok(b) => b,
            Err(e) => {
                return Err(e);
            },
        };
        self.write_leaf(&segs, bytes);
        Ok(())
    }

    /// Store raw bytes under a key, bypassing the codec.
    pub fn put_raw(&mut self, key: &str, value: &[u8]) -> (r: Result<(), Error>)
        ensures
            final(self)@.dir == old(self)@.dir,
            final(self)@.max_file_name == old(self)@.max_file_name,
            final(self)@.dirs == prepared_of(old(self)@, key@),
            ({
                let segs = resolved_of(old(self)@, key@);
                let dirs2 = prepared_of(old(self)@, key@);
                if file_writable(dirs2, segs) {
                    r is Ok && final(self)@.files == entry_put(old(self)@.files, segs, value@)
                } else {
                    final(self)@.files == old(self)@.files && (r matches Err(e) && e is Io)
                }
            }),
    {
        let (segs, ma) = self.resolve(key);
        self.prepare(&segs, ma);
        match self.write_leaf_checks(&segs) {
            Ok(()) => {},
            Err(e) => {
                return Err(e);
            },
        }
        let bytes = vstd::slice::slice_to_vec(value);
        self.write_leaf(&segs, bytes);
        Ok(())
    }

    /// Whether the resolved leaf can be written as a file, with the
    /// error the filesystem would report when it cannot.
    fn write_leaf_checks(&self, segs: &Vec<String>) -> (r: Result<(), Error>)
        ensures
            r is Ok <==> file_writable(self@.dirs, segs.deep_view()),
            r matches Err(e) ==> e is Io,
    {
        if segs.len() == 0 {
            proof {
                assert(segs.deep_view().len() == segs@.len());
            }
            return Err(Error::Io("empty path".to_owned()));
        }
        proof {
            assert(segs.deep_view().len() == segs@.len());
        }
        if contains_path(&self.dirs, segs) {
            return Err(Error::Io("path is a directory".to_owned()));
        }
        if segs.len() > 1 {
            let parent = prefix_of(segs, segs.len() - 1);
            proof {
                assert(segs.deep_view().take(segs@.len() - 1) =~= segs.deep_view().drop_last());
            }
            if !contains_path(&self.dirs, &parent) {
                return Err(Error::Io("parent directory missing".to_owned()));
            }
        }
        Ok(())
    }

    /// Write the leaf file, overwriting any previous bytes.
    fn write_leaf(&mut self, segs: &Vec<String>, bytes: Vec<u8>)
        requires
            file_writable(old(self)@.dirs, segs.deep_view()),
        ensures
            final(self)@.dir == old(self)@.dir,
            final(self)@.max_file_name == old(self)@.max_file_name,
            final(self)@.dirs == old(self)@.dirs,
            final(self)@.files == entry_put(old(self)@.files, segs.deep_view(), bytes@),
    {
        proof {
            use_type_invariant(&*self);
        }
        let ghost files0 = self.files.deep_view();
        let ghost dirs0 = self.dirs.deep_view();
        let ghost segsd = segs.deep_view();
        let ghost bs = bytes@;
        let idx = find_path_index(&self.files, segs);
        let mut files_v: Vec<(Vec<String>, Vec<u8>)> = Vec::new();
        core::mem::swap(&mut self.files, &mut files_v);
        let name = prefix_of(segs, segs.len());
        proof {
            assert(name.deep_view() =~= segsd);
        }
        match idx {
            Option::Some(i) => {
                files_v.remove(i);
                files_v.insert(i, (name, bytes));
                proof {
                    lemma_first_index(files0, segsd, bs, i as int);
                    bridge_files(&files_v);
                    assert(files_v.deep_view() =~= files0.update(i as int, (segsd, bs)));
                }
            },
            Option::None => {
                files_v.push((name, bytes));
                proof {
                    lemma_no_match(files0, segsd, bs);
                    bridge_files(&files_v);
                    assert(files_v.deep_view() =~= files0.push((segsd, bs)));
                }
            },
        }
        proof {
            crate::fs_model::lemma_file_put_wf(files0, dirs0, segsd, bs);
        }
        core::mem::swap(&mut self.files, &mut files_v);
    }

    /// Load and decode the value stored under a key. A missing entry —
    /// or a directory where the file should be — is an I/O error;
    /// malformed stored bytes are a decode error.
    pub fn get(&mut self, key: &str) -> (r: Result<V, Error>)
        ensures
            final(self)@.dir == old(self)@.dir,
            final(self)@.max_file_name == old(self)@.max_file_name,
            final(self)@.files == old(self)@.files,
            final(self)@.dirs == prepared_of(old(self)@, key@),
            match find_entry(old(self)@.files, resolved_of(old(self)@, key@)) {
                Option::None => r matches Err(e) && e is Io,
                Option::Some(bytes) => (forall|v: V|
                    bytes == v.encoding() ==> (r matches Ok(w) && w == v)) && (r is Ok
                    <==> V::decodable(bytes)) && (r matches Err(e) ==> e is Decode),
            },
    {
        let (segs, ma) = self.resolve(key);
        self.prepare(&segs, ma);
        let ghost files0 = self.files.deep_view();
        let ghost segsd = segs.deep_view();
        match find_path_index(&self.files, &segs) {
            Option::Some(i) => {
                proof {
                    lemma_first_index(files0, segsd, files0[i as int].1, i as int);
                    bridge_files(&self.files);
                }
                V::decode(self.files[i].1.as_slice())
            },
            Option::None => {
                proof {
                    lemma_no_match(files0, segsd, Seq::<u8>::empty());
                }
                Err(Error::Io("entry not found".to_owned()))
            },
        }
    }

    /// Load the raw bytes stored under a key.
    pub fn get_raw(&mut self, key: &str) -> (r: Result<Vec<u8>, Error>)
        ensures
            final(self)@.dir == old(self)@.dir,
            final(self)@.max_file_name == old(self)@.max_file_name,
            final(self)@.files == old(self)@.files,
            final(self)@.dirs == prepared_of(old(self)@, key@),
            match find_entry(old(self)@.files, resolved_of(old(self)@, key@)) {
                Option::None => r matches Err(e) && e is Io,
                Option::Some(bytes) => r matches Ok(b) && b@ == bytes,
            },
    {
        let (segs, ma) = self.resolve(key);
        self.prepare(&segs, ma);
        let ghost files0 = self.files.deep_view();
        let ghost segsd = segs.deep_view();
        match find_path_index(&self.files, &segs) {
            Option::Some(i) => {
                proof {
                    lemma_first_index(files0, segsd, files0[i as int].1, i as int);
                    bridge_files(&self.files);
                }
                Ok(self.files[i].1.clone())
            },
            Option::None => {
                proof {
                    lemma_no_match(files0, segsd, Seq::<u8>::empty());
                }
                Err(Error::Io("entry not found".to_owned()))
            },
        }
    }

    /// Load the first eight stored bytes of a key, zero-padded when the
    /// entry is shorter.
    pub fn read_8(&mut self, key: &str) -> (r: Result<[u8; 8], Error>)
        ensures
            final(self)@.dir == old(self)@.dir,
            final(self)@.max_file_name == old(self)@.max_file_name,
            final(self)@.files == old(self)@.files,
            final(self)@.dirs == prepared_of(old(self)@, key@),
            match find_entry(old(self)@.files, resolved_of(old(self)@, key@)) {
                Option::None => r matches Err(e) && e is Io,
                Option::Some(bytes) => r matches Ok(a) && a@ == first8(bytes),
            },
    {
        let (segs, ma) = self.resolve(key);
        self.prepare(&segs, ma);
        let ghost files0 = self.files.deep_view();
        let ghost segsd = segs.deep_view();
        match find_path_index(&self.files, &segs) {
            Option::Some(i) => {
                proof {
                    lemma_first_index(files0, segsd, files0[i as int].1, i as int);
                    bridge_files(&self.files);
                }
                let bytes = &self.files[i].1;
                let mut a: [u8; 8] = [0u8; 8];
                let mut k: usize = 0;
                while k < 8
                    invariant
                        k <= 8,
                        bytes@ == files0[i as int].1,
                        forall|m: int| 0 <= m < k ==> a@[m] == first8(bytes@)[m],
                    decreases 8 - k,
                {
                    if k < bytes.len() {
                        a[k] = bytes[k];
                    } else {
                        a[k] = 0;
                    }
                    k = k + 1;
                }
                proof {
                    assert(a@ =~= first8(files0[i as int].1));
                }
                Ok(a)
            },
            Option::None => {
                proof {
                    lemma_no_match(files0, segsd, Seq::<u8>::empty());
                }
                Err(Error::Io("entry not found".to_owned()))
            },
        }
    }

    /// Delete the file stored under a key; a missing entry — or a
    /// directory — is an I/O error.
    pub fn remove(&mut self, key: &str) -> (r: Result<(), Error>)
        ensures
            final(self)@.dir == old(self)@.dir,
            final(self)@.max_file_name == old(self)@.max_file_name,
            final(self)@.dirs == prepared_of(old(self)@, key@),
            ({
                let segs = resolved_of(old(self)@, key@);
                if has_entry(old(self)@.files, segs) {
                    r is Ok && final(self)@.files == entry_del(old(self)@.files, segs)
                } else {
                    final(self)@.files == old(self)@.files && (r matches Err(e) && e is Io)
                }
            }),
    {
        let (segs, ma) = self.resolve(key);
        self.prepare(&segs, ma);
        proof {
            use_type_invariant(&*self);
        }
        let ghost files0 = self.files.deep_view();
        let ghost dirs2 = self.dirs.deep_view();
        let ghost segsd = segs.deep_view();
        match find_path_index(&self.files, &segs) {
            Option::Some(i) => {
                let mut files_v: Vec<(Vec<String>, Vec<u8>)> = Vec::new();
                core::mem::swap(&mut self.files, &mut files_v);
                files_v.remove(i);
                proof {
                    lemma_first_index(files0, segsd, files0[i as int].1, i as int);
                    bridge_files(&files_v);
                    assert(files_v.deep_view() =~= files0.take(i as int) + files0.skip(
                        i as int + 1,
                    ));
                    crate::fs_model::lemma_file_del_wf(files0, dirs2, segsd);
                }
                core::mem::swap(&mut self.files, &mut files_v);
                Ok(())
            },
            Option::None => {
                proof {
                    lemma_no_match(files0, segsd, Seq::<u8>::empty());
                }
                Err(Error::Io("entry not found".to_owned()))
            },
        }
    }

    /// The entry names of one directory level: child directories first,
    /// then files, each in creation order. A missing directory is an I/O
    /// error.
    pub fn list(&mut self, dir: &str) -> (r: Result<Vec<String>, Error>)
        ensures
            final(self)@.dir == old(self)@.dir,
            final(self)@.max_file_name == old(self)@.max_file_name,
            final(self)@.files == old(self)@.files,
            final(self)@.dirs == prepared_of(old(self)@, dir@),
            ({
                let segs = resolved_of(old(self)@, dir@);
                let dirs2 = prepared_of(old(self)@, dir@);
                if has_dir(dirs2, segs) {
                    r matches Ok(names) && names.deep_view() == children_of(
                        dirs2,
                        old(self)@.files,
                        segs,
                    )
                } else {
                    r matches Err(e) && e is Io
                }
            }),
    {
        let (segs, ma) = self.resolve(dir);
        self.prepare(&segs, ma);
        let ghost files0 = self.files.deep_view();
        let ghost dirs2 = self.dirs.deep_view();
        let ghost segsd = segs.deep_view();
        if !contains_path(&self.dirs, &segs) {
            return Err(Error::Io("directory not found".to_owned()));
        }
        let mut names: Vec<String> = Vec::new();
        let mut i: usize = 0;
        proof {
            assert(dirs2.skip(0) =~= dirs2);
            assert(names.deep_view() =~= Seq::<Seq<char>>::empty());
            assert(names.deep_view() + dir_child_names(dirs2, segsd) =~= dir_child_names(
                dirs2,
                segsd,
            ));
        }
        while i < self.dirs.len()
            invariant
                dirs2 == self.dirs.deep_view(),
                dirs2.len() == self.dirs@.len(),
                segsd == segs.deep_view(),
                i <= self.dirs@.len(),
                names.deep_view() + dir_child_names(dirs2.skip(i as int), segsd)
                    == dir_child_names(dirs2, segsd),
            decreases self.dirs@.len() - i,
        {
            let ghost prev = names.deep_view();
            proof {
                assert(dirs2.skip(i as int)[0] == dirs2[i as int]);
                assert(dirs2.skip(i as int).skip(1) =~= dirs2.skip(i as int + 1));
                assert(dirs2[i as int] == self.dirs@[i as int].deep_view());
            }
            let d = &self.dirs[i];
            if is_child_path(&segs, d) {
                names.push(d[d.len() - 1].clone());
                proof {
                    assert(self.dirs@[i as int].deep_view()[d@.len() - 1] == d@[d@.len() - 1]@);
                    assert(names.deep_view() =~= prev.push(dirs2[i as int].last()));
                    assert(prev + dir_child_names(dirs2.skip(i as int), segsd) =~= (prev + seq![
                        dirs2[i as int].last(),
                    ]) + dir_child_names(dirs2.skip(i as int + 1), segsd));
                }
            }
            i = i + 1;
        }
        proof {
            assert(dir_child_names(dirs2.skip(dirs2.len() as int), segsd)
                =~= Seq::<Seq<char>>::empty());
            assert(names.deep_view() =~= dir_child_names(dirs2, segsd));
        }
        let ghost dpart = names.deep_view();
        let mut j: usize = 0;
        proof {
            assert(files0.skip(0) =~= files0);
        }
        while j < self.files.len()
            invariant
                files0 == self.files.deep_view(),
                files0.len() == self.files@.len(),
                segsd == segs.deep_view(),
                j <= self.files@.len(),
                names.deep_view() + file_child_names(files0.skip(j as int), segsd) == dpart
                    + file_child_names(files0, segsd),
            decreases self.files@.len() - j,
        {
            let ghost prev = names.deep_view();
            proof {
                assert(files0.skip(j as int)[0] == files0[j as int]);
                assert(files0.skip(j as int).skip(1) =~= files0.skip(j as int + 1));
                assert(files0[j as int] == self.files@[j as int].deep_view());
            }
            let f = &self.files[j].0;
            if is_child_path(&segs, f) {
                names.push(f[f.len() - 1].clone());
                proof {
                    assert(self.files@[j as int].0.deep_view()[f@.len() - 1] == f@[f@.len() - 1]@);
                    assert(names.deep_view() =~= prev.push(files0[j as int].0.last()));
                    assert(prev + file_child_names(files0.skip(j as int), segsd) =~= (prev + seq![
                        files0[j as int].0.last(),
                    ]) + file_child_names(files0.skip(j as int + 1), segsd));
                }
            }
            j = j + 1;
        }
        proof {
            assert(file_child_names(files0.skip(files0.len() as int), segsd)
                =~= Seq::<Seq<char>>::empty());
            assert(names.deep_view() =~= children_of(dirs2, files0, segsd));
        }
        Ok(names)
    }

    /// Remove the bucket root directory with everything under it; the
    /// raw root path is used as it stands, with no truncation. A missing
    /// root is an I/O error.
    pub fn clear(&mut self) -> (r: Result<(), Error>)
        ensures
            final(self)@.dir == old(self)@.dir,
            final(self)@.max_file_name == old(self)@.max_file_name,
            ({
                let p = segments_of(old(self)@.dir);
                if has_dir(old(self)@.dirs, p) {
                    &&& r is Ok
                    &&& final(self)@.dirs == dirs_without(old(self)@.dirs, p)
                    &&& final(self)@.files == files_without(old(self)@.files, p)
                } else {
                    final(self)@.dirs == old(self)@.dirs && final(self)@.files == old(self)@.files
                        && (r matches Err(e) && e is Io)
                }
            }),
    {
        proof {
            use_type_invariant(&*self);
        }
        let raw = split_segments(self.dir.as_str());
        let ghost p = segments_of(self.dir@);
        let ghost files0 = self.files.deep_view();
        let ghost dirs0 = self.dirs.deep_view();
        if !contains_path(&self.dirs, &raw) {
            return Err(Error::Io("bucket directory does not exist".to_owned()));
        }
        let mut files_v: Vec<(Vec<String>, Vec<u8>)> = Vec::new();
        core::mem::swap(&mut self.files, &mut files_v);
        proof {
            assert(self.files.deep_view() =~= Seq::<(SegPath, Seq<u8>)>::empty());
        }
        let mut dirs_v: Vec<Vec<String>> = Vec::new();
        core::mem::swap(&mut self.dirs, &mut dirs_v);
        let mut nd: Vec<Vec<String>> = Vec::new();
        let mut i: usize = 0;
        proof {
            assert(dirs0.skip(0) =~= dirs0);
            assert(nd.deep_view() =~= Seq::<SegPath>::empty());
            assert(nd.deep_view() + dirs_without(dirs0, p) =~= dirs_without(dirs0, p));
        }
        while i < dirs_v.len()
            invariant
                dirs0 == dirs_v.deep_view(),
                dirs0.len() == dirs_v@.len(),
                p == raw.deep_view(),
                i <= dirs_v@.len(),
                nd.deep_view() + dirs_without(dirs0.skip(i as int), p) == dirs_without(dirs0, p),
            decreases dirs_v@.len() - i,
        {
            let ghost prev = nd.deep_view();
            proof {
                assert(dirs0.skip(i as int)[0] == dirs0[i as int]);
                assert(dirs0.skip(i as int).skip(1) =~= dirs0.skip(i as int + 1));
                assert(dirs0[i as int] == dirs_v@[i as int].deep_view());
            }
            if !is_under_path(&raw, &dirs_v[i]) {
                nd.push(dirs_v[i].clone());
                proof {
                    assert(nd.deep_view() =~= prev.push(dirs0[i as int]));
                    assert(prev + dirs_without(dirs0.skip(i as int), p) =~= (prev + seq![
                        dirs0[i as int],
                    ]) + dirs_without(dirs0.skip(i as int + 1), p));
                }
            }
            i = i + 1;
        }
        proof {
            assert(dirs_without(dirs0.skip(dirs0.len() as int), p) =~= Seq::<SegPath>::empty());
            assert(nd.deep_view() =~= dirs_without(dirs0, p));
        }
        let mut nf: Vec<(Vec<String>, Vec<u8>)> = Vec::new();
        let mut j: usize = 0;
        proof {
            assert(files0.skip(0) =~= files0);
            assert(nf.deep_view() =~= Files::empty());
            assert(nf.deep_view() + files_without(files0, p) =~= files_without(files0, p));
        }
        while j < files_v.len()
            invariant
                files0 == files_v.deep_view(),
                files0.len() == files_v@.len(),
                p == raw.deep_view(),
                j <= files_v@.len(),
                nf.deep_view() + files_without(files0.skip(j as int), p) == files_without(
                    files0,
                    p,
                ),
            decreases files_v@.len() - j,
        {
            let ghost prev = nf.deep_view();
            proof {
                assert(files0.skip(j as int)[0] == files0[j as int]);
                assert(files0.skip(j as int).skip(1) =~= files0.skip(j as int + 1));
                assert(files0[j as int] == files_v@[j as int].deep_view());
            }
            if !is_under_path(&raw, &files_v[j].0) {
                let name = prefix_of(&files_v[j].0, files_v[j].0.len());
                let data = files_v[j].1.clone();
                nf.push((name, data));
                proof {
                    assert(name.deep_view() =~= files0[j as int].0);
                    bridge_files(&nf);
                    assert(nf.deep_view() =~= prev.push(files0[j as int]));
                    assert(prev + files_without(files0.skip(j as int), p) =~= (prev + seq![
                        files0[j as int],
                    ]) + files_without(files0.skip(j as int + 1), p));
                }
            }
            j = j + 1;
        }
        proof {
            assert(files_without(files0.skip(files0.len() as int), p) =~= Files::empty());
            assert(nf.deep_view() =~= files_without(files0, p));
            lemma_clear_wf(files0, dirs0, p);
        }
        core::mem::swap(&mut self.dirs, &mut nd);
        core::mem::swap(&mut self.files, &mut nf);
        Ok(())
    }
}

impl<V: Codec> AnyBucket<V> {
    /// Depth-first traversal from `at`: the `/`-joined relative path of
    /// every file strictly below it, emitted exactly once, child
    /// directories before the files of each level and each level in
    /// creation order — the sequence `subtree_listing` describes. `rel`
    /// is the relative prefix reached so far, whose segments are `relp`.
    #[verifier::loop_isolation(false)]
    fn list_recursive(&self, at: &Vec<String>, rel: &Option<String>, Ghost(relp): Ghost<SegPath>) -> (r: Vec<
        String,
    >)
        requires
            has_dir(self@.dirs, at.deep_view()),
            rel matches Some(s) ==> s@ == joined(relp) && relp.len() > 0,
            rel is None ==> relp == Seq::<Seq<char>>::empty(),
        ensures
            r.deep_view() == subtree_listing(self@.files, self@.dirs, at.deep_view(), relp),
            forall|s: Seq<char>|
                #[trigger] r.deep_view().contains(s) <==> listed(
                    self@.files,
                    at.deep_view(),
                    relp,
                    s,
                ),
        decreases count_under(self@.dirs, at.deep_view()),
    {
        proof {
            use_type_invariant(self);
        }
        let ghost files0 = self.files.deep_view();
        let ghost dirs0 = self.dirs.deep_view();
        let ghost atd = at.deep_view();
        proof {
            lemma_listed_decompose(files0, dirs0, atd, relp);
            bridge_files(&self.files);
            bridge_dirs(&self.dirs);
        }
        let mut out: Vec<String> = Vec::new();
        let mut i: usize = 0;
        proof {
            assert(out.deep_view() =~= Seq::<Seq<char>>::empty());
        }
        while i < self.dirs.len()
            invariant
                i <= self.dirs@.len(),
                out.deep_view() == dir_listing(files0, dirs0, atd, relp, i as int),
                forall|s: Seq<char>|
                    #[trigger] out.deep_view().contains(s) <==> exists|j: int|
                        #![auto]
                        0 <= j < i && is_child(atd, dirs0[j]) && listed(
                            files0,
                            dirs0[j],
                            relp.push(dirs0[j].last()),
                            s,
                        ),
            decreases self.dirs@.len() - i,
        {
            let ghost prev = out.deep_view();
            let d = &self.dirs[i];
            proof {
                assert(dirs0[i as int] == self.dirs@[i as int].deep_view());
            }
            if is_child_path(at, d) {
                let ghost childd = dirs0[i as int];
                let name = &d[d.len() - 1];
                proof {
                    assert(name@ == childd.last());
                }
                let child_rel: Option<String> = match rel {
                    Option::None => Option::Some(name.clone()),
                    Option::Some(rs) => Option::Some(rs.clone().concat("/").concat(name.as_str())),
                };
                proof {
                    reveal_strlit("/");
                    assert(("/")@ =~= seq!['/']);
                    let cp = relp.push(childd.last());
                    if relp.len() == 0 {
                        assert(cp =~= seq![childd.last()]);
                        assert(joined(cp) == childd.last());
                    } else {
                        assert(cp.drop_last() =~= relp);
                        assert(joined(cp) == joined(relp) + seq!['/'] + childd.last());
                    }
                    assert(child_rel matches Some(s) ==> s@ == joined(cp));
                    // the child region is strictly smaller
                    assert(is_under(atd, childd));
                    lemma_under_child(atd, childd);
                    assert(is_under(atd, atd)) by {
                        assert(atd.take(atd.len() as int) =~= atd);
                    }
                    assert(!is_under(childd, atd));
                    lemma_count_under_lt(dirs0, atd, childd, atd);
                    assert(has_dir(dirs0, childd));
                }
                let sub = self.list_recursive(
                    d,
                    &child_rel,
                    Ghost(relp.push(dirs0[i as int].last())),
                );
                let ghost subd = sub.deep_view();
                append_all(&mut out, sub);
                proof {
                    crate::fs_model::lemma_contains_concat(prev, subd);
                    assert(out.deep_view() =~= dir_listing(files0, dirs0, atd, relp, i as int + 1));
                }
            } else {
                proof {
                    assert(out.deep_view() =~= dir_listing(files0, dirs0, atd, relp, i as int + 1));
                }
            }
            proof {
                assert forall|s: Seq<char>| #[trigger] out.deep_view().contains(s) implies exists|
                    j: int,
                |
                    #![auto]
                    0 <= j < i + 1 && is_child(atd, dirs0[j]) && listed(
                        files0,
                        dirs0[j],
                        relp.push(dirs0[j].last()),
                        s,
                    ) by {
                    if prev.contains(s) {
                        let j = choose|j: int|
                            #![auto]
                            0 <= j < i && is_child(atd, dirs0[j]) && listed(
                                files0,
                                dirs0[j],
                                relp.push(dirs0[j].last()),
                                s,
                            );
                        assert(0 <= j < i + 1 && is_child(atd, dirs0[j]) && listed(
                            files0,
                            dirs0[j],
                            relp.push(dirs0[j].last()),
                            s,
                        ));
                    }
                }
            }
            i = i + 1;
        }
        let ghost dir_out = out.deep_view();
        let mut j: usize = 0;
        proof {
            assert(dir_out == dir_listing(files0, dirs0, atd, relp, dirs0.len() as int));
            assert(out.deep_view() =~= dir_out + file_listing(files0, atd, relp, 0));
        }
        while j < self.files.len()
            invariant
                j <= self.files@.len(),
                dir_out == dir_listing(files0, dirs0, atd, relp, dirs0.len() as int),
                out.deep_view() == dir_out + file_listing(files0, atd, relp, j as int),
                forall|s: Seq<char>|
                    #[trigger] out.deep_view().contains(s) <==> dir_out.contains(s) || (exists|
                        jj: int,
                    |
                        #![auto]
                        0 <= jj < j && is_child(atd, files0[jj].0) && s == joined(
                            relp.push(files0[jj].0.last()),
                        )),
            decreases self.files@.len() - j,
        {
            let ghost prev = out.deep_view();
            let f = &self.files[j].0;
            proof {
                assert(files0[j as int] == self.files@[j as int].deep_view());
            }
            if is_child_path(at, f) {
                let ghost fp = files0[j as int].0;
                let name = &f[f.len() - 1];
                proof {
                    assert(name@ == fp.last());
                }
                let emitted: String = match rel {
                    Option::None => name.clone(),
                    Option::Some(rs) => rs.clone().concat("/").concat(name.as_str()),
                };
                proof {
                    reveal_strlit("/");
                    assert(("/")@ =~= seq!['/']);
                    let cp = relp.push(fp.last());
                    if relp.len() == 0 {
                        assert(cp =~= seq![fp.last()]);
                        assert(joined(cp) == fp.last());
                    } else {
                        assert(cp.drop_last() =~= relp);
                        assert(joined(cp) == joined(relp) + seq!['/'] + fp.last());
                    }
                    assert(emitted@ == joined(cp));
                }
                out.push(emitted);
                proof {
                    assert(out.deep_view() =~= prev + seq![joined(relp.push(fp.last()))]);
                    crate::fs_model::lemma_contains_concat(
                        prev,
                        seq![joined(relp.push(fp.last()))],
                    );
                    assert(seq![joined(relp.push(fp.last()))][0] == joined(relp.push(fp.last())));
                    assert(out.deep_view() =~= dir_out + file_listing(
                        files0,
                        atd,
                        relp,
                        j as int + 1,
                    ));
                }
            } else {
                proof {
                    assert(out.deep_view() =~= dir_out + file_listing(
                        files0,
                        atd,
                        relp,
                        j as int + 1,
                    ));
                }
            }
            proof {
                assert forall|s: Seq<char>| #[trigger] out.deep_view().contains(s) implies (
                dir_out.contains(s) || exists|jj: int|
                    #![auto]
                    0 <= jj < j + 1 && is_child(atd, files0[jj].0) && s == joined(
                        relp.push(files0[jj].0.last()),
                    )) by {
                    if !dir_out.contains(s) && prev.contains(s) {
                        let jj = choose|jj: int|
                            #![auto]
                            0 <= jj < j && is_child(atd, files0[jj].0) && s == joined(
                                relp.push(files0[jj].0.last()),
                            );
                        assert(0 <= jj < j + 1 && is_child(atd, files0[jj].0) && s == joined(
                            relp.push(files0[jj].0.last()),
                        ));
                    }
                }
            }
            j = j + 1;
        }
        proof {
            assert(out.deep_view() =~= subtree_listing(files0, dirs0, atd, relp));
        }
        out
    }

    /// Every key of the bucket, each exactly once: the relative path of
    /// each file in the whole subtree, depth first — child directories
    /// are traversed before the files of a level, each level in creation
    /// order, so the listing is deterministic for a given history. A
    /// missing bucket directory is an I/O error.
    pub fn list_all(&mut self) -> (r: Result<Vec<String>, Error>)
        ensures
            final(self)@.dir == old(self)@.dir,
            final(self)@.max_file_name == old(self)@.max_file_name,
            final(self)@.files == old(self)@.files,
            ({
                let segs = resolved(old(self)@.dir, old(self)@.max_file_name);
                let dirs2 = prepared(
                    old(self)@.dirs,
                    old(self)@.files,
                    segs,
                    ends_in_sep(old(self)@.dir),
                );
                &&& final(self)@.dirs == dirs2
                &&& if has_dir(dirs2, segs) {
                    r matches Ok(names) && names.deep_view() == subtree_listing(
                        old(self)@.files,
                        dirs2,
                        segs,
                        Seq::<Seq<char>>::empty(),
                    ) && (forall|s: Seq<char>|
                        #[trigger] names.deep_view().contains(s) <==> listed(
                            old(self)@.files,
                            segs,
                            Seq::<Seq<char>>::empty(),
                            s,
                        ))
                } else {
                    r matches Err(e) && e is Io
                }
            }),
    {
        let ma = path_ends_in_sep(self.dir.as_str());
        let segs = resolve_segments(self.dir.as_str(), self.max_file_name);
        self.prepare(&segs, ma);
        if !contains_path(&self.dirs, &segs) {
            return Err(Error::Io("bucket directory does not exist".to_owned()));
        }
        let rel: Option<String> = Option::None;
        let names = self.list_recursive(&segs, &rel, Ghost(Seq::empty()));
        Ok(names)
    }
}

/// Append every element of `src` to `dst`.
fn append_all(dst: &mut Vec<String>, src: Vec<String>)
    ensures
        final(dst).deep_view() == old(dst).deep_view() + src.deep_view(),
{
    let ghost d0 = old(dst).deep_view();
    let ghost sd = src.deep_view();
    let mut k: usize = 0;
    proof {
        assert(sd.take(0) =~= Seq::<Seq<char>>::empty());
        assert(dst.deep_view() =~= d0 + sd.take(0));
    }
    while k < src.len()
        invariant
            k <= src@.len(),
            sd == src.deep_view(),
            sd.len() == src@.len(),
            dst.deep_view() == d0 + sd.take(k as int),
        decreases src@.len() - k,
    {
        let ghost prev = dst.deep_view();
        dst.push(src[k].clone());
        proof {
            assert(sd[k as int] == src@[k as int]@);
            assert(dst.deep_view() =~= prev.push(src@[k as int]@));
            assert(sd.take(k as int + 1) =~= sd.take(k as int).push(sd[k as int]));
            assert(dst.deep_view() =~= d0 + sd.take(k as int + 1));
        }
        k = k + 1;
    }
    proof {
        assert(sd.take(sd.len() as int) =~= sd);
    }
}

/// The resolved segments of a key against a bucket state.
pub open spec fn resolved_of(v: AnyBucketView, key: Seq<char>) -> SegPath {
    resolved(v.dir + seq!['/'] + key, v.max_file_name)
}

/// The directories of a bucket state after a key's resolution pass.
pub open spec fn prepared_of(v: AnyBucketView, key: Seq<char>) -> Seq<SegPath> {
    prepared(v.dirs, v.files, resolved_of(v, key), ends_in_sep(v.dir + seq!['/'] + key))
}

/// The first eight bytes of a stored entry, zero-padded.
pub open spec fn first8(b: Seq<u8>) -> Seq<u8> {
    Seq::new(8, |i: int| if i < b.len() { b[i] } else { 0u8 })
}

/// Whether `q` is an immediate child of `p`, on segment vectors.
fn is_child_path(p: &Vec<String>, q: &Vec<String>) -> (r: bool)
    ensures
        r == is_child(p.deep_view(), q.deep_view()),
{
    if q.len() == 0 || p.len() != q.len() - 1 {
        proof {
            assert(q.deep_view().len() == q@.len());
            assert(p.deep_view().len() == p@.len());
        }
        return false;
    }
    let pre = prefix_of(q, p.len());
    path_eq(&pre, p)
}

/// Whether `q` lies at or under `p`, on segment vectors.
fn is_under_path(p: &Vec<String>, q: &Vec<String>) -> (r: bool)
    ensures
        r == is_under(p.deep_view(), q.deep_view()),
{
    if q.len() < p.len() {
        proof {
            assert(q.deep_view().len() == q@.len());
            assert(p.deep_view().len() == p@.len());
        }
        return false;
    }
    let pre = prefix_of(q, p.len());
    path_eq(&pre, p)
}

} // verus!
