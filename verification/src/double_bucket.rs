//! A two-level bucket: a directory of sub-directories, each holding one
//! file per key. Every operation takes a (sub-bucket, key) pair; both
//! names are truncated independently. `put` creates the sub-directory on
//! first use; every other operation requires it to exist already.

use core::marker::PhantomData;

use vstd::prelude::*;

use crate::codec::Codec;
use crate::entries::distinct_keys;
use crate::entries::entry_del;
use crate::entries::entry_keys;
use crate::entries::entry_put;
use crate::entries::find_entry;
use crate::entries::find_index;
use crate::entries::lemma_del_distinct;
use crate::entries::lemma_first_index;
use crate::entries::lemma_no_match;
use crate::entries::lemma_put_distinct;
use crate::paths::truncated;
use crate::Error;

verus! {

/// One sub-directory of a double bucket: its stored name and its entries.
pub type SubEntries = Seq<(Seq<char>, Seq<u8>)>;

/// A two-level key space backed by a directory of sub-directories. `V` is
/// the stored value type.
pub struct DoubleBucket<V> {
    dir: String,
    max_file_name: Option<usize>,
    present: bool,
    subs: Vec<(String, Vec<(String, Vec<u8>)>)>,
    _v: PhantomData<V>,
}

/// The abstract state of a double bucket: its directory path, the
/// optional name limit, and the sub-directories with their entries —
/// `None` once the backing directory has been removed by `clear_all`.
pub struct DoubleBucketView {
    pub dir: Seq<char>,
    pub max_file_name: Option<usize>,
    pub subs: Option<Seq<(Seq<char>, SubEntries)>>,
}

impl<V> View for DoubleBucket<V> {
    type V = DoubleBucketView;

    closed spec fn view(&self) -> DoubleBucketView {
        DoubleBucketView {
            dir: self.dir@,
            max_file_name: self.max_file_name,
            subs: if self.present {
                Option::Some(self.subs.deep_view())
            } else {
                Option::None
            },
        }
    }
}

impl<V> DoubleBucket<V> {
    #[verifier::type_invariant]
    spec fn inv(self) -> bool {
        let ds = self.subs.deep_view();
        distinct_keys(ds) && (forall|k: int| 0 <= k < ds.len() ==> distinct_keys(#[trigger] ds[k].1))
    }
}

/// The nested pairs seen through `deep_view` are the views of the stored
/// strings and entry vectors.
proof fn bridge_subs(es: &Vec<(String, Vec<(String, Vec<u8>)>)>)
    ensures
        es.deep_view().len() == es@.len(),
        forall|k: int|
            0 <= k < es@.len() ==> #[trigger] es.deep_view()[k] == (
            es@[k].0@,
            es@[k].1.deep_view(),
            ),
{
    assert(forall|k: int| 0 <= k < es@.len() ==> es.deep_view()[k] == es@[k].deep_view());
}

/// The pairs seen through `deep_view` are the views of the stored strings
/// and bytes.
proof fn bridge_entries(es: &Vec<(String, Vec<u8>)>)
    ensures
        es.deep_view().len() == es@.len(),
        forall|k: int|
            0 <= k < es@.len() ==> #[trigger] es.deep_view()[k] == (es@[k].0@, es@[k].1@),
{
    assert(forall|k: int| 0 <= k < es@.len() ==> es.deep_view()[k] == es@[k].deep_view());
}

impl<V: Codec> DoubleBucket<V> {
    pub(crate) fn new(dir: String, max_file_name: Option<usize>) -> (r: DoubleBucket<V>)
        ensures
            r@.dir == dir@,
            r@.max_file_name == max_file_name,
            r@.subs == Option::Some(Seq::<(Seq<char>, SubEntries)>::empty()),
    {
        let b = DoubleBucket {
            dir,
            max_file_name,
            present: true,
            subs: Vec::new(),
            _v: PhantomData,
        };
        proof {
            assert(b.subs.deep_view() =~= Seq::<(Seq<char>, SubEntries)>::empty());
        }
        b
    }

    /// The stored name of a sub-bucket or key: truncated to the
    /// configured maximum.
    fn maxify(&self, name: &str) -> (r: String)
        ensures
            r@ == truncated(name@, self@.max_file_name),
    {
        crate::paths::maxify(name, self.max_file_name)
    }

    /// Whether a key resolves to a stored entry within a sub-bucket.
    pub fn contains_key(&self, sub: &str, key: &str) -> (r: bool)
        ensures
            r == (self@.subs matches Some(subs) && (find_entry(
                subs,
                truncated(sub@, self@.max_file_name),
            ) matches Some(inner) && crate::entries::has_entry(
                inner,
                truncated(key@, self@.max_file_name),
            ))),
    {
        if !self.present {
            return false;
        }
        let sname = self.maxify(sub);
        let kname = self.maxify(key);
        let ghost subs0 = self.subs.deep_view();
        proof {
            bridge_subs(&self.subs);
        }
        match find_index(&self.subs, &sname) {
            Option::Some(i) => {
                proof {
                    lemma_first_index(subs0, sname@, subs0[i as int].1, i as int);
                }
                let inner = &self.subs[i].1;
                let ghost inner0 = inner.deep_view();
                proof {
                    bridge_entries(inner);
                }
                match find_index(inner, &kname) {
                    Option::Some(j) => {
                        proof {
                            lemma_first_index(inner0, kname@, inner0[j as int].1, j as int);
                        }
                        true
                    },
                    Option::None => {
                        proof {
                            lemma_no_match(inner0, kname@, Seq::<u8>::empty());
                        }
                        false
                    },
                }
            },
            Option::None => {
                proof {
                    lemma_no_match(subs0, sname@, Seq::<(Seq<char>, Seq<u8>)>::empty());
                }
                false
            },
        }
    }

    /// Store a value under (sub, key), creating the sub-directory on
    /// first use and overwriting any previous value. The value is
    /// encoded before the store is touched, so a failed encode changes
    /// nothing.
    pub fn put(&mut self, sub: &str, key: &str, value: V) -> (r: Result<(), Error>)
        ensures
            final(self)@.dir == old(self)@.dir,
            final(self)@.max_file_name == old(self)@.max_file_name,
            old(self)@.subs is None ==> final(self)@ == old(self)@ && (r matches Err(e) && e is Io),
            old(self)@.subs matches Some(subs) ==> {
                let sname = truncated(sub@, old(self)@.max_file_name);
                let kname = truncated(key@, old(self)@.max_file_name);
                let inner0 = match find_entry(subs, sname) {
                    Option::Some(inner) => inner,
                    Option::None => Seq::<(Seq<char>, Seq<u8>)>::empty(),
                };
                &&& (r is Ok ==> final(self)@.subs == Option::Some(
                    entry_put(subs, sname, entry_put(inner0, kname, value.encoding())),
                ))
                &&& (r matches Err(e) ==> e is Encode && final(self)@ == old(self)@)
            },
    {
        proof {
            use_type_invariant(&*self);
        }
        if !self.present {
            return Err(Error::Io("bucket directory does not exist".to_owned()));
        }
        let bytes = match value.encode() {
            Ok(b) => b,
            Err(e) => return Err(e),
        };
        let ghost bs = bytes@;
        let sname = self.maxify(sub);
        let kname = self.maxify(key);
        let ghost subs0 = self.subs.deep_view();
        proof {
            bridge_subs(&self.subs);
        }
        let mut subs_v: Vec<(String, Vec<(String, Vec<u8>)>)> = Vec::new();
        core::mem::swap(&mut self.subs, &mut subs_v);
        match find_index(&subs_v, &sname) {
            Option::Some(i) => {
                let (stored, mut inner) = subs_v.remove(i);
                let ghost inner0 = inner.deep_view();
                proof {
                    lemma_first_index(subs0, sname@, inner0, i as int);
                    bridge_entries(&inner);
                }
                match find_index(&inner, &kname) {
                    Option::Some(j) => {
                        inner.remove(j);
                        inner.insert(j, (kname, bytes));
                        proof {
                            lemma_first_index(inner0, kname@, bs, j as int);
                            bridge_entries(&inner);
                            assert(inner.deep_view() =~= entry_put(inner0, kname@, bs));
                            lemma_put_distinct(inner0, kname@, bs);
                        }
                    },
                    Option::None => {
                        inner.push((kname, bytes));
                        proof {
                            lemma_no_match(inner0, kname@, bs);
                            bridge_entries(&inner);
                            assert(inner.deep_view() =~= entry_put(inner0, kname@, bs));
                            lemma_put_distinct(inner0, kname@, bs);
                        }
                    },
                }
                let ghost new_inner = inner.deep_view();
                subs_v.insert(i, (stored, inner));
                proof {
                    lemma_first_index(subs0, sname@, new_inner, i as int);
                    bridge_subs(&subs_v);
                    assert(subs_v.deep_view() =~= subs0.update(i as int, (sname@, new_inner)));
                    lemma_put_distinct(subs0, sname@, new_inner);
                }
            },
            Option::None => {
                let mut inner: Vec<(String, Vec<u8>)> = Vec::new();
                inner.push((kname, bytes));
                let ghost new_inner = inner.deep_view();
                proof {
                    lemma_no_match(subs0, sname@, Seq::<(Seq<char>, Seq<u8>)>::empty());
                    bridge_entries(&inner);
                    assert(new_inner =~= entry_put(Seq::<(Seq<char>, Seq<u8>)>::empty(), kname@, bs));
                }
                subs_v.push((sname, inner));
                proof {
                    lemma_no_match(subs0, sname@, new_inner);
                    bridge_subs(&subs_v);
                    assert(subs_v.deep_view() =~= subs0.push((sname@, new_inner)));
                }
            },
        }
        core::mem::swap(&mut self.subs, &mut subs_v);
        Ok(())
    }

    /// Load and decode the value stored under (sub, key). A missing
    /// sub-directory or entry is an I/O error, never a crash.
    pub fn get(&self, sub: &str, key: &str) -> (r: Result<V, Error>)
        ensures
            self@.subs is None ==> (r matches Err(e) && e is Io),
            self@.subs matches Some(subs) ==> (match find_entry(
                subs,
                truncated(sub@, self@.max_file_name),
            ) {
                Option::None => r matches Err(e) && e is Io,
                Option::Some(inner) => match find_entry(
                    inner,
                    truncated(key@, self@.max_file_name),
                ) {
                    Option::None => r matches Err(e) && e is Io,
                    Option::Some(bytes) => (forall|v: V|
                        bytes == v.encoding() ==> (r matches Ok(w) && w == v)) && (r is Ok
                        <==> V::decodable(bytes)) && (r matches Err(e) ==> e is Decode),
                },
            }),
    {
        if !self.present {
            return Err(Error::Io("bucket directory does not exist".to_owned()));
        }
        let sname = self.maxify(sub);
        let kname = self.maxify(key);
        let ghost subs0 = self.subs.deep_view();
        proof {
            bridge_subs(&self.subs);
        }
        match find_index(&self.subs, &sname) {
            Option::Some(i) => {
                proof {
                    lemma_first_index(subs0, sname@, subs0[i as int].1, i as int);
                }
                let inner = &self.subs[i].1;
                let ghost inner0 = inner.deep_view();
                proof {
                    bridge_entries(inner);
                }
                match find_index(inner, &kname) {
                    Option::Some(j) => {
                        proof {
                            lemma_first_index(inner0, kname@, inner0[j as int].1, j as int);
                        }
                        V::decode(inner[j].1.as_slice())
                    },
                    Option::None => {
                        proof {
                            lemma_no_match(inner0, kname@, Seq::<u8>::empty());
                        }
                        Err(Error::Io("entry not found".to_owned()))
                    },
                }
            },
            Option::None => {
                proof {
                    lemma_no_match(subs0, sname@, Seq::<(Seq<char>, Seq<u8>)>::empty());
                }
                Err(Error::Io("sub-bucket not found".to_owned()))
            },
        }
    }

    /// Delete the entry stored under (sub, key); a missing sub-directory
    /// or entry is an I/O error.
    pub fn remove(&mut self, sub: &str, key: &str) -> (r: Result<(), Error>)
        ensures
            final(self)@.dir == old(self)@.dir,
            final(self)@.max_file_name == old(self)@.max_file_name,
            old(self)@.subs is None ==> final(self)@ == old(self)@ && (r matches Err(e) && e is Io),
            old(self)@.subs matches Some(subs) ==> {
                let sname = truncated(sub@, old(self)@.max_file_name);
                let kname = truncated(key@, old(self)@.max_file_name);
                match find_entry(subs, sname) {
                    Option::None => final(self)@ == old(self)@ && (r matches Err(e) && e is Io),
                    Option::Some(inner) => if crate::entries::has_entry(inner, kname) {
                        r is Ok && final(self)@.subs == Option::Some(
                            entry_put(subs, sname, entry_del(inner, kname)),
                        )
                    } else {
                        final(self)@ == old(self)@ && (r matches Err(e) && e is Io)
                    },
                }
            },
    {
        proof {
            use_type_invariant(&*self);
        }
        if !self.present {
            return Err(Error::Io("bucket directory does not exist".to_owned()));
        }
        let sname = self.maxify(sub);
        let kname = self.maxify(key);
        let ghost subs0 = self.subs.deep_view();
        proof {
            bridge_subs(&self.subs);
        }
        let mut subs_v: Vec<(String, Vec<(String, Vec<u8>)>)> = Vec::new();
        core::mem::swap(&mut self.subs, &mut subs_v);
        let r = match find_index(&subs_v, &sname) {
            Option::Some(i) => {
                let (stored, mut inner) = subs_v.remove(i);
                let ghost inner0 = inner.deep_view();
                proof {
                    lemma_first_index(subs0, sname@, inner0, i as int);
                    bridge_entries(&inner);
                }
                let r = match find_index(&inner, &kname) {
                    Option::Some(j) => {
                        inner.remove(j);
                        proof {
                            lemma_first_index(inner0, kname@, inner0[j as int].1, j as int);
                            bridge_entries(&inner);
                            assert(inner.deep_view() =~= entry_del(inner0, kname@));
                            lemma_del_distinct(inner0, kname@);
                        }
                        Ok(())
                    },
                    Option::None => {
                        proof {
                            lemma_no_match(inner0, kname@, Seq::<u8>::empty());
                            assert(inner.deep_view() =~= entry_del(inner0, kname@));
                        }
                        Err(Error::Io("entry not found".to_owned()))
                    },
                };
                let ghost new_inner = inner.deep_view();
                subs_v.insert(i, (stored, inner));
                proof {
                    lemma_first_index(subs0, sname@, new_inner, i as int);
                    bridge_subs(&subs_v);
                    assert(subs_v.deep_view() =~= subs0.update(i as int, (sname@, new_inner)));
                    lemma_put_distinct(subs0, sname@, new_inner);
                    assert(subs0.update(i as int, (sname@, new_inner)) =~= entry_put(
                        subs0,
                        sname@,
                        new_inner,
                    ));
                    if r is Err {
                        assert(subs_v.deep_view() =~= subs0);
                    }
                }
                r
            },
            Option::None => {
                proof {
                    lemma_no_match(subs0, sname@, Seq::<(Seq<char>, Seq<u8>)>::empty());
                }
                Err(Error::Io("sub-bucket not found".to_owned()))
            },
        };
        core::mem::swap(&mut self.subs, &mut subs_v);
        r
    }

    /// The stored names of all entries in a sub-bucket, in creation
    /// order; a missing sub-directory is an I/O error.
    pub fn list(&self, sub: &str) -> (r: Result<Vec<String>, Error>)
        ensures
            self@.subs is None ==> (r matches Err(e) && e is Io),
            self@.subs matches Some(subs) ==> (match find_entry(
                subs,
                truncated(sub@, self@.max_file_name),
            ) {
                Option::None => r matches Err(e) && e is Io,
                Option::Some(inner) => r matches Ok(names) && names.deep_view() == entry_keys(
                    inner,
                ),
            }),
    {
        if !self.present {
            return Err(Error::Io("bucket directory does not exist".to_owned()));
        }
        let sname = self.maxify(sub);
        let ghost subs0 = self.subs.deep_view();
        proof {
            bridge_subs(&self.subs);
        }
        match find_index(&self.subs, &sname) {
            Option::Some(i) => {
                proof {
                    lemma_first_index(subs0, sname@, subs0[i as int].1, i as int);
                }
                let inner = &self.subs[i].1;
                let ghost inner0 = inner.deep_view();
                proof {
                    bridge_entries(inner);
                }
                let mut names: Vec<String> = Vec::new();
                let mut j: usize = 0;
                while j < inner.len()
                    invariant
                        j <= inner@.len(),
                        inner0 == inner.deep_view(),
                        inner0.len() == inner@.len(),
                        forall|k: int| 0 <= k < inner@.len() ==> inner0[k].0 == inner@[k].0@,
                        names.deep_view().len() == j,
                        forall|k: int| 0 <= k < j ==> names.deep_view()[k] == inner0[k].0,
                    decreases inner@.len() - j,
                {
                    let ghost prev = names.deep_view();
                    names.push(inner[j].0.clone());
                    proof {
                        assert(names.deep_view() =~= prev.push(inner@[j as int].0@));
                    }
                    j = j + 1;
                }
                proof {
                    assert(names.deep_view() =~= entry_keys(inner0));
                }
                Ok(names)
            },
            Option::None => {
                proof {
                    lemma_no_match(subs0, sname@, Seq::<(Seq<char>, Seq<u8>)>::empty());
                }
                Err(Error::Io("sub-bucket not found".to_owned()))
            },
        }
    }

    /// Remove one sub-directory with everything in it; a missing
    /// sub-directory is an I/O error.
    pub fn clear(&mut self, sub: &str) -> (r: Result<(), Error>)
        ensures
            final(self)@.dir == old(self)@.dir,
            final(self)@.max_file_name == old(self)@.max_file_name,
            old(self)@.subs is None ==> final(self)@ == old(self)@ && (r matches Err(e) && e is Io),
            old(self)@.subs matches Some(subs) ==> {
                let sname = truncated(sub@, old(self)@.max_file_name);
                if crate::entries::has_entry(subs, sname) {
                    r is Ok && final(self)@.subs == Option::Some(entry_del(subs, sname))
                } else {
                    final(self)@ == old(self)@ && (r matches Err(e) && e is Io)
                }
            },
    {
        proof {
            use_type_invariant(&*self);
        }
        if !self.present {
            return Err(Error::Io("bucket directory does not exist".to_owned()));
        }
        let sname = self.maxify(sub);
        let ghost subs0 = self.subs.deep_view();
        proof {
            bridge_subs(&self.subs);
        }
        match find_index(&self.subs, &sname) {
            Option::Some(i) => {
                let mut subs_v: Vec<(String, Vec<(String, Vec<u8>)>)> = Vec::new();
                core::mem::swap(&mut self.subs, &mut subs_v);
                subs_v.remove(i);
                proof {
                    lemma_first_index(subs0, sname@, subs0[i as int].1, i as int);
                    bridge_subs(&subs_v);
                    assert(subs_v.deep_view() =~= subs0.take(i as int) + subs0.skip(i as int + 1));
                    assert(subs_v.deep_view() =~= entry_del(subs0, sname@));
                    lemma_del_distinct(subs0, sname@);
                }
                core::mem::swap(&mut self.subs, &mut subs_v);
                Ok(())
            },
            Option::None => {
                proof {
                    lemma_no_match(subs0, sname@, Seq::<(Seq<char>, Seq<u8>)>::empty());
                }
                Err(Error::Io("sub-bucket not found".to_owned()))
            },
        }
    }

    /// Remove the whole bucket directory; any later operation on this
    /// handle fails with an I/O error until the directory is recreated.
    pub fn clear_all(&mut self) -> (r: Result<(), Error>)
        ensures
            final(self)@.dir == old(self)@.dir,
            final(self)@.max_file_name == old(self)@.max_file_name,
            old(self)@.subs is None ==> final(self)@ == old(self)@ && (r matches Err(e) && e is Io),
            old(self)@.subs is Some ==> r is Ok && final(self)@.subs is None,
    {
        proof {
            use_type_invariant(&*self);
        }
        if !self.present {
            return Err(Error::Io("bucket directory does not exist".to_owned()));
        }
        self.present = false;
        self.subs = Vec::new();
        proof {
            assert(self.subs.deep_view() =~= Seq::<(Seq<char>, SubEntries)>::empty());
        }
        Ok(())
    }
}

} // verus!
