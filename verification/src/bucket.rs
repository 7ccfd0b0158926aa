//! A flat bucket: one directory holding one file per key. A key is one
//! opaque path segment, truncated to the configured maximum length before
//! it names the file.

use core::marker::PhantomData;

use vstd::prelude::*;

use crate::codec::Codec;
use crate::entries::distinct_keys;
use crate::entries::entry_del;
use crate::entries::entry_keys;
use crate::entries::entry_put;
use crate::entries::find_entry;
use crate::entries::find_index;
use crate::entries::lemma_del_distinct;
use crate::entries::lemma_first_index;
use crate::entries::lemma_no_match;
use crate::entries::lemma_put_distinct;
use crate::paths::truncated;
use crate::Error;

verus! {

/// A flat key space backed by one directory. `V` is the stored value
/// type.
pub struct Bucket<V> {
    dir: String,
    max_file_name: Option<usize>,
    present: bool,
    entries: Vec<(String, Vec<u8>)>,
    _v: PhantomData<V>,
}

/// The abstract state of a flat bucket: its directory path, the optional
/// name limit, and the stored entries — `None` once the backing
/// directory has been removed by `clear`.
pub struct BucketView {
    pub dir: Seq<char>,
    pub max_file_name: Option<usize>,
    pub entries: Option<Seq<(Seq<char>, Seq<u8>)>>,
}

impl<V> View for Bucket<V> {
    type V = BucketView;

    closed spec fn view(&self) -> BucketView {
        BucketView {
            dir: self.dir@,
            max_file_name: self.max_file_name,
            entries: if self.present {
                Option::Some(self.entries.deep_view())
            } else {
                Option::None
            },
        }
    }
}

impl<V> Bucket<V> {
    #[verifier::type_invariant]
    spec fn inv(self) -> bool {
        distinct_keys(self.entries.deep_view())
    }
}

impl<V: Codec> Bucket<V> {
    pub(crate) fn new(dir: String, max_file_name: Option<usize>) -> (r: Bucket<V>)
        ensures
            r@.dir == dir@,
            r@.max_file_name == max_file_name,
            r@.entries == Option::Some(Seq::<(Seq<char>, Seq<u8>)>::empty()),
    {
        let b = Bucket { dir, max_file_name, present: true, entries: Vec::new(), _v: PhantomData };
        proof {
            assert(b.entries.deep_view() =~= Seq::<(Seq<char>, Seq<u8>)>::empty());
        }
        b
    }

    /// The directory of this bucket.
    pub fn dir(&self) -> (r: String)
        ensures
            r@ == self@.dir,
    {
        self.dir.clone()
    }

    /// The stored name of a key: the key truncated to the configured
    /// maximum.
    fn maxify(&self, name: &str) -> (r: String)
        ensures
            r@ == truncated(name@, self@.max_file_name),
    {
        crate::paths::maxify(name, self.max_file_name)
    }

    /// Whether a key resolves to a stored entry.
    pub fn contains_key(&self, key: &str) -> (r: bool)
        ensures
            r == (self@.entries matches Some(es) && crate::entries::has_entry(
                es,
                truncated(key@, self@.max_file_name),
            )),
    {
        if !self.present {
            return false;
        }
        let name = self.maxify(key);
        let ghost es = self.entries.deep_view();
        let r = find_index(&self.entries, &name);
        proof {
            bridge_pairs(&self.entries);
            match r {
                Option::Some(i) => lemma_first_index(es, name@, es[i as int].1, i as int),
                Option::None => lemma_no_match(es, name@, Seq::<u8>::empty()),
            }
        }
        r.is_some()
    }

    /// Store a value under a key, overwriting any previous value. Fails
    /// with an I/O error when the bucket directory is gone, or with an
    /// encode error from the codec; the value is encoded before the
    /// store is touched, so a failed encode changes nothing.
    pub fn put(&mut self, key: &str, value: &V) -> (r: Result<(), Error>)
        ensures
            final(self)@.dir == old(self)@.dir,
            final(self)@.max_file_name == old(self)@.max_file_name,
            old(self)@.entries is None ==> final(self)@ == old(self)@ && (r matches Err(e)
                && e is Io),
            old(self)@.entries matches Some(es) ==> {
                let name = truncated(key@, old(self)@.max_file_name);
                &&& (r is Ok ==> final(self)@.entries == Option::Some(
                    entry_put(es, name, value.encoding()),
                ))
                &&& (r matches Err(e) ==> e is Encode && final(self)@ == old(self)@)
            },
    {
        proof {
            use_type_invariant(&*self);
        }
        if !self.present {
            return Err(Error::Io("bucket directory does not exist".to_owned()));
        }
        let bytes = match value.encode() {
            Ok(b) => b,
            Err(e) => return Err(e),
        };
        let name = self.maxify(key);
        let ghost es = self.entries.deep_view();
        proof {
            bridge_pairs(&self.entries);
        }
        match find_index(&self.entries, &name) {
            Option::Some(i) => {
                let mut es_v: Vec<(String, Vec<u8>)> = Vec::new();
                core::mem::swap(&mut self.entries, &mut es_v);
                let ghost bs = bytes@;
                es_v.remove(i);
                es_v.insert(i, (name, bytes));
                proof {
                    lemma_first_index(es, name@, bs, i as int);
                    bridge_pairs(&es_v);
                    assert(es_v.deep_view() =~= es.update(i as int, (name@, bs)));
                    lemma_put_distinct(es, name@, bs);
                }
                core::mem::swap(&mut self.entries, &mut es_v);
            },
            Option::None => {
                let mut es_v: Vec<(String, Vec<u8>)> = Vec::new();
                core::mem::swap(&mut self.entries, &mut es_v);
                let ghost bs = bytes@;
                es_v.push((name, bytes));
                proof {
                    lemma_no_match(es, name@, bs);
                    bridge_pairs(&es_v);
                    assert(es_v.deep_view() =~= es.push((name@, bs)));
                    lemma_put_distinct(es, name@, bs);
                }
                core::mem::swap(&mut self.entries, &mut es_v);
            },
        }
        Ok(())
    }

    /// Store raw bytes under a key, bypassing the codec.
    pub fn put_raw(&mut self, key: &str, value: &[u8]) -> (r: Result<(), Error>)
        ensures
            final(self)@.dir == old(self)@.dir,
            final(self)@.max_file_name == old(self)@.max_file_name,
            old(self)@.entries is None ==> final(self)@ == old(self)@ && (r matches Err(e)
                && e is Io),
            old(self)@.entries matches Some(es) ==> r is Ok && final(self)@.entries
                == Option::Some(entry_put(es, truncated(key@, old(self)@.max_file_name), value@)),
    {
        proof {
            use_type_invariant(&*self);
        }
        if !self.present {
            return Err(Error::Io("bucket directory does not exist".to_owned()));
        }
        let bytes = vstd::slice::slice_to_vec(value);
        let name = self.maxify(key);
        let ghost es = self.entries.deep_view();
        proof {
            bridge_pairs(&self.entries);
        }
        match find_index(&self.entries, &name) {
            Option::Some(i) => {
                let mut es_v: Vec<(String, Vec<u8>)> = Vec::new();
                core::mem::swap(&mut self.entries, &mut es_v);
                es_v.remove(i);
                es_v.insert(i, (name, bytes));
                proof {
                    lemma_first_index(es, name@, value@, i as int);
                    bridge_pairs(&es_v);
                    assert(es_v.deep_view() =~= es.update(i as int, (name@, value@)));
                    lemma_put_distinct(es, name@, value@);
                }
                core::mem::swap(&mut self.entries, &mut es_v);
            },
            Option::None => {
                let mut es_v: Vec<(String, Vec<u8>)> = Vec::new();
                core::mem::swap(&mut self.entries, &mut es_v);
                es_v.push((name, bytes));
                proof {
                    lemma_no_match(es, name@, value@);
                    bridge_pairs(&es_v);
                    assert(es_v.deep_view() =~= es.push((name@, value@)));
                    lemma_put_distinct(es, name@, value@);
                }
                core::mem::swap(&mut self.entries, &mut es_v);
            },
        }
        Ok(())
    }

    /// Load and decode the value stored under a key. Fails with an I/O
    /// error when the bucket directory or the entry is missing, or with
    /// a decode error on malformed stored bytes.
    pub fn get(&self, key: &str) -> (r: Result<V, Error>)
        ensures
            self@.entries is None ==> (r matches Err(e) && e is Io),
            self@.entries matches Some(es) ==> (match find_entry(
                es,
                truncated(key@, self@.max_file_name),
            ) {
                Option::None => r matches Err(e) && e is Io,
                Option::Some(bytes) => (forall|v: V|
                    bytes == v.encoding() ==> (r matches Ok(w) && w == v)) && (r is Ok
                    <==> V::decodable(bytes)) && (r matches Err(e) ==> e is Decode),
            }),
    {
        if !self.present {
            return Err(Error::Io("bucket directory does not exist".to_owned()));
        }
        let name = self.maxify(key);
        let ghost es = self.entries.deep_view();
        proof {
            bridge_pairs(&self.entries);
        }
        match find_index(&self.entries, &name) {
            Option::Some(i) => {
                proof {
                    lemma_first_index(es, name@, es[i as int].1, i as int);
                }
                V::decode(self.entries[i].1.as_slice())
            },
            Option::None => {
                proof {
                    lemma_no_match(es, name@, Seq::<u8>::empty());
                }
                Err(Error::Io("entry not found".to_owned()))
            },
        }
    }

    /// Load the raw bytes stored under a key.
    pub fn get_raw(&self, key: &str) -> (r: Result<Vec<u8>, Error>)
        ensures
            self@.entries is None ==> (r matches Err(e) && e is Io),
            self@.entries matches Some(es) ==> (match find_entry(
                es,
                truncated(key@, self@.max_file_name),
            ) {
                Option::None => r matches Err(e) && e is Io,
                Option::Some(bytes) => r matches Ok(b) && b@ == bytes,
            }),
    {
        if !self.present {
            return Err(Error::Io("bucket directory does not exist".to_owned()));
        }
        let name = self.maxify(key);
        let ghost es = self.entries.deep_view();
        proof {
            bridge_pairs(&self.entries);
        }
        match find_index(&self.entries, &name) {
            Option::Some(i) => {
                proof {
                    lemma_first_index(es, name@, es[i as int].1, i as int);
                }
                Ok(self.entries[i].1.clone())
            },
            Option::None => {
                proof {
                    lemma_no_match(es, name@, Seq::<u8>::empty());
                }
                Err(Error::Io("entry not found".to_owned()))
            },
        }
    }

    /// Delete the entry stored under a key; a missing entry is an I/O
    /// error.
    pub fn remove(&mut self, key: &str) -> (r: Result<(), Error>)
        ensures
            final(self)@.dir == old(self)@.dir,
            final(self)@.max_file_name == old(self)@.max_file_name,
            old(self)@.entries is None ==> final(self)@ == old(self)@ && (r matches Err(e)
                && e is Io),
            old(self)@.entries matches Some(es) ==> {
                let name = truncated(key@, old(self)@.max_file_name);
                if crate::entries::has_entry(es, name) {
                    r is Ok && final(self)@.entries == Option::Some(entry_del(es, name))
                } else {
                    final(self)@ == old(self)@ && (r matches Err(e) && e is Io)
                }
            },
    {
        proof {
            use_type_invariant(&*self);
        }
        if !self.present {
            return Err(Error::Io("bucket directory does not exist".to_owned()));
        }
        let name = self.maxify(key);
        let ghost es = self.entries.deep_view();
        proof {
            bridge_pairs(&self.entries);
        }
        match find_index(&self.entries, &name) {
            Option::Some(i) => {
                let mut es_v: Vec<(String, Vec<u8>)> = Vec::new();
                core::mem::swap(&mut self.entries, &mut es_v);
                es_v.remove(i);
                proof {
                    lemma_first_index(es, name@, es[i as int].1, i as int);
                    bridge_pairs(&es_v);
                    assert(es_v.deep_view() =~= es.take(i as int) + es.skip(i as int + 1));
                    lemma_del_distinct(es, name@);
                }
                core::mem::swap(&mut self.entries, &mut es_v);
                Ok(())
            },
            Option::None => {
                proof {
                    lemma_no_match(es, name@, Seq::<u8>::empty());
                }
                Err(Error::Io("entry not found".to_owned()))
            },
        }
    }

    /// The stored names of all entries, in creation order.
    pub fn list(&self) -> (r: Result<Vec<String>, Error>)
        ensures
            self@.entries is None ==> (r matches Err(e) && e is Io),
            self@.entries matches Some(es) ==> r matches Ok(names) && names.deep_view()
                == entry_keys(es),
    {
        if !self.present {
            return Err(Error::Io("bucket directory does not exist".to_owned()));
        }
        let ghost es = self.entries.deep_view();
        let mut names: Vec<String> = Vec::new();
        let mut i: usize = 0;
        while i < self.entries.len()
            invariant
                i <= self.entries@.len(),
                es == self.entries.deep_view(),
                names.deep_view().len() == i,
                forall|k: int| 0 <= k < i ==> names.deep_view()[k] == es[k].0,
            decreases self.entries@.len() - i,
        {
            let ghost prev = names.deep_view();
            names.push(self.entries[i].0.clone());
            proof {
                assert(names.deep_view() =~= prev.push(self.entries@[i as int].0@));
            }
            i = i + 1;
        }
        proof {
            assert(names.deep_view() =~= entry_keys(es));
        }
        Ok(names)
    }

    /// Remove the bucket directory itself with everything in it; any
    /// later operation on this handle fails with an I/O error until the
    /// directory is recreated.
    pub fn clear(&mut self) -> (r: Result<(), Error>)
        ensures
            final(self)@.dir == old(self)@.dir,
            final(self)@.max_file_name == old(self)@.max_file_name,
            old(self)@.entries is None ==> final(self)@ == old(self)@ && (r matches Err(e)
                && e is Io),
            old(self)@.entries is Some ==> r is Ok && final(self)@.entries is None,
    {
        proof {
            use_type_invariant(&*self);
        }
        if !self.present {
            return Err(Error::Io("bucket directory does not exist".to_owned()));
        }
        self.present = false;
        self.entries = Vec::new();
        proof {
            assert(self.entries.deep_view() =~= Seq::<(Seq<char>, Seq<u8>)>::empty());
        }
        Ok(())
    }
}

/// The pairs seen through `deep_view` are the views of the stored
/// strings and bytes.
proof fn bridge_pairs(es: &Vec<(String, Vec<u8>)>)
    ensures
        es.deep_view().len() == es@.len(),
        forall|k: int| 0 <= k < es@.len() ==> es.deep_view()[k].0 == es@[k].0@,
        forall|k: int| 0 <= k < es@.len() ==> es.deep_view()[k].1 == es@[k].1@,
{
    assert(forall|k: int| 0 <= k < es@.len() ==> es.deep_view()[k] == es@[k].deep_view());
}

} // verus!
