//! A minimal embedded key-value store: string keys name entries in a
//! directory tree, values are byte sequences produced by a serialization
//! codec.
//!
//! The store models the directory tree it owns as explicit data, so that
//! the path-construction and traversal logic — splitting a slash-delimited
//! key into segments, truncating each segment, creating intermediate
//! directories on demand, and reconstructing keys by recursive listing —
//! is specified and verified exactly. A thin unverified shell may replay
//! the same resolved segment paths against a host filesystem.

use vstd::prelude::*;

mod any_bucket;
mod bucket;
mod codec;
mod double_bucket;
pub mod entries;
pub mod fs_model;
pub mod laws;
pub mod paths;

pub use any_bucket::first8;
pub use any_bucket::prepared_of;
pub use any_bucket::resolved_of;
pub use any_bucket::AnyBucket;
pub use any_bucket::AnyBucketView;
pub use bucket::Bucket;
pub use bucket::BucketView;
pub use codec::msgpack_u64;
pub use codec::Codec;
pub use double_bucket::DoubleBucket;
pub use double_bucket::DoubleBucketView;
pub use double_bucket::SubEntries;
pub use paths::maxify;
pub use paths::resolve_segments;
pub use paths::split_segments;

use paths::truncated;

verus! {

/// The failure taxonomy of the store: an I/O style failure (a missing
/// directory or entry, or an entry of the wrong kind), an encode failure
/// from the value codec, or a decode failure on malformed stored bytes.
#[derive(Debug)]
pub enum Error {
    Io(String),
    Encode(String),
    Decode(String),
}

impl Error {
    /// A short description of the failure.
    pub fn message(&self) -> (r: &str)
        ensures
            self matches Error::Io(m) ==> r@ == m@,
            self matches Error::Encode(m) ==> r@ == m@,
            self matches Error::Decode(m) ==> r@ == m@,
    {
        match self {
            Error::Io(m) => m.as_str(),
            Error::Encode(m) => m.as_str(),
            Error::Decode(m) => m.as_str(),
        }
    }
}

/// Marker for the bucket flavours a store hands out.
pub trait FsBucket {

}

/// The store factory: it owns a root directory and hands out buckets
/// rooted at sub-directories (or, for the hierarchical bucket, at the
/// root itself).
pub struct Fsdb {
    dir: String,
}

impl View for Fsdb {
    type V = Seq<char>;

    closed spec fn view(&self) -> Seq<char> {
        self.dir@
    }
}

impl Fsdb {
    /// Open a store rooted at `dir`; the root directory is created when
    /// absent.
    pub fn new(dir: &str) -> (r: Result<Fsdb, Error>)
        ensures
            r matches Ok(db) && db@ == dir@,
    {
        Ok(Fsdb { dir: dir.to_owned() })
    }

    /// A flat bucket backed by the sub-directory named by `p` (after
    /// truncation), created empty when absent. The handle models its
    /// backing directory as fresh: entries placed there by anything
    /// other than this handle are outside the model.
    pub fn bucket<V: Codec>(&self, p: &str, max_file_name: Option<usize>) -> (r: Result<
        Bucket<V>,
        Error,
    >)
        ensures
            r matches Ok(b) && b@.dir == self@ + seq!['/'] + truncated(p@, max_file_name)
                && b@.max_file_name == max_file_name && b@.entries == Option::Some(
                Seq::<(Seq<char>, Seq<u8>)>::empty(),
            ),
    {
        proof {
            reveal_strlit("/");
            assert(("/")@ =~= seq!['/']);
        }
        let p2 = maxify(p, max_file_name);
        let dir2 = self.dir.clone().concat("/").concat(p2.as_str());
        Ok(Bucket::new(dir2, max_file_name))
    }

    /// A two-level bucket backed by the sub-directory named by `p`
    /// (after truncation), created empty when absent. The handle models
    /// its backing directory as fresh: entries placed there by anything
    /// other than this handle are outside the model.
    pub fn double_bucket<V: Codec>(&self, p: &str, max_file_name: Option<usize>) -> (r: Result<
        DoubleBucket<V>,
        Error,
    >)
        ensures
            r matches Ok(b) && b@.dir == self@ + seq!['/'] + truncated(p@, max_file_name)
                && b@.max_file_name == max_file_name && b@.subs == Option::Some(
                Seq::<(Seq<char>, double_bucket::SubEntries)>::empty(),
            ),
    {
        proof {
            reveal_strlit("/");
            assert(("/")@ =~= seq!['/']);
        }
        let p2 = maxify(p, max_file_name);
        let dir2 = self.dir.clone().concat("/").concat(p2.as_str());
        Ok(DoubleBucket::new(dir2, max_file_name))
    }

    /// A hierarchical bucket rooted at the store root itself, whose
    /// directory chain exists.
    pub fn any_bucket<V: Codec>(&self, max_file_name: Option<usize>) -> (r: Result<
        AnyBucket<V>,
        Error,
    >)
        ensures
            r matches Ok(b) && b@.dir == self@ && b@.max_file_name == max_file_name && b@.files
                == Seq::<(fs_model::SegPath, Seq<u8>)>::empty() && b@.dirs.len() == split_count(
                self@,
            ) && (forall|k: int|
                0 <= k < b@.dirs.len() ==> b@.dirs[k] == paths::segments_of(self@).take(k + 1)),
    {
        Ok(AnyBucket::new(self.dir.clone(), max_file_name))
    }
}

/// How many segments the store root has.
pub open spec fn split_count(dir: Seq<char>) -> int {
    paths::segments_of(dir).len() as int
}

} // verus!
