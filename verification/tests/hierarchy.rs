//! The hierarchical and two-level buckets: nesting, recursive listing,
//! sub-bucket auto-creation, idempotent directory creation, and the raw
//! read of a fixed-size prefix.

use fsdb::AnyBucket;
use fsdb::DoubleBucket;
use fsdb::Error;
use fsdb::Fsdb;

#[test]
fn nesting_creates_ancestors() {
    let db = Fsdb::new("root").unwrap();
    let mut b: AnyBucket<u64> = db.any_bucket(None).unwrap();
    b.put("a/b/c", &7).unwrap();
    assert!(b.contains_key("a/b/c"));
    // the intermediate directories exist as keys too
    assert!(b.contains_key("a"));
    assert!(b.contains_key("a/b"));
    assert_eq!(b.list("a/b").unwrap(), vec!["c".to_string()]);
    assert_eq!(b.list("a").unwrap(), vec!["b".to_string()]);
}

#[test]
fn directory_creation_is_idempotent() {
    let db = Fsdb::new("root").unwrap();
    let mut b: AnyBucket<u64> = db.any_bucket(None).unwrap();
    b.put("a/b/c", &7).unwrap();
    b.put("a/b/c", &8).unwrap();
    assert_eq!(b.get("a/b/c").unwrap(), 8);
    assert_eq!(b.list("a").unwrap(), vec!["b".to_string()]);
    assert_eq!(b.list("a/b").unwrap(), vec!["c".to_string()]);
}

#[test]
fn exists_lifecycle_nested() {
    let db = Fsdb::new("root").unwrap();
    let mut b: AnyBucket<u64> = db.any_bucket(None).unwrap();
    assert!(!b.contains_key("x/y"));
    b.put("x/y", &1).unwrap();
    assert!(b.contains_key("x/y"));
    b.remove("x/y").unwrap();
    assert!(!b.contains_key("x/y"));
}

#[test]
fn nested_errors() {
    let db = Fsdb::new("root").unwrap();
    let mut b: AnyBucket<u64> = db.any_bucket(None).unwrap();
    // the leaf of an existing directory chain cannot be written as a file
    b.put("a/b/c", &7).unwrap();
    assert!(matches!(b.put("a/b", &1), Err(Error::Io(_))));
    // a key ending in a separator names a directory, never a file
    assert!(matches!(b.put("d/", &1), Err(Error::Io(_))));
    // reading a missing key is an I/O error
    assert!(matches!(b.get("a/b/zzz"), Err(Error::Io(_))));
    // listing a missing directory is an I/O error
    assert!(matches!(b.list("nope/deeper"), Err(Error::Io(_))));
}

#[test]
fn raw_and_read_8() {
    let db = Fsdb::new("root").unwrap();
    let mut b: AnyBucket<u64> = db.any_bucket(None).unwrap();
    b.put_raw("short", &[1, 2, 3]).unwrap();
    assert_eq!(b.read_8("short").unwrap(), [1, 2, 3, 0, 0, 0, 0, 0]);
    b.put_raw("long", &[1, 2, 3, 4, 5, 6, 7, 8, 9]).unwrap();
    assert_eq!(b.read_8("long").unwrap(), [1, 2, 3, 4, 5, 6, 7, 8]);
    assert_eq!(b.get_raw("long").unwrap(), vec![1, 2, 3, 4, 5, 6, 7, 8, 9]);
    assert!(matches!(b.read_8("none"), Err(Error::Io(_))));
}

#[test]
fn per_segment_truncation() {
    let db = Fsdb::new("r").unwrap();
    let mut b: AnyBucket<u64> = db.any_bucket(Some(4)).unwrap();
    b.put("alpha/bravo", &1).unwrap();
    // every segment of the key is truncated independently
    assert!(b.contains_key("alphXX/bravYY"));
    assert_eq!(b.get("alph/brav").unwrap(), 1);
    assert_eq!(b.list("alpha").unwrap(), vec!["brav".to_string()]);
}

#[test]
fn listing_is_deterministic() {
    let db = Fsdb::new("root").unwrap();
    let mut b: AnyBucket<u64> = db.any_bucket(None).unwrap();
    b.put("one/two/three/four/five", &1).unwrap();
    b.put("one/two/three/four/six", &2).unwrap();
    b.put("one/two/hello", &3).unwrap();
    b.put("top", &4).unwrap();
    // depth first, child directories before the files of each level,
    // everything in creation order — and each key exactly once
    let l = b.list_all().unwrap();
    assert_eq!(
        l,
        vec![
            "one/two/three/four/five".to_string(),
            "one/two/three/four/six".to_string(),
            "one/two/hello".to_string(),
            "top".to_string(),
        ]
    );
    let l2 = b.list_all().unwrap();
    assert_eq!(l, l2);
}

#[test]
fn clear_removes_whole_subtree() {
    let db = Fsdb::new("root").unwrap();
    let mut b: AnyBucket<u64> = db.any_bucket(None).unwrap();
    b.put("a/b/c", &1).unwrap();
    b.put("top", &2).unwrap();
    b.clear().unwrap();
    // a second clear fails at once: the root is gone
    assert!(matches!(b.clear(), Err(Error::Io(_))));
    // and so does a recursive listing
    assert!(matches!(b.list_all(), Err(Error::Io(_))));
    // a lookup recreates the intermediate directories of its key, but
    // finds nothing
    assert!(!b.contains_key("a/b/c"));
    assert!(!b.contains_key("top"));
    // after which the recreated root lists as empty
    assert_eq!(b.list_all().unwrap(), Vec::<String>::new());
}

#[test]
fn double_put_auto_creates_sub() {
    let db = Fsdb::new("root").unwrap();
    let mut b: DoubleBucket<u64> = db.double_bucket("two", None).unwrap();
    assert!(!b.contains_key("sub", "k"));
    b.put("sub", "k", 9).unwrap();
    assert!(b.contains_key("sub", "k"));
    assert_eq!(b.get("sub", "k").unwrap(), 9);
}

#[test]
fn double_get_missing_sub_is_io_error() {
    let db = Fsdb::new("root").unwrap();
    let mut b: DoubleBucket<u64> = db.double_bucket("two", None).unwrap();
    assert!(matches!(b.get("nosub", "k"), Err(Error::Io(_))));
    assert!(matches!(b.list("nosub"), Err(Error::Io(_))));
    assert!(matches!(b.remove("nosub", "k"), Err(Error::Io(_))));
    assert!(matches!(b.clear("nosub"), Err(Error::Io(_))));
    b.put("sub", "k", 9).unwrap();
    assert!(matches!(b.remove("sub", "other"), Err(Error::Io(_))));
}

#[test]
fn double_clear_levels() {
    let db = Fsdb::new("root").unwrap();
    let mut b: DoubleBucket<u64> = db.double_bucket("two", None).unwrap();
    b.put("s1", "k", 1).unwrap();
    b.put("s2", "k", 2).unwrap();
    b.clear("s1").unwrap();
    assert!(!b.contains_key("s1", "k"));
    assert!(b.contains_key("s2", "k"));
    // the cleared sub-bucket is recreated by the next put
    b.put("s1", "k", 3).unwrap();
    assert_eq!(b.get("s1", "k").unwrap(), 3);
    b.clear_all().unwrap();
    assert!(matches!(b.get("s2", "k"), Err(Error::Io(_))));
    assert!(matches!(b.put("s2", "k", 1), Err(Error::Io(_))));
}

#[test]
fn double_truncates_both_names() {
    let db = Fsdb::new("root").unwrap();
    let mut b: DoubleBucket<u64> = db.double_bucket("two", Some(3)).unwrap();
    b.put("subXX", "keyYY", 4).unwrap();
    assert!(b.contains_key("sub", "key"));
    assert_eq!(b.list("subZZ").unwrap(), vec!["key".to_string()]);
}
