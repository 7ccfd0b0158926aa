//! The store exercised end to end: full scenarios over each bucket
//! flavour (values are plain `u64`s, the one codec the library ships),
//! and checks for each law and error of the store.

use fsdb::AnyBucket;
use fsdb::Bucket;
use fsdb::DoubleBucket;
use fsdb::Error;
use fsdb::Fsdb;

#[test]
fn test_db() {
    let db = Fsdb::new("testdb/db1").expect("fail Fsdb::new");
    let mut b: Bucket<u64> = db.bucket("hi1234567890", Some(8)).expect("fail bucket");
    let t1: u64 = 1;
    b.put("keythatisverylong", &t1).expect("failed to save");
    let t2: u64 = b.get("keythatisverylong").expect("fail to load");
    assert_eq!(t1, t2);
    let list = b.list().expect("fail list");
    assert_eq!(list, vec!["keythati".to_string()]);
}

#[test]
fn test_double() {
    let db = Fsdb::new("testdb/db2").expect("fail Fsdb::new");
    let mut b: DoubleBucket<u64> = db.double_bucket("hi", None).expect("fail bucket");
    let t1: u64 = 1;
    b.put("sub1", "key", t1).expect("failed to save");
    let t2: u64 = b.get("sub1", "key").expect("fail to load");
    assert_eq!(t1, t2);
    let list = b.list("sub1").expect("fail list");
    assert_eq!(list, vec!["key".to_string()]);
}

#[test]
fn test_any() {
    let db = Fsdb::new("testdb/db3").expect("fail Fsdb::new");
    let mut b: AnyBucket<u64> = db.any_bucket(None).expect("fail bucket");

    b.put("one", &1).unwrap();
    let exists = b.contains_key("one");
    assert_eq!(exists, true);

    b.put("dir1/two", &2).unwrap();
    let exists2 = b.contains_key("dir1/two");
    assert_eq!(exists2, true);

    b.remove("one").unwrap();
    let exists = b.contains_key("one");
    assert_eq!(exists, false);

    b.remove("dir1/two").unwrap();
    let exists2 = b.contains_key("dir1/two");
    assert_eq!(exists2, false);

    b.put("dir1/three", &3).unwrap();
    let exists2 = b.contains_key("dir1/three");
    assert_eq!(exists2, true);

    let three = b.get("dir1/three").unwrap();
    assert_eq!(three, 3);

    let list1 = b.list("").unwrap();
    assert_eq!(list1, vec!["dir1"]);

    let list2 = b.list("dir1").unwrap();
    assert_eq!(list2, vec!["three"]);

    b.clear().unwrap();

    let list3 = b.list("").unwrap();
    assert_eq!(list3, Vec::<String>::new());
}

#[test]
fn test_list_recurse() {
    let db = Fsdb::new("testdb/db4").expect("fail Fsdb::new");
    let mut b: AnyBucket<u64> = db.any_bucket(None).expect("fail bucket");

    b.put("one/two/three/four/five", &1).unwrap();
    let exists = b.contains_key("one/two/three/four/five");
    assert_eq!(exists, true);

    b.put("one/two/three/four/six", &1).unwrap();

    b.put("one/two/hello", &1).unwrap();

    let mut l = b.list_all().unwrap();
    l.sort();
    let mut expected = vec![
        "one/two/three/four/six".to_string(),
        "one/two/three/four/five".to_string(),
        "one/two/hello".to_string(),
    ];
    expected.sort();
    assert_eq!(l, expected);
}

#[test]
fn round_trip_typed() {
    let db = Fsdb::new("db").unwrap();
    let mut b: Bucket<u64> = db.bucket("vals", None).unwrap();
    b.put("k", &1000).unwrap();
    assert_eq!(b.get("k").unwrap(), 1000);
    b.put("k", &u64::MAX).unwrap();
    assert_eq!(b.get("k").unwrap(), u64::MAX);
}

#[test]
fn stored_bytes_are_msgpack() {
    let db = Fsdb::new("db").unwrap();
    let mut b: Bucket<u64> = db.bucket("vals", None).unwrap();
    b.put("k", &1000).unwrap();
    // 1000 as a MessagePack 16-bit unsigned integer
    assert_eq!(b.get_raw("k").unwrap(), vec![0xcd, 0x03, 0xe8]);
    b.put_raw("m", &[0xcd, 0x03, 0xe8]).unwrap();
    assert_eq!(b.get("m").unwrap(), 1000);
}

#[test]
fn decode_error_on_malformed_bytes() {
    let db = Fsdb::new("db").unwrap();
    let mut b: Bucket<u64> = db.bucket("vals", None).unwrap();
    b.put_raw("bad", &[0xc1]).unwrap();
    assert!(matches!(b.get("bad"), Err(Error::Decode(_))));
    b.put_raw("empty", &[]).unwrap();
    assert!(matches!(b.get("empty"), Err(Error::Decode(_))));
}

#[test]
fn io_error_on_missing_entry() {
    let db = Fsdb::new("db").unwrap();
    let mut b: Bucket<u64> = db.bucket("vals", None).unwrap();
    assert!(matches!(b.get("nothing"), Err(Error::Io(_))));
    assert!(matches!(b.get_raw("nothing"), Err(Error::Io(_))));
    assert!(matches!(b.remove("nothing"), Err(Error::Io(_))));
    match b.get("nothing") {
        Err(e) => match &e {
            Error::Io(m) => assert_eq!(e.message(), m.as_str()),
            _ => panic!("expected an io error"),
        },
        Ok(_) => panic!("expected an error"),
    }
}

#[test]
fn exists_lifecycle_flat() {
    let db = Fsdb::new("db").unwrap();
    let mut b: Bucket<u64> = db.bucket("vals", None).unwrap();
    assert!(!b.contains_key("k"));
    b.put("k", &5).unwrap();
    assert!(b.contains_key("k"));
    b.remove("k").unwrap();
    assert!(!b.contains_key("k"));
}

#[test]
fn truncation_stored_name_and_collision() {
    let db = Fsdb::new("db").unwrap();
    let mut b: Bucket<u64> = db.bucket("vals", Some(4)).unwrap();
    b.put("abcdEF", &1).unwrap();
    b.put("abcdXY", &2).unwrap();
    // both keys collide on the four-character stored name
    assert_eq!(b.list().unwrap(), vec!["abcd".to_string()]);
    assert_eq!(b.get("abcdEF").unwrap(), 2);
    assert_eq!(b.get("abcd").unwrap(), 2);
}

#[test]
fn clear_then_operations_fail() {
    let db = Fsdb::new("db").unwrap();
    let mut b: Bucket<u64> = db.bucket("vals", None).unwrap();
    b.put("k", &5).unwrap();
    b.clear().unwrap();
    assert!(matches!(b.put("k", &5), Err(Error::Io(_))));
    assert!(matches!(b.get("k"), Err(Error::Io(_))));
    assert!(matches!(b.list(), Err(Error::Io(_))));
    assert!(matches!(b.clear(), Err(Error::Io(_))));
    assert!(!b.contains_key("k"));
    // a freshly recreated directory lists empty
    let b2: Bucket<u64> = db.bucket("vals", None).unwrap();
    assert_eq!(b2.list().unwrap(), Vec::<String>::new());
}

#[test]
fn bucket_dir_name() {
    let db = Fsdb::new("testdb/db1").unwrap();
    let b: Bucket<u64> = db.bucket("hi1234567890", Some(8)).unwrap();
    assert_eq!(b.dir(), "testdb/db1/hi123456".to_string());
}
