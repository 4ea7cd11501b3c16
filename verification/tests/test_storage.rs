use epaxos::byte_str::{i64_decimal, u64_digits};
use epaxos::keys::{make_ref_key, u64_hex16, ToKey};
use epaxos::lex::{compare_keys, starts_with, KeyOrder};
use epaxos::mem_engine::{DBColumnFamily, MemEngine, WriteEntry};
use epaxos::qpaxos::InstanceId;
use epaxos::sorted_kv::SortedKv;

#[test]
fn test_compare_keys() {
    assert_eq!(KeyOrder::Less, compare_keys(b"a", b"b"));
    assert_eq!(KeyOrder::Less, compare_keys(b"ab", b"abc"));
    assert_eq!(KeyOrder::Greater, compare_keys(b"b", b"abc"));
    assert_eq!(KeyOrder::Equal, compare_keys(b"abc", b"abc"));
    assert_eq!(KeyOrder::Less, compare_keys(b"", b"a"));
    assert!(starts_with(b"5/foo", b"5/"));
    assert!(!starts_with(b"5", b"5/"));
}

#[test]
fn test_sorted_kv() {
    let mut t = SortedKv::new();
    t.set(b"b", b"2");
    t.set(b"a", b"1");
    t.set(b"c", b"3");
    t.set(b"b", b"22");
    assert_eq!(Some(b"22".to_vec()), t.get(b"b"));
    assert_eq!(None, t.get(b"bb"));
    assert_eq!(Some((b"c".to_vec(), b"3".to_vec())), t.next(b"bb", false));
    assert_eq!(Some((b"b".to_vec(), b"22".to_vec())), t.prev(b"bb", false));
    assert_eq!(Some((b"a".to_vec(), b"1".to_vec())), t.next(b"", true));
    t.delete(b"b");
    assert_eq!(None, t.get(b"b"));
    assert_eq!(Some((b"c".to_vec(), b"3".to_vec())), t.next(b"a", false));
    t.delete(b"zz");
    assert_eq!(Some(b"1".to_vec()), t.get(b"a"));

    let mut u = SortedKv::new();
    for k in ["p/1", "p/2", "q/1", "p/0", "o/9"] {
        u.set(k.as_bytes(), b"v");
    }
    let s = u.scan(b"p/1", b"p/");
    let keys: Vec<Vec<u8>> = s.into_iter().map(|e| e.0).collect();
    assert_eq!(vec![b"p/1".to_vec(), b"p/2".to_vec()], keys);

    let c = u.copy();
    assert_eq!(Some(b"v".to_vec()), c.get(b"o/9"));
}

#[test]
fn test_engine_columns_and_batch() {
    let mut e = MemEngine::new().unwrap();
    e.set(DBColumnFamily::Default, b"k", b"d").unwrap();
    e.set(DBColumnFamily::Status, b"k", b"s").unwrap();
    assert_eq!(Some(b"d".to_vec()), e.get(DBColumnFamily::Default, b"k").unwrap());
    assert_eq!(Some(b"s".to_vec()), e.get(DBColumnFamily::Status, b"k").unwrap());
    assert_eq!(None, e.get(DBColumnFamily::Instance, b"k").unwrap());

    let batch = vec![
        WriteEntry::Put(DBColumnFamily::Default, b"a".to_vec(), b"1".to_vec()),
        WriteEntry::Delete(DBColumnFamily::Default, b"k".to_vec()),
        WriteEntry::Put(DBColumnFamily::Default, b"a".to_vec(), b"2".to_vec()),
    ];
    e.write_batch(&batch).unwrap();
    assert_eq!(Some(b"2".to_vec()), e.get(DBColumnFamily::Default, b"a").unwrap());
    assert_eq!(None, e.get(DBColumnFamily::Default, b"k").unwrap());
    assert_eq!(
        Some((b"a".to_vec(), b"2".to_vec())),
        e.prev(DBColumnFamily::Default, b"z", false)
    );
    assert_eq!(None, e.next(DBColumnFamily::Default, b"a", false));
}

#[test]
fn test_engine_transactions() {
    let mut e = MemEngine::new().unwrap();
    e.set(DBColumnFamily::Default, b"k", b"1").unwrap();
    assert!(e.commit().is_err());
    assert!(e.rollback().is_err());

    e.begin();
    e.set(DBColumnFamily::Default, b"k", b"2").unwrap();
    e.set(DBColumnFamily::Status, b"s", b"x").unwrap();
    e.rollback().unwrap();
    assert_eq!(Some(b"1".to_vec()), e.get(DBColumnFamily::Default, b"k").unwrap());
    assert_eq!(None, e.get(DBColumnFamily::Status, b"s").unwrap());

    e.begin();
    e.set(DBColumnFamily::Default, b"k", b"3").unwrap();
    e.commit().unwrap();
    assert_eq!(Some(b"3".to_vec()), e.get(DBColumnFamily::Default, b"k").unwrap());
    assert!(e.rollback().is_err());
}

#[test]
fn test_text_of_integers() {
    assert_eq!(b"0".to_vec(), u64_digits(0));
    assert_eq!(b"18446744073709551615".to_vec(), u64_digits(u64::MAX));
    assert_eq!(b"-9223372036854775808".to_vec(), i64_decimal(i64::MIN));
    assert_eq!(b"-5".to_vec(), i64_decimal(-5));
    assert_eq!(b"000000000000012c".to_vec(), u64_hex16(300));
    assert_eq!(
        b"0000000000000001/ffffffffffffffff".to_vec(),
        InstanceId::new(1, -1).to_key()
    );
    assert_eq!(b"max/0000000000000003".to_vec(), make_ref_key("max", 3));
}
