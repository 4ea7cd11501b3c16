use epaxos::mem_engine::{DBColumnFamily, MemEngine, WriteEntry};
use epaxos::namespace::{NameSpace, WithNs};

#[test]
fn test_namespace() {
    assert_eq!("5/foo".as_bytes().to_vec(), 5i64.wrap_ns("foo".as_bytes()));
    assert_eq!(
        "bar/foo".as_bytes().to_vec(),
        "bar".wrap_ns("foo".as_bytes())
    );

    assert_eq!(None, 5i64.unwrap_ns("6/foo".as_bytes()));
    assert_eq!(
        Some("foo".as_bytes().to_vec()),
        5i64.unwrap_ns("5/foo".as_bytes())
    );
}

fn base_ops(w: &WithNs<i64>, eng: &mut MemEngine) {
    let k = b"key".to_vec();
    assert_eq!(None, w.get(eng, DBColumnFamily::Default, &k).unwrap());
    w.set(eng, DBColumnFamily::Default, &k, b"v1").unwrap();
    assert_eq!(Some(b"v1".to_vec()), w.get(eng, DBColumnFamily::Default, &k).unwrap());
    w.set(eng, DBColumnFamily::Default, &k, b"v2").unwrap();
    assert_eq!(Some(b"v2".to_vec()), w.get(eng, DBColumnFamily::Default, &k).unwrap());
    // stored under the namespace's prefix
    assert_eq!(
        Some(b"v2".to_vec()),
        eng.get(DBColumnFamily::Default, b"5/key").unwrap()
    );
    w.delete(eng, DBColumnFamily::Default, &k).unwrap();
    assert_eq!(None, w.get(eng, DBColumnFamily::Default, &k).unwrap());
}

fn kv_ops(w: &WithNs<i64>, eng: &mut MemEngine) {
    for (k, v) in [("a", "1"), ("c", "3"), ("e", "5")] {
        w.set(eng, DBColumnFamily::Status, k.as_bytes(), v.as_bytes()).unwrap();
    }
    let cf = DBColumnFamily::Status;
    assert_eq!(Some((b"c".to_vec(), b"3".to_vec())), w.next(eng, cf, b"b", false));
    assert_eq!(Some((b"c".to_vec(), b"3".to_vec())), w.next(eng, cf, b"c", true));
    assert_eq!(Some((b"e".to_vec(), b"5".to_vec())), w.next(eng, cf, b"c", false));
    assert_eq!(None, w.next(eng, cf, b"e", false));
    assert_eq!(Some((b"a".to_vec(), b"1".to_vec())), w.prev(eng, cf, b"b", false));
    assert_eq!(Some((b"c".to_vec(), b"3".to_vec())), w.prev(eng, cf, b"c", true));
    assert_eq!(Some((b"a".to_vec(), b"1".to_vec())), w.prev(eng, cf, b"c", false));
    assert_eq!(None, w.prev(eng, cf, b"a", false));
}

fn column_ops(w: &WithNs<i64>, eng: &mut MemEngine) {
    let k = b"k".to_vec();
    w.set(eng, DBColumnFamily::Default, &k, b"d").unwrap();
    w.set(eng, DBColumnFamily::Status, &k, b"s").unwrap();
    assert_eq!(Some(b"d".to_vec()), w.get(eng, DBColumnFamily::Default, &k).unwrap());
    assert_eq!(Some(b"s".to_vec()), w.get(eng, DBColumnFamily::Status, &k).unwrap());
    assert_eq!(None, w.get(eng, DBColumnFamily::Instance, &k).unwrap());
}

fn batch_ops(w: &WithNs<i64>, eng: &mut MemEngine) {
    let batch = vec![
        WriteEntry::Put(DBColumnFamily::Instance, b"i1".to_vec(), b"x".to_vec()),
        WriteEntry::Put(DBColumnFamily::Instance, b"i2".to_vec(), b"y".to_vec()),
        WriteEntry::Nil,
        WriteEntry::Delete(DBColumnFamily::Instance, b"i1".to_vec()),
    ];
    w.write_batch(eng, &batch).unwrap();
    assert_eq!(None, w.get(eng, DBColumnFamily::Instance, b"i1").unwrap());
    assert_eq!(Some(b"y".to_vec()), w.get(eng, DBColumnFamily::Instance, b"i2").unwrap());
}

#[test]
fn test_withns() {
    {
        let mut eng = MemEngine::new().unwrap();
        let w = WithNs::new(5i64);
        base_ops(&w, &mut eng);
    }

    {
        let mut eng = MemEngine::new().unwrap();
        let w = WithNs::new(5i64);
        kv_ops(&w, &mut eng);
    }

    {
        let mut eng = MemEngine::new().unwrap();
        let w = WithNs::new(5i64);
        column_ops(&w, &mut eng);
    }

    {
        let mut eng = MemEngine::new().unwrap();
        let w = WithNs::new(5i64);
        batch_ops(&w, &mut eng);
    }
}

#[test]
fn test_withns_no_overriding() {
    let mut eng = MemEngine::new().unwrap();
    let w1 = WithNs::new(1i64);
    let w2 = WithNs::new(2i64);

    let k = "foo".as_bytes().to_vec();
    let v1 = "111".as_bytes().to_vec();
    let v2 = "222".as_bytes().to_vec();

    {
        // no overriding for get/set

        w1.set(&mut eng, DBColumnFamily::Status, &k, &v1).unwrap();
        w2.set(&mut eng, DBColumnFamily::Status, &k, &v2).unwrap();

        let r = w1.get(&eng, DBColumnFamily::Status, &k).unwrap();
        assert_eq!(v1, r.unwrap());

        let r = w2.get(&eng, DBColumnFamily::Status, &k).unwrap();
        assert_eq!(v2, r.unwrap());
    }

    {
        // next/prev is bounded by namespace

        let r = w1.next(&eng, DBColumnFamily::Status, &k, true);
        assert_eq!((k.clone(), v1.clone()), r.unwrap());

        let r = w1.next(&eng, DBColumnFamily::Status, &k, false);
        assert!(r.is_none(), "next should not get k/v from other namespace");

        let r = w2.prev(&eng, DBColumnFamily::Status, &k, false);
        assert!(r.is_none(), "prev should not get k/v from other namespace");
    }

    {
        // write_batch should not override

        let k1 = "k1".as_bytes().to_vec();
        let k2 = "k2".as_bytes().to_vec();

        let batch = vec![
            WriteEntry::Put(DBColumnFamily::Default, k1.clone(), v1.clone()),
            WriteEntry::Put(DBColumnFamily::Status, k2.clone(), v1.clone()),
        ];

        w1.write_batch(&mut eng, &batch).unwrap();

        let r = w1.get(&eng, DBColumnFamily::Default, &k1).unwrap();
        assert_eq!(Some(v1), r);

        let r = w2.get(&eng, DBColumnFamily::Default, &k1).unwrap();
        assert!(r.is_none());

        let r = w2.get(&eng, DBColumnFamily::Status, &k2).unwrap();
        assert!(r.is_none());
    }
}
