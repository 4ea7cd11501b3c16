use epaxos::codec::encode_instance_id;
use epaxos::error::Error;
use epaxos::keys::ToKey;
use epaxos::mem_engine::MemEngine;
use epaxos::qpaxos::{Command, Instance, InstanceId, OP_SET};
use epaxos::snapshot::{Base, ColumnedEngine, InstanceEngine, ObjectEngine, StatusEngine, TxEngine};

fn inst(rid: i64, idx: i64) -> Instance {
    let mut i = Instance::empty();
    i.instance_id = Some(InstanceId::new(rid, idx));
    i.cmds = vec![Command::new(OP_SET, b"x", b"1")];
    i
}

#[test]
fn test_base_access_and_iteration() {
    let mut e = MemEngine::new().unwrap();
    assert_eq!(Err(Error::NotFound), e.get_kv(&b"a".to_vec()));
    e.set_kv(b"b".to_vec(), b"2".to_vec()).unwrap();
    e.set_kv(b"a".to_vec(), b"1".to_vec()).unwrap();
    e.set_kv(b"c".to_vec(), b"3".to_vec()).unwrap();
    assert_eq!(Ok(b"1".to_vec()), e.get_kv(&b"a".to_vec()));
    assert_eq!(Some((b"b".to_vec(), b"2".to_vec())), e.next_kv(&b"a".to_vec(), false));

    let mut it = e.get_iter(b"a".to_vec(), true);
    let mut keys = vec![];
    while let Some((k, _)) = it.next() {
        keys.push(k);
    }
    assert_eq!(vec![b"a".to_vec(), b"b".to_vec(), b"c".to_vec()], keys);

    let mut it = e.get_iter(b"a".to_vec(), false);
    assert_eq!(Some((b"b".to_vec(), b"2".to_vec())), it.next());

    // a walk from a key between the stored ones hands out those after it
    let mut it = e.get_iter(b"aa".to_vec(), true);
    let mut walked = vec![];
    while let Some(kv) = it.next() {
        walked.push(kv);
    }
    assert_eq!(
        vec![(b"b".to_vec(), b"2".to_vec()), (b"c".to_vec(), b"3".to_vec())],
        walked
    );
}

#[test]
fn test_tx_engine() {
    let mut e = MemEngine::new().unwrap();
    e.set_kv(b"k".to_vec(), b"1".to_vec()).unwrap();
    assert_eq!(Err(Error::NoTransaction), e.trans_commit());
    e.trans_begin();
    e.set_kv(b"k".to_vec(), b"2".to_vec()).unwrap();
    assert_eq!(Ok(b"2".to_vec()), e.get_kv_for_update(&b"k".to_vec()));
    e.trans_rollback().unwrap();
    assert_eq!(Ok(b"1".to_vec()), e.get_kv(&b"k".to_vec()));

    // a rollback undoes the writes to every column
    let id = InstanceId::new(1, 1);
    e.trans_begin();
    e.set_instance(id, inst(1, 1)).unwrap();
    e.set_ref("max", 1, id).unwrap();
    e.trans_rollback().unwrap();
    assert_eq!(Err(Error::NotFound), e.get_instance(&id));
    assert_eq!(Err(Error::NotFound), e.get_ref("max", 1));
    assert_eq!(Err(Error::NoTransaction), e.trans_rollback());
}

#[test]
fn test_objects_and_refs() {
    let mut e = MemEngine::new().unwrap();
    let id = InstanceId::new(2, 7);
    assert_eq!(Err(Error::NotFound), e.get_obj(&id));
    e.set_obj(id, &inst(2, 7)).unwrap();
    assert_eq!(inst(2, 7), e.get_obj(&id).unwrap());
    assert_eq!(Ok(inst(2, 7)), e.decode_obj(&e.encode_obj(&inst(2, 7)).unwrap()));

    assert_eq!(Err(Error::NotFound), e.get_max_instance_id(2));
    e.set_ref("max", 2, InstanceId::new(2, 9)).unwrap();
    assert_eq!(Ok(InstanceId::new(2, 9)), e.get_max_instance_id(2));
    assert_eq!(Ok(InstanceId::new(2, 9)), e.get_ref("max", 2));
    assert_eq!(Err(Error::NotFound), e.get_max_exec_instance_id(2));
    e.set_ref("exec", 2, InstanceId::new(2, 3)).unwrap();
    assert_eq!(Ok(InstanceId::new(2, 3)), e.get_max_exec_instance_id(2));
    assert_eq!(b"max/0000000000000002".to_vec(), e.make_ref_key("max", 2));

    // bytes that hold no instance id, or no instance, give the parse error
    let parse_error = Error::DBError { msg: "parse instance id error".to_string() };
    e.set_kv(e.make_ref_key("max", 3), vec![0x0d, 0x00, 0x00, 0x00, 0x00]).unwrap();
    assert_eq!(Err(parse_error.clone()), e.get_ref("max", 3));
    assert_eq!(Err(parse_error.clone()), e.get_max_instance_id(3));
    assert_eq!(Err(parse_error.clone()), e.decode_obj(&vec![0x0d, 0x00, 0x00, 0x00, 0x00]));
    let bad = InstanceId::new(3, 1);
    e.set_kv(bad.to_key(), vec![0x08]).unwrap();
    assert_eq!(Err(parse_error), e.get_obj(&bad));
    // setting one reference leaves the others as they were
    e.set_ref("max", 2, InstanceId::new(2, 10)).unwrap();
    assert_eq!(Ok(InstanceId::new(2, 3)), e.get_max_exec_instance_id(2));

    e.set_instance_id(b"iid".to_vec(), InstanceId::new(1, 2)).unwrap();
    assert_eq!(Ok(encode_instance_id(&InstanceId::new(1, 2))), e.get_kv(&b"iid".to_vec()));
}

#[test]
fn test_instance_engine() {
    let mut e = MemEngine::new().unwrap();
    let id = InstanceId::new(1, 2);
    assert_eq!(Err(Error::NotFound), e.get_instance(&id));
    assert_eq!(Err(Error::NotFound), e.update_instance(id, inst(1, 2)));
    e.set_instance(id, inst(1, 2)).unwrap();
    assert_eq!(Ok(inst(1, 2)), e.get_instance(&id));
    let mut changed = inst(1, 2);
    changed.committed = true;
    e.update_instance(id, changed.clone()).unwrap();
    assert_eq!(Ok(changed.clone()), e.get_instance(&id));
    // instances are not in the plain key space
    assert_eq!(Err(Error::NotFound), e.get_kv(&id.to_key()));

    e.set_instance(InstanceId::new(1, 0), inst(1, 0)).unwrap();
    e.set_instance(InstanceId::new(0, 5), inst(0, 5)).unwrap();
    e.set_instance(InstanceId::new(2, 0), inst(2, 0)).unwrap();
    let mut it = e.get_instance_iter(1);
    let mut got = vec![];
    while let Some(r) = it.next() {
        got.push(r.unwrap().instance_id.unwrap());
    }
    assert_eq!(vec![InstanceId::new(1, 0), InstanceId::new(1, 2)], got);
}
