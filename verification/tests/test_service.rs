use epaxos::qpaxos::{BallotNum, Instance, InstanceId, InstanceIdVec};
use epaxos::service::{make_accept_reply, make_fast_accept_reply, make_prepare_reply, MyQPaxos};

#[test]
fn test_service_replies() {
    let svc = MyQPaxos::new();
    let _same = MyQPaxos::default();
    let r = svc.fast_accept();
    assert_eq!(None, r.deps);
    assert!(r.deps_committed.is_empty());
    assert_eq!(None, svc.accept().instance_id);
    assert_eq!(None, svc.commit().last_ballot);
    assert_eq!(None, svc.prepare().deps);

    let mut inst = Instance::empty();
    inst.ballot = Some(BallotNum::new(1, 2, 3));
    inst.instance_id = Some(InstanceId::new(3, 4));
    inst.deps = Some(InstanceIdVec::new(vec![InstanceId::new(0, 1)]));
    let r = make_accept_reply(&inst);
    assert_eq!(inst.ballot, r.last_ballot);
    assert_eq!(inst.instance_id, r.instance_id);
    let r = make_prepare_reply(&inst);
    assert_eq!(inst.deps, r.deps);
    let r = make_fast_accept_reply(&inst, &vec![true]);
    assert_eq!(inst.deps, r.deps);
    assert_eq!(vec![true], r.deps_committed);
}
