use epaxos::fixtures::{
    _handle_fast_accept_request, fast_accept_request, new_foo_inst, new_foo_replica, new_mem_sto,
};
use epaxos::qpaxos::{Command, Instance, InstanceId, InstanceIdVec, OP_SET};

fn instid(replica_id: i64, idx: i64) -> InstanceId {
    InstanceId::new(replica_id, idx)
}

fn instids(ids: &[(i64, i64)]) -> InstanceIdVec {
    InstanceIdVec::new(ids.iter().map(|(r, i)| instid(*r, *i)).collect())
}

/// An instance with the given id, one command on `key`, and the given
/// initial dependencies and dependencies.
fn foo_inst(iid: InstanceId, key: &str, deps: &[(i64, i64)]) -> Instance {
    let mut inst = Instance::empty();
    inst.instance_id = Some(iid);
    inst.cmds = vec![Command::new(OP_SET, key.as_bytes(), b"value")];
    inst.initial_deps = Some(instids(deps));
    inst.deps = Some(instids(deps));
    inst
}

fn _test_updated_inst(
    got: &Instance,
    cmds: Vec<Command>,
    final_deps: Option<InstanceIdVec>,
    committed: bool,
    executed: bool,
) {
    assert_eq!(cmds, got.cmds, "cmds");
    assert_eq!(final_deps, got.final_deps, "final_deps");
    assert_eq!(committed, got.committed, "committed");
    assert_eq!(executed, got.executed, "executed");
}

#[test]
fn test_handle_fast_accept_normal() {
    let replica_id = 1;
    let replica = new_foo_replica(replica_id, new_mem_sto(), &[]);

    {
        let inst = new_foo_inst(replica_id);
        let iid = inst.instance_id.unwrap();
        let _blt = inst.ballot;

        let deps_committed = vec![false, false, false];
        let req = fast_accept_request(&inst, &deps_committed);
        let mut local_inst = Instance::empty();
        local_inst.instance_id = Some(iid);
        let repl = replica.handle_fast_accept(&req, &mut local_inst);
        let repl = repl.unwrap();

        assert_eq!(deps_committed, repl.deps_committed);
        assert_eq!(inst.deps, repl.deps);

        assert_eq!(inst.deps, local_inst.deps);
        assert_eq!(inst.initial_deps, local_inst.initial_deps);

        _test_updated_inst(&local_inst, inst.cmds, None, false, false);
    }

    {
        // instance space layout, then a is replicated to R1
        //               .c
        //             /  |
        // d          d   |
        // |          |\ /
        // a          a-b            c
        // x y z      x y z      x y z
        // -----      -----      -----
        // R0         R1         R2

        let x_iid = instid(0, 0);
        let instx = foo_inst(x_iid, "key_x", &[(0, 0), (0, 0), (0, 0)]);

        let y_iid = instid(1, 0);
        let insty = foo_inst(y_iid, "key_y", &[(0, 0), (0, 0), (0, 0)]);

        let z_iid = instid(2, 0);
        let instz = foo_inst(z_iid, "key_z", &[(0, 0), (0, 0), (0, 0)]);

        // instb -> {x, y, z} committed
        let b_iid = instid(1, 1);
        let mut instb = foo_inst(b_iid, "key_b", &[(0, 0), (1, 0), (2, 0)]);
        instb.committed = true;

        // insta -> {x, y, z}
        let a_iid = instid(0, 1);
        let insta = foo_inst(a_iid, "key_a", &[(0, 0), (1, 0), (2, 0)]);

        // instd -> {a, b, z}
        let d_iid = instid(0, 2);
        let instd = foo_inst(d_iid, "key_d", &[(0, 1), (1, 1), (2, 0)]);

        // instc -> {d, b, z}
        let c_iid = instid(2, 3);
        let instc = foo_inst(c_iid, "key_z", &[(0, 2), (1, 1), (2, 0)]);

        let replica = new_foo_replica(
            replica_id,
            new_mem_sto(),
            &[
                ((0, 0), &instx),
                ((0, 2), &instd),
                ((1, 0), &insty),
                ((1, 1), &instb),
                ((2, 0), &instz),
                ((2, 3), &instc),
            ],
        );

        let deps_committed = vec![false, true, false];
        let req = fast_accept_request(&insta, &deps_committed);

        let mut local_inst = Instance::empty();
        local_inst.instance_id = Some(a_iid);

        let repl = replica.handle_fast_accept(&req, &mut local_inst);
        let repl = repl.unwrap();

        let wantdeps = InstanceIdVec::new(vec![x_iid, b_iid, z_iid]);
        let wantdeps = Some(wantdeps);

        assert_eq!(deps_committed, repl.deps_committed);
        assert_eq!(wantdeps.clone(), repl.deps);

        assert_eq!(wantdeps.clone(), local_inst.deps);
        assert_eq!(insta.initial_deps, local_inst.initial_deps);

        _test_updated_inst(&local_inst, insta.cmds, None, false, false);
    }
}

#[test]
fn test_fast_accept_request_helper() {
    // the instance answered for is the stored one: it is no dependency of
    // itself, so the request's dependency stays
    let stored = foo_inst(instid(0, 3), "k", &[(0, 0), (1, -1)]);
    let req_inst = foo_inst(instid(1, 0), "k", &[(0, 0), (1, 5)]);
    let repl = _handle_fast_accept_request((0, 3), stored, req_inst).unwrap();
    assert_eq!(Some(instids(&[(0, 0), (1, 5)])), repl.deps);
    assert_eq!(vec![false], repl.deps_committed);
}

#[test]
fn test_fast_accept_candidates() {
    // on replica 0: (0, 1) did not see a = (1, 0), (0, 2) did, (0, 4) did not
    let i01 = foo_inst(instid(0, 1), "k", &[(1, -1)]);
    let i02 = foo_inst(instid(0, 2), "k", &[(1, 0)]);
    let i04 = foo_inst(instid(0, 4), "k", &[(1, -1), (0, 2)]);
    // on replica 2: (2, 7) saw a later instance of replica 1
    let i27 = foo_inst(instid(2, 7), "k", &[(1, 3)]);
    let replica = new_foo_replica(
        1,
        new_mem_sto(),
        &[((0, 1), &i01), ((0, 2), &i02), ((0, 4), &i04), ((2, 7), &i27)],
    );
    let a = foo_inst(instid(1, 0), "k", &[(0, 0), (2, 0), (3, 9)]);
    let req = fast_accept_request(&a, &vec![true, false, false]);
    let mut local = Instance::empty();
    local.instance_id = Some(instid(1, 0));
    let repl = replica.handle_fast_accept(&req, &mut local).unwrap();
    // replica 0: the last that did not see a; replica 2: none; replica 3: nothing stored
    assert_eq!(Some(instids(&[(0, 4), (2, 0), (3, 9)])), repl.deps);
    assert_eq!(repl.deps, local.deps);
    assert_eq!(a.initial_deps, local.initial_deps);
    assert_eq!(vec![true, false, false], repl.deps_committed);

    // the scan starts at the dependency itself
    let a = foo_inst(instid(1, 0), "k", &[(0, 3)]);
    let req = fast_accept_request(&a, &vec![false]);
    let mut local = Instance::empty();
    local.instance_id = Some(instid(1, 0));
    let repl = replica.handle_fast_accept(&req, &mut local).unwrap();
    assert_eq!(Some(instids(&[(0, 4)])), repl.deps);
}

#[test]
fn test_new_foo_inst() {
    let inst = new_foo_inst(7);
    assert_eq!(Some(instid(7, 1)), inst.instance_id);
    assert_eq!(2, inst.cmds.len());
    assert_eq!(b"k1".to_vec(), inst.cmds[0].key);
    assert_eq!(b"v2".to_vec(), inst.cmds[1].value);
    assert_eq!(Some(instids(&[(1, 10), (2, 20), (3, 30)])), inst.deps);
    assert_eq!(inst.deps, inst.initial_deps);
    assert_eq!(Some(instids(&[(3, 30)])), inst.final_deps);
    let b = inst.ballot.unwrap();
    assert_eq!((2, 2, 7), (b.epoch, b.num, b.replica_id));
}
