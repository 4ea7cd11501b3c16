//! Ready-made instances, storages and replicas for exercising a replica.

use crate::codec::{encode_instance, instance_bytes, lemma_instance_decodes};
use crate::error::Error;
use crate::keys::{instance_key, ToKey};
use crate::mem_engine::{empty_engine, engine_set, DBColumnFamily, EngineView, MemEngine};
use crate::qpaxos::{
    cmds_view, deps_view, BallotNum, Command, CommandView, Instance, InstanceId, InstanceIdVec,
    InstanceView, OP_GET, OP_NOOP,
};
use crate::replica::{
    copy_commands, copy_deps, copy_bools, dep_scan, holds_full_instance, scan_decodes, updated_deps,
    FastAcceptReply, FastAcceptRequest, Replica, Storage,
};
use vstd::prelude::*;
use vstd::string::StringSliceAdditionalSpecFns;

verus! {

/// The fast-accept request a leader sends for `inst`.
pub fn fast_accept_request(inst: &Instance, deps_committed: &Vec<bool>) -> (r: FastAcceptRequest)
    ensures
        cmds_view(r.cmds@) == cmds_view(inst.cmds@),
        deps_view(r.initial_deps) == deps_view(inst.initial_deps),
        r.deps_committed@ == deps_committed@,
{
    FastAcceptRequest {
        cmds: copy_commands(&inst.cmds),
        initial_deps: copy_deps(&inst.initial_deps),
        deps_committed: copy_bools(deps_committed),
    }
}

/// The instance id `(replica, index)`.
pub open spec fn iid_of(p: (i64, i64)) -> InstanceId {
    InstanceId { replica_id: p.0, idx: p.1 }
}

/// An instance led by `leader_id` at index 1, in ballot (2, 2) of its
/// leader, with a no-op on `k1` and a get of `k2`, depending on (1, 10),
/// (2, 20) and (3, 30), and finally on (3, 30) alone.
pub fn new_foo_inst(leader_id: i64) -> (r: Instance)
    ensures
        r@ == (InstanceView {
            ballot: Some(BallotNum { epoch: 2, num: 2, replica_id: leader_id }),
            instance_id: Some(InstanceId { replica_id: leader_id, idx: 1 }),
            cmds: seq![
                CommandView { op: OP_NOOP, key: "k1".spec_bytes(), value: "v1".spec_bytes() },
                CommandView { op: OP_GET, key: "k2".spec_bytes(), value: "v2".spec_bytes() },
            ],
            initial_deps: Some(
                seq![
                    InstanceId { replica_id: 1, idx: 10 },
                    InstanceId { replica_id: 2, idx: 20 },
                    InstanceId { replica_id: 3, idx: 30 },
                ],
            ),
            deps: Some(
                seq![
                    InstanceId { replica_id: 1, idx: 10 },
                    InstanceId { replica_id: 2, idx: 20 },
                    InstanceId { replica_id: 3, idx: 30 },
                ],
            ),
            final_deps: Some(seq![InstanceId { replica_id: 3, idx: 30 }]),
            committed: false,
            executed: false,
        }),
{
    let mut cmds: Vec<Command> = Vec::new();
    cmds.push(Command::new(OP_NOOP, "k1".as_bytes(), "v1".as_bytes()));
    cmds.push(Command::new(OP_GET, "k2".as_bytes(), "v2".as_bytes()));
    let mut deps: Vec<InstanceId> = Vec::new();
    deps.push(InstanceId::new(1, 10));
    deps.push(InstanceId::new(2, 20));
    deps.push(InstanceId::new(3, 30));
    let mut initial: Vec<InstanceId> = Vec::new();
    initial.push(InstanceId::new(1, 10));
    initial.push(InstanceId::new(2, 20));
    initial.push(InstanceId::new(3, 30));
    let mut fin: Vec<InstanceId> = Vec::new();
    fin.push(InstanceId::new(3, 30));
    let r = Instance {
        ballot: Some(BallotNum::new(2, 2, leader_id)),
        instance_id: Some(InstanceId::new(leader_id, 1)),
        cmds,
        initial_deps: Some(InstanceIdVec::new(initial)),
        deps: Some(InstanceIdVec::new(deps)),
        final_deps: Some(InstanceIdVec::new(fin)),
        committed: false,
        executed: false,
    };
    proof {
        assert(r@.cmds =~= seq![
            CommandView { op: OP_NOOP, key: "k1".spec_bytes(), value: "v1".spec_bytes() },
            CommandView { op: OP_GET, key: "k2".spec_bytes(), value: "v2".spec_bytes() },
        ]);
        assert(r@.initial_deps->Some_0 =~= seq![
            InstanceId { replica_id: 1, idx: 10 },
            InstanceId { replica_id: 2, idx: 20 },
            InstanceId { replica_id: 3, idx: 30 },
        ]);
        assert(r@.deps->Some_0 =~= seq![
            InstanceId { replica_id: 1, idx: 10 },
            InstanceId { replica_id: 2, idx: 20 },
            InstanceId { replica_id: 3, idx: 30 },
        ]);
        assert(r@.final_deps->Some_0 =~= seq![InstanceId { replica_id: 3, idx: 30 }]);
    }
    r
}

/// A new in-memory storage with nothing stored.
pub fn new_mem_sto() -> (r: Storage)
    ensures
        r.wf(),
        r@ == empty_engine(),
        !r.in_trans(),
{
    MemEngine::new().unwrap()
}

/// `v` after storing the encoding of each instance of `insts` under the key
/// of the id paired with it, first to last.
pub open spec fn with_instances(v: EngineView, insts: Seq<((i64, i64), &Instance)>) -> EngineView
    decreases insts.len(),
{
    if insts.len() == 0 {
        v
    } else {
        let (p, inst) = insts.last();
        engine_set(
            with_instances(v, insts.drop_last()),
            DBColumnFamily::Instance,
            instance_key(iid_of(p)),
            instance_bytes(inst@),
        )
    }
}

/// A replica of group 0, 1, 2, with no peers, whose storage holds the
/// instances of `insts` besides what it held.
pub fn new_foo_replica(replica_id: i64, storage: Storage, insts: &[((i64, i64), &Instance)]) -> (r:
    Replica)
    requires
        storage.wf(),
    ensures
        r.replica_id == replica_id,
        r.group_replica_ids@ == seq![0i64, 1, 2],
        r.peers@.len() == 0,
        r.storage.wf(),
        r.storage@ == with_instances(storage@, insts@),
{
    let mut group: Vec<i64> = Vec::new();
    group.push(0);
    group.push(1);
    group.push(2);
    let mut r = Replica::new_replica(replica_id, group, Vec::new(), storage);
    let mut i: usize = 0;
    while i < insts.len()
        invariant
            i <= insts@.len(),
            r.replica_id == replica_id,
            r.group_replica_ids@ == seq![0i64, 1, 2],
            r.peers@.len() == 0,
            r.storage.wf(),
            r.storage@ == with_instances(storage@, insts@.subrange(0, i as int)),
        decreases insts@.len() - i,
    {
        let (p, inst) = insts[i];
        let value = encode_instance(inst);
        let iid = InstanceId::new(p.0, p.1);
        let key = iid.to_key();
        let _ = r.storage.set(DBColumnFamily::Instance, key.as_slice(), value.as_slice());
        proof {
            assert(insts@.subrange(0, i + 1).drop_last() =~= insts@.subrange(0, i as int));
        }
        i = i + 1;
    }
    proof {
        assert(insts@.subrange(0, i as int) =~= insts@);
    }
    r
}

/// Replica 1 storing `inst` under `iid` answers a fast-accept request for
/// `req_inst` that knows none of its dependencies committed; `inst` is the
/// instance the answer is made for.
pub fn _handle_fast_accept_request(iid: (i64, i64), inst: Instance, req_inst: Instance) -> (r: Result<
    FastAcceptReply,
    Error,
>)
    requires
        inst.instance_id is Some,
        req_inst.initial_deps is Some ==> forall|i: int|
            0 <= i < req_inst.initial_deps->Some_0.ids@.len() ==> (dep_scan(
                instance_key(iid_of(iid)),
                #[trigger] req_inst.initial_deps->Some_0.ids@[i],
            ) ==> inst.deps is Some),
    ensures
        ({
            let m = Map::<Seq<u8>, Seq<u8>>::empty().insert(instance_key(iid_of(iid)), instance_bytes(inst@));
            &&& r is Ok
            &&& deps_view(r->Ok_0.deps) == match req_inst.initial_deps {
                Some(v) => Some(updated_deps(m, inst.instance_id->Some_0, v@)),
                None => None,
            }
            &&& r->Ok_0.deps_committed@ == seq![false]
        }),
{
    let ghost m = Map::<Seq<u8>, Seq<u8>>::empty().insert(instance_key(iid_of(iid)), instance_bytes(inst@));
    let mut insts: Vec<((i64, i64), &Instance)> = Vec::new();
    insts.push((iid, &inst));
    let replica = new_foo_replica(1, new_mem_sto(), insts.as_slice());
    proof {
        assert(insts@.drop_last() =~= Seq::<((i64, i64), &Instance)>::empty());
        assert(insts@.last() == (iid, &inst));
        assert(with_instances(empty_engine(), Seq::<((i64, i64), &Instance)>::empty()) == empty_engine());
        assert(empty_engine()[DBColumnFamily::Instance] == Map::<Seq<u8>, Seq<u8>>::empty());
        assert(replica.storage@[DBColumnFamily::Instance] =~= m);
    }
    let mut committed: Vec<bool> = Vec::new();
    committed.push(false);
    let req = fast_accept_request(&req_inst, &committed);
    let mut local = inst;
    proof {
        let k = instance_key(iid_of(iid));
        replica.storage.lemma_value_fits(DBColumnFamily::Instance, k);
        lemma_instance_decodes(local@);
        if req.initial_deps is Some {
            assert forall|i: int| 0 <= i < req.initial_deps->Some_0.ids@.len() implies scan_decodes(
                replica.storage@[DBColumnFamily::Instance],
                #[trigger] req.initial_deps->Some_0.ids@[i],
            ) by {
                let d = req.initial_deps->Some_0.ids@[i];
                assert(d == req_inst.initial_deps->Some_0.ids@[i]);
                assert forall|k2: Seq<u8>| #[trigger] m.contains_key(k2) && dep_scan(k2, d) implies holds_full_instance(m, k2) by {
                    assert(k2 == k);
                    assert(instance_bytes(local@) == m[k2]);
                }
            }
        }
    }
    let r = replica.handle_fast_accept(&req, &mut local);
    proof {
        assert(committed@ =~= seq![false]);
    }
    r
}

} // verus!
