//! A replica: its identity, its peers, its storage, and what it answers to
//! a fast-accept request.

use crate::codec::{decode_instance, decoded_instance};
use crate::error::Error;
use crate::keys::{instance_key, lemma_instance_key_prefix, replica_key_prefix, replica_prefix, ToKey};
use crate::lex::{lex_le, lemma_lex_asymmetric};
use crate::mem_engine::{engine_set, DBColumnFamily, EngineView, MemEngine};
use crate::qpaxos::{
    cmds_view, deps_view, BallotNum, Command, CommandView, Instance, InstanceId, InstanceIdVec,
    InstanceView, ReplicaID, OP_GET, OP_NOOP,
};
use crate::sorted_kv::{in_scan, is_scan};
use vstd::prelude::*;
use vstd::slice::slice_to_vec;
use vstd::string::StringSliceAdditionalSpecFns;

verus! {

/// The storage a replica runs on.
pub type Storage = MemEngine;

/// Another replica of the group.
#[derive(PartialEq, Eq, Debug, Clone)]
pub struct ReplicaPeer {
    pub replica_id: ReplicaID,
    pub addr: String,
    pub alive: bool,
}

/// A replica.
pub struct Replica {
    pub replica_id: ReplicaID,
    pub group_replica_ids: Vec<ReplicaID>,
    pub peers: Vec<ReplicaPeer>,
    pub storage: Storage,
}

/// A fast-accept request: the commands of an instance, the dependencies
/// its leader saw, and which of them it knows to be committed.
#[derive(PartialEq, Eq, Debug, Clone)]
pub struct FastAcceptRequest {
    pub cmds: Vec<Command>,
    pub initial_deps: Option<InstanceIdVec>,
    pub deps_committed: Vec<bool>,
}

/// The answer to a fast-accept request: the dependencies this replica sees.
#[derive(PartialEq, Eq, Debug, Clone)]
pub struct FastAcceptReply {
    pub deps: Option<InstanceIdVec>,
    pub deps_committed: Vec<bool>,
}

// ---------------------------------------------------------------------
// Copies
// ---------------------------------------------------------------------

pub fn copy_command(c: &Command) -> (r: Command)
    ensures
        r@ == c@,
{
    Command { op: c.op, key: slice_to_vec(c.key.as_slice()), value: slice_to_vec(c.value.as_slice()) }
}

pub fn copy_commands(cs: &Vec<Command>) -> (r: Vec<Command>)
    ensures
        cmds_view(r@) == cmds_view(cs@),
{
    let mut out: Vec<Command> = Vec::new();
    let mut i: usize = 0;
    while i < cs.len()
        invariant
            i <= cs@.len(),
            cmds_view(out@) == cmds_view(cs@.subrange(0, i as int)),
        decreases cs@.len() - i,
    {
        let c = copy_command(&cs[i]);
        let ghost before = out@;
        out.push(c);
        proof {
            assert(cmds_view(out@) =~= cmds_view(before).push(cs@[i as int]@));
            assert(cmds_view(cs@.subrange(0, i + 1)) =~= cmds_view(cs@.subrange(0, i as int)).push(
                cs@[i as int]@,
            ));
        }
        i = i + 1;
    }
    proof {
        assert(cs@.subrange(0, i as int) =~= cs@);
    }
    out
}

pub fn copy_ids(ids: &Vec<InstanceId>) -> (r: Vec<InstanceId>)
    ensures
        r@ == ids@,
{
    let mut out: Vec<InstanceId> = Vec::new();
    let mut i: usize = 0;
    while i < ids.len()
        invariant
            i <= ids@.len(),
            out@ == ids@.subrange(0, i as int),
        decreases ids@.len() - i,
    {
        out.push(ids[i]);
        proof {
            assert(out@ =~= ids@.subrange(0, i + 1));
        }
        i = i + 1;
    }
    proof {
        assert(ids@.subrange(0, i as int) =~= ids@);
    }
    out
}

pub fn copy_deps(d: &Option<InstanceIdVec>) -> (r: Option<InstanceIdVec>)
    ensures
        deps_view(r) == deps_view(*d),
{
    match d {
        Some(v) => Some(InstanceIdVec { ids: copy_ids(&v.ids) }),
        None => None,
    }
}

pub fn copy_bools(bs: &Vec<bool>) -> (r: Vec<bool>)
    ensures
        r@ == bs@,
{
    let mut out: Vec<bool> = Vec::new();
    let mut i: usize = 0;
    while i < bs.len()
        invariant
            i <= bs@.len(),
            out@ == bs@.subrange(0, i as int),
        decreases bs@.len() - i,
    {
        out.push(bs[i]);
        proof {
            assert(out@ =~= bs@.subrange(0, i + 1));
        }
        i = i + 1;
    }
    proof {
        assert(bs@.subrange(0, i as int) =~= bs@);
    }
    out
}

// ---------------------------------------------------------------------
// Dependencies
// ---------------------------------------------------------------------

/// Instance `y` was proposed after it saw instance `a`: its dependencies
/// name `a`'s leader at `a`'s index or later.
pub open spec fn is_after(y: InstanceView, a: InstanceId) -> bool {
    match y.deps {
        Some(ds) => exists|i: int|
            0 <= i < ds.len() && (#[trigger] ds[i]).replica_id == a.replica_id && ds[i].idx >= a.idx,
        None => false,
    }
}

/// The instance read from `m[k]`.
pub open spec fn stored(m: Map<Seq<u8>, Seq<u8>>, k: Seq<u8>) -> InstanceView {
    decoded_instance(m[k])->Some_0
}

/// `m[k]` reads as an instance with dependencies and an id.
pub open spec fn holds_full_instance(m: Map<Seq<u8>, Seq<u8>>, k: Seq<u8>) -> bool {
    match decoded_instance(m[k]) {
        Some(x) => x.deps is Some && x.instance_id is Some,
        None => false,
    }
}

/// The keys a fast-accept request reads for dependency `d`: those of the
/// instances of `d`'s leader from `d` on.
pub open spec fn dep_scan(k: Seq<u8>, d: InstanceId) -> bool {
    in_scan(k, instance_key(d), replica_prefix(d.replica_id))
}

/// Every instance read for dependency `d` has dependencies and an id.
pub open spec fn scan_decodes(m: Map<Seq<u8>, Seq<u8>>, d: InstanceId) -> bool {
    forall|k: Seq<u8>| #[trigger] m.contains_key(k) && dep_scan(k, d) ==> holds_full_instance(m, k)
}

/// A stored instance that instance `a` may come to depend on in place of
/// `d`: one of `d`'s leader from `d` on, not `a` itself, that did not see
/// `a`.
pub open spec fn candidate(m: Map<Seq<u8>, Seq<u8>>, a: InstanceId, d: InstanceId, k: Seq<u8>) -> bool {
    &&& m.contains_key(k)
    &&& dep_scan(k, d)
    &&& !is_after(stored(m, k), a)
    &&& stored(m, k).instance_id != Some(a)
}

/// The candidate with the greatest key.
pub open spec fn last_candidate(m: Map<Seq<u8>, Seq<u8>>, a: InstanceId, d: InstanceId, k: Seq<u8>) -> bool {
    &&& candidate(m, a, d, k)
    &&& forall|k2: Seq<u8>| #[trigger] candidate(m, a, d, k2) ==> lex_le(k2, k)
}

/// What dependency `d` of instance `a` becomes at a replica that stores the
/// instances `m`: the id of the last candidate, and `d` when there is none.
pub open spec fn updated_dep(m: Map<Seq<u8>, Seq<u8>>, a: InstanceId, d: InstanceId) -> InstanceId {
    if exists|k: Seq<u8>| last_candidate(m, a, d, k) {
        stored(m, choose|k: Seq<u8>| last_candidate(m, a, d, k)).instance_id->Some_0
    } else {
        d
    }
}

/// All dependencies, updated.
pub open spec fn updated_deps(m: Map<Seq<u8>, Seq<u8>>, a: InstanceId, ds: Seq<InstanceId>) -> Seq<InstanceId> {
    ds.map_values(|d: InstanceId| updated_dep(m, a, d))
}

/// Whether `y` is after `a`.
pub fn depends_after(y: &Instance, a: InstanceId) -> (r: bool)
    ensures
        r == is_after(y@, a),
{
    match y.deps {
        None => false,
        Some(ref ds) => {
            let mut i: usize = 0;
            while i < ds.ids.len()
                invariant
                    i <= ds.ids@.len(),
                    y@.deps == Some(ds.ids@),
                    forall|j: int| 0 <= j < i ==> !((#[trigger] ds.ids@[j]).replica_id == a.replica_id
                        && ds.ids@[j].idx >= a.idx),
                decreases ds.ids@.len() - i,
            {
                if ds.ids[i].replica_id == a.replica_id && ds.ids[i].idx >= a.idx {
                    proof {
                        assert(y@.deps->Some_0[i as int] == ds.ids@[i as int]);
                    }
                    return true;
                }
                i = i + 1;
            }
            proof {
                assert(y@.deps == Some(ds.ids@));
            }
            false
        },
    }
}

/// Reads back the instance stored as `m[k]`.
fn read_stored(Ghost(m): Ghost<Map<Seq<u8>, Seq<u8>>>, Ghost(k): Ghost<Seq<u8>>, bytes: &[u8]) -> (y: Instance)
    requires
        holds_full_instance(m, k),
        bytes@ == m[k],
    ensures
        y@ == stored(m, k),
        y.instance_id is Some,
        y.deps is Some,
{
    match decode_instance(bytes) {
        Ok(y) => y,
        Err(_) => Instance::empty(),
    }
}

fn same_id(x: Option<InstanceId>, a: InstanceId) -> (r: bool)
    ensures
        r == (x == Some(a)),
{
    match x {
        Some(y) => y.replica_id == a.replica_id && y.idx == a.idx,
        None => false,
    }
}

proof fn lemma_last_candidate_unique(m: Map<Seq<u8>, Seq<u8>>, a: InstanceId, d: InstanceId, k1: Seq<u8>, k2: Seq<u8>)
    requires
        last_candidate(m, a, d, k1),
        last_candidate(m, a, d, k2),
    ensures
        k1 == k2,
{
    assert(lex_le(k1, k2));
    assert(lex_le(k2, k1));
    if k1 != k2 {
        lemma_lex_asymmetric(k1, k2);
    }
}

impl Replica {
    /// A replica with the given group, peers and storage.
    pub fn new_replica(
        replica_id: ReplicaID,
        group_replica_ids: Vec<ReplicaID>,
        peers: Vec<ReplicaPeer>,
        storage: Storage,
    ) -> (r: Replica)
        ensures
            r.replica_id == replica_id,
            r.group_replica_ids@ == group_replica_ids@,
            r.peers@ == peers@,
            r.storage == storage,
    {
        Replica { replica_id, group_replica_ids, peers, storage }
    }

    /// What dependency `d` of instance `a` becomes here.
    #[verifier::rlimit(40)]
    pub fn update_dep(&self, a: InstanceId, d: InstanceId) -> (r: InstanceId)
        requires
            self.storage.wf(),
            scan_decodes(self.storage@[DBColumnFamily::Instance], d),
        ensures
            r == updated_dep(self.storage@[DBColumnFamily::Instance], a, d),
    {
        let ghost m = self.storage@[DBColumnFamily::Instance];
        let start = d.to_key();
        let prefix = replica_key_prefix(d.replica_id);
        proof {
            lemma_instance_key_prefix(d);
        }
        let entries = self.storage.scan(DBColumnFamily::Instance, start.as_slice(), prefix.as_slice());
        let ghost ev = entries@.map_values(|e: (Vec<u8>, Vec<u8>)| (e.0@, e.1@));
        assert(is_scan(m, instance_key(d), replica_prefix(d.replica_id), ev));
        let mut best: Option<InstanceId> = None;
        let ghost mut best_pos: int = -1;
        let mut i: usize = 0;
        while i < entries.len()
            invariant
                i <= entries@.len(),
                ev == entries@.map_values(|e: (Vec<u8>, Vec<u8>)| (e.0@, e.1@)),
                is_scan(m, instance_key(d), replica_prefix(d.replica_id), ev),
                scan_decodes(m, d),
                -1 <= best_pos < i,
                best is None <==> best_pos == -1,
                best_pos >= 0 ==> candidate(m, a, d, ev[best_pos].0) && best == stored(
                    m,
                    ev[best_pos].0,
                ).instance_id,
                forall|j: int| best_pos < j < i ==> !candidate(m, a, d, #[trigger] ev[j].0),
            decreases entries@.len() - i,
        {
            let ghost k = ev[i as int].0;
            proof {
                assert(m.contains_key(k) && dep_scan(k, d));
            }
            let y = read_stored(Ghost(m), Ghost(k), entries[i].1.as_slice());
            let after = depends_after(&y, a);
            let itself = same_id(y.instance_id, a);
            if !after && !itself {
                best = y.instance_id;
                proof {
                    best_pos = i as int;
                }
            }
            i = i + 1;
        }
        match best {
            Some(b) => {
                proof {
                    let kb = ev[best_pos].0;
                    assert forall|k2: Seq<u8>| #[trigger] candidate(m, a, d, k2) implies lex_le(k2, kb) by {
                        let q = choose|j: int| 0 <= j < ev.len() && ev[j].0 == k2;
                        if q > best_pos {
                            assert(!candidate(m, a, d, ev[q].0));
                        } else if q < best_pos {
                            assert(crate::lex::lex_lt(ev[q].0, ev[best_pos].0));
                        }
                    }
                    assert(last_candidate(m, a, d, kb));
                    let kc = choose|k: Seq<u8>| last_candidate(m, a, d, k);
                    lemma_last_candidate_unique(m, a, d, kb, kc);
                }
                b
            },
            None => {
                proof {
                    assert forall|k: Seq<u8>| !last_candidate(m, a, d, k) by {
                        if candidate(m, a, d, k) {
                            let q = choose|j: int| 0 <= j < ev.len() && ev[j].0 == k;
                            assert(!candidate(m, a, d, ev[q].0));
                        }
                    }
                }
                d
            },
        }
    }

    /// What a fast-accept request for instance `inst` is answered here: the
    /// instance takes the request's commands and initial dependencies, and
    /// its dependencies become those updated by the instances stored here.
    pub fn handle_fast_accept(&self, req: &FastAcceptRequest, inst: &mut Instance) -> (r: Result<
        FastAcceptReply,
        Error,
    >)
        requires
            self.storage.wf(),
            old(inst).instance_id is Some,
            req.initial_deps is Some ==> forall|i: int|
                0 <= i < req.initial_deps->Some_0.ids@.len() ==> scan_decodes(
                    self.storage@[DBColumnFamily::Instance],
                    #[trigger] req.initial_deps->Some_0.ids@[i],
                ),
        ensures
            ({
                let m = self.storage@[DBColumnFamily::Instance];
                let a = old(inst).instance_id->Some_0;
                let deps = match req.initial_deps {
                    Some(v) => Some(updated_deps(m, a, v@)),
                    None => None,
                };
                &&& final(inst)@ == InstanceView {
                    cmds: cmds_view(req.cmds@),
                    initial_deps: deps_view(req.initial_deps),
                    deps: deps,
                    ..old(inst)@
                }
                &&& r is Ok
                &&& deps_view(r->Ok_0.deps) == deps
                &&& r->Ok_0.deps_committed@ == req.deps_committed@
            }),
    {
        let ghost m = self.storage@[DBColumnFamily::Instance];
        let a = match inst.instance_id {
            Some(a) => a,
            None => {
                proof {
                    assert(false);
                }
                return Err(Error::LackOf { field: String::from_str("instance_id") });
            },
        };
        let deps = match &req.initial_deps {
            Some(v) => {
                let mut out: Vec<InstanceId> = Vec::new();
                let mut i: usize = 0;
                while i < v.ids.len()
                    invariant
                        i <= v.ids@.len(),
                        self.storage.wf(),
                        m == self.storage@[DBColumnFamily::Instance],
                        forall|j: int|
                            0 <= j < v.ids@.len() ==> scan_decodes(m, #[trigger] v.ids@[j]),
                        out@ == updated_deps(m, a, v.ids@.subrange(0, i as int)),
                    decreases v.ids@.len() - i,
                {
                    let u = self.update_dep(a, v.ids[i]);
                    out.push(u);
                    proof {
                        assert(out@ =~= updated_deps(m, a, v.ids@.subrange(0, i + 1)));
                    }
                    i = i + 1;
                }
                proof {
                    assert(v.ids@.subrange(0, i as int) =~= v.ids@);
                }
                Some(InstanceIdVec { ids: out })
            },
            None => None,
        };
        inst.cmds = copy_commands(&req.cmds);
        inst.initial_deps = copy_deps(&req.initial_deps);
        inst.deps = copy_deps(&deps);
        Ok(FastAcceptReply { deps, deps_committed: copy_bools(&req.deps_committed) })
    }
}

} // verus!
