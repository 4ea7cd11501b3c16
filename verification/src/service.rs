//! The replies of the replication service, and the service that answers
//! every request with the reply made from an empty instance.

use crate::qpaxos::{deps_view, BallotNum, Instance, InstanceId, InstanceIdVec};
use crate::replica::{copy_bools, copy_deps, FastAcceptReply};
use vstd::prelude::*;

verus! {

/// The answer to an accept request.
#[derive(PartialEq, Eq, Debug, Clone)]
pub struct AcceptReply {
    pub last_ballot: Option<BallotNum>,
    pub instance_id: Option<InstanceId>,
}

/// The answer to a commit request.
#[derive(PartialEq, Eq, Debug, Clone)]
pub struct CommitReply {
    pub last_ballot: Option<BallotNum>,
    pub instance_id: Option<InstanceId>,
}

/// The answer to a prepare request.
#[derive(PartialEq, Eq, Debug, Clone)]
pub struct PrepareReply {
    pub last_ballot: Option<BallotNum>,
    pub instance_id: Option<InstanceId>,
    pub deps: Option<InstanceIdVec>,
}

/// The fast-accept reply about `inst`: its dependencies.
pub fn make_fast_accept_reply(inst: &Instance, deps_committed: &Vec<bool>) -> (r: FastAcceptReply)
    ensures
        deps_view(r.deps) == deps_view(inst.deps),
        r.deps_committed@ == deps_committed@,
{
    FastAcceptReply { deps: copy_deps(&inst.deps), deps_committed: copy_bools(deps_committed) }
}

/// The accept reply about `inst`: its ballot and id.
pub fn make_accept_reply(inst: &Instance) -> (r: AcceptReply)
    ensures
        r.last_ballot == inst.ballot,
        r.instance_id == inst.instance_id,
{
    AcceptReply { last_ballot: inst.ballot, instance_id: inst.instance_id }
}

/// The commit reply about `inst`: its ballot and id.
pub fn make_commit_reply(inst: &Instance) -> (r: CommitReply)
    ensures
        r.last_ballot == inst.ballot,
        r.instance_id == inst.instance_id,
{
    CommitReply { last_ballot: inst.ballot, instance_id: inst.instance_id }
}

/// The prepare reply about `inst`: its ballot, id and dependencies.
pub fn make_prepare_reply(inst: &Instance) -> (r: PrepareReply)
    ensures
        r.last_ballot == inst.ballot,
        r.instance_id == inst.instance_id,
        deps_view(r.deps) == deps_view(inst.deps),
{
    PrepareReply { last_ballot: inst.ballot, instance_id: inst.instance_id, deps: copy_deps(&inst.deps) }
}

/// The replication service: it answers every request with the reply made
/// from an empty instance.
#[derive(Debug)]
pub struct MyQPaxos {}

impl Default for MyQPaxos {
    fn default() -> (r: MyQPaxos)
        ensures
            r == (MyQPaxos {}),
    {
        MyQPaxos {}
    }
}

impl MyQPaxos {
    pub fn new() -> (r: MyQPaxos)
        ensures
            r == (MyQPaxos {}),
    {
        MyQPaxos {}
    }

    /// The answer to any fast-accept request.
    pub fn fast_accept(&self) -> (r: FastAcceptReply)
        ensures
            r.deps is None,
            r.deps_committed@.len() == 0,
    {
        let inst = Instance::empty();
        make_fast_accept_reply(&inst, &Vec::new())
    }

    /// The answer to any accept request.
    pub fn accept(&self) -> (r: AcceptReply)
        ensures
            r.last_ballot is None,
            r.instance_id is None,
    {
        let inst = Instance::empty();
        make_accept_reply(&inst)
    }

    /// The answer to any commit request.
    pub fn commit(&self) -> (r: CommitReply)
        ensures
            r.last_ballot is None,
            r.instance_id is None,
    {
        let inst = Instance::empty();
        make_commit_reply(&inst)
    }

    /// The answer to any prepare request.
    pub fn prepare(&self) -> (r: PrepareReply)
        ensures
            r.last_ballot is None,
            r.instance_id is None,
            r.deps is None,
    {
        let inst = Instance::empty();
        make_prepare_reply(&inst)
    }
}

} // verus!
