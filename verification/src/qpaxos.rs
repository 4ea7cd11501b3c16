//! The data of the replication protocol: instance ids, ballots, commands
//! and instances.

use vstd::prelude::*;

verus! {

/// The id of a replica.
pub type ReplicaID = i64;

/// Command op codes.
pub const OP_NOOP: i32 = 0i32;
pub const OP_GET: i32 = 1i32;
pub const OP_SET: i32 = 2i32;
pub const OP_DELETE: i32 = 3i32;

/// An instance is identified by its leader replica and its index among the
/// instances of that leader.
#[derive(PartialEq, Eq, Structural, Debug, Clone, Copy)]
pub struct InstanceId {
    pub replica_id: i64,
    pub idx: i64,
}

/// A ballot number: epoch, number and the replica that owns it.
#[derive(PartialEq, Eq, Structural, Debug, Clone, Copy)]
pub struct BallotNum {
    pub epoch: i32,
    pub num: i32,
    pub replica_id: i64,
}

/// A command an instance carries: an op code, a key and a value.
#[derive(PartialEq, Eq, Debug, Clone)]
pub struct Command {
    pub op: i32,
    pub key: Vec<u8>,
    pub value: Vec<u8>,
}

/// A list of instance ids.
#[derive(PartialEq, Eq, Debug, Clone)]
pub struct InstanceIdVec {
    pub ids: Vec<InstanceId>,
}

/// An instance of the protocol.
#[derive(PartialEq, Eq, Debug, Clone)]
pub struct Instance {
    pub ballot: Option<BallotNum>,
    pub instance_id: Option<InstanceId>,
    pub cmds: Vec<Command>,
    pub initial_deps: Option<InstanceIdVec>,
    pub deps: Option<InstanceIdVec>,
    pub final_deps: Option<InstanceIdVec>,
    pub committed: bool,
    pub executed: bool,
}

/// A command, key and value as byte sequences.
pub struct CommandView {
    pub op: i32,
    pub key: Seq<u8>,
    pub value: Seq<u8>,
}

/// An instance, with its lists as sequences.
pub struct InstanceView {
    pub ballot: Option<BallotNum>,
    pub instance_id: Option<InstanceId>,
    pub cmds: Seq<CommandView>,
    pub initial_deps: Option<Seq<InstanceId>>,
    pub deps: Option<Seq<InstanceId>>,
    pub final_deps: Option<Seq<InstanceId>>,
    pub committed: bool,
    pub executed: bool,
}

impl View for Command {
    type V = CommandView;

    open spec fn view(&self) -> CommandView {
        CommandView { op: self.op, key: self.key@, value: self.value@ }
    }
}

impl View for InstanceIdVec {
    type V = Seq<InstanceId>;

    open spec fn view(&self) -> Seq<InstanceId> {
        self.ids@
    }
}

pub open spec fn cmds_view(cmds: Seq<Command>) -> Seq<CommandView> {
    cmds.map_values(|c: Command| c@)
}

pub open spec fn deps_view(d: Option<InstanceIdVec>) -> Option<Seq<InstanceId>> {
    match d {
        Some(v) => Some(v@),
        None => None,
    }
}

impl View for Instance {
    type V = InstanceView;

    open spec fn view(&self) -> InstanceView {
        InstanceView {
            ballot: self.ballot,
            instance_id: self.instance_id,
            cmds: cmds_view(self.cmds@),
            initial_deps: deps_view(self.initial_deps),
            deps: deps_view(self.deps),
            final_deps: deps_view(self.final_deps),
            committed: self.committed,
            executed: self.executed,
        }
    }
}

impl InstanceId {
    pub fn new(replica_id: i64, idx: i64) -> (r: InstanceId)
        ensures
            r == (InstanceId { replica_id, idx }),
    {
        InstanceId { replica_id, idx }
    }
}

impl BallotNum {
    pub fn new(epoch: i32, num: i32, replica_id: i64) -> (r: BallotNum)
        ensures
            r == (BallotNum { epoch, num, replica_id }),
    {
        BallotNum { epoch, num, replica_id }
    }
}

impl Command {
    pub fn new(op: i32, key: &[u8], value: &[u8]) -> (r: Command)
        ensures
            r@ == (CommandView { op, key: key@, value: value@ }),
    {
        Command { op, key: vstd::slice::slice_to_vec(key), value: vstd::slice::slice_to_vec(value) }
    }
}

impl InstanceIdVec {
    pub fn new(ids: Vec<InstanceId>) -> (r: InstanceIdVec)
        ensures
            r@ == ids@,
    {
        InstanceIdVec { ids }
    }
}

impl Instance {
    /// An instance with nothing set.
    pub fn empty() -> (r: Instance)
        ensures
            r@ == (InstanceView {
                ballot: None,
                instance_id: None,
                cmds: Seq::empty(),
                initial_deps: None,
                deps: None,
                final_deps: None,
                committed: false,
                executed: false,
            }),
    {
        let r = Instance {
            ballot: None,
            instance_id: None,
            cmds: Vec::new(),
            initial_deps: None,
            deps: None,
            final_deps: None,
            committed: false,
            executed: false,
        };
        assert(r@.cmds =~= Seq::<CommandView>::empty());
        r
    }
}

} // verus!
