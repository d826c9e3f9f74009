//! Commands of the replicated key-value log.
use vstd::prelude::*;

use crate::common::utils::Timestamp;

pub use crate::common::snapshot::KVSnapshot;

verus! {

/// Identifier of a client request, chosen by the client.
pub type CommandId = usize;

/// Identifier of a client.
pub type ClientId = u64;

/// Identifier of a server of the cluster.
pub type NodeId = u64;

/// Identifier of a replica instance.
pub type InstanceId = NodeId;

/// How a command reached the log.
#[derive(Clone, Copy, Debug, PartialEq, Eq, Structural, Hash)]
pub enum CommitPath {
    /// Released from the early buffer in deadline order.
    Fast,
    /// Appended at once because its deadline could no longer be ordered.
    Slow,
}

/// A key-value operation.
#[derive(Clone, Debug, PartialEq, Eq, Hash)]
pub enum KVCommand {
    Put(String, String),
    Delete(String),
    Get(String),
}

/// An entry of the replicated log.
#[derive(Clone, Debug, PartialEq, Eq, Hash)]
pub struct Command {
    pub client_id: ClientId,
    pub coordinator_id: NodeId,
    pub id: CommandId,
    pub kv_cmd: KVCommand,
    pub deadline: Timestamp,
    pub path: CommitPath,
}

/// How a decided-log record names a key-value operation.
pub open spec fn command_description(cmd: KVCommand) -> Seq<char> {
    match cmd {
        KVCommand::Put(k, v) => "Put("@ + k@ + ", "@ + v@ + ")"@,
        KVCommand::Get(k) => "Get("@ + k@ + ")"@,
        KVCommand::Delete(k) => "Delete("@ + k@ + ")"@,
    }
}

/// How a decided-log record names a key-value operation: `Put(key, value)`,
/// `Get(key)` or `Delete(key)`.
pub fn describe_command(cmd: &KVCommand) -> (res: String)
    ensures
        res@ == command_description(*cmd),
{
    match cmd {
        KVCommand::Put(k, v) => String::from_str("Put(").concat(k.as_str()).concat(", ").concat(
            v.as_str(),
        ).concat(")"),
        KVCommand::Get(k) => String::from_str("Get(").concat(k.as_str()).concat(")"),
        KVCommand::Delete(k) => String::from_str("Delete(").concat(k.as_str()).concat(")"),
    }
}

impl Command {
    /// The pair that identifies the request this command carries.
    pub fn request_key(&self) -> (res: (ClientId, CommandId))
        ensures
            res == (self.client_id, self.id),
    {
        (self.client_id, self.id)
    }
}

} // verus!
