//! Messages between servers, and between servers and clients.
use vstd::prelude::*;

use crate::common::kv::{ClientId, CommandId, CommitPath, KVCommand, NodeId};
use crate::common::utils::Timestamp;

verus! {

/// The first message on a new connection, telling what connected.
#[derive(Clone, Debug)]
pub enum RegistrationMessage {
    NodeRegister(NodeId),
    ClientRegister,
}

/// The leader's answer to a command, sent to the command's coordinator.
#[derive(Clone, Debug)]
pub struct LeaderResponse {
    pub command_id: CommandId,
    pub client_id: ClientId,
    pub response: ServerMessage,
}

/// The log position at which a command with a deadline was placed.
#[derive(Clone, Debug)]
pub struct SyncIndex {
    pub client_id: ClientId,
    pub command_id: CommandId,
    pub deadline: Timestamp,
    pub log_index: usize,
}

/// A replica's notice that a command took the slow path.
#[derive(Clone, Debug)]
pub struct SlowPathReply {
    pub command_id: CommandId,
    pub client_id: ClientId,
    pub replica_id: NodeId,
}

/// A replica's report, to a command's coordinator, that the command was
/// decided, with the hash of the replica's decided log.
#[derive(Clone, Debug)]
pub struct Reply {
    pub command_id: CommandId,
    pub client_id: ClientId,
    pub coordinator_id: NodeId,
    pub replica_id: NodeId,
    pub is_leader: bool,
    pub log_hash: u64,
    pub is_slow_path: bool,
}

/// A request of a client.
#[derive(Clone, Debug)]
pub enum ClientMessage {
    Append(CommandId, KVCommand),
}

/// A message from a server to a client. The last string of a response
/// names the path by which its command was committed.
#[derive(Clone, Debug)]
pub enum ServerMessage {
    Write(CommandId, String),
    Read(CommandId, Option<String>, String),
    StartSignal(Timestamp),
}

/// The name of a commit path, as responses carry it.
pub open spec fn commit_path_label(path: CommitPath) -> Seq<char> {
    match path {
        CommitPath::Fast => "Fast"@,
        CommitPath::Slow => "Slow"@,
    }
}

/// The name of a commit path, as responses carry it.
pub fn commit_path_name(path: CommitPath) -> (res: String)
    ensures
        res@ == commit_path_label(path),
{
    match path {
        CommitPath::Fast => String::from_str("Fast"),
        CommitPath::Slow => String::from_str("Slow"),
    }
}

impl ServerMessage {
    /// The command that a response answers. A start signal answers none.
    pub fn command_id(&self) -> (res: CommandId)
        requires
            !(self is StartSignal),
        ensures
            match self {
                ServerMessage::Write(id, _) => res == *id,
                ServerMessage::Read(id, _, _) => res == *id,
                ServerMessage::StartSignal(_) => false,
            },
    {
        match self {
            ServerMessage::Write(id, _) => *id,
            ServerMessage::Read(id, _, _) => *id,
            ServerMessage::StartSignal(_) => {
                proof {
                    assert(false);
                }
                0
            },
        }
    }

    /// The commit path that a response names. A start signal names none.
    pub fn commit_path(&self) -> (res: String)
        requires
            !(self is StartSignal),
        ensures
            match self {
                ServerMessage::Write(_, path) => res@ == path@,
                ServerMessage::Read(_, _, path) => res@ == path@,
                ServerMessage::StartSignal(_) => false,
            },
    {
        match self {
            ServerMessage::Write(_, path) => path.clone(),
            ServerMessage::Read(_, _, path) => path.clone(),
            ServerMessage::StartSignal(_) => {
                proof {
                    assert(false);
                }
                String::new()
            },
        }
    }
}

} // verus!
