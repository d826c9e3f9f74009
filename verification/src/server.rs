//! The decisions of a server: where a client request goes (the replicated
//! log at once, or the early buffer), which buffered commands leave the
//! early buffer, when a coordinator may answer a client on the fast path,
//! and what the leader answers for a decided command.
use vstd::prelude::*;

use std::collections::HashMap;

use crate::common::kv::{ClientId, Command, CommandId, CommitPath, KVCommand, NodeId};
use crate::common::messages::{commit_path_label, commit_path_name, LeaderResponse, Reply, ServerMessage};
use crate::common::utils::{now_millis, Timestamp};
use crate::deadline::{
    buffer_insert, deadline_for, in_release_order, is_late, ready, ready_count, released_before,
    lemma_buffer_insert_in_order, lemma_buffer_insert_is_insert, lemma_ready_count, EarlyBuffer,
    LATENCY_BOUND_US,
};

verus! {

broadcast use vstd::std_specs::hash::group_hash_axioms;

/// What a coordinator has heard from the replicas about one command.
struct FastReplyTracker {
    leader_hash: Option<u64>,
    follower_hashes: HashMap<u64, usize>,
}

/// What a coordinator has heard about one command: the log hash the leader reported, if
/// it did, and for each log hash the number of followers that reported it.
pub struct TrackerView {
    pub leader_hash: Option<u64>,
    pub follower_hashes: Map<u64, usize>,
}

impl View for FastReplyTracker {
    type V = TrackerView;

    closed spec fn view(&self) -> TrackerView {
        TrackerView { leader_hash: self.leader_hash, follower_hashes: self.follower_hashes@ }
    }
}

/// The model of a [`ServerCore`].
pub struct ServerView {
    pub id: NodeId,
    pub peers: Seq<NodeId>,
    pub early_buffer: Seq<Command>,
    pub last_log_deadline: Timestamp,
    pub fast_replies: Map<CommandId, TrackerView>,
    pub leader_responses: Map<CommandId, (ClientId, ServerMessage)>,
}

/// The buffer is in release order, and no buffered command has a deadline
/// before that of the last command released.
pub open spec fn server_wf(v: ServerView) -> bool {
    &&& in_release_order(v.early_buffer)
    &&& forall|i: int|
        0 <= i < v.early_buffer.len() ==> v.last_log_deadline <= (#[trigger] v.early_buffer[i]).deadline
}

/// A request is placed in the log at once, on the slow path, when it is late
/// or when its deadline lies before that of a command already released.
pub open spec fn takes_slow_path(v: ServerView, deadline: int, now: int, uncertainty: int) -> bool {
    deadline < v.last_log_deadline || now >= deadline - uncertainty
}

/// The command that a request of client `from` becomes at server `v`.
pub open spec fn command_for(
    v: ServerView,
    from: ClientId,
    command_id: CommandId,
    kv_command: KVCommand,
    deadline: Timestamp,
    now: int,
    uncertainty: int,
) -> Command {
    Command {
        client_id: from,
        coordinator_id: v.id,
        id: command_id,
        kv_cmd: kv_command,
        deadline: deadline,
        path: if takes_slow_path(v, deadline as int, now, uncertainty) {
            CommitPath::Slow
        } else {
            CommitPath::Fast
        },
    }
}

/// A request arrives: a slow-path command is handed out for the log at
/// once; a fast-path command waits in the early buffer.
pub open spec fn append_step(
    v: ServerView,
    from: ClientId,
    command_id: CommandId,
    kv_command: KVCommand,
    deadline: Timestamp,
    now: int,
    uncertainty: int,
) -> (ServerView, Option<Command>) {
    let c = command_for(v, from, command_id, kv_command, deadline, now, uncertainty);
    if takes_slow_path(v, deadline as int, now, uncertainty) {
        (v, Some(c))
    } else {
        (ServerView { early_buffer: buffer_insert(v.early_buffer, c), ..v }, None)
    }
}

/// The clock reads `now`: the ready front of the early buffer is handed out
/// for the log, and the last released deadline moves to the last of them.
pub open spec fn release_step(v: ServerView, now: int, uncertainty: int) -> (ServerView, Seq<Command>) {
    let k = ready_count(v.early_buffer, now, uncertainty) as int;
    let released = v.early_buffer.take(k);
    (
        ServerView {
            early_buffer: v.early_buffer.skip(k),
            last_log_deadline: if k > 0 {
                released.last().deadline
            } else {
                v.last_log_deadline
            },
            ..v
        },
        released,
    )
}

/// The number of followers that must confirm the leader's log hash before a
/// coordinator answers a client, in a cluster of `num_peers + 1` servers.
pub open spec fn required_followers(num_peers: nat) -> nat {
    let f = num_peers / 2;
    f + f / 2
}

/// The number of followers that reported hash `h`.
pub open spec fn follower_count(t: TrackerView, h: u64) -> nat {
    if t.follower_hashes.contains_key(h) {
        t.follower_hashes[h] as nat
    } else {
        0
    }
}

/// What server `v` has heard about command `id`.
pub open spec fn tracker_of(v: ServerView, id: CommandId) -> TrackerView {
    if v.fast_replies.contains_key(id) {
        v.fast_replies[id]
    } else {
        TrackerView { leader_hash: None, follower_hashes: Map::empty() }
    }
}

/// The tracker after reply `r` was counted.
pub open spec fn record_reply(t: TrackerView, r: Reply) -> TrackerView {
    if r.is_leader {
        TrackerView { leader_hash: Some(r.log_hash), ..t }
    } else {
        TrackerView {
            follower_hashes: t.follower_hashes.insert(
                r.log_hash,
                (follower_count(t, r.log_hash) + 1) as usize,
            ),
            ..t
        }
    }
}

/// The leader has reported its log hash, and enough followers reported the
/// same hash.
pub open spec fn commits(t: TrackerView, num_peers: nat) -> bool {
    match t.leader_hash {
        Some(h) => follower_count(t, h) >= required_followers(num_peers),
        None => false,
    }
}

/// A reply reaches the coordinator. Once the command commits, its tracker is
/// dropped, and the leader's answer, if the coordinator holds it, goes to the
/// client.
pub open spec fn fast_reply_step(v: ServerView, r: Reply) -> (
    ServerView,
    Option<(ClientId, ServerMessage)>,
) {
    let id = r.command_id;
    let t = record_reply(tracker_of(v, id), r);
    if commits(t, v.peers.len()) {
        (
            ServerView {
                fast_replies: v.fast_replies.remove(id),
                leader_responses: v.leader_responses.remove(id),
                ..v
            },
            if v.leader_responses.contains_key(id) {
                Some(v.leader_responses[id])
            } else {
                None
            },
        )
    } else {
        (ServerView { fast_replies: v.fast_replies.insert(id, t), ..v }, None)
    }
}

/// Counting reply `r` does not overflow its counter.
pub open spec fn reply_countable(v: ServerView, r: Reply) -> bool {
    !r.is_leader ==> follower_count(tracker_of(v, r.command_id), r.log_hash) < usize::MAX
}

/// The reply that server `v` sends about decided command `c`.
pub open spec fn reply_for(v: ServerView, c: Command, is_leader: bool, log_hash: u64) -> Reply {
    Reply {
        command_id: c.id,
        client_id: c.client_id,
        coordinator_id: c.coordinator_id,
        replica_id: v.id,
        is_leader: is_leader,
        log_hash: log_hash,
        is_slow_path: c.path == CommitPath::Slow,
    }
}

/// This server's reply about decided command `c`: counted here when this
/// server coordinates `c`, and otherwise sent to the coordinator. The result
/// is the new state, the reply to send with its receiver, and the answer
/// now due to a client.
pub open spec fn decided_command_step(v: ServerView, c: Command, is_leader: bool, log_hash: u64) -> (
    ServerView,
    Option<(NodeId, Reply)>,
    Option<(ClientId, ServerMessage)>,
) {
    let r = reply_for(v, c, is_leader, log_hash);
    if c.coordinator_id == v.id {
        let (v1, out) = fast_reply_step(v, r);
        (v1, None, out)
    } else {
        (v, Some((c.coordinator_id, r)), None)
    }
}

/// `msg` is the answer to command `c` whose execution read `read`: a read
/// answer for a read, a write answer otherwise, naming the commit path.
pub open spec fn is_response_for(msg: ServerMessage, c: Command, read: Option<Option<String>>) -> bool {
    match read {
        Some(value) => match msg {
            ServerMessage::Read(id, v, p) => id == c.id && v == value && p@ == commit_path_label(
                c.path,
            ),
            _ => false,
        },
        None => match msg {
            ServerMessage::Write(id, p) => id == c.id && p@ == commit_path_label(c.path),
            _ => false,
        },
    }
}

/// The answer to a command whose execution read a value, present or absent,
/// is a read answer carrying that value; only a command that read nothing
/// (a write) gets a write answer. Either names the command and its commit
/// path.
pub proof fn lemma_answer_by_read(msg: ServerMessage, c: Command, read: Option<Option<String>>)
    ensures
        is_response_for(msg, c, read) <==> ({
            let label = match c.path {
                CommitPath::Fast => "Fast"@,
                CommitPath::Slow => "Slow"@,
            };
            match read {
                Some(value) => msg matches ServerMessage::Read(id, got, p) && id == c.id && got == value
                    && p@ == label,
                None => msg matches ServerMessage::Write(id, p) && id == c.id && p@ == label,
            }
        }),
{
}

/// The server `id` is the leader in its accept phase.
pub open spec fn leads(id: NodeId, current_leader: Option<(NodeId, bool)>) -> bool {
    match current_leader {
        Some((leader, accept_phase)) => leader == id && accept_phase,
        None => false,
    }
}

/// Whether the server `id` is the leader in its accept phase, given the
/// leader that the consensus instance reports.
pub fn is_current_leader(id: NodeId, current_leader: Option<(NodeId, bool)>) -> (res: bool)
    ensures
        res == leads(id, current_leader),
{
    match current_leader {
        Some((leader_id, accept_phase)) => leader_id == id && accept_phase,
        None => false,
    }
}

/// How long after the leader is established the experiment starts, in
/// milliseconds.
pub const START_DELAY_MS: i64 = 2000;

/// The start of an experiment scheduled when the wall clock reads `now_ms`:
/// [`START_DELAY_MS`] later, or `None` where that lies beyond the range of a
/// time stamp.
pub fn start_time_from(now_ms: Timestamp) -> (res: Option<Timestamp>)
    ensures
        res == if now_ms <= i64::MAX - START_DELAY_MS {
            Some((now_ms + START_DELAY_MS) as Timestamp)
        } else {
            None::<Timestamp>
        },
{
    if now_ms <= i64::MAX - START_DELAY_MS {
        Some(now_ms + START_DELAY_MS)
    } else {
        None
    }
}

/// The wall-clock time, in milliseconds since the Unix epoch, at which the
/// experiment starts: [`START_DELAY_MS`] after the clock's reading. `None`
/// where the clock cannot be read, or the start lies beyond the range of a
/// time stamp.
pub fn experiment_start_time() -> (res: Option<Timestamp>)
    ensures
        res matches Some(t) ==> t >= START_DELAY_MS,
{
    match now_millis() {
        Some(now) => start_time_from(now),
        None => None,
    }
}

/// The start signals for clients `1` to `num_clients`, in order.
pub fn client_start_signals(num_clients: u64, start_time: Timestamp) -> (res: Vec<
    (ClientId, ServerMessage),
>)
    ensures
        res@.len() == num_clients,
        forall|i: int|
            0 <= i < res@.len() ==> (#[trigger] res@[i]).0 == i + 1 && res@[i].1
                == ServerMessage::StartSignal(start_time),
{
    let mut res: Vec<(ClientId, ServerMessage)> = Vec::new();
    let mut i: u64 = 0;
    while i < num_clients
        invariant
            i <= num_clients,
            res@.len() == i,
            forall|j: int|
                0 <= j < res@.len() ==> (#[trigger] res@[j]).0 == j + 1 && res@[j].1
                    == ServerMessage::StartSignal(start_time),
        decreases num_clients - i,
    {
        res.push((i + 1, ServerMessage::StartSignal(start_time)));
        i = i + 1;
    }
    res
}

/// The decision state of a server.
pub struct ServerCore {
    id: NodeId,
    peers: Vec<NodeId>,
    early_buffer: EarlyBuffer,
    last_log_deadline: Timestamp,
    fast_replies: HashMap<CommandId, FastReplyTracker>,
    leader_responses: HashMap<CommandId, (ClientId, ServerMessage)>,
}

impl View for ServerCore {
    type V = ServerView;

    closed spec fn view(&self) -> ServerView {
        ServerView {
            id: self.id,
            peers: self.peers@,
            early_buffer: self.early_buffer@,
            last_log_deadline: self.last_log_deadline,
            fast_replies: self.fast_replies@.map_values(|t: FastReplyTracker| t@),
            leader_responses: self.leader_responses@,
        }
    }
}

impl ServerCore {
    #[verifier::type_invariant]
    spec fn inv(self) -> bool {
        server_wf(self@)
    }

    /// A server with id `id` among `peers`, with nothing buffered or heard.
    pub fn new(id: NodeId, peers: Vec<NodeId>) -> (res: Self)
        ensures
            res@.id == id,
            res@.peers == peers@,
            res@.early_buffer == Seq::<Command>::empty(),
            res@.last_log_deadline == 0,
            res@.fast_replies == Map::<CommandId, TrackerView>::empty(),
            res@.leader_responses == Map::<CommandId, (ClientId, ServerMessage)>::empty(),
            server_wf(res@),
    {
        let res = ServerCore {
            id,
            peers,
            early_buffer: EarlyBuffer::new(),
            last_log_deadline: 0,
            fast_replies: HashMap::new(),
            leader_responses: HashMap::new(),
        };
        assert(res@.fast_replies =~= Map::<CommandId, TrackerView>::empty());
        res
    }

    /// Places the request `command_id` of client `from`, with the given
    /// deadline, at the clock reading `current_time`: a late request, or
    /// one whose deadline lies before the last released deadline, is handed
    /// back for the log at once on the slow path; any other waits in the
    /// early buffer on the fast path.
    pub fn append_to_log(
        &mut self,
        from: ClientId,
        command_id: CommandId,
        kv_command: KVCommand,
        deadline: Timestamp,
        current_time: Timestamp,
        uncertainty: i64,
    ) -> (res: Option<Command>)
        ensures
            (final(self)@, res) == append_step(
                old(self)@,
                from,
                command_id,
                kv_command,
                deadline,
                current_time as int,
                uncertainty as int,
            ),
            server_wf(final(self)@),
            res is Some <==> (deadline < old(self)@.last_log_deadline || current_time >= deadline
                - uncertainty),
            res is Some ==> final(self)@ == old(self)@ && res == Some(
                Command {
                    client_id: from,
                    coordinator_id: old(self)@.id,
                    id: command_id,
                    kv_cmd: kv_command,
                    deadline: deadline,
                    path: CommitPath::Slow,
                },
            ),
            res is None ==> {
                &&& final(self)@.early_buffer.len() == old(self)@.early_buffer.len() + 1
                &&& final(self)@ == (ServerView {
                    early_buffer: final(self)@.early_buffer,
                    ..old(self)@
                })
                &&& exists|p: int|
                    0 <= p <= old(self)@.early_buffer.len() && final(self)@.early_buffer
                        == #[trigger] old(self)@.early_buffer.insert(
                        p,
                        Command {
                            client_id: from,
                            coordinator_id: old(self)@.id,
                            id: command_id,
                            kv_cmd: kv_command,
                            deadline: deadline,
                            path: CommitPath::Fast,
                        },
                    )
            },
    {
        proof {
            use_type_invariant(&*self);
            lemma_append_rule(
                self@,
                from,
                command_id,
                kv_command,
                deadline,
                current_time as int,
                uncertainty as int,
            );
        }
        let late = deadline < self.last_log_deadline || is_late(current_time, deadline, uncertainty);
        if late {
            let command = Command {
                client_id: from,
                coordinator_id: self.id,
                id: command_id,
                kv_cmd: kv_command,
                deadline,
                path: CommitPath::Slow,
            };
            Some(command)
        } else {
            let command = Command {
                client_id: from,
                coordinator_id: self.id,
                id: command_id,
                kv_cmd: kv_command,
                deadline,
                path: CommitPath::Fast,
            };
            let ghost v0 = self@;
            proof {
                lemma_buffer_insert_in_order(v0.early_buffer, command);
                lemma_insert_keeps_bound(v0.early_buffer, command, v0.last_log_deadline as int);
            }
            let mut buffer = EarlyBuffer::new();
            std::mem::swap(&mut buffer, &mut self.early_buffer);
            buffer.push(command);
            self.early_buffer = buffer;
            None
        }
    }

    /// Places a request that arrives at the clock reading `current_time`:
    /// its deadline is the reading plus the uncertainty plus the latency
    /// bound.
    pub fn handle_client_append(
        &mut self,
        from: ClientId,
        command_id: CommandId,
        kv_command: KVCommand,
        current_time: Timestamp,
        uncertainty: i64,
    ) -> (res: Option<Command>)
        requires
            i64::MIN <= current_time + uncertainty + LATENCY_BOUND_US <= i64::MAX,
        ensures
            (final(self)@, res) == append_step(
                old(self)@,
                from,
                command_id,
                kv_command,
                (current_time + uncertainty + LATENCY_BOUND_US) as Timestamp,
                current_time as int,
                uncertainty as int,
            ),
            server_wf(final(self)@),
            res is Some <==> current_time + uncertainty + LATENCY_BOUND_US < old(
                self,
            )@.last_log_deadline,
            res is Some ==> final(self)@ == old(self)@ && res == Some(
                Command {
                    client_id: from,
                    coordinator_id: old(self)@.id,
                    id: command_id,
                    kv_cmd: kv_command,
                    deadline: (current_time + uncertainty + LATENCY_BOUND_US) as Timestamp,
                    path: CommitPath::Slow,
                },
            ),
            res is None ==> {
                &&& final(self)@.early_buffer.len() == old(self)@.early_buffer.len() + 1
                &&& final(self)@ == (ServerView {
                    early_buffer: final(self)@.early_buffer,
                    ..old(self)@
                })
                &&& exists|p: int|
                    0 <= p <= old(self)@.early_buffer.len() && final(self)@.early_buffer
                        == #[trigger] old(self)@.early_buffer.insert(
                        p,
                        Command {
                            client_id: from,
                            coordinator_id: old(self)@.id,
                            id: command_id,
                            kv_cmd: kv_command,
                            deadline: (current_time + uncertainty + LATENCY_BOUND_US) as Timestamp,
                            path: CommitPath::Fast,
                        },
                    )
            },
    {
        let deadline = deadline_for(current_time, uncertainty);
        self.append_to_log(from, command_id, kv_command, deadline, current_time, uncertainty)
    }

    /// Hands out, in release order, the buffered commands that may be
    /// released at the clock reading `current_time`.
    pub fn release_from_early_buffer(&mut self, current_time: Timestamp, uncertainty: i64) -> (res:
        Vec<Command>)
        ensures
            (final(self)@, res@) == release_step(old(self)@, current_time as int, uncertainty as int),
            server_wf(final(self)@),
    {
        proof {
            use_type_invariant(&*self);
        }
        let ghost v0 = self@;
        let mut buffer = EarlyBuffer::new();
        std::mem::swap(&mut buffer, &mut self.early_buffer);
        let released = buffer.release_ready(current_time, uncertainty);
        let n = released.len();
        if n > 0 {
            self.last_log_deadline = released[n - 1].deadline;
        }
        proof {
            lemma_release_step(v0, current_time as int, uncertainty as int);
        }
        self.early_buffer = buffer;
        proof {
            let k = ready_count(v0.early_buffer, current_time as int, uncertainty as int) as int;
            if n > 0 {
                assert(released@.last() == released@[n - 1]);
                assert forall|i: int| 0 <= i < self@.early_buffer.len() implies self@.last_log_deadline
                    <= (#[trigger] self@.early_buffer[i]).deadline by {
                    assert(ready(released@[n - 1], current_time as int, uncertainty as int));
                    assert(!ready(self@.early_buffer[i], current_time as int, uncertainty as int));
                }
            } else {
                assert forall|i: int| 0 <= i < self@.early_buffer.len() implies self@.last_log_deadline
                    <= (#[trigger] self@.early_buffer[i]).deadline by {
                    assert(self@.early_buffer[i] == v0.early_buffer[i + k]);
                }
            }
            assert(self@.fast_replies == v0.fast_replies);
        }
        released
    }

    /// Counts reply `r` from a replica; once the command commits, returns
    /// the leader's answer for its client, if this server holds it.
    pub fn handle_fast_reply(&mut self, r: Reply) -> (res: Option<(ClientId, ServerMessage)>)
        requires
            reply_countable(old(self)@, r),
        ensures
            (final(self)@, res) == fast_reply_step(old(self)@, r),
    {
        proof {
            use_type_invariant(&*self);
        }
        let ghost v0 = self@;
        let id = r.command_id;
        let mut fast_replies = HashMap::new();
        std::mem::swap(&mut fast_replies, &mut self.fast_replies);
        let mut tracker = match fast_replies.remove(&id) {
            Some(t) => t,
            None => FastReplyTracker { leader_hash: None, follower_hashes: HashMap::new() },
        };
        proof {
            assert(tracker@ == tracker_of(v0, id)) by {
                if !v0.fast_replies.contains_key(id) {
                    assert(tracker@.follower_hashes =~= Map::<u64, usize>::empty());
                }
            }
        }
        if r.is_leader {
            tracker.leader_hash = Some(r.log_hash);
        } else {
            let count = match tracker.follower_hashes.get(&r.log_hash) {
                Some(c) => *c,
                None => 0,
            };
            tracker.follower_hashes.insert(r.log_hash, count + 1);
        }
        assert(tracker@ == record_reply(tracker_of(v0, id), r));
        let f = self.peers.len() / 2;
        let required_followers = f + f / 2;
        let committed = match tracker.leader_hash {
            Some(leader_hash) => {
                let follower_count = match tracker.follower_hashes.get(&leader_hash) {
                    Some(c) => *c,
                    None => 0,
                };
                follower_count >= required_followers
            },
            None => false,
        };
        assert(committed == commits(tracker@, v0.peers.len()));
        if committed {
            self.fast_replies = fast_replies;
            let mut leader_responses = HashMap::new();
            std::mem::swap(&mut leader_responses, &mut self.leader_responses);
            let answer = leader_responses.remove(&id);
            self.leader_responses = leader_responses;
            assert(self@.fast_replies =~= v0.fast_replies.remove(id));
            answer
        } else {
            fast_replies.insert(id, tracker);
            self.fast_replies = fast_replies;
            assert(self@.fast_replies =~= v0.fast_replies.insert(id, record_reply(tracker_of(v0, id), r)));
            None
        }
    }

    /// Whether counting reply `r` would overflow nothing.
    pub fn can_count(&self, r: &Reply) -> (res: bool)
        ensures
            res == reply_countable(self@, *r),
    {
        if r.is_leader {
            return true;
        }
        match self.fast_replies.get(&r.command_id) {
            Some(t) => match t.follower_hashes.get(&r.log_hash) {
                Some(c) => *c < usize::MAX,
                None => true,
            },
            None => true,
        }
    }

    /// This server's reply about decided command `c`.
    pub fn decided_reply(&self, c: &Command, is_leader: bool, log_hash: u64) -> (res: Reply)
        ensures
            res == reply_for(self@, *c, is_leader, log_hash),
    {
        Reply {
            command_id: c.id,
            client_id: c.client_id,
            coordinator_id: c.coordinator_id,
            replica_id: self.id,
            is_leader,
            log_hash,
            is_slow_path: c.path == CommitPath::Slow,
        }
    }

    /// Handles this server's reply about decided command `c`: counts it here
    /// when this server coordinates `c`, and otherwise returns it with the
    /// coordinator to send it to. Also returns the answer now due to a
    /// client, if any.
    pub fn handle_decided_command(&mut self, c: &Command, is_leader: bool, log_hash: u64) -> (res: (
        Option<(NodeId, Reply)>,
        Option<(ClientId, ServerMessage)>,
    ))
        requires
            c.coordinator_id == old(self)@.id ==> reply_countable(
                old(self)@,
                reply_for(old(self)@, *c, is_leader, log_hash),
            ),
        ensures
            (final(self)@, res.0, res.1) == decided_command_step(old(self)@, *c, is_leader, log_hash),
    {
        let r = self.decided_reply(c, is_leader, log_hash);
        if c.coordinator_id == self.id {
            let out = self.handle_fast_reply(r);
            (None, out)
        } else {
            (Some((c.coordinator_id, r)), None)
        }
    }

    /// Applies the leader's side of a decided command `c`, whose execution
    /// read `read` (`Some` for a read). Only the leader answers: it keeps
    /// the answer when it coordinates `c` itself, and otherwise returns it
    /// with the coordinator to send it to.
    pub fn respond_decided(&mut self, c: &Command, read: Option<Option<String>>, is_leader: bool) -> (res:
        Option<(NodeId, LeaderResponse)>)
        ensures
            !is_leader ==> res is None && final(self)@ == old(self)@,
            is_leader && c.coordinator_id == old(self)@.id ==> {
                &&& res is None
                &&& final(self)@.leader_responses.contains_key(c.id)
                &&& final(self)@ == (ServerView {
                    leader_responses: old(self)@.leader_responses.insert(
                        c.id,
                        final(self)@.leader_responses[c.id],
                    ),
                    ..old(self)@
                })
                &&& final(self)@.leader_responses[c.id].0 == c.client_id
                &&& is_response_for(final(self)@.leader_responses[c.id].1, *c, read)
            },
            is_leader && c.coordinator_id != old(self)@.id ==> {
                &&& final(self)@ == old(self)@
                &&& res matches Some((to, lr)) && to == c.coordinator_id && lr.command_id == c.id
                    && lr.client_id == c.client_id && is_response_for(lr.response, *c, read)
            },
            is_leader ==> ({
                let msg = if c.coordinator_id == old(self)@.id {
                    final(self)@.leader_responses[c.id].1
                } else {
                    res->Some_0.1.response
                };
                let label = match c.path {
                    CommitPath::Fast => "Fast"@,
                    CommitPath::Slow => "Slow"@,
                };
                match read {
                    Some(value) => msg matches ServerMessage::Read(id, got, p) && id == c.id && got
                        == value && p@ == label,
                    None => msg matches ServerMessage::Write(id, p) && id == c.id && p@ == label,
                }
            }),
    {
        proof {
            use_type_invariant(&*self);
        }
        if !is_leader {
            return None;
        }
        let path = commit_path_name(c.path);
        let response = match read {
            Some(value) => ServerMessage::Read(c.id, value, path),
            None => ServerMessage::Write(c.id, path),
        };
        if c.coordinator_id == self.id {
            let mut leader_responses = HashMap::new();
            std::mem::swap(&mut leader_responses, &mut self.leader_responses);
            leader_responses.insert(c.id, (c.client_id, response));
            self.leader_responses = leader_responses;
            None
        } else {
            Some((c.coordinator_id, LeaderResponse { command_id: c.id, client_id: c.client_id, response }))
        }
    }

    /// The id of this server.
    pub fn id(&self) -> (res: NodeId)
        ensures
            res == self@.id,
    {
        self.id
    }

    /// The deadline of the last command released from the early buffer.
    pub fn last_log_deadline(&self) -> (res: Timestamp)
        ensures
            res == self@.last_log_deadline,
    {
        self.last_log_deadline
    }

    /// The number of commands waiting in the early buffer.
    pub fn buffered(&self) -> (res: usize)
        ensures
            res == self@.early_buffer.len(),
    {
        self.early_buffer.len()
    }

    /// Records the leader's answer to a command that this server coordinates.
    pub fn handle_leader_response(&mut self, response: LeaderResponse)
        ensures
            final(self)@ == (ServerView {
                leader_responses: old(self)@.leader_responses.insert(
                    response.command_id,
                    (response.client_id, response.response),
                ),
                ..old(self)@
            }),
    {
        proof {
            use_type_invariant(&*self);
        }
        let mut leader_responses = HashMap::new();
        std::mem::swap(&mut leader_responses, &mut self.leader_responses);
        leader_responses.insert(response.command_id, (response.client_id, response.response));
        self.leader_responses = leader_responses;
    }
}

/// An event at a server's deadline logic: a request arriving with a given
/// deadline at a given clock reading, or a release at a given clock reading.
pub enum ServerEvent {
    Append {
        from: ClientId,
        command_id: CommandId,
        kv_command: KVCommand,
        deadline: Timestamp,
        now: i64,
        uncertainty: i64,
    },
    Release { now: i64, uncertainty: i64 },
}

/// The state after `events`, in order, and the commands that left the early
/// buffer for the log (the fast path), in the order they left it.
pub open spec fn run(v: ServerView, events: Seq<ServerEvent>) -> (ServerView, Seq<Command>)
    decreases events.len(),
{
    if events.len() == 0 {
        (v, Seq::empty())
    } else {
        let (v0, fast) = run(v, events.drop_last());
        match events.last() {
            ServerEvent::Append { from, command_id, kv_command, deadline, now, uncertainty } => (
                append_step(v0, from, command_id, kv_command, deadline, now as int, uncertainty as int).0,
                fast,
            ),
            ServerEvent::Release { now, uncertainty } => {
                let (v1, released) = release_step(v0, now as int, uncertainty as int);
                (v1, fast + released)
            },
        }
    }
}

/// The deadlines of `s` do not decrease.
pub open spec fn deadlines_nondecreasing(s: Seq<Command>) -> bool {
    forall|i: int, j: int| 0 <= i < j < s.len() ==> (#[trigger] s[i]).deadline <= (#[trigger] s[j]).deadline
}

/// A request either goes to the log at once, on the slow path, or waits in
/// the buffer on the fast path; either way the server stays well formed and
/// the last released deadline stays.
pub proof fn lemma_append_step(
    v: ServerView,
    from: ClientId,
    command_id: CommandId,
    kv_command: KVCommand,
    deadline: Timestamp,
    now: int,
    uncertainty: int,
)
    requires
        server_wf(v),
    ensures
        server_wf(append_step(v, from, command_id, kv_command, deadline, now, uncertainty).0),
        append_step(v, from, command_id, kv_command, deadline, now, uncertainty).0.last_log_deadline
            == v.last_log_deadline,
        takes_slow_path(v, deadline as int, now, uncertainty) <==> append_step(
            v,
            from,
            command_id,
            kv_command,
            deadline,
            now,
            uncertainty,
        ).1 is Some,
{
    let c = command_for(v, from, command_id, kv_command, deadline, now, uncertainty);
    if !takes_slow_path(v, deadline as int, now, uncertainty) {
        lemma_buffer_insert_in_order(v.early_buffer, c);
        lemma_insert_keeps_bound(v.early_buffer, c, v.last_log_deadline as int);
    }
}

/// A request with deadline `deadline` that arrives when the clock reads
/// `now` goes to the log at once exactly when its deadline lies before the
/// last released deadline, or when `now` has reached the deadline less the
/// clock's uncertainty; it then leaves the server unchanged and carries the
/// slow path. Any other request, whatever the uncertainty, is placed into
/// the early buffer on the fast path, which grows by that one command at
/// position `at`.
pub proof fn lemma_append_rule(
    v: ServerView,
    from: ClientId,
    command_id: CommandId,
    kv_command: KVCommand,
    deadline: Timestamp,
    now: int,
    uncertainty: int,
) -> (at: int)
    ensures
        ({
            let w = append_step(v, from, command_id, kv_command, deadline, now, uncertainty).0;
            let out = append_step(v, from, command_id, kv_command, deadline, now, uncertainty).1;
            let slow = deadline < v.last_log_deadline || now >= deadline - uncertainty;
            let c = Command {
                client_id: from,
                coordinator_id: v.id,
                id: command_id,
                kv_cmd: kv_command,
                deadline: deadline,
                path: if slow {
                    CommitPath::Slow
                } else {
                    CommitPath::Fast
                },
            };
            &&& out is Some <==> slow
            &&& slow ==> w == v && out == Some(c)
            &&& !slow ==> {
                &&& w.early_buffer.len() == v.early_buffer.len() + 1
                &&& w == (ServerView { early_buffer: w.early_buffer, ..v })
                &&& 0 <= at <= v.early_buffer.len()
                &&& w.early_buffer == v.early_buffer.insert(at, c)
            }
        }),
{
    let slow = deadline < v.last_log_deadline || now >= deadline - uncertainty;
    let c = Command {
        client_id: from,
        coordinator_id: v.id,
        id: command_id,
        kv_cmd: kv_command,
        deadline: deadline,
        path: if slow {
            CommitPath::Slow
        } else {
            CommitPath::Fast
        },
    };
    assert(c == command_for(v, from, command_id, kv_command, deadline, now, uncertainty));
    if !slow {
        let p = lemma_buffer_insert_is_insert(v.early_buffer, c);
        let w = append_step(v, from, command_id, kv_command, deadline, now, uncertainty).0;
        assert(w == (ServerView { early_buffer: v.early_buffer.insert(p, c), ..v }));
        p
    } else {
        0
    }
}

/// A release hands out, in order of deadline, exactly the ready front of the
/// buffer; each released deadline lies between the last released deadline
/// before and after the release; a command leaves only once the clock has
/// reached its deadline plus the uncertainty, and nothing that stays has;
/// and the server stays well formed.
pub proof fn lemma_release_step(v: ServerView, now: int, uncertainty: int)
    requires
        server_wf(v),
    ensures
        ({
            let (w, released) = release_step(v, now, uncertainty);
            &&& server_wf(w)
            &&& released + w.early_buffer == v.early_buffer
            &&& deadlines_nondecreasing(released)
            &&& v.last_log_deadline <= w.last_log_deadline
            &&& forall|i: int|
                0 <= i < released.len() ==> v.last_log_deadline <= (#[trigger] released[i]).deadline
                    <= w.last_log_deadline && ready(released[i], now, uncertainty)
            &&& forall|i: int|
                0 <= i < w.early_buffer.len() ==> !ready(#[trigger] w.early_buffer[i], now, uncertainty)
            &&& forall|i: int| 0 <= i < released.len() ==> now >= (#[trigger] released[i]).deadline + uncertainty
            &&& forall|i: int|
                0 <= i < w.early_buffer.len() ==> now < (#[trigger] w.early_buffer[i]).deadline + uncertainty
        }),
{
    let s = v.early_buffer;
    lemma_ready_count(s, now, uncertainty);
    let k = ready_count(s, now, uncertainty) as int;
    let (w, released) = release_step(v, now, uncertainty);
    assert(released + w.early_buffer =~= s);
    assert forall|i: int, j: int| 0 <= i < j < released.len() implies (#[trigger] released[i]).deadline
        <= (#[trigger] released[j]).deadline by {
        assert(released[i] == s[i] && released[j] == s[j]);
        assert(released_before(s[i], s[j]));
    }
    assert forall|i: int| 0 <= i < released.len() implies v.last_log_deadline <= (
    #[trigger] released[i]).deadline <= w.last_log_deadline && ready(released[i], now, uncertainty) by {
        assert(released[i] == s[i]);
        if i < k - 1 {
            assert(released_before(s[i], s[k - 1]));
        }
    }
    if k > 0 {
        assert(released[0] == s[0]);
    }
    assert forall|i: int| 0 <= i < w.early_buffer.len() implies !ready(
        #[trigger] w.early_buffer[i],
        now,
        uncertainty,
    ) by {
        assert(w.early_buffer[i] == s[i + k]);
    }
    assert(in_release_order(w.early_buffer)) by {
        assert forall|i: int, j: int| 0 <= i < j < w.early_buffer.len() implies released_before(
            #[trigger] w.early_buffer[i],
            #[trigger] w.early_buffer[j],
        ) by {
            assert(w.early_buffer[i] == s[i + k] && w.early_buffer[j] == s[j + k]);
        }
    }
    assert forall|i: int| 0 <= i < w.early_buffer.len() implies w.last_log_deadline <= (
    #[trigger] w.early_buffer[i]).deadline by {
        assert(w.early_buffer[i] == s[i + k]);
        if k > 0 {
            assert(released.last() == s[k - 1]);
            assert(ready(s[k - 1], now, uncertainty));
            assert(!ready(s[i + k], now, uncertainty));
        }
    }
}

/// Whatever requests arrive and whenever releases happen, the commands that
/// reach the log through the early buffer do so in order of deadline, never
/// before the last deadline released before the run; and the server stays
/// well formed.
pub proof fn lemma_fast_path_in_deadline_order(v: ServerView, events: Seq<ServerEvent>)
    requires
        server_wf(v),
    ensures
        server_wf(run(v, events).0),
        deadlines_nondecreasing(run(v, events).1),
        v.last_log_deadline <= run(v, events).0.last_log_deadline,
        forall|i: int|
            0 <= i < run(v, events).1.len() ==> v.last_log_deadline <= (#[trigger] run(
                v,
                events,
            ).1[i]).deadline <= run(v, events).0.last_log_deadline,
    decreases events.len(),
{
    if events.len() > 0 {
        lemma_fast_path_in_deadline_order(v, events.drop_last());
        let (v0, fast) = run(v, events.drop_last());
        match events.last() {
            ServerEvent::Append { from, command_id, kv_command, deadline, now, uncertainty } => {
                lemma_append_step(v0, from, command_id, kv_command, deadline, now as int, uncertainty as int);
            },
            ServerEvent::Release { now, uncertainty } => {
                lemma_release_step(v0, now as int, uncertainty as int);
                let (v1, released) = release_step(v0, now as int, uncertainty as int);
                let all = fast + released;
                assert forall|i: int, j: int| 0 <= i < j < all.len() implies (#[trigger] all[i]).deadline
                    <= (#[trigger] all[j]).deadline by {
                    if j < fast.len() {
                        assert(all[i] == fast[i] && all[j] == fast[j]);
                    } else if i < fast.len() {
                        assert(all[i] == fast[i] && all[j] == released[j - fast.len()]);
                    } else {
                        assert(all[i] == released[i - fast.len()] && all[j] == released[j - fast.len()]);
                    }
                }
                assert forall|i: int| 0 <= i < all.len() implies v.last_log_deadline <= (
                #[trigger] all[i]).deadline <= v1.last_log_deadline by {
                    if i < fast.len() {
                        assert(all[i] == fast[i]);
                    } else {
                        assert(all[i] == released[i - fast.len()]);
                    }
                }
            },
        }
    }
}

/// Once a coordinator has handed a client the answer to a command, a later
/// reply about the same command hands out nothing, unless a new leader
/// answer for it is recorded in between.
pub proof fn lemma_answer_handed_out_once(v: ServerView, r1: Reply, r2: Reply)
    requires
        r1.command_id == r2.command_id,
        fast_reply_step(v, r1).1 is Some,
    ensures
        fast_reply_step(fast_reply_step(v, r1).0, r2).1 is None,
{
}

/// In a cluster of `n + 1` servers, where `n` is the number of peers, let
/// `f = n / 2`. A reply about a command completes its fast path exactly
/// when, with that reply counted, the leader has reported a log hash and at
/// least `f + f / 2` followers have reported that same hash. The command's
/// tally and the leader's answer are then dropped, and the answer, if the
/// coordinator holds it, goes to the client. Otherwise the reply is tallied,
/// with the leader's hash as reported so far, and nothing is handed out.
pub proof fn lemma_commit_threshold(v: ServerView, r: Reply)
    requires
        reply_countable(v, r),
    ensures
        ({
            let w = fast_reply_step(v, r).0;
            let out = fast_reply_step(v, r).1;
            let id = r.command_id;
            let known = v.fast_replies.contains_key(id);
            let leader = if r.is_leader {
                Some(r.log_hash)
            } else if known {
                v.fast_replies[id].leader_hash
            } else {
                None
            };
            let f = v.peers.len() / 2;
            let committed = match leader {
                Some(h) => (if known && v.fast_replies[id].follower_hashes.contains_key(h) {
                    v.fast_replies[id].follower_hashes[h] as int
                } else {
                    0int
                }) + (if !r.is_leader && r.log_hash == h {
                    1int
                } else {
                    0int
                }) >= f + f / 2,
                None => false,
            };
            &&& committed ==> {
                &&& !w.fast_replies.contains_key(id)
                &&& !w.leader_responses.contains_key(id)
                &&& out == if v.leader_responses.contains_key(id) {
                    Some(v.leader_responses[id])
                } else {
                    None
                }
            }
            &&& !committed ==> {
                &&& out is None
                &&& w.fast_replies.contains_key(id)
                &&& w.fast_replies[id].leader_hash == leader
                &&& w.leader_responses == v.leader_responses
            }
        }),
{
    let id = r.command_id;
    let t0 = tracker_of(v, id);
    let t = record_reply(t0, r);
    assert(t.leader_hash == if r.is_leader {
        Some(r.log_hash)
    } else {
        t0.leader_hash
    });
    if let Some(h) = t.leader_hash {
        if !r.is_leader && r.log_hash == h {
            assert(follower_count(t, h) == follower_count(t0, h) + 1);
        } else if !r.is_leader {
            assert(follower_count(t, h) == follower_count(t0, h));
        }
    }
}

/// A coordinator hands a client an answer only when the leader has reported
/// its log hash and enough followers reported the same hash.
pub proof fn lemma_answer_needs_quorum(v: ServerView, r: Reply)
    ensures
        fast_reply_step(v, r).1 is Some ==> commits(
            record_reply(tracker_of(v, r.command_id), r),
            v.peers.len(),
        ),
{
}

/// The state after the replies `rs`, in order, and the answers handed to
/// clients meanwhile.
pub open spec fn replies_run(v: ServerView, rs: Seq<Reply>) -> (ServerView, Seq<(ClientId, ServerMessage)>)
    decreases rs.len(),
{
    if rs.len() == 0 {
        (v, Seq::empty())
    } else {
        let (v0, answers) = replies_run(v, rs.drop_last());
        let (v1, out) = fast_reply_step(v0, rs.last());
        (
            v1,
            match out {
                Some(a) => answers.push(a),
                None => answers,
            },
        )
    }
}

/// The number of leader replies in `rs`.
pub open spec fn leader_reply_count(rs: Seq<Reply>) -> nat
    decreases rs.len(),
{
    if rs.len() == 0 {
        0
    } else {
        leader_reply_count(rs.drop_last()) + if rs.last().is_leader {
            1nat
        } else {
            0nat
        }
    }
}

/// The number of follower replies in `rs` that carry hash `h`.
pub open spec fn follower_reply_count(rs: Seq<Reply>, h: u64) -> nat
    decreases rs.len(),
{
    if rs.len() == 0 {
        0
    } else {
        follower_reply_count(rs.drop_last(), h) + if !rs.last().is_leader && rs.last().log_hash == h {
            1nat
        } else {
            0nat
        }
    }
}

/// The tracker that the replies `rs` build from nothing, when no commit
/// intervenes.
pub open spec fn tracker_after(rs: Seq<Reply>) -> TrackerView
    decreases rs.len(),
{
    if rs.len() == 0 {
        TrackerView { leader_hash: None, follower_hashes: Map::empty() }
    } else {
        record_reply(tracker_after(rs.drop_last()), rs.last())
    }
}

proof fn lemma_tracker_after_counts(rs: Seq<Reply>, h: u64)
    requires
        forall|x: u64| #[trigger] follower_reply_count(rs, x) < usize::MAX,
    ensures
        follower_count(tracker_after(rs), h) == follower_reply_count(rs, h),
        tracker_after(rs).leader_hash is Some <==> leader_reply_count(rs) > 0,
    decreases rs.len(),
{
    if rs.len() > 0 {
        let init = rs.drop_last();
        assert forall|x: u64| #[trigger] follower_reply_count(init, x) < usize::MAX by {
            assert(follower_reply_count(init, x) <= follower_reply_count(rs, x));
        }
        lemma_tracker_after_counts(init, h);
        lemma_tracker_after_counts(init, rs.last().log_hash);
        assert(follower_reply_count(rs, rs.last().log_hash) < usize::MAX);
    }
}

/// The state of a server while replies for command `k` arrive: before the
/// command commits, its tracker is what the replies built and no answer has
/// gone out; after, the single answer went out, the leader's reply and
/// enough followers with its hash were among the replies, and the tracker
/// that later replies build has no leader hash.
pub open spec fn replies_inv(v: ServerView, k: CommandId, h: u64, rs: Seq<Reply>) -> bool {
    let (w, answers) = replies_run(v, rs);
    &&& w.peers == v.peers
    &&& forall|x: u64| #[trigger] follower_count(tracker_of(w, k), x) <= follower_reply_count(rs, x)
    &&& {
        ||| {
            &&& answers.len() == 0
            &&& w.leader_responses == v.leader_responses
            &&& tracker_of(w, k) == tracker_after(rs)
            &&& !commits(tracker_after(rs), v.peers.len())
        }
        ||| {
            &&& answers == seq![v.leader_responses[k]]
            &&& !w.leader_responses.contains_key(k)
            &&& leader_reply_count(rs) == 1
            &&& follower_reply_count(rs, h) >= required_followers(v.peers.len())
            &&& tracker_of(w, k).leader_hash is None
        }
    }
}

proof fn lemma_replies_inv(v: ServerView, k: CommandId, h: u64, rs: Seq<Reply>)
    requires
        !v.fast_replies.contains_key(k),
        v.leader_responses.contains_key(k),
        forall|i: int| 0 <= i < rs.len() ==> (#[trigger] rs[i]).command_id == k,
        forall|i: int| 0 <= i < rs.len() && (#[trigger] rs[i]).is_leader ==> rs[i].log_hash == h,
        leader_reply_count(rs) <= 1,
        forall|x: u64| #[trigger] follower_reply_count(rs, x) < usize::MAX,
    ensures
        replies_inv(v, k, h, rs),
    decreases rs.len(),
{
    if rs.len() == 0 {
        assert(tracker_of(v, k) == tracker_after(rs));
    } else {
        let init = rs.drop_last();
        let r = rs.last();
        assert(r == rs[rs.len() - 1]);
        assert forall|i: int| 0 <= i < init.len() implies (#[trigger] init[i]).command_id == k by {
            assert(init[i] == rs[i]);
        }
        assert forall|i: int| 0 <= i < init.len() && (#[trigger] init[i]).is_leader implies init[i].log_hash
            == h by {
            assert(init[i] == rs[i]);
        }
        assert forall|x: u64| #[trigger] follower_reply_count(init, x) < usize::MAX by {
            assert(follower_reply_count(init, x) <= follower_reply_count(rs, x));
        }
        lemma_replies_inv(v, k, h, init);
        lemma_tracker_after_counts(rs, h);
        lemma_leader_hash_is(rs, h);
        let (w0, a0) = replies_run(v, init);
        let (w1, out) = fast_reply_step(w0, r);
        let answers = match out {
            Some(x) => a0.push(x),
            None => a0,
        };
        assert(replies_run(v, rs) == (w1, answers));
        assert(r.command_id == k);
        let t = record_reply(tracker_of(w0, k), r);
        assert forall|x: u64| #[trigger] follower_count(t, x) <= follower_reply_count(rs, x) by {
            assert(follower_count(tracker_of(w0, k), x) <= follower_reply_count(init, x));
        }
        if a0.len() == 0 && w0.leader_responses == v.leader_responses && tracker_of(w0, k)
            == tracker_after(init) && !commits(tracker_after(init), v.peers.len()) {
            assert(t == tracker_after(rs));
            if commits(t, v.peers.len()) {
                assert(tracker_after(rs).leader_hash == Some(h));
                assert(out == Some(v.leader_responses[k]));
                assert(answers =~= seq![v.leader_responses[k]]);
                assert(!w1.fast_replies.contains_key(k));
            } else {
                assert(w1.fast_replies == w0.fast_replies.insert(k, t));
                assert(tracker_of(w1, k) == t);
            }
        } else {
            assert(leader_reply_count(init) == 1);
            assert(!r.is_leader);
            assert(t.leader_hash is None);
            assert(!commits(t, v.peers.len()));
            assert(w1.fast_replies == w0.fast_replies.insert(k, t));
            assert(tracker_of(w1, k) == t);
            assert(out is None);
        }
    }
}

proof fn lemma_prefix_counts(rs: Seq<Reply>, i: int)
    requires
        0 <= i <= rs.len(),
    ensures
        leader_reply_count(rs.take(i)) <= leader_reply_count(rs),
        forall|x: u64| #[trigger] follower_reply_count(rs.take(i), x) <= follower_reply_count(rs, x),
    decreases rs.len(),
{
    if i == rs.len() {
        assert(rs.take(i) =~= rs);
    } else {
        let init = rs.drop_last();
        lemma_prefix_counts(init, i);
        assert(init.take(i) =~= rs.take(i));
        assert forall|x: u64| #[trigger] follower_reply_count(rs.take(i), x) <= follower_reply_count(rs, x) by {
            assert(follower_reply_count(init.take(i), x) <= follower_reply_count(init, x));
        }
    }
}

proof fn lemma_leader_hash_is(rs: Seq<Reply>, h: u64)
    requires
        forall|i: int| 0 <= i < rs.len() && (#[trigger] rs[i]).is_leader ==> rs[i].log_hash == h,
    ensures
        tracker_after(rs).leader_hash is Some ==> tracker_after(rs).leader_hash == Some(h),
    decreases rs.len(),
{
    if rs.len() > 0 {
        let init = rs.drop_last();
        assert forall|i: int| 0 <= i < init.len() && (#[trigger] init[i]).is_leader implies init[i].log_hash
            == h by {
            assert(init[i] == rs[i]);
        }
        lemma_leader_hash_is(init, h);
        assert(rs.last() == rs[rs.len() - 1]);
    }
}

/// Replies for a command `k`, with one leader reply carrying hash `h`, reach
/// its coordinator in any order, the coordinator holding the leader's answer
/// and no earlier reply about `k`. Then the answer goes to the client exactly
/// once if at least [`required_followers`] follower replies carry `h`, and
/// never otherwise; follower replies with another hash do not count. The one
/// limit is that of the follower counter: fewer than `usize::MAX` follower
/// replies carry any one hash.
pub proof fn lemma_answer_exactly_once_with_quorum(v: ServerView, k: CommandId, h: u64, rs: Seq<Reply>)
    requires
        !v.fast_replies.contains_key(k),
        v.leader_responses.contains_key(k),
        forall|i: int| 0 <= i < rs.len() ==> (#[trigger] rs[i]).command_id == k,
        forall|i: int| 0 <= i < rs.len() && (#[trigger] rs[i]).is_leader ==> rs[i].log_hash == h,
        leader_reply_count(rs) == 1,
        forall|x: u64| #[trigger] follower_reply_count(rs, x) < usize::MAX,
    ensures
        follower_reply_count(rs, h) >= required_followers(v.peers.len()) ==> replies_run(v, rs).1
            == seq![v.leader_responses[k]],
        follower_reply_count(rs, h) < required_followers(v.peers.len()) ==> replies_run(v, rs).1.len()
            == 0,
        forall|i: int|
            0 <= i < rs.len() ==> reply_countable(#[trigger] replies_run(v, rs.take(i)).0, rs[i]),
{
    assert forall|i: int| 0 <= i < rs.len() implies reply_countable(
        #[trigger] replies_run(v, rs.take(i)).0,
        rs[i],
    ) by {
        let p = rs.take(i);
        let q = rs.take(i + 1);
        lemma_prefix_counts(rs, i);
        lemma_prefix_counts(rs, i + 1);
        assert(q.drop_last() =~= p);
        assert(q.last() == rs[i]);
        assert forall|j: int| 0 <= j < p.len() implies (#[trigger] p[j]).command_id == k by {
            assert(p[j] == rs[j]);
        }
        assert forall|j: int| 0 <= j < p.len() && (#[trigger] p[j]).is_leader implies p[j].log_hash == h by {
            assert(p[j] == rs[j]);
        }
        assert forall|x: u64| #[trigger] follower_reply_count(p, x) < usize::MAX by {
            assert(follower_reply_count(p, x) <= follower_reply_count(rs, x));
        }
        lemma_replies_inv(v, k, h, p);
        assert(rs[i].command_id == k);
        if !rs[i].is_leader {
            assert(follower_reply_count(q, rs[i].log_hash) == follower_reply_count(p, rs[i].log_hash) + 1);
            assert(follower_reply_count(q, rs[i].log_hash) <= follower_reply_count(rs, rs[i].log_hash));
        }
    }
    lemma_replies_inv(v, k, h, rs);
    lemma_tracker_after_counts(rs, h);
    lemma_leader_hash_is(rs, h);
}

proof fn lemma_insert_keeps_bound(s: Seq<Command>, c: Command, bound: int)
    requires
        forall|i: int| 0 <= i < s.len() ==> bound <= (#[trigger] s[i]).deadline,
        bound <= c.deadline,
    ensures
        forall|i: int|
            0 <= i < buffer_insert(s, c).len() ==> bound <= (#[trigger] buffer_insert(s, c)[i]).deadline,
    decreases s.len(),
{
    if s.len() > 0 && released_before(s[0], c) {
        let t = s.drop_first();
        assert forall|i: int| 0 <= i < t.len() implies bound <= (#[trigger] t[i]).deadline by {
            assert(t[i] == s[i + 1]);
        }
        lemma_insert_keeps_bound(t, c, bound);
        let r = buffer_insert(s, c);
        assert forall|i: int| 0 <= i < r.len() implies bound <= (#[trigger] r[i]).deadline by {
            if i > 0 {
                assert(r[i] == buffer_insert(t, c)[i - 1]);
            }
        }
    } else if s.len() > 0 {
        let r = buffer_insert(s, c);
        assert forall|i: int| 0 <= i < r.len() implies bound <= (#[trigger] r[i]).deadline by {
            if i > 0 {
                assert(r[i] == s[i - 1]);
            }
        }
    }
}

} // verus!
