use omnipaxos_kv::common::kv::{Command, CommitPath, KVCommand};
use omnipaxos_kv::common::messages::{LeaderResponse, Reply, ServerMessage};
use omnipaxos_kv::server::{
    client_start_signals, experiment_start_time, is_current_leader, start_time_from, ServerCore,
};

fn put(k: &str) -> KVCommand {
    KVCommand::Put(k.to_string(), k.to_string())
}

fn reply(id: usize, is_leader: bool, hash: u64, replica: u64) -> Reply {
    Reply {
        command_id: id,
        client_id: 7,
        coordinator_id: 1,
        replica_id: replica,
        is_leader,
        log_hash: hash,
        is_slow_path: false,
    }
}

fn decided(id: usize, coordinator: u64, path: CommitPath) -> Command {
    Command {
        client_id: 7,
        coordinator_id: coordinator,
        id,
        kv_cmd: put("k"),
        deadline: 0,
        path,
    }
}

#[test]
fn on_time_requests_wait_and_leave_in_deadline_order() {
    let mut server = ServerCore::new(1, vec![2, 3]);
    assert!(server.append_to_log(10, 0, put("a"), 3_000, 0, 100).is_none());
    assert!(server.append_to_log(11, 1, put("b"), 1_000, 0, 100).is_none());
    assert!(server.append_to_log(12, 2, put("c"), 2_000, 0, 100).is_none());
    assert_eq!(server.buffered(), 3);

    // Ready at deadline + ε.
    assert!(server.release_from_early_buffer(1_099, 100).is_empty());
    let first = server.release_from_early_buffer(2_100, 100);
    let deadlines: Vec<i64> = first.iter().map(|c| c.deadline).collect();
    assert_eq!(deadlines, vec![1_000, 2_000]);
    assert!(first.iter().all(|c| c.path == CommitPath::Fast && c.coordinator_id == 1));
    assert_eq!(server.last_log_deadline(), 2_000);
    assert_eq!(server.buffered(), 1);
}

#[test]
fn a_deadline_before_the_last_release_goes_to_the_log_at_once() {
    let mut server = ServerCore::new(1, vec![2, 3]);
    assert!(server.append_to_log(10, 0, put("a"), 1_000, 0, 0).is_none());
    assert_eq!(server.release_from_early_buffer(1_000, 0).len(), 1);
    assert_eq!(server.last_log_deadline(), 1_000);

    let late = server.append_to_log(11, 1, put("b"), 999, 0, 0).unwrap();
    assert_eq!(late.path, CommitPath::Slow);
    assert_eq!(late.id, 1);
    assert_eq!(late.client_id, 11);
    assert_eq!(server.buffered(), 0);

    // An equal deadline still waits.
    assert!(server.append_to_log(12, 2, put("c"), 1_000, 0, 0).is_none());
    assert_eq!(server.buffered(), 1);
}

#[test]
fn a_late_request_goes_to_the_log_at_once() {
    let mut server = ServerCore::new(1, vec![]);
    // 1000 >= 1100 - 100: late.
    let cmd = server.append_to_log(5, 9, put("x"), 1_100, 1_000, 100).unwrap();
    assert_eq!(cmd.path, CommitPath::Slow);
    assert_eq!(cmd.deadline, 1_100);
    // 999 < 1000: on time.
    assert!(server.append_to_log(5, 10, put("y"), 1_100, 999, 100).is_none());
}

#[test]
fn client_requests_get_the_clock_deadline() {
    let mut server = ServerCore::new(1, vec![2]);
    assert!(server.handle_client_append(3, 0, put("a"), 5_000, 50).is_none());
    // Deadline 5_000 + 50 + 200 = 5_250, released at 5_300.
    assert!(server.release_from_early_buffer(5_299, 50).is_empty());
    let released = server.release_from_early_buffer(5_300, 50);
    assert_eq!(released.len(), 1);
    assert_eq!(released[0].deadline, 5_250);
    assert_eq!(server.last_log_deadline(), 5_250);
}

#[test]
fn fast_path_deadlines_never_go_back_across_releases() {
    let mut server = ServerCore::new(1, vec![2, 3]);
    let mut log = Vec::new();
    let mut now = 0;
    for (i, d) in [500_i64, 100, 900, 300, 700, 1_300, 1_100].iter().enumerate() {
        match server.append_to_log(1, i, put("k"), *d, now, 0) {
            Some(c) => assert_eq!(c.path, CommitPath::Slow),
            None => {}
        }
        now += 200;
        log.extend(server.release_from_early_buffer(now, 0));
    }
    log.extend(server.release_from_early_buffer(2_000, 0));
    assert!(log.windows(2).all(|w| w[0].deadline <= w[1].deadline));
}

#[test]
fn answer_after_leader_and_enough_followers_agree() {
    // Five servers: f = 2, so f + f / 2 = 3 followers must agree.
    let mut server = ServerCore::new(1, vec![2, 3, 4, 5]);
    server.handle_leader_response(LeaderResponse {
        command_id: 4,
        client_id: 7,
        response: ServerMessage::Write(4, "Fast".to_string()),
    });
    assert!(server.handle_fast_reply(reply(4, false, 99, 2)).is_none());
    assert!(server.handle_fast_reply(reply(4, false, 99, 3)).is_none());
    assert!(server.handle_fast_reply(reply(4, true, 99, 5)).is_none());
    // A follower with another hash does not count.
    assert!(server.handle_fast_reply(reply(4, false, 98, 4)).is_none());
    let answer = server.handle_fast_reply(reply(4, false, 99, 4)).unwrap();
    assert_eq!(answer.0, 7);
    assert!(matches!(answer.1, ServerMessage::Write(4, ref p) if p == "Fast"));
    // The answer is handed out once.
    assert!(server.handle_fast_reply(reply(4, false, 99, 5)).is_none());
    assert!(server.handle_fast_reply(reply(4, true, 99, 5)).is_none());
}

#[test]
fn three_servers_need_the_leader_and_one_follower() {
    // Three servers: f = 1, so f + f / 2 = 1 follower must agree.
    let mut server = ServerCore::new(1, vec![2, 3]);
    server.handle_leader_response(LeaderResponse {
        command_id: 0,
        client_id: 9,
        response: ServerMessage::Read(0, Some("v".to_string()), "Slow".to_string()),
    });
    assert!(server.handle_fast_reply(reply(0, true, 1, 2)).is_none());
    let answer = server.handle_fast_reply(reply(0, false, 1, 3)).unwrap();
    assert_eq!(answer.0, 9);
}

#[test]
fn commit_without_a_recorded_answer_hands_out_nothing() {
    let mut server = ServerCore::new(1, vec![2, 3]);
    assert!(server.handle_fast_reply(reply(0, true, 1, 2)).is_none());
    assert!(server.handle_fast_reply(reply(0, false, 1, 3)).is_none());
    // The tracker was dropped on commit: a later answer waits for new replies.
    server.handle_leader_response(LeaderResponse {
        command_id: 0,
        client_id: 9,
        response: ServerMessage::Write(0, "Fast".to_string()),
    });
    assert!(server.handle_fast_reply(reply(0, false, 1, 3)).is_none());
    assert!(server.handle_fast_reply(reply(0, true, 1, 2)).is_some());
}

#[test]
fn decided_commands_reply_to_their_coordinators() {
    // A lone server needs no follower.
    let mut server = ServerCore::new(1, vec![]);
    server.handle_leader_response(LeaderResponse {
        command_id: 0,
        client_id: 7,
        response: ServerMessage::Write(0, "Fast".to_string()),
    });
    let cmds = vec![
        decided(0, 1, CommitPath::Fast),
        decided(1, 2, CommitPath::Slow),
        decided(2, 3, CommitPath::Fast),
    ];
    let mut sent = Vec::new();
    let mut answered = Vec::new();
    for c in &cmds {
        assert!(server.can_count(&server.decided_reply(c, true, 42)));
        let (out, answer) = server.handle_decided_command(c, true, 42);
        sent.extend(out);
        answered.extend(answer);
    }
    assert_eq!(sent.len(), 2);
    assert_eq!(sent[0].0, 2);
    assert_eq!(sent[0].1.command_id, 1);
    assert!(sent[0].1.is_slow_path);
    assert!(sent[0].1.is_leader);
    assert_eq!(sent[0].1.log_hash, 42);
    assert_eq!(sent[0].1.replica_id, 1);
    assert_eq!(sent[1].0, 3);
    assert!(!sent[1].1.is_slow_path);
    assert_eq!(answered.len(), 1);
    assert_eq!(answered[0].0, 7);
}

#[test]
fn only_the_leader_answers_decided_commands() {
    let mut server = ServerCore::new(1, vec![]);
    let own = decided(0, 1, CommitPath::Fast);
    let other = decided(1, 2, CommitPath::Slow);
    assert!(server.respond_decided(&other, None, false).is_none());
    let (to, lr) = server.respond_decided(&other, Some(Some("v".to_string())), true).unwrap();
    assert_eq!(to, 2);
    assert_eq!(lr.command_id, 1);
    assert_eq!(lr.client_id, 7);
    assert!(matches!(lr.response, ServerMessage::Read(1, Some(ref v), ref p) if v == "v" && p == "Slow"));
    assert!(server.respond_decided(&own, None, true).is_none());
    // The kept answer goes out once the command commits.
    let answer = server.handle_fast_reply(reply(0, true, 5, 2)).unwrap();
    assert!(matches!(answer.1, ServerMessage::Write(0, ref p) if p == "Fast"));
}

#[test]
fn leadership_needs_the_accept_phase() {
    assert!(is_current_leader(1, Some((1, true))));
    assert!(!is_current_leader(1, Some((1, false))));
    assert!(!is_current_leader(1, Some((2, true))));
    assert!(!is_current_leader(1, None));
}

#[test]
fn start_signals_go_to_clients_one_to_n() {
    let signals = client_start_signals(3, 77);
    let ids: Vec<u64> = signals.iter().map(|s| s.0).collect();
    assert_eq!(ids, vec![1, 2, 3]);
    assert!(signals.iter().all(|s| matches!(s.1, ServerMessage::StartSignal(77))));
    assert!(client_start_signals(0, 1).is_empty());
}

#[test]
fn experiment_starts_two_seconds_ahead() {
    let before = chrono::Utc::now().timestamp_millis();
    let start = experiment_start_time().unwrap();
    let after = chrono::Utc::now().timestamp_millis();
    assert!(start >= before + 2_000 && start <= after + 2_000);
}

#[test]
fn start_is_scheduled_two_seconds_later() {
    assert_eq!(start_time_from(0), Some(2_000));
    assert_eq!(start_time_from(1_700_000_000_000), Some(1_700_000_002_000));
    assert_eq!(start_time_from(i64::MAX - 2_000), Some(i64::MAX));
    assert_eq!(start_time_from(i64::MAX - 1_999), None);
}

fn count_answers(order: &[(bool, u64)]) -> usize {
    // Five servers: three followers must carry the leader's hash.
    let mut server = ServerCore::new(1, vec![2, 3, 4, 5]);
    server.handle_leader_response(LeaderResponse {
        command_id: 6,
        client_id: 7,
        response: ServerMessage::Write(6, "Fast".to_string()),
    });
    let mut answers = 0;
    for (i, (is_leader, hash)) in order.iter().enumerate() {
        if server.handle_fast_reply(reply(6, *is_leader, *hash, i as u64 + 2)).is_some() {
            answers += 1;
        }
    }
    answers
}

#[test]
fn the_answer_goes_out_once_whatever_the_order() {
    let leader = (true, 9);
    let good = (false, 9);
    let other = (false, 8);
    assert_eq!(count_answers(&[leader, good, good, good, other]), 1);
    assert_eq!(count_answers(&[good, other, good, good, leader]), 1);
    assert_eq!(count_answers(&[good, good, leader, other, good]), 1);
    assert_eq!(count_answers(&[good, good, leader, good, good, good]), 1);
    assert_eq!(count_answers(&[good, leader, other, other, good]), 0);
    assert_eq!(count_answers(&[good, good, good, other]), 0);
}
