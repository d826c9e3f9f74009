use omnipaxos_kv::client::{
    average_latency, decimal_string, milliseconds_until_sync, request_for, response_record, run_finished,
    delay_until, sync_sleep_millis,
};
use omnipaxos_kv::common::kv::{describe_command, Command, CommitPath, KVCommand};
use omnipaxos_kv::common::messages::{commit_path_name, ClientMessage, ServerMessage};
use omnipaxos_kv::common::utils::{epoch_millis, now_millis};

#[test]
fn command_id_and_commit_path_of_answers() {
    let write = ServerMessage::Write(3, "Fast".to_string());
    let read = ServerMessage::Read(8, None, "Slow".to_string());
    assert_eq!(write.command_id(), 3);
    assert_eq!(write.commit_path(), "Fast");
    assert_eq!(read.command_id(), 8);
    assert_eq!(read.commit_path(), "Slow");
}

#[test]
fn request_key_pairs_client_and_command() {
    let cmd = Command {
        client_id: 4,
        coordinator_id: 2,
        id: 17,
        kv_cmd: KVCommand::Get("k".to_string()),
        deadline: 10,
        path: CommitPath::Slow,
    };
    assert_eq!(cmd.request_key(), (4, 17));
}

#[test]
fn commit_path_names() {
    assert_eq!(commit_path_name(CommitPath::Fast), "Fast");
    assert_eq!(commit_path_name(CommitPath::Slow), "Slow");
}

#[test]
fn requests_use_the_decimal_id_as_key() {
    match request_for(1234, true) {
        ClientMessage::Append(id, KVCommand::Put(k, v)) => {
            assert_eq!(id, 1234);
            assert_eq!(k, "1234");
            assert_eq!(v, "1234");
        }
        other => panic!("unexpected {other:?}"),
    }
    match request_for(0, false) {
        ClientMessage::Append(0, KVCommand::Get(k)) => assert_eq!(k, "0"),
        other => panic!("unexpected {other:?}"),
    }
    match request_for(usize::MAX, false) {
        ClientMessage::Append(_, KVCommand::Get(k)) => assert_eq!(k, usize::MAX.to_string()),
        other => panic!("unexpected {other:?}"),
    }
}

#[test]
fn run_ends_once_the_final_count_is_reached() {
    assert!(!run_finished(None, 100));
    assert!(!run_finished(Some(5), 4));
    assert!(run_finished(Some(5), 5));
    assert!(run_finished(Some(5), 6));
    assert!(run_finished(Some(0), 0));
}

#[test]
fn clients_record_answers_but_not_start_signals() {
    assert!(response_record(&ServerMessage::StartSignal(5)).is_none());
    assert_eq!(
        response_record(&ServerMessage::Write(2, "Slow".to_string())),
        Some((2, "Slow".to_string()))
    );
    assert_eq!(
        response_record(&ServerMessage::Read(9, Some("v".to_string()), "Fast".to_string())),
        Some((9, "Fast".to_string()))
    );
}

#[test]
fn sync_waits_only_for_a_future_start() {
    assert_eq!(delay_until(5_000, 3_000), Some(2_000));
    assert_eq!(delay_until(3_000, 5_000), Some(-2_000));
    assert_eq!(delay_until(i64::MIN + 5, 5), Some(i64::MIN));
    assert_eq!(delay_until(i64::MIN + 4, 5), None);
    assert_eq!(sync_sleep_millis(2_000), Some(2_000));
    assert_eq!(sync_sleep_millis(0), None);
    assert_eq!(sync_sleep_millis(-7), None);
    assert!(milliseconds_until_sync(0).unwrap() <= 0);
    assert!(milliseconds_until_sync(i64::MIN).is_none());
    let now = chrono::Utc::now().timestamp_millis();
    let until = milliseconds_until_sync(now + 60_000).unwrap();
    assert!(until > 0 && until <= 60_000);
}

#[test]
fn average_latency_is_zero_without_answers() {
    assert_eq!(average_latency(1_000, 0), 0);
    assert_eq!(average_latency(1_000, 3), 333);
    assert_eq!(average_latency(0, 3), 0);
}

#[test]
fn decided_log_records_name_the_operation() {
    assert_eq!(
        describe_command(&KVCommand::Put("k".to_string(), "v".to_string())),
        "Put(k, v)"
    );
    assert_eq!(describe_command(&KVCommand::Get("k".to_string())), "Get(k)");
    assert_eq!(describe_command(&KVCommand::Delete("".to_string())), "Delete()");
}

#[test]
fn epoch_instants_count_whole_milliseconds() {
    assert_eq!(epoch_millis(0, 0), Some(0));
    assert_eq!(epoch_millis(1_431_648_000, 5_999_999), Some(1_431_648_000_005));
    assert_eq!(epoch_millis(8_000_000_000_000, 999_999_999), Some(8_000_000_000_000_999));
    assert_eq!(epoch_millis(u64::MAX, 0), None);
    assert_eq!(epoch_millis(9_000_000_000_000_000, 0), None);
}

#[test]
fn wall_clock_reads_like_chrono() {
    let before = chrono::Utc::now().timestamp_millis();
    let now = now_millis().unwrap();
    let after = chrono::Utc::now().timestamp_millis();
    assert!(before <= now && now <= after);
}

#[test]
fn decimal_strings_match_display() {
    for n in [0usize, 7, 10, 99, 100, 12_345, usize::MAX] {
        assert_eq!(decimal_string(n), n.to_string());
    }
}
