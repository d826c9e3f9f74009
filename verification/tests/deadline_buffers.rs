use omnipaxos_kv::common::kv::{Command, CommitPath, KVCommand};
use omnipaxos_kv::deadline::{deadline_for, is_late, released_no_later, should_release, EarlyBuffer};

fn make_cmd(id: usize, deadline: i64) -> Command {
    Command {
        client_id: 1,
        coordinator_id: 1,
        id,
        kv_cmd: KVCommand::Put(id.to_string(), id.to_string()),
        deadline,
        path: CommitPath::Fast,
    }
}

#[test]
fn test_early_buffer_ordering() {
    let mut heap = EarlyBuffer::new();
    heap.push(make_cmd(0, 3_000));
    heap.push(make_cmd(1, 1_000));
    heap.push(make_cmd(2, 2_000));

    let d0 = heap.pop().unwrap().deadline;
    let d1 = heap.pop().unwrap().deadline;
    let d2 = heap.pop().unwrap().deadline;

    assert_eq!(d0, 1_000, "first pop should be smallest deadline");
    assert_eq!(d1, 2_000);
    assert_eq!(d2, 3_000);
}

#[test]
fn test_deterministic_tiebreaking_by_command_id() {
    let mut heap = EarlyBuffer::new();
    let deadline = 5_000_i64;

    heap.push(make_cmd(30, deadline));
    heap.push(make_cmd(10, deadline));
    heap.push(make_cmd(20, deadline));

    let id0 = heap.pop().unwrap().id;
    let id1 = heap.pop().unwrap().id;
    let id2 = heap.pop().unwrap().id;

    assert_eq!(id0, 10, "smallest id should come first on tie");
    assert_eq!(id1, 20);
    assert_eq!(id2, 30);
}

#[test]
fn test_late_classification() {
    let uncertainty = 100_i64;

    assert!(
        !is_late(900, 1_100, uncertainty),
        "900 < 1100-100=1000 → should be fast path"
    );
    assert!(
        is_late(1_000, 1_100, uncertainty),
        "1000 == 1100-100=1000 → should be slow path"
    );
    assert!(
        is_late(1_050, 1_100, uncertainty),
        "1050 > 1000 → should be slow path"
    );
    assert!(
        is_late(1_200, 1_100, uncertainty),
        "current_time > deadline → definitely slow path"
    );
}

#[test]
fn test_release_rule() {
    let uncertainty = 50_i64;
    let deadline = 1_000_i64;

    assert!(
        !should_release(1_000, deadline, uncertainty),
        "at deadline exactly should NOT be released (need +ε)"
    );
    assert!(
        !should_release(1_040, deadline, uncertainty),
        "still within uncertainty window – should not release"
    );
    assert!(
        should_release(1_050, deadline, uncertainty),
        "current_time == deadline + ε → safe to release"
    );
    assert!(
        should_release(1_200, deadline, uncertainty),
        "well past deadline + ε → must release"
    );
}

#[test]
fn test_heap_release_at_correct_time() {
    let uncertainty = 100_i64;
    let mut heap = EarlyBuffer::new();

    heap.push(make_cmd(0, 500));
    heap.push(make_cmd(1, 1_000));

    let t = 550_i64;
    assert!(
        !should_release(t, heap.peek().unwrap().deadline, uncertainty),
        "cmd 0 not ready at t=550"
    );

    let t = 600_i64;
    assert!(
        should_release(t, heap.peek().unwrap().deadline, uncertainty),
        "cmd 0 ready at t=600"
    );
    let released = heap.pop().unwrap();
    assert_eq!(released.id, 0);

    assert!(
        !should_release(t, heap.peek().unwrap().deadline, uncertainty),
        "cmd 1 not ready at t=600"
    );

    let t = 1_100_i64;
    assert!(
        should_release(t, heap.peek().unwrap().deadline, uncertainty),
        "cmd 1 ready at t=1100"
    );
    let released = heap.pop().unwrap();
    assert_eq!(released.id, 1);

    assert!(heap.is_empty());
}

#[test]
fn release_ready_takes_exactly_the_ready_front() {
    let mut buffer = EarlyBuffer::new();
    buffer.push(make_cmd(3, 900));
    buffer.push(make_cmd(1, 500));
    buffer.push(make_cmd(2, 700));
    buffer.push(make_cmd(4, 700));
    // Ready means current_time >= deadline + uncertainty: 500 and 700 at 800 with ε = 100.
    let released = buffer.release_ready(800, 100);
    let ids: Vec<usize> = released.iter().map(|c| c.id).collect();
    assert_eq!(ids, vec![1, 2, 4]);
    assert_eq!(buffer.len(), 1);
    assert_eq!(buffer.peek().unwrap().id, 3);
    assert!(buffer.release_ready(899, 0).is_empty());
    assert_eq!(buffer.release_ready(900, 0).len(), 1);
    assert!(buffer.is_empty());
}

#[test]
fn release_ready_on_empty_buffer_returns_nothing() {
    let mut buffer = EarlyBuffer::new();
    assert!(buffer.release_ready(i64::MAX, 0).is_empty());
    assert!(buffer.pop().is_none());
    assert!(buffer.peek().is_none());
}

#[test]
fn rules_do_not_overflow_at_the_extremes() {
    assert!(is_late(i64::MAX, i64::MIN, i64::MAX));
    assert!(!is_late(i64::MIN, i64::MAX, i64::MIN));
    assert!(!should_release(i64::MAX, i64::MAX, 1));
    assert!(should_release(i64::MIN, i64::MIN, -1));
}

#[test]
fn deadline_adds_uncertainty_and_latency_bound() {
    assert_eq!(deadline_for(1_000, 50), 1_250);
    assert_eq!(deadline_for(0, 0), 200);
    assert_eq!(deadline_for(-300, 0), -100);
}

#[test]
fn release_order_compares_deadline_then_id() {
    assert!(released_no_later(&make_cmd(5, 100), &make_cmd(1, 200)));
    assert!(!released_no_later(&make_cmd(1, 200), &make_cmd(5, 100)));
    assert!(released_no_later(&make_cmd(1, 100), &make_cmd(5, 100)));
    assert!(!released_no_later(&make_cmd(5, 100), &make_cmd(1, 100)));
    assert!(released_no_later(&make_cmd(3, 100), &make_cmd(3, 100)));
}
