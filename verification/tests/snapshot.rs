use omnipaxos_kv::common::kv::{Command, CommitPath, KVCommand, KVSnapshot};

fn cmd(kv: KVCommand) -> Command {
    Command {
        client_id: 1,
        coordinator_id: 1,
        id: 0,
        kv_cmd: kv,
        deadline: 0,
        path: CommitPath::Fast,
    }
}

fn put(k: &str, v: &str) -> Command {
    cmd(KVCommand::Put(k.to_string(), v.to_string()))
}

fn del(k: &str) -> Command {
    cmd(KVCommand::Delete(k.to_string()))
}

fn get(k: &str) -> Command {
    cmd(KVCommand::Get(k.to_string()))
}

fn value(s: &KVSnapshot, k: &str) -> Option<String> {
    s.get(&k.to_string()).cloned()
}

fn sorted_pairs(s: &KVSnapshot) -> Vec<(String, String)> {
    let mut pairs = s.snapshotted().clone();
    pairs.sort();
    pairs
}

#[test]
fn create_keeps_the_final_value_of_each_key() {
    let log = vec![
        put("a", "1"),
        put("b", "2"),
        put("a", "3"),
        get("b"),
        del("b"),
        put("c", "4"),
    ];
    let snap = KVSnapshot::create(&log);
    assert_eq!(
        sorted_pairs(&snap),
        vec![("a".to_string(), "3".to_string()), ("c".to_string(), "4".to_string())]
    );
    assert_eq!(value(&snap, "b"), None);
    // "b" was present when deleted, so it is not recorded.
    assert!(snap.deleted_keys().is_empty());
}

#[test]
fn create_records_deletes_of_absent_keys_unless_put_back() {
    let log = vec![del("x"), del("y"), put("y", "1"), del("z"), del("z")];
    let snap = KVSnapshot::create(&log);
    assert_eq!(
        snap.deleted_keys().clone(),
        vec!["x".to_string(), "z".to_string(), "z".to_string()]
    );
    assert_eq!(value(&snap, "y"), Some("1".to_string()));
}

#[test]
fn create_of_an_empty_log_is_empty() {
    let snap = KVSnapshot::create(&[]);
    assert!(snap.snapshotted().is_empty());
    assert!(snap.deleted_keys().is_empty());
    assert!(KVSnapshot::use_snapshots());
}

#[test]
fn merge_overwrites_then_removes_deleted_keys() {
    let mut base = KVSnapshot::create(&[put("a", "1"), put("b", "2"), put("c", "3")]);
    let delta = KVSnapshot::create(&[put("a", "9"), del("b"), put("d", "4")]);
    base.merge(delta);
    assert_eq!(
        sorted_pairs(&base),
        vec![
            ("a".to_string(), "9".to_string()),
            ("c".to_string(), "3".to_string()),
            ("d".to_string(), "4".to_string()),
        ]
    );
    assert!(base.deleted_keys().is_empty());
}

#[test]
fn merged_snapshots_match_the_snapshot_of_the_whole_log() {
    let a = vec![put("k1", "a"), put("k2", "b"), del("k3")];
    let b = vec![del("k1"), put("k2", "c"), put("k4", "d"), get("k2")];
    let mut merged = KVSnapshot::create(&a);
    merged.merge(KVSnapshot::create(&b));
    let mut whole_log = a.clone();
    whole_log.extend(b.clone());
    let whole = KVSnapshot::create(&whole_log);
    assert_eq!(sorted_pairs(&merged), sorted_pairs(&whole));
}

#[test]
fn merge_misses_a_delete_of_a_key_put_in_the_same_segment() {
    // The one input on which merging differs from the whole log: "x" is
    // present after `a`, and `b` puts then deletes it.
    let a = vec![put("x", "1")];
    let b = vec![put("x", "2"), del("x")];
    let mut merged = KVSnapshot::create(&a);
    merged.merge(KVSnapshot::create(&b));
    assert_eq!(value(&merged, "x"), Some("1".to_string()));
    let mut whole_log = a.clone();
    whole_log.extend(b.clone());
    assert_eq!(value(&KVSnapshot::create(&whole_log), "x"), None);
}

#[test]
fn from_parts_refuses_repeated_or_deleted_keys() {
    let pairs = vec![("a".to_string(), "1".to_string()), ("b".to_string(), "2".to_string())];
    let snap = KVSnapshot::from_parts(pairs.clone(), vec!["c".to_string()]).unwrap();
    assert_eq!(value(&snap, "b"), Some("2".to_string()));
    assert_eq!(snap.deleted_keys().clone(), vec!["c".to_string()]);
    assert!(KVSnapshot::from_parts(pairs.clone(), vec!["a".to_string()]).is_none());
    let repeated = vec![("a".to_string(), "1".to_string()), ("a".to_string(), "2".to_string())];
    assert!(KVSnapshot::from_parts(repeated, vec![]).is_none());
}

#[test]
fn clone_keeps_pairs_and_deleted_keys() {
    let snap = KVSnapshot::create(&[put("a", "1"), del("z"), put("b", "2")]);
    let copy = snap.clone();
    assert_eq!(copy.snapshotted(), snap.snapshotted());
    assert_eq!(copy.deleted_keys(), snap.deleted_keys());
    assert_eq!(copy.deleted_keys().clone(), vec!["z".to_string()]);
}
