//! Snapshots of the key-value state that the replicated log compacts into.
use vstd::prelude::*;

use crate::common::kv::{Command, KVCommand};

verus! {

/// The key-value map after applying `c` to `m`.
pub open spec fn apply_kv(m: Map<Seq<char>, Seq<char>>, c: KVCommand) -> Map<Seq<char>, Seq<char>> {
    match c {
        KVCommand::Put(k, v) => m.insert(k@, v@),
        KVCommand::Delete(k) => m.remove(k@),
        KVCommand::Get(_) => m,
    }
}

/// The key-value map after applying the commands of `log`, in order, to `m`.
pub open spec fn apply_log(m: Map<Seq<char>, Seq<char>>, log: Seq<Command>) -> Map<
    Seq<char>,
    Seq<char>,
>
    decreases log.len(),
{
    if log.len() == 0 {
        m
    } else {
        apply_kv(apply_log(m, log.drop_last()), log.last().kv_cmd)
    }
}

/// The key-value map that the commands of `log` build from nothing.
pub open spec fn kv_state(log: Seq<Command>) -> Map<Seq<char>, Seq<char>> {
    apply_log(Map::empty(), log)
}

/// The keys of the deletes in `log` that found their key absent, in order.
pub open spec fn missed_deletes(log: Seq<Command>) -> Seq<Seq<char>>
    decreases log.len(),
{
    if log.len() == 0 {
        Seq::empty()
    } else {
        let prev = missed_deletes(log.drop_last());
        match log.last().kv_cmd {
            KVCommand::Delete(k) => if kv_state(log.drop_last()).contains_key(k@) {
                prev
            } else {
                prev.push(k@)
            },
            _ => prev,
        }
    }
}

/// The keys that a snapshot of `log` records as deleted: those of the missed
/// deletes that no later put brought back.
pub open spec fn snapshot_deleted(log: Seq<Command>) -> Seq<Seq<char>> {
    missed_deletes(log).filter(absent_after(log))
}

/// Holds of the keys that the commands of `log` leave without a value.
pub open spec fn absent_after(log: Seq<Command>) -> spec_fn(Seq<char>) -> bool {
    |k: Seq<char>| !kv_state(log).contains_key(k)
}

/// `c` deletes key `k`.
pub open spec fn is_delete_of(c: KVCommand, k: Seq<char>) -> bool {
    match c {
        KVCommand::Delete(d) => d@ == k,
        _ => false,
    }
}

/// Some command of `log` deletes key `k`.
pub open spec fn deletes_key(log: Seq<Command>, k: Seq<char>) -> bool {
    exists|i: int| 0 <= i < log.len() && is_delete_of((#[trigger] log[i]).kv_cmd, k)
}

/// The keys that `log` deletes and leaves without a value.
pub open spec fn dead_keys(log: Seq<Command>) -> Set<Seq<char>> {
    Set::new(|k: Seq<char>| deletes_key(log, k) && !kv_state(log).contains_key(k))
}

/// `c` puts or deletes key `k`.
pub open spec fn writes_key(c: KVCommand, k: Seq<char>) -> bool {
    match c {
        KVCommand::Put(p, _) => p@ == k,
        KVCommand::Delete(d) => d@ == k,
        KVCommand::Get(_) => false,
    }
}

/// The last command of `log` that writes key `k` decides it: after a put of
/// `k` with value `v` that no later command overwrites or deletes, `k` holds
/// exactly `v`; after such a delete, `k` holds no value.
pub proof fn lemma_last_write_wins(log: Seq<Command>, k: Seq<char>, i: int)
    requires
        0 <= i < log.len(),
        writes_key(log[i].kv_cmd, k),
        forall|j: int| i < j < log.len() ==> !writes_key(#[trigger] log[j].kv_cmd, k),
    ensures
        match log[i].kv_cmd {
            KVCommand::Put(_, v) => kv_state(log).contains_key(k) && kv_state(log)[k] == v@,
            _ => !kv_state(log).contains_key(k),
        },
    decreases log.len(),
{
    let init = log.drop_last();
    if i < log.len() - 1 {
        assert forall|j: int| i < j < init.len() implies !writes_key(#[trigger] init[j].kv_cmd, k) by {
            assert(init[j] == log[j]);
        }
        assert(init[i] == log[i]);
        lemma_last_write_wins(init, k, i);
        assert(!writes_key(log[log.len() - 1].kv_cmd, k));
        assert(log.last() == log[log.len() - 1]);
    } else {
        assert(log.last() == log[i]);
    }
}

/// A key that no command of `log` writes holds no value after it.
pub proof fn lemma_unwritten_key_absent(log: Seq<Command>, k: Seq<char>)
    requires
        forall|j: int| 0 <= j < log.len() ==> !writes_key(#[trigger] log[j].kv_cmd, k),
    ensures
        !kv_state(log).contains_key(k),
    decreases log.len(),
{
    if log.len() > 0 {
        let init = log.drop_last();
        assert forall|j: int| 0 <= j < init.len() implies !writes_key(#[trigger] init[j].kv_cmd, k) by {
            assert(init[j] == log[j]);
        }
        lemma_unwritten_key_absent(init, k);
        assert(log.last() == log[log.len() - 1]);
    }
}

proof fn lemma_deletes_key_push(log: Seq<Command>, k: Seq<char>)
    requires
        log.len() > 0,
    ensures
        deletes_key(log, k) == (deletes_key(log.drop_last(), k) || is_delete_of(log.last().kv_cmd, k)),
{
    let init = log.drop_last();
    if deletes_key(log, k) && !is_delete_of(log.last().kv_cmd, k) {
        let i = choose|i: int| 0 <= i < log.len() && is_delete_of((#[trigger] log[i]).kv_cmd, k);
        assert(i < log.len() - 1);
        assert(init[i] == log[i]);
    }
    if deletes_key(init, k) {
        let i = choose|i: int| 0 <= i < init.len() && is_delete_of((#[trigger] init[i]).kv_cmd, k);
        assert(log[i] == init[i]);
    }
    if is_delete_of(log.last().kv_cmd, k) {
        assert(log[log.len() - 1] == log.last());
    }
}

/// Applying the log `a + b` is applying `a`, then `b`.
pub proof fn lemma_apply_log_concat(m: Map<Seq<char>, Seq<char>>, a: Seq<Command>, b: Seq<Command>)
    ensures
        apply_log(m, a + b) == apply_log(apply_log(m, a), b),
    decreases b.len(),
{
    if b.len() == 0 {
        assert(a + b =~= a);
    } else {
        assert((a + b).drop_last() =~= a + b.drop_last());
        assert((a + b).last() == b.last());
        lemma_apply_log_concat(m, a, b.drop_last());
    }
}

/// Applying `log` to any state keeps the pairs it does not touch, takes
/// those it leaves in place, and loses the keys it leaves deleted.
pub proof fn lemma_apply_log_shape(m: Map<Seq<char>, Seq<char>>, log: Seq<Command>)
    ensures
        apply_log(m, log) == m.union_prefer_right(kv_state(log)).remove_keys(dead_keys(log)),
    decreases log.len(),
{
    if log.len() == 0 {
        assert(kv_state(log) =~= Map::<Seq<char>, Seq<char>>::empty());
        assert(dead_keys(log) =~= Set::<Seq<char>>::empty());
        assert(m.union_prefer_right(kv_state(log)).remove_keys(dead_keys(log)) =~= m);
    } else {
        let init = log.drop_last();
        lemma_apply_log_shape(m, init);
        assert forall|k: Seq<char>| #[trigger] deletes_key(log, k) == (deletes_key(init, k)
            || is_delete_of(log.last().kv_cmd, k)) by {
            lemma_deletes_key_push(log, k);
        }
        let lhs = apply_log(m, log);
        let rhs = m.union_prefer_right(kv_state(log)).remove_keys(dead_keys(log));
        match log.last().kv_cmd {
            KVCommand::Put(k, v) => {
                assert(lhs =~= rhs);
            },
            KVCommand::Delete(k) => {
                assert(lhs =~= rhs);
            },
            KVCommand::Get(_) => {
                assert(lhs =~= rhs);
            },
        }
    }
}

/// Every missed delete of `log` is a delete in `log`.
proof fn lemma_missed_deletes_delete(log: Seq<Command>)
    ensures
        forall|i: int|
            0 <= i < missed_deletes(log).len() ==> deletes_key(log, #[trigger] missed_deletes(log)[i]),
    decreases log.len(),
{
    if log.len() > 0 {
        let init = log.drop_last();
        lemma_missed_deletes_delete(init);
        assert forall|i: int| 0 <= i < missed_deletes(log).len() implies deletes_key(
            log,
            #[trigger] missed_deletes(log)[i],
        ) by {
            let k = missed_deletes(log)[i];
            lemma_deletes_key_push(log, k);
            if i < missed_deletes(init).len() {
                assert(missed_deletes(log)[i] == missed_deletes(init)[i]);
            } else {
                assert(is_delete_of(log.last().kv_cmd, k));
            }
        }
    }
}

/// Merging the snapshot of a later log segment `b` into the snapshot of an
/// earlier segment `a` gives the key-value state of the whole log `a + b`.
/// The one exception: a key present after `a` that `b` puts, then deletes,
/// and does not put back; such a delete found its key and is not recorded,
/// so the merge keeps the key's value from `a`. The law holds on every other
/// input.
pub proof fn lemma_merge_matches_log(a: Seq<Command>, b: Seq<Command>)
    requires
        forall|k: Seq<char>|
            kv_state(a).contains_key(k) && #[trigger] dead_keys(b).contains(k) ==> snapshot_deleted(
                b,
            ).contains(k),
    ensures
        kv_state(a).union_prefer_right(kv_state(b)).remove_keys(snapshot_deleted(b).to_set())
            == kv_state(a + b),
{
    lemma_apply_log_concat(Map::empty(), a, b);
    lemma_apply_log_shape(kv_state(a), b);
    lemma_missed_deletes_delete(b);
    let sd = snapshot_deleted(b);
    let pred = absent_after(b);
    assert forall|k: Seq<char>| #[trigger] sd.to_set().contains(k) implies dead_keys(b).contains(k) by {
        let md = missed_deletes(b);
        let i = choose|i: int| 0 <= i < sd.len() && sd[i] == k;
        assert(pred(sd[i]));
        reveal(Seq::filter);
        assert(md.filter(pred).contains(k));
        assert(md.contains(k)) by {
            md.lemma_filter_contains_rev(pred, k);
        }
        let j = choose|j: int| 0 <= j < md.len() && md[j] == k;
        assert(deletes_key(b, md[j]));
    }
    let u = kv_state(a).union_prefer_right(kv_state(b));
    assert(u.remove_keys(sd.to_set()) =~= u.remove_keys(dead_keys(b)));
}

/// A delete in `log` at position `i` of key `k` that found `k` without a
/// value.
pub open spec fn missed_delete_at(log: Seq<Command>, k: Seq<char>, i: int) -> bool {
    &&& 0 <= i < log.len()
    &&& is_delete_of(log[i].kv_cmd, k)
    &&& !kv_state(log.take(i)).contains_key(k)
}

proof fn lemma_missed_deletes_contains(log: Seq<Command>, k: Seq<char>)
    ensures
        missed_deletes(log).contains(k) <==> exists|i: int| #[trigger] missed_delete_at(log, k, i),
    decreases log.len(),
{
    if log.len() > 0 {
        let init = log.drop_last();
        let n = log.len() - 1;
        lemma_missed_deletes_contains(init, k);
        assert(log.take(n) =~= init);
        assert(log.last() == log[n]);
        assert forall|i: int| 0 <= i < n implies #[trigger] missed_delete_at(log, k, i)
            == missed_delete_at(init, k, i) by {
            assert(log.take(i) =~= init.take(i));
            assert(log[i] == init[i]);
        }
        let prev = missed_deletes(init);
        if missed_deletes(log).contains(k) {
            if prev.contains(k) {
                let i = choose|i: int| #[trigger] missed_delete_at(init, k, i);
                assert(missed_delete_at(log, k, i));
            } else {
                let j = choose|j: int| 0 <= j < missed_deletes(log).len() && missed_deletes(log)[j] == k;
                assert(missed_deletes(log) != prev);
                assert(j == prev.len());
                assert(missed_delete_at(log, k, n));
            }
        }
        if exists|i: int| #[trigger] missed_delete_at(log, k, i) {
            let i = choose|i: int| #[trigger] missed_delete_at(log, k, i);
            if i < n {
                assert(missed_delete_at(init, k, i));
                let j = choose|j: int| 0 <= j < prev.len() && prev[j] == k;
                match log.last().kv_cmd {
                    KVCommand::Delete(d) => {
                        if !kv_state(init).contains_key(d@) {
                            assert(missed_deletes(log)[j] == k);
                        }
                    },
                    _ => {},
                }
            } else {
                assert(missed_deletes(log) == prev.push(k));
                assert(missed_deletes(log)[prev.len() as int] == k);
            }
        }
    }
}

/// The snapshot of `log` records key `k` as deleted exactly when `k` holds
/// no value after `log` and some delete of `k` in `log` found it without a
/// value.
pub proof fn lemma_snapshot_deleted_contains(log: Seq<Command>, k: Seq<char>)
    ensures
        snapshot_deleted(log).contains(k) <==> !kv_state(log).contains_key(k) && exists|i: int|
            #[trigger] missed_delete_at(log, k, i),
{
    lemma_missed_deletes_contains(log, k);
    let md = missed_deletes(log);
    let pred = absent_after(log);
    if snapshot_deleted(log).contains(k) {
        md.lemma_filter_contains_rev(pred, k);
        let j = choose|j: int| 0 <= j < md.filter(pred).len() && md.filter(pred)[j] == k;
        md.lemma_filter_pred(pred, j);
    }
    if md.contains(k) && pred(k) {
        let j = choose|j: int| 0 <= j < md.len() && md[j] == k;
        md.lemma_filter_contains(pred, j);
    }
}

/// The views of a sequence of strings.
pub open spec fn string_views(s: Seq<String>) -> Seq<Seq<char>> {
    s.map_values(|x: String| x@)
}

/// No key occurs twice in `s`.
pub open spec fn distinct_keys(s: Seq<(String, String)>) -> bool {
    forall|i: int, j: int|
        0 <= i < s.len() && 0 <= j < s.len() && (#[trigger] s[i]).0@ == (#[trigger] s[j]).0@
            ==> i == j
}

/// `s` holds an entry with key `k`.
pub open spec fn has_key(s: Seq<(String, String)>, k: Seq<char>) -> bool {
    exists|i: int| 0 <= i < s.len() && (#[trigger] s[i]).0@ == k
}

/// The map that an association list stands for.
pub open spec fn assoc_view(s: Seq<(String, String)>) -> Map<Seq<char>, Seq<char>> {
    Map::new(
        |k: Seq<char>| has_key(s, k),
        |k: Seq<char>| s[choose|i: int| 0 <= i < s.len() && (#[trigger] s[i]).0@ == k].1@,
    )
}

proof fn lemma_assoc_lookup(s: Seq<(String, String)>, i: int)
    requires
        distinct_keys(s),
        0 <= i < s.len(),
    ensures
        assoc_view(s).contains_key(s[i].0@),
        assoc_view(s)[s[i].0@] == s[i].1@,
{
    let k = s[i].0@;
    assert(has_key(s, k));
    let j = choose|j: int| 0 <= j < s.len() && (#[trigger] s[j]).0@ == k;
    assert(j == i);
}

proof fn lemma_assoc_has_key(s: Seq<(String, String)>, k: Seq<char>)
    ensures
        assoc_view(s).contains_key(k) == has_key(s, k),
{
}

/// The position of the entry with key `k` in `v`, if there is one.
fn find_key(v: &Vec<(String, String)>, k: &String) -> (res: Option<usize>)
    ensures
        match res {
            Some(i) => i < v.len() && v@[i as int].0@ == k@,
            None => !has_key(v@, k@),
        },
{
    let mut i: usize = 0;
    while i < v.len()
        invariant
            i <= v.len(),
            forall|j: int| 0 <= j < i ==> (#[trigger] v@[j]).0@ != k@,
        decreases v.len() - i,
    {
        if v[i].0 == *k {
            return Some(i);
        }
        i = i + 1;
    }
    None
}

/// Sets the value of key `k` to `val`.
fn put_key(v: &mut Vec<(String, String)>, k: String, val: String)
    requires
        distinct_keys(old(v)@),
    ensures
        distinct_keys(final(v)@),
        assoc_view(final(v)@) == assoc_view(old(v)@).insert(k@, val@),
{
    let ghost kv = k@;
    let ghost valv = val@;
    let ghost s0 = v@;
    match find_key(v, &k) {
        Some(i) => {
            v.set(i, (k, val));
            let ghost s1 = v@;
            assert(s1 == s0.update(i as int, s1[i as int]));
            assert(distinct_keys(s1)) by {
                assert forall|a: int, b: int|
                    0 <= a < s1.len() && 0 <= b < s1.len() && (#[trigger] s1[a]).0@ == (
                    #[trigger] s1[b]).0@ implies a == b by {
                    assert(s0[a].0@ == s1[a].0@);
                    assert(s0[b].0@ == s1[b].0@);
                }
            }
            assert forall|kk: Seq<char>| #[trigger]
                assoc_view(s1).contains_key(kk) == assoc_view(s0).insert(kv, valv).contains_key(
                    kk,
                ) by {
                if has_key(s1, kk) {
                    let a = choose|a: int| 0 <= a < s1.len() && (#[trigger] s1[a]).0@ == kk;
                    assert(s0[a].0@ == kk);
                }
                if has_key(s0, kk) {
                    let a = choose|a: int| 0 <= a < s0.len() && (#[trigger] s0[a]).0@ == kk;
                    assert(s1[a].0@ == kk);
                }
                if kk == kv {
                    assert(s1[i as int].0@ == kk);
                }
            }
            assert forall|kk: Seq<char>| #[trigger]
                assoc_view(s1).contains_key(kk) implies assoc_view(s1)[kk] == assoc_view(
                s0,
            ).insert(kv, valv)[kk] by {
                let a = choose|a: int| 0 <= a < s1.len() && (#[trigger] s1[a]).0@ == kk;
                lemma_assoc_lookup(s1, a);
                if a != i {
                    assert(s0[a] == s1[a]);
                    lemma_assoc_lookup(s0, a);
                }
            }
            assert(assoc_view(s1) =~= assoc_view(s0).insert(kv, valv));
        },
        None => {
            v.push((k, val));
            let ghost s1 = v@;
            let ghost n = s0.len() as int;
            assert(s1 == s0.push(s1[n]));
            assert(distinct_keys(s1)) by {
                assert forall|a: int, b: int|
                    0 <= a < s1.len() && 0 <= b < s1.len() && (#[trigger] s1[a]).0@ == (
                    #[trigger] s1[b]).0@ implies a == b by {
                    if a < n && b == n {
                        assert(s0[a].0@ == kv);
                    }
                    if b < n && a == n {
                        assert(s0[b].0@ == kv);
                    }
                }
            }
            assert forall|kk: Seq<char>| #[trigger]
                assoc_view(s1).contains_key(kk) == assoc_view(s0).insert(kv, valv).contains_key(
                    kk,
                ) by {
                if has_key(s1, kk) {
                    let a = choose|a: int| 0 <= a < s1.len() && (#[trigger] s1[a]).0@ == kk;
                    if a < n {
                        assert(s0[a].0@ == kk);
                    }
                }
                if has_key(s0, kk) {
                    let a = choose|a: int| 0 <= a < s0.len() && (#[trigger] s0[a]).0@ == kk;
                    assert(s1[a].0@ == kk);
                }
                if kk == kv {
                    assert(s1[n].0@ == kk);
                }
            }
            assert forall|kk: Seq<char>| #[trigger]
                assoc_view(s1).contains_key(kk) implies assoc_view(s1)[kk] == assoc_view(
                s0,
            ).insert(kv, valv)[kk] by {
                let a = choose|a: int| 0 <= a < s1.len() && (#[trigger] s1[a]).0@ == kk;
                lemma_assoc_lookup(s1, a);
                if a != n {
                    assert(s0[a] == s1[a]);
                    lemma_assoc_lookup(s0, a);
                }
            }
            assert(assoc_view(s1) =~= assoc_view(s0).insert(kv, valv));
        },
    }
}

/// Removes key `k`; tells whether it was present.
fn remove_key(v: &mut Vec<(String, String)>, k: &String) -> (was_present: bool)
    requires
        distinct_keys(old(v)@),
    ensures
        distinct_keys(final(v)@),
        assoc_view(final(v)@) == assoc_view(old(v)@).remove(k@),
        was_present == assoc_view(old(v)@).contains_key(k@),
{
    let ghost s0 = v@;
    match find_key(v, k) {
        Some(i) => {
            proof {
                lemma_assoc_lookup(s0, i as int);
            }
            v.remove(i);
            let ghost s1 = v@;
            let ghost ii = i as int;
            assert(s1 == s0.remove(ii));
            assert(forall|a: int| 0 <= a < s1.len() ==> #[trigger] s1[a] == s0[if a < ii {
                a
            } else {
                a + 1
            }]);
            assert(distinct_keys(s1)) by {
                assert forall|a: int, b: int|
                    0 <= a < s1.len() && 0 <= b < s1.len() && (#[trigger] s1[a]).0@ == (
                    #[trigger] s1[b]).0@ implies a == b by {
                    let a0 = if a < ii {
                        a
                    } else {
                        a + 1
                    };
                    let b0 = if b < ii {
                        b
                    } else {
                        b + 1
                    };
                    assert(s0[a0] == s1[a]);
                    assert(s0[b0] == s1[b]);
                }
            }
            assert forall|kk: Seq<char>| #[trigger]
                assoc_view(s1).contains_key(kk) == assoc_view(s0).remove(k@).contains_key(kk) by {
                if has_key(s1, kk) {
                    let a = choose|a: int| 0 <= a < s1.len() && (#[trigger] s1[a]).0@ == kk;
                    let a0 = if a < ii {
                        a
                    } else {
                        a + 1
                    };
                    assert(s0[a0] == s1[a]);
                    assert(s0[a0].0@ == kk);
                    assert(a0 != ii);
                }
                if has_key(s0, kk) && kk != k@ {
                    let a = choose|a: int| 0 <= a < s0.len() && (#[trigger] s0[a]).0@ == kk;
                    assert(a != ii);
                    let a1 = if a < ii {
                        a
                    } else {
                        a - 1
                    };
                    assert(s1[a1] == s0[a]);
                    assert(s1[a1].0@ == kk);
                }
            }
            assert forall|kk: Seq<char>| #[trigger]
                assoc_view(s1).contains_key(kk) implies assoc_view(s1)[kk] == assoc_view(
                s0,
            ).remove(k@)[kk] by {
                let a = choose|a: int| 0 <= a < s1.len() && (#[trigger] s1[a]).0@ == kk;
                lemma_assoc_lookup(s1, a);
                let a0 = if a < ii {
                    a
                } else {
                    a + 1
                };
                assert(s0[a0] == s1[a]);
                lemma_assoc_lookup(s0, a0);
            }
            assert(assoc_view(s1) =~= assoc_view(s0).remove(k@));
            true
        },
        None => {
            assert(assoc_view(s0) =~= assoc_view(s0).remove(k@));
            false
        },
    }
}

/// A compacted prefix of the replicated log: the key-value pairs it leaves
/// in place, and the keys it deleted without having seen them put.
#[derive(Debug)]
pub struct KVSnapshot {
    snapshotted: Vec<(String, String)>,
    deleted_keys: Vec<String>,
}

impl Clone for KVSnapshot {
    /// A snapshot with the same pairs and deleted keys, in the same order.
    fn clone(&self) -> (res: Self)
        ensures
            res.kv_map() == self.kv_map(),
            res.deleted() == self.deleted(),
    {
        proof {
            use_type_invariant(self);
        }
        let mut pairs: Vec<(String, String)> = Vec::new();
        let n = self.snapshotted.len();
        let mut i: usize = 0;
        while i < n
            invariant
                n == self.snapshotted@.len(),
                i <= n,
                pairs@ == self.snapshotted@.take(i as int),
            decreases n - i,
        {
            let k = self.snapshotted[i].0.clone();
            let v = self.snapshotted[i].1.clone();
            pairs.push((k, v));
            assert(pairs@ =~= self.snapshotted@.take(i + 1));
            i = i + 1;
        }
        let mut deleted: Vec<String> = Vec::new();
        let m = self.deleted_keys.len();
        let mut j: usize = 0;
        while j < m
            invariant
                m == self.deleted_keys@.len(),
                j <= m,
                deleted@ == self.deleted_keys@.take(j as int),
            decreases m - j,
        {
            deleted.push(self.deleted_keys[j].clone());
            assert(deleted@ =~= self.deleted_keys@.take(j + 1));
            j = j + 1;
        }
        assert(pairs@ =~= self.snapshotted@);
        assert(deleted@ =~= self.deleted_keys@);
        KVSnapshot { snapshotted: pairs, deleted_keys: deleted }
    }
}

impl KVSnapshot {
    #[verifier::type_invariant]
    spec fn inv(self) -> bool {
        &&& distinct_keys(self.snapshotted@)
        &&& forall|i: int|
            0 <= i < self.deleted_keys@.len() ==> !assoc_view(self.snapshotted@).contains_key(
                (#[trigger] self.deleted_keys@[i])@,
            )
    }

    /// The key-value pairs that the snapshot keeps.
    pub closed spec fn kv_map(self) -> Map<Seq<char>, Seq<char>> {
        assoc_view(self.snapshotted@)
    }

    /// The keys that the snapshot records as deleted, in order.
    pub closed spec fn deleted(self) -> Seq<Seq<char>> {
        string_views(self.deleted_keys@)
    }

    /// Builds the snapshot of the log `entries`: the key-value state they
    /// produce, and the keys they deleted while absent and did not put back.
    pub fn create(entries: &[Command]) -> (res: Self)
        ensures
            res.kv_map() == kv_state(entries@),
            res.deleted() == snapshot_deleted(entries@),
    {
        let mut snap: Vec<(String, String)> = Vec::new();
        let mut missed: Vec<String> = Vec::new();
        let n = entries.len();
        let mut i: usize = 0;
        assert(assoc_view(snap@) =~= Map::empty());
        assert(entries@.take(0) =~= Seq::<Command>::empty());
        assert(string_views(missed@) =~= Seq::<Seq<char>>::empty());
        while i < n
            invariant
                n == entries@.len(),
                i <= n,
                distinct_keys(snap@),
                assoc_view(snap@) == kv_state(entries@.take(i as int)),
                string_views(missed@) == missed_deletes(entries@.take(i as int)),
            decreases n - i,
        {
            let ghost prefix = entries@.take(i as int);
            let ghost next = entries@.take(i + 1);
            assert(next.drop_last() =~= prefix);
            assert(next.last() == entries@[i as int]);
            match &entries[i].kv_cmd {
                KVCommand::Put(k, v) => {
                    put_key(&mut snap, k.clone(), v.clone());
                },
                KVCommand::Delete(k) => {
                    let was_present = remove_key(&mut snap, k);
                    if !was_present {
                        let ghost before = missed@;
                        missed.push(k.clone());
                        assert(string_views(missed@) =~= string_views(before).push(k@));
                    }
                },
                KVCommand::Get(_) => {},
            }
            i = i + 1;
        }
        assert(entries@.take(n as int) =~= entries@);
        let ghost state = assoc_view(snap@);
        let ghost pred = absent_after(entries@);
        let mut deleted: Vec<String> = Vec::new();
        let m = missed.len();
        let mut j: usize = 0;
        assert(string_views(missed@).take(0).filter(pred) =~= Seq::<Seq<char>>::empty()) by {
            reveal(Seq::filter);
        }
        assert(string_views(deleted@) =~= Seq::<Seq<char>>::empty());
        while j < m
            invariant
                m == missed@.len(),
                pred == absent_after(entries@),
                j <= m,
                distinct_keys(snap@),
                assoc_view(snap@) == kv_state(entries@),
                string_views(deleted@) == string_views(missed@).take(j as int).filter(pred),
                forall|a: int|
                    0 <= a < deleted@.len() ==> !assoc_view(snap@).contains_key(
                        (#[trigger] deleted@[a])@,
                    ),
            decreases m - j,
        {
            let ghost mv = string_views(missed@);
            assert(mv.take(j + 1).drop_last() =~= mv.take(j as int));
            assert(mv.take(j + 1).last() == missed@[j as int]@);
            assert(mv.take(j + 1).filter(pred) == if pred(mv.take(j + 1).last()) {
                mv.take(j as int).filter(pred).push(mv.take(j + 1).last())
            } else {
                mv.take(j as int).filter(pred)
            }) by {
                reveal(Seq::filter);
            }
            let found = find_key(&snap, &missed[j]);
            proof {
                lemma_assoc_has_key(snap@, missed@[j as int]@);
            }
            proof {
                if let Some(at) = found {
                    assert(snap@[at as int].0@ == missed@[j as int]@);
                    assert(has_key(snap@, missed@[j as int]@));
                }
                let key = missed@[j as int]@;
                assert(found.is_none() == pred(key));
            }
            if found.is_none() {
                let ghost before = deleted@;
                deleted.push(missed[j].clone());
                assert(string_views(deleted@) =~= string_views(before).push(missed@[j as int]@));
            }
            j = j + 1;
        }
        assert(string_views(missed@).take(m as int) =~= string_views(missed@));
        KVSnapshot { snapshotted: snap, deleted_keys: deleted }
    }

    /// Merges the later snapshot `delta` into this one: the pairs of `delta`
    /// overwrite those here, the keys that `delta` deleted are removed, and
    /// the record of deleted keys is emptied.
    pub fn merge(&mut self, delta: Self)
        ensures
            final(self).kv_map() == old(self).kv_map().union_prefer_right(delta.kv_map()).remove_keys(
                delta.deleted().to_set(),
            ),
            final(self).deleted() == Seq::<Seq<char>>::empty(),
    {
        proof {
            use_type_invariant(&*self);
            use_type_invariant(&delta);
        }
        let ghost old_map = assoc_view(self.snapshotted@);
        self.deleted_keys = Vec::new();
        let mut snap: Vec<(String, String)> = Vec::new();
        std::mem::swap(&mut snap, &mut self.snapshotted);
        let KVSnapshot { snapshotted: delta_pairs, deleted_keys: delta_deleted } = delta;
        let ghost dmap = assoc_view(delta_pairs@);
        let n = delta_pairs.len();
        let mut i: usize = 0;
        let mut pairs = delta_pairs;
        let ghost dpairs = pairs@;
        assert(assoc_view(snap@) == old_map);
        while i < n
            invariant
                n == dpairs.len(),
                pairs@ == dpairs,
                distinct_keys(dpairs),
                dmap == assoc_view(dpairs),
                i <= n,
                distinct_keys(snap@),
                forall|kk: Seq<char>| #[trigger]
                    assoc_view(snap@).contains_key(kk) == (old_map.contains_key(kk) || exists|
                        a: int,
                    | 0 <= a < i && (#[trigger] dpairs[a]).0@ == kk),
                forall|kk: Seq<char>|
                    #![trigger assoc_view(snap@)[kk]]
                    assoc_view(snap@).contains_key(kk) ==> assoc_view(snap@)[kk] == if exists|
                        a: int,
                    | 0 <= a < i && (#[trigger] dpairs[a]).0@ == kk {
                        dmap[kk]
                    } else {
                        old_map[kk]
                    },
            decreases n - i,
        {
            let k = pairs[i].0.clone();
            let v = pairs[i].1.clone();
            let ghost s0 = snap@;
            put_key(&mut snap, k, v);
            proof {
                lemma_assoc_lookup(dpairs, i as int);
                assert forall|kk: Seq<char>| #[trigger]
                    assoc_view(snap@).contains_key(kk) == (old_map.contains_key(kk) || exists|
                        a: int,
                    | 0 <= a < i + 1 && (#[trigger] dpairs[a]).0@ == kk) by {
                    if kk == dpairs[i as int].0@ {
                        assert(0 <= i < i + 1 && dpairs[i as int].0@ == kk);
                    } else if exists|a: int| 0 <= a < i + 1 && (#[trigger] dpairs[a]).0@ == kk {
                        let a = choose|a: int| 0 <= a < i + 1 && (#[trigger] dpairs[a]).0@ == kk;
                        assert(a != i);
                        assert(0 <= a < i && dpairs[a].0@ == kk);
                    }
                }
                assert forall|kk: Seq<char>| #[trigger]
                    assoc_view(snap@).contains_key(kk) implies assoc_view(snap@)[kk] == if exists|
                        a: int,
                    | 0 <= a < i + 1 && (#[trigger] dpairs[a]).0@ == kk {
                        dmap[kk]
                    } else {
                        old_map[kk]
                    } by {
                    if kk == dpairs[i as int].0@ {
                        assert(0 <= i < i + 1 && dpairs[i as int].0@ == kk);
                    } else {
                        assert(assoc_view(s0).contains_key(kk));
                        if exists|a: int| 0 <= a < i + 1 && (#[trigger] dpairs[a]).0@ == kk {
                            let a = choose|a: int|
                                0 <= a < i + 1 && (#[trigger] dpairs[a]).0@ == kk;
                            assert(a != i);
                            assert(0 <= a < i && dpairs[a].0@ == kk);
                        } else {
                            assert(!exists|a: int| 0 <= a < i && (#[trigger] dpairs[a]).0@ == kk)
                                by {
                                if exists|a: int| 0 <= a < i && (#[trigger] dpairs[a]).0@ == kk {
                                    let a = choose|a: int|
                                        0 <= a < i && (#[trigger] dpairs[a]).0@ == kk;
                                    assert(0 <= a < i + 1);
                                }
                            }
                        }
                    }
                }
            }
            i = i + 1;
        }
        let ghost unioned = old_map.union_prefer_right(dmap);
        assert(assoc_view(snap@) =~= unioned) by {
            assert forall|kk: Seq<char>| #[trigger]
                assoc_view(snap@).contains_key(kk) == unioned.contains_key(kk) by {
                if dmap.contains_key(kk) {
                    let a = choose|a: int| 0 <= a < dpairs.len() && (#[trigger] dpairs[a]).0@ == kk;
                    assert(0 <= a < n && dpairs[a].0@ == kk);
                }
                if exists|a: int| 0 <= a < n && (#[trigger] dpairs[a]).0@ == kk {
                    assert(has_key(dpairs, kk));
                }
            }
            assert forall|kk: Seq<char>| #[trigger]
                assoc_view(snap@).contains_key(kk) implies assoc_view(snap@)[kk]
                == unioned[kk] by {
                if dmap.contains_key(kk) {
                    let a = choose|a: int| 0 <= a < dpairs.len() && (#[trigger] dpairs[a]).0@ == kk;
                    assert(0 <= a < n && dpairs[a].0@ == kk);
                }
                if exists|a: int| 0 <= a < n && (#[trigger] dpairs[a]).0@ == kk {
                    assert(has_key(dpairs, kk));
                }
            }
        }
        let dn = delta_deleted.len();
        let mut j: usize = 0;
        let ghost dview = string_views(delta_deleted@);
        while j < dn
            invariant
                dn == delta_deleted@.len(),
                dview == string_views(delta_deleted@),
                j <= dn,
                distinct_keys(snap@),
                assoc_view(snap@) == unioned.remove_keys(dview.take(j as int).to_set()),
            decreases dn - j,
        {
            let ghost before = assoc_view(snap@);
            remove_key(&mut snap, &delta_deleted[j]);
            assert(dview.take(j + 1) =~= dview.take(j as int).push(delta_deleted@[j as int]@));
            assert(dview.take(j + 1).to_set() =~= dview.take(j as int).to_set().insert(
                delta_deleted@[j as int]@,
            )) by {
                broadcast use vstd::seq_lib::group_seq_properties;
                let x = delta_deleted@[j as int]@;
                assert forall|a: Seq<char>| #[trigger] dview.take(j + 1).to_set().contains(a) == dview.take(j as int).to_set().insert(x).contains(a) by {
                    if dview.take(j + 1).contains(a) {
                        let b = choose|b: int| 0 <= b < dview.take(j + 1).len() && #[trigger] dview.take(j + 1)[b] == a;
                        if b < j {
                            assert(dview.take(j as int)[b] == a);
                        }
                    }
                    if dview.take(j as int).contains(a) {
                        let b = choose|b: int| 0 <= b < dview.take(j as int).len() && #[trigger] dview.take(j as int)[b] == a;
                        assert(dview.take(j + 1)[b] == a);
                    }
                    if a == x {
                        assert(dview.take(j + 1)[j as int] == a);
                    }
                }
            }
            assert(assoc_view(snap@) =~= unioned.remove_keys(dview.take(j + 1).to_set()));
            j = j + 1;
        }
        assert(dview.take(dn as int) =~= dview);
        self.snapshotted = snap;
        assert(string_views(self.deleted_keys@) =~= Seq::<Seq<char>>::empty());
    }

    /// The key-value pairs that the snapshot keeps, each key once.
    pub fn snapshotted(&self) -> (res: &Vec<(String, String)>)
        ensures
            assoc_view(res@) == self.kv_map(),
            distinct_keys(res@),
    {
        proof {
            use_type_invariant(self);
        }
        &self.snapshotted
    }

    /// The keys that the snapshot records as deleted, in order.
    pub fn deleted_keys(&self) -> (res: &Vec<String>)
        ensures
            string_views(res@) == self.deleted(),
    {
        &self.deleted_keys
    }

    /// The value that the snapshot keeps for `key`, if any.
    pub fn get(&self, key: &String) -> (res: Option<&String>)
        ensures
            match res {
                Some(v) => self.kv_map().contains_key(key@) && self.kv_map()[key@] == v@,
                None => !self.kv_map().contains_key(key@),
            },
    {
        proof {
            use_type_invariant(self);
        }
        match find_key(&self.snapshotted, key) {
            Some(i) => {
                proof {
                    lemma_assoc_lookup(self.snapshotted@, i as int);
                }
                Some(&self.snapshotted[i].1)
            },
            None => None,
        }
    }

    /// The snapshot with the given pairs and deleted keys, provided no key
    /// occurs twice among the pairs and no deleted key has a pair.
    pub fn from_parts(snapshotted: Vec<(String, String)>, deleted_keys: Vec<String>) -> (res: Option<
        Self,
    >)
        ensures
            res is Some <==> distinct_keys(snapshotted@) && forall|i: int|
                0 <= i < deleted_keys@.len() ==> !has_key(snapshotted@, (#[trigger] deleted_keys@[i])@),
            res matches Some(snap) ==> snap.kv_map() == assoc_view(snapshotted@) && snap.deleted()
                == string_views(deleted_keys@),
    {
        let n = snapshotted.len();
        let mut i: usize = 0;
        while i < n
            invariant
                n == snapshotted@.len(),
                i <= n,
                forall|a: int, b: int|
                    0 <= a < i && 0 <= b < n && (#[trigger] snapshotted@[a]).0@ == (
                    #[trigger] snapshotted@[b]).0@ ==> a == b,
            decreases n - i,
        {
            let mut j: usize = 0;
            while j < n
                invariant
                    n == snapshotted@.len(),
                    i < n,
                    j <= n,
                    forall|a: int, b: int|
                        0 <= a < i && 0 <= b < n && (#[trigger] snapshotted@[a]).0@ == (
                        #[trigger] snapshotted@[b]).0@ ==> a == b,
                    forall|b: int|
                        0 <= b < j && snapshotted@[i as int].0@ == (#[trigger] snapshotted@[b]).0@
                            ==> b == i,
                decreases n - j,
            {
                if j != i && snapshotted[i].0 == snapshotted[j].0 {
                    return None;
                }
                j = j + 1;
            }
            i = i + 1;
        }
        let m = deleted_keys.len();
        let mut d: usize = 0;
        while d < m
            invariant
                m == deleted_keys@.len(),
                d <= m,
                forall|a: int| 0 <= a < d ==> !has_key(snapshotted@, (#[trigger] deleted_keys@[a])@),
            decreases m - d,
        {
            if let Some(at) = find_key(&snapshotted, &deleted_keys[d]) {
                assert(snapshotted@[at as int].0@ == deleted_keys@[d as int]@);
                return None;
            }
            d = d + 1;
        }
        assert forall|a: int| 0 <= a < m implies !assoc_view(snapshotted@).contains_key(
            (#[trigger] deleted_keys@[a])@,
        ) by {
            lemma_assoc_has_key(snapshotted@, deleted_keys@[a]@);
        }
        Some(KVSnapshot { snapshotted, deleted_keys })
    }

    /// Snapshots of this type are in use.
    pub fn use_snapshots() -> (res: bool)
        ensures
            res,
    {
        true
    }
}

} // verus!
