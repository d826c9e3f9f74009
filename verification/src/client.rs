//! The decisions of a client: the requests it sends, when its run is over,
//! how long it waits for the common start, and what it records of answers.
use vstd::prelude::*;

use crate::common::kv::{CommandId, KVCommand};
use crate::common::messages::{ClientMessage, ServerMessage};
use crate::common::utils::now_millis;

verus! {

/// The character of decimal digit `d`.
pub open spec fn digit_char(d: nat) -> char {
    (48 + d) as char
}

/// The decimal digits of `n`, without sign or leading zeros.
pub open spec fn decimal_digits(n: nat) -> Seq<char>
    decreases n,
{
    if n < 10 {
        seq![digit_char(n)]
    } else {
        decimal_digits(n / 10).push(digit_char(n % 10))
    }
}

/// The one-character string of decimal digit `d`.
fn digit_string(d: usize) -> (s: String)
    requires
        d < 10,
    ensures
        s@ == seq![digit_char(d as nat)],
{
    proof {
        reveal_strlit("0");
        reveal_strlit("1");
        reveal_strlit("2");
        reveal_strlit("3");
        reveal_strlit("4");
        reveal_strlit("5");
        reveal_strlit("6");
        reveal_strlit("7");
        reveal_strlit("8");
        reveal_strlit("9");
    }
    let s = if d == 0 {
        String::from_str("0")
    } else if d == 1 {
        String::from_str("1")
    } else if d == 2 {
        String::from_str("2")
    } else if d == 3 {
        String::from_str("3")
    } else if d == 4 {
        String::from_str("4")
    } else if d == 5 {
        String::from_str("5")
    } else if d == 6 {
        String::from_str("6")
    } else if d == 7 {
        String::from_str("7")
    } else if d == 8 {
        String::from_str("8")
    } else {
        String::from_str("9")
    };
    assert(s@ =~= seq![digit_char(d as nat)]);
    s
}

/// `n` in decimal digits, without sign or leading zeros.
pub fn decimal_string(n: usize) -> (s: String)
    ensures
        s@ == decimal_digits(n as nat),
    decreases n,
{
    if n < 10 {
        digit_string(n)
    } else {
        let last = digit_string(n % 10);
        let s = decimal_string(n / 10).concat(last.as_str());
        assert(s@ =~= decimal_digits(n as nat));
        s
    }
}

/// The request with id `request_id`, whose key is the id in decimal: a put
/// of the key under itself for a write, a get of the key otherwise.
pub fn request_for(request_id: usize, is_write: bool) -> (res: ClientMessage)
    ensures
        match res {
            ClientMessage::Append(id, cmd) => id == request_id && match cmd {
                KVCommand::Put(k, v) => is_write && k@ == decimal_digits(request_id as nat) && v@
                    == decimal_digits(request_id as nat),
                KVCommand::Get(k) => !is_write && k@ == decimal_digits(request_id as nat),
                KVCommand::Delete(_) => false,
            },
        },
{
    let key = decimal_string(request_id);
    let cmd = if is_write {
        KVCommand::Put(key.clone(), key)
    } else {
        KVCommand::Get(key)
    };
    ClientMessage::Append(request_id, cmd)
}

/// The run is over once the number of requests is fixed and that many have
/// been sent.
pub fn run_finished(final_request_count: Option<usize>, request_count: usize) -> (res: bool)
    ensures
        res == match final_request_count {
            Some(count) => request_count >= count,
            None => false,
        },
{
    match final_request_count {
        Some(count) => request_count >= count,
        None => false,
    }
}

/// What a client records of a message from its server: the command id and
/// commit path of an answer; nothing of a start signal.
pub fn response_record(msg: &ServerMessage) -> (res: Option<(CommandId, String)>)
    ensures
        match msg {
            ServerMessage::StartSignal(_) => res is None,
            ServerMessage::Write(id, path) => res matches Some((i, p)) && i == *id && p@ == path@,
            ServerMessage::Read(id, _, path) => res matches Some((i, p)) && i == *id && p@ == path@,
        },
{
    match msg {
        ServerMessage::StartSignal(_) => None,
        _ => Some((msg.command_id(), msg.commit_path())),
    }
}

/// The milliseconds from `now_ms` until `scheduled_start_ms`, negative when
/// the start has passed, or `None` where the difference lies beyond the
/// range of an `i64`.
pub fn delay_until(scheduled_start_ms: i64, now_ms: i64) -> (res: Option<i64>)
    requires
        now_ms >= 0,
    ensures
        res == if scheduled_start_ms >= i64::MIN + now_ms {
            Some((scheduled_start_ms - now_ms) as i64)
        } else {
            None::<i64>
        },
{
    if scheduled_start_ms >= i64::MIN + now_ms {
        Some(scheduled_start_ms - now_ms)
    } else {
        None
    }
}

/// The milliseconds from the wall clock's reading until the start that the
/// server scheduled. `None` where the clock cannot be read, or the delay
/// lies beyond the range of an `i64`.
pub fn milliseconds_until_sync(scheduled_start_utc_ms: i64) -> (res: Option<i64>)
    ensures
        res matches Some(d) ==> d <= scheduled_start_utc_ms,
{
    match now_millis() {
        Some(now) => delay_until(scheduled_start_utc_ms, now),
        None => None,
    }
}

/// How long to sleep before the start: the delay when it is positive;
/// no sleep when the start has passed.
pub fn sync_sleep_millis(milliseconds_until_sync: i64) -> (res: Option<u64>)
    ensures
        milliseconds_until_sync > 0 ==> res == Some(milliseconds_until_sync as u64),
        milliseconds_until_sync <= 0 ==> res is None,
{
    if milliseconds_until_sync > 0 {
        Some(milliseconds_until_sync as u64)
    } else {
        None
    }
}

/// The mean latency of the answers received, or zero when there is none.
pub fn average_latency(latency_sum: u128, response_count: usize) -> (res: u128)
    ensures
        response_count > 0 ==> res == latency_sum / (response_count as u128),
        response_count == 0 ==> res == 0,
{
    if response_count > 0 {
        latency_sum / (response_count as u128)
    } else {
        0
    }
}

} // verus!
