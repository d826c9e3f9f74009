//! Deadlines: the late and release rules, and the early buffer that holds
//! commands until their deadline has safely passed.
use vstd::prelude::*;

use crate::common::kv::Command;
use crate::common::utils::Timestamp;

verus! {

/// The time, past the clock's reading and its uncertainty, that a server
/// allows a new request to reach every replica.
pub const LATENCY_BOUND_US: i64 = 200;

/// A request is late when the clock, lowered by its uncertainty, may already
/// have reached the request's deadline.
pub fn is_late(current_time: i64, deadline_us: i64, uncertainty: i64) -> (res: bool)
    ensures
        res == (current_time >= deadline_us - uncertainty),
{
    (current_time as i128) >= (deadline_us as i128) - (uncertainty as i128)
}

/// A command may leave the early buffer once the clock, lowered by its
/// uncertainty, has passed the command's deadline.
pub fn should_release(current_time: i64, deadline_us: i64, uncertainty: i64) -> (res: bool)
    ensures
        res == (current_time >= deadline_us + uncertainty),
{
    (current_time as i128) >= (deadline_us as i128) + (uncertainty as i128)
}

/// The deadline of a request that arrives when the clock reads
/// `current_time` with the given uncertainty.
pub fn deadline_for(current_time: Timestamp, uncertainty: i64) -> (res: Timestamp)
    requires
        i64::MIN <= current_time + uncertainty + LATENCY_BOUND_US <= i64::MAX,
    ensures
        res == current_time + uncertainty + LATENCY_BOUND_US,
{
    (current_time as i128 + uncertainty as i128 + LATENCY_BOUND_US as i128) as i64
}

/// `a` is released no later than `b`: by deadline, and on equal deadlines by
/// command id.
pub open spec fn released_before(a: Command, b: Command) -> bool {
    a.deadline < b.deadline || (a.deadline == b.deadline && a.id <= b.id)
}

/// Whether command `a` is released no later than `b`: by deadline, and on
/// equal deadlines by command id.
pub fn released_no_later(a: &Command, b: &Command) -> (res: bool)
    ensures
        res == released_before(*a, *b),
{
    a.deadline < b.deadline || (a.deadline == b.deadline && a.id <= b.id)
}

/// The release order is a total preorder that orders by deadline first, and
/// on equal deadlines by command id; two commands tie only when they share
/// both.
pub proof fn lemma_release_order_total(a: Command, b: Command, c: Command)
    ensures
        released_before(a, a),
        released_before(a, b) || released_before(b, a),
        released_before(a, b) && released_before(b, c) ==> released_before(a, c),
        released_before(a, b) && released_before(b, a) <==> a.deadline == b.deadline && a.id == b.id,
        a.deadline != b.deadline ==> (released_before(a, b) <==> a.deadline < b.deadline),
{
}

/// The commands of `s` stand in release order.
pub open spec fn in_release_order(s: Seq<Command>) -> bool {
    forall|i: int, j: int| 0 <= i < j < s.len() ==> released_before(#[trigger] s[i], #[trigger] s[j])
}

/// The command may be released at `now`.
pub open spec fn ready(c: Command, now: int, uncertainty: int) -> bool {
    now >= c.deadline + uncertainty
}

/// `s` with `c` placed before the first command that is not released before
/// it.
pub open spec fn buffer_insert(s: Seq<Command>, c: Command) -> Seq<Command>
    decreases s.len(),
{
    if s.len() == 0 {
        seq![c]
    } else if released_before(s[0], c) {
        seq![s[0]] + buffer_insert(s.drop_first(), c)
    } else {
        seq![c] + s
    }
}

/// The number of commands at the front of `s` that may be released at `now`.
pub open spec fn ready_count(s: Seq<Command>, now: int, uncertainty: int) -> nat
    decreases s.len(),
{
    if s.len() == 0 || !ready(s[0], now, uncertainty) {
        0
    } else {
        1 + ready_count(s.drop_first(), now, uncertainty)
    }
}

proof fn lemma_buffer_insert_at(s: Seq<Command>, c: Command, p: int)
    requires
        0 <= p <= s.len(),
        forall|i: int| 0 <= i < p ==> released_before(#[trigger] s[i], c),
        p < s.len() ==> !released_before(s[p], c),
    ensures
        buffer_insert(s, c) == s.insert(p, c),
    decreases s.len(),
{
    if s.len() == 0 {
        assert(s.insert(p, c) =~= seq![c]);
    } else if p == 0 {
        assert(s.insert(p, c) =~= seq![c] + s);
    } else {
        let t = s.drop_first();
        assert forall|i: int| 0 <= i < p - 1 implies released_before(#[trigger] t[i], c) by {
            assert(t[i] == s[i + 1]);
        }
        if p - 1 < t.len() {
            assert(t[p - 1] == s[p]);
        }
        assert(released_before(s[0], c));
        lemma_buffer_insert_at(t, c, p - 1);
        assert(s.insert(p, c) =~= seq![s[0]] + t.insert(p - 1, c));
    }
}

proof fn lemma_ready_count_at(s: Seq<Command>, now: int, uncertainty: int, k: int)
    requires
        0 <= k <= s.len(),
        forall|i: int| 0 <= i < k ==> ready(#[trigger] s[i], now, uncertainty),
        k < s.len() ==> !ready(s[k], now, uncertainty),
    ensures
        ready_count(s, now, uncertainty) == k,
    decreases s.len(),
{
    if s.len() != 0 && k > 0 {
        let t = s.drop_first();
        assert forall|i: int| 0 <= i < k - 1 implies ready(#[trigger] t[i], now, uncertainty) by {
            assert(t[i] == s[i + 1]);
        }
        if k - 1 < t.len() {
            assert(t[k - 1] == s[k]);
        }
        assert(ready(s[0], now, uncertainty));
        lemma_ready_count_at(t, now, uncertainty, k - 1);
    }
}

/// Inserting into a buffer in release order keeps it in release order.
pub proof fn lemma_buffer_insert_in_order(s: Seq<Command>, c: Command)
    requires
        in_release_order(s),
    ensures
        in_release_order(buffer_insert(s, c)),
        buffer_insert(s, c).len() == s.len() + 1,
    decreases s.len(),
{
    if s.len() == 0 {
    } else if released_before(s[0], c) {
        let t = s.drop_first();
        assert(in_release_order(t)) by {
            assert forall|i: int, j: int| 0 <= i < j < t.len() implies released_before(
                #[trigger] t[i],
                #[trigger] t[j],
            ) by {
                assert(t[i] == s[i + 1] && t[j] == s[j + 1]);
            }
        }
        lemma_buffer_insert_in_order(t, c);
        let u = buffer_insert(t, c);
        let r = buffer_insert(s, c);
        assert(r == seq![s[0]] + u);
        assert forall|j: int| 0 <= j < u.len() implies released_before(s[0], #[trigger] u[j]) by {
            lemma_buffer_insert_member(t, c, j);
            if u[j] != c {
                let m = choose|m: int| 0 <= m < t.len() && t[m] == u[j];
                assert(t[m] == s[m + 1]);
            }
        }
        assert forall|i: int, j: int| 0 <= i < j < r.len() implies released_before(
            #[trigger] r[i],
            #[trigger] r[j],
        ) by {
            if i == 0 {
                assert(r[j] == u[j - 1]);
            } else {
                assert(r[i] == u[i - 1] && r[j] == u[j - 1]);
            }
        }
    } else {
        let r = buffer_insert(s, c);
        assert(r == seq![c] + s);
        assert forall|i: int, j: int| 0 <= i < j < r.len() implies released_before(
            #[trigger] r[i],
            #[trigger] r[j],
        ) by {
            if i == 0 {
                assert(r[j] == s[j - 1]);
                assert(released_before(s[0], s[j - 1]) || j == 1);
            } else {
                assert(r[i] == s[i - 1] && r[j] == s[j - 1]);
            }
        }
    }
}

proof fn lemma_buffer_insert_len(s: Seq<Command>, c: Command)
    ensures
        buffer_insert(s, c).len() == s.len() + 1,
    decreases s.len(),
{
    if s.len() > 0 && released_before(s[0], c) {
        lemma_buffer_insert_len(s.drop_first(), c);
    }
}

/// Placing `c` in the buffer `s` puts it at one position and leaves every
/// other command where it stood relative to the rest.
pub proof fn lemma_buffer_insert_is_insert(s: Seq<Command>, c: Command) -> (p: int)
    ensures
        0 <= p <= s.len(),
        buffer_insert(s, c) == s.insert(p, c),
    decreases s.len(),
{
    if s.len() == 0 {
        assert(s.insert(0, c) =~= seq![c]);
        0
    } else if released_before(s[0], c) {
        let t = s.drop_first();
        let q = lemma_buffer_insert_is_insert(t, c);
        assert(s.insert(q + 1, c) =~= seq![s[0]] + t.insert(q, c));
        q + 1
    } else {
        assert(s.insert(0, c) =~= seq![c] + s);
        0
    }
}

proof fn lemma_buffer_insert_member(s: Seq<Command>, c: Command, j: int)
    requires
        0 <= j < buffer_insert(s, c).len(),
    ensures
        buffer_insert(s, c).len() == s.len() + 1,
        buffer_insert(s, c)[j] == c || exists|m: int| 0 <= m < s.len() && s[m] == buffer_insert(s, c)[j],
    decreases s.len(),
{
    if s.len() == 0 {
    } else if released_before(s[0], c) {
        let t = s.drop_first();
        let r = buffer_insert(s, c);
        lemma_buffer_insert_len(t, c);
        assert(r == seq![s[0]] + buffer_insert(t, c));
        if j == 0 {
            assert(s[0] == r[0]);
        } else {
            lemma_buffer_insert_member(t, c, j - 1);
            if buffer_insert(t, c)[j - 1] != c {
                let m = choose|m: int| 0 <= m < t.len() && t[m] == buffer_insert(t, c)[j - 1];
                assert(s[m + 1] == r[j]);
            }
        }
    } else {
        let r = buffer_insert(s, c);
        assert(r == seq![c] + s);
        if j > 0 {
            assert(s[j - 1] == r[j]);
        }
    }
}

/// The front that `ready_count` measures may be released; the command after
/// it, and in a buffer in release order every later one, may not.
pub proof fn lemma_ready_count(s: Seq<Command>, now: int, uncertainty: int)
    ensures
        ready_count(s, now, uncertainty) <= s.len(),
        forall|i: int|
            0 <= i < ready_count(s, now, uncertainty) ==> ready(#[trigger] s[i], now, uncertainty),
        ready_count(s, now, uncertainty) < s.len() ==> !ready(
            s[ready_count(s, now, uncertainty) as int],
            now,
            uncertainty,
        ),
        in_release_order(s) ==> forall|i: int|
            ready_count(s, now, uncertainty) <= i < s.len() ==> !ready(#[trigger] s[i], now, uncertainty),
    decreases s.len(),
{
    if s.len() != 0 && ready(s[0], now, uncertainty) {
        let t = s.drop_first();
        lemma_ready_count(t, now, uncertainty);
        let k = ready_count(s, now, uncertainty) as int;
        assert forall|i: int| 0 <= i < k implies ready(#[trigger] s[i], now, uncertainty) by {
            if i > 0 {
                assert(s[i] == t[i - 1]);
            }
        }
        if k < s.len() {
            assert(s[k] == t[k - 1]);
        }
        if in_release_order(s) {
            assert(in_release_order(t)) by {
                assert forall|i: int, j: int| 0 <= i < j < t.len() implies released_before(
                    #[trigger] t[i],
                    #[trigger] t[j],
                ) by {
                    assert(t[i] == s[i + 1] && t[j] == s[j + 1]);
                }
            }
            assert forall|i: int| k <= i < s.len() implies !ready(#[trigger] s[i], now, uncertainty) by {
                assert(s[i] == t[i - 1]);
            }
        }
    } else if in_release_order(s) && s.len() != 0 {
        assert forall|i: int| 0 <= i < s.len() implies !ready(#[trigger] s[i], now, uncertainty) by {
            if i > 0 {
                assert(released_before(s[0], s[i]));
            }
        }
    }
}

/// The commands that wait for their deadline, held in release order.
pub struct EarlyBuffer {
    items: Vec<Command>,
}

impl View for EarlyBuffer {
    type V = Seq<Command>;

    closed spec fn view(&self) -> Seq<Command> {
        self.items@
    }
}

impl EarlyBuffer {
    #[verifier::type_invariant]
    spec fn inv(self) -> bool {
        in_release_order(self.items@)
    }

    /// An empty buffer.
    pub fn new() -> (res: Self)
        ensures
            res@ == Seq::<Command>::empty(),
    {
        EarlyBuffer { items: Vec::new() }
    }

    /// The number of commands held.
    pub fn len(&self) -> (res: usize)
        ensures
            res == self@.len(),
            in_release_order(self@),
    {
        proof {
            use_type_invariant(self);
        }
        self.items.len()
    }

    /// Whether no command is held.
    pub fn is_empty(&self) -> (res: bool)
        ensures
            res == (self@.len() == 0),
    {
        self.items.len() == 0
    }

    /// Adds a command after every held command that is released no later
    /// than it, and before the others.
    pub fn push(&mut self, cmd: Command)
        ensures
            final(self)@ == buffer_insert(old(self)@, cmd),
            in_release_order(final(self)@),
    {
        proof {
            use_type_invariant(&*self);
        }
        let n = self.items.len();
        let mut p: usize = 0;
        while p < n && released_no_later(&self.items[p], &cmd)
            invariant
                n == self.items@.len(),
                p <= n,
                in_release_order(self.items@),
                forall|i: int| 0 <= i < p ==> released_before(#[trigger] self.items@[i], cmd),
            decreases n - p,
        {
            p = p + 1;
        }
        let ghost s0 = self.items@;
        let ghost c = cmd;
        assert forall|i: int| p <= i < s0.len() implies !released_before(#[trigger] s0[i], c) by {
            assert(!released_before(s0[p as int], c));
            if i > p {
                assert(released_before(s0[p as int], s0[i]));
            }
        }
        let ghost s1 = s0.insert(p as int, c);
        assert(in_release_order(s1)) by {
            assert forall|i: int, j: int| 0 <= i < j < s1.len() implies released_before(
                #[trigger] s1[i],
                #[trigger] s1[j],
            ) by {
                if j < p {
                    assert(s1[i] == s0[i] && s1[j] == s0[j]);
                } else if j == p {
                    assert(s1[i] == s0[i]);
                } else if i == p {
                    assert(s1[j] == s0[j - 1]);
                } else if i < p {
                    assert(s1[i] == s0[i] && s1[j] == s0[j - 1]);
                    assert(released_before(s0[i], c));
                } else {
                    assert(s1[i] == s0[i - 1] && s1[j] == s0[j - 1]);
                }
            }
        }
        let mut items: Vec<Command> = Vec::new();
        std::mem::swap(&mut items, &mut self.items);
        items.insert(p, cmd);
        self.items = items;
        proof {
            lemma_buffer_insert_at(s0, c, p as int);
        }
    }

    /// The command that is released first, if any.
    pub fn peek(&self) -> (res: Option<&Command>)
        ensures
            match res {
                Some(c) => self@.len() > 0 && *c == self@[0],
                None => self@.len() == 0,
            },
    {
        if self.items.len() == 0 {
            None
        } else {
            Some(&self.items[0])
        }
    }

    /// Takes out the command that is released first, if any.
    pub fn pop(&mut self) -> (res: Option<Command>)
        ensures
            match res {
                Some(c) => old(self)@.len() > 0 && c == old(self)@[0] && final(self)@ == old(
                    self,
                )@.drop_first(),
                None => old(self)@.len() == 0 && final(self)@ == old(self)@,
            },
            in_release_order(old(self)@),
            in_release_order(final(self)@),
    {
        proof {
            use_type_invariant(&*self);
        }
        if self.items.len() == 0 {
            None
        } else {
            let ghost s0 = self.items@;
            assert(in_release_order(s0.drop_first())) by {
                assert forall|i: int, j: int|
                    0 <= i < j < s0.drop_first().len() implies released_before(
                    #[trigger] s0.drop_first()[i],
                    #[trigger] s0.drop_first()[j],
                ) by {
                    assert(s0.drop_first()[i] == s0[i + 1]);
                    assert(s0.drop_first()[j] == s0[j + 1]);
                }
            }
            let mut items: Vec<Command> = Vec::new();
            std::mem::swap(&mut items, &mut self.items);
            let c = items.remove(0);
            assert(items@ =~= s0.drop_first());
            self.items = items;
            Some(c)
        }
    }

    /// Takes out, in release order, every command that may be released at
    /// `current_time`. What stays behind may not be released yet.
    pub fn release_ready(&mut self, current_time: i64, uncertainty: i64) -> (released: Vec<
        Command,
    >)
        ensures
            released@ == old(self)@.take(ready_count(old(self)@, current_time as int, uncertainty as int) as int),
            final(self)@ == old(self)@.skip(ready_count(old(self)@, current_time as int, uncertainty as int) as int),
            released@ + final(self)@ == old(self)@,
            forall|i: int|
                0 <= i < released@.len() ==> ready(
                    #[trigger] released@[i],
                    current_time as int,
                    uncertainty as int,
                ),
            forall|i: int|
                0 <= i < final(self)@.len() ==> !ready(
                    #[trigger] final(self)@[i],
                    current_time as int,
                    uncertainty as int,
                ),
            in_release_order(released@),
            in_release_order(old(self)@),
            in_release_order(final(self)@),
    {
        proof {
            use_type_invariant(&*self);
        }
        let ghost s0 = self.items@;
        let n = self.items.len();
        let mut k: usize = 0;
        while k < n && should_release(current_time, self.items[k].deadline, uncertainty)
            invariant
                n == self.items@.len(),
                s0 == self.items@,
                k <= n,
                forall|i: int|
                    0 <= i < k ==> ready(
                        #[trigger] self.items@[i],
                        current_time as int,
                        uncertainty as int,
                    ),
            decreases n - k,
        {
            k = k + 1;
        }
        assert forall|i: int| k <= i < n implies !ready(
            #[trigger] s0[i],
            current_time as int,
            uncertainty as int,
        ) by {
            assert(!ready(s0[k as int], current_time as int, uncertainty as int));
            if i > k {
                assert(released_before(s0[k as int], s0[i]));
            }
        }
        proof {
            lemma_ready_count_at(s0, current_time as int, uncertainty as int, k as int);
        }
        let ghost front = s0.subrange(0, k as int);
        let ghost back = s0.subrange(k as int, n as int);
        assert(in_release_order(front)) by {
            assert forall|i: int, j: int| 0 <= i < j < front.len() implies released_before(
                #[trigger] front[i],
                #[trigger] front[j],
            ) by {
                assert(front[i] == s0[i] && front[j] == s0[j]);
            }
        }
        assert(in_release_order(back)) by {
            assert forall|i: int, j: int| 0 <= i < j < back.len() implies released_before(
                #[trigger] back[i],
                #[trigger] back[j],
            ) by {
                assert(back[i] == s0[i + k] && back[j] == s0[j + k]);
            }
        }
        let mut items: Vec<Command> = Vec::new();
        std::mem::swap(&mut items, &mut self.items);
        let mut rest = items.split_off(k);
        std::mem::swap(&mut items, &mut rest);
        self.items = items;
        assert(rest@ + self.items@ =~= s0);
        assert(rest@ =~= s0.take(k as int));
        assert(self.items@ =~= s0.skip(k as int));
        assert forall|i: int| 0 <= i < self.items@.len() implies !ready(
            #[trigger] self.items@[i],
            current_time as int,
            uncertainty as int,
        ) by {
            assert(self.items@[i] == s0[i + k]);
        }
        rest
    }
}

} // verus!
