//! Caps on the rate of transfers over any number of connections.

use vstd::arithmetic::div_mod::lemma_fundamental_div_mod;
use vstd::prelude::*;
use vstd::set_lib::lemma_len_subset;

verus! {

/// Bytes in a kilobyte.
pub const KILOBYTE: u64 = 1024;

/// Nanoseconds in a second.
pub const SECOND: u128 = 1_000_000_000;

/// A cap on how many bytes are transferred per second. Every transfer takes up
/// the time that it is worth under the cap, one after the other; a connection
/// pauses until the time of its transfer is over. Time in which nothing was
/// transferred is not made up for later.
#[derive(Debug)]
pub struct RateLimit {
    /// 0 if there is no cap.
    bytes_per_second: u64,
    /// When the time that is taken up is over, in nanoseconds.
    paid_until: u128,
}

/// The content of a [`RateLimit`].
pub struct Account {
    /// Bytes per second; 0 if there is no cap.
    pub cap: int,
    pub paid_until: int,
}

impl View for RateLimit {
    type V = Account;

    closed spec fn view(&self) -> Account {
        Account { cap: self.bytes_per_second as int, paid_until: self.paid_until as int }
    }
}

/// The least number of times that `cap` has to be taken to reach `amount`.
pub open spec fn ceiling(amount: int, cap: int) -> int {
    amount / cap + if amount % cap == 0 {
        0int
    } else {
        1int
    }
}

pub open spec fn later(a: int, b: int) -> int {
    if a >= b {
        a
    } else {
        b
    }
}

impl Account {
    /// The time that a transfer is worth, in whole nanoseconds.
    pub open spec fn worth(self, bytes: int) -> int {
        ceiling(bytes * SECOND, self.cap)
    }

    /// The account after a transfer that ended at `now`, and how long to pause
    /// before the next one on the same connection. Clocks end at `u128::MAX`.
    pub open spec fn transfer(self, bytes: int, now: int) -> (Account, int) {
        if self.cap == 0 {
            (self, 0)
        } else {
            let until = later(self.paid_until, now) + self.worth(bytes);
            let paid_until = if until <= u128::MAX {
                until
            } else {
                u128::MAX as int
            };
            (Account { paid_until, ..self }, paid_until - now)
        }
    }
}

impl RateLimit {
    /// A cap in kilobytes per second; 0 means that there is none.
    pub fn from_kilobytes(n: u64) -> (r: RateLimit)
        ensures
            r@.paid_until == 0,
            r@.cap == if n * KILOBYTE <= u64::MAX {
                n * KILOBYTE
            } else {
                u64::MAX as int
            },
    {
        let bytes_per_second: u64 = if n > u64::MAX / KILOBYTE {
            u64::MAX
        } else {
            n * KILOBYTE
        };
        RateLimit { bytes_per_second, paid_until: 0 }
    }

    /// Take in a transfer that ended at `now`, in nanoseconds of a clock. Returns
    /// how many nanoseconds its connection has to pause.
    pub fn on_transfer(&mut self, bytes: u64, now: u128) -> (d: u128)
        ensures
            (final(self)@, d as int) == old(self)@.transfer(bytes as int, now as int),
    {
        if self.bytes_per_second == 0 {
            return 0;
        }
        let cap: u128 = self.bytes_per_second as u128;
        let amount: u128 = bytes as u128 * SECOND;
        let whole: u128 = amount / cap;
        assert(whole <= amount) by (nonlinear_arith)
            requires
                whole == amount / cap,
                cap >= 1,
        ;
        let worth: u128 = if amount % cap == 0 {
            whole
        } else {
            whole + 1
        };
        let from: u128 = if self.paid_until >= now {
            self.paid_until
        } else {
            now
        };
        self.paid_until = if worth <= u128::MAX - from {
            from + worth
        } else {
            u128::MAX
        };
        self.paid_until - now
    }
}

// Laws

proof fn lemma_ceiling(amount: int, cap: int)
    requires
        0 <= amount,
        0 < cap,
    ensures
        amount <= cap * ceiling(amount, cap),
        0 <= ceiling(amount, cap),
{
    lemma_fundamental_div_mod(amount, cap);
    let w = amount / cap;
    let m = amount % cap;
    assert(0 <= w) by (nonlinear_arith)
        requires
            w == amount / cap,
            0 <= amount,
            0 < cap,
    ;
    assert(amount <= cap * w && m == 0 || amount <= cap * (w + 1)) by (nonlinear_arith)
        requires
            amount == cap * w + m,
            0 <= m < cap,
    ;
}

/// A transfer on one of several connections.
pub struct Transfer {
    pub connection: int,
    pub bytes: int,
    /// When it ended, in nanoseconds.
    pub at: int,
}

/// The account after the first `n` transfers.
pub open spec fn after(start: Account, transfers: Seq<Transfer>, n: int) -> Account
    decreases n,
{
    if n <= 0 {
        start
    } else {
        let t = transfers[n - 1];
        after(start, transfers, n - 1).transfer(t.bytes, t.at).0
    }
}

/// Whether every connection pauses after each of its transfers for as long as
/// it was told to.
pub open spec fn pauses_kept(start: Account, transfers: Seq<Transfer>) -> bool {
    forall|i: int, j: int|
        0 <= i < j < transfers.len() && transfers[i].connection == transfers[j].connection
            ==> #[trigger] transfers[j].at >= (#[trigger] transfers[i]).at + after(
            start,
            transfers,
            i,
        ).transfer(transfers[i].bytes, transfers[i].at).1
}

/// Whether a transfer ended in the span from `a` to `b`.
pub open spec fn in_span(t: Transfer, a: int, b: int) -> bool {
    a <= t.at <= b
}

/// Whether a transfer is the last one of its connection in a span.
pub open spec fn is_last_in(transfers: Seq<Transfer>, i: int, a: int, b: int) -> bool {
    &&& in_span(transfers[i], a, b)
    &&& forall|j: int|
        i < j < transfers.len() && (#[trigger] transfers[j]).connection == transfers[i].connection
            ==> !in_span(transfers[j], a, b)
}

/// How much passes in a span, of the first `n` transfers.
pub open spec fn passed(transfers: Seq<Transfer>, a: int, b: int, n: int) -> int
    decreases n,
{
    if n <= 0 {
        0
    } else {
        passed(transfers, a, b, n - 1) + if in_span(transfers[n - 1], a, b) {
            transfers[n - 1].bytes
        } else {
            0
        }
    }
}

/// How much passes in a span with the last transfer of each connection in it,
/// of the first `n` transfers.
pub open spec fn passed_last(transfers: Seq<Transfer>, a: int, b: int, n: int) -> int
    decreases n,
{
    if n <= 0 {
        0
    } else {
        passed_last(transfers, a, b, n - 1) + if is_last_in(transfers, n - 1, a, b) {
            transfers[n - 1].bytes
        } else {
            0
        }
    }
}

/// The connections of the last transfers in a span, of the first `n` transfers.
spec fn last_connections(transfers: Seq<Transfer>, a: int, b: int, n: int) -> Set<int>
    decreases n,
{
    if n <= 0 {
        Set::empty()
    } else if is_last_in(transfers, n - 1, a, b) {
        last_connections(transfers, a, b, n - 1).insert(transfers[n - 1].connection)
    } else {
        last_connections(transfers, a, b, n - 1)
    }
}

/// Transfers take up time one after the other: at least what they are worth
/// from the start of a span on.
proof fn lemma_time_taken(start: Account, transfers: Seq<Transfer>, a: int, b: int, n: int)
    requires
        start.cap > 0,
        0 <= n <= transfers.len(),
        forall|i: int| 0 <= i < transfers.len() ==> (#[trigger] transfers[i]).bytes >= 0,
        after(start, transfers, n).paid_until < u128::MAX,
    ensures
        after(start, transfers, n).cap == start.cap,
        passed(transfers, a, b, n) >= 0,
        passed(transfers, a, b, n) == 0 || passed(transfers, a, b, n) * SECOND <= start.cap * (
        after(start, transfers, n).paid_until - a),
    decreases n,
{
    if n > 0 {
        let before = after(start, transfers, n - 1);
        let now = after(start, transfers, n);
        let t = transfers[n - 1];
        assert(t.bytes >= 0);
        lemma_cap_kept(start, transfers, n - 1);
        let cap = start.cap;
        let worth = before.worth(t.bytes);
        assert(t.bytes * SECOND >= 0) by (nonlinear_arith)
            requires
                t.bytes >= 0,
        ;
        lemma_ceiling(t.bytes * SECOND, cap);
        assert(now.paid_until == later(before.paid_until, t.at) + worth);
        lemma_time_taken(start, transfers, a, b, n - 1);
        let old_sum = passed(transfers, a, b, n - 1);
        let sum = passed(transfers, a, b, n);
        if in_span(t, a, b) {
            let from = later(before.paid_until, t.at);
            assert(old_sum * SECOND <= cap * (from - a)) by (nonlinear_arith)
                requires
                    cap > 0,
                    from >= a,
                    from >= before.paid_until,
                    old_sum == 0 || old_sum * SECOND <= cap * (before.paid_until - a),
            ;
            assert(sum * SECOND <= cap * (from + worth - a)) by (nonlinear_arith)
                requires
                    sum == old_sum + t.bytes,
                    old_sum * SECOND <= cap * (from - a),
                    t.bytes * SECOND <= cap * worth,
            ;
        } else {
            assert(cap * (before.paid_until - a) <= cap * (now.paid_until - a)) by (nonlinear_arith)
                requires
                    cap > 0,
                    before.paid_until <= now.paid_until,
            ;
        }
    }
}

proof fn lemma_cap_kept(start: Account, transfers: Seq<Transfer>, n: int)
    ensures
        after(start, transfers, n).cap == start.cap,
    decreases n,
{
    if n > 0 {
        lemma_cap_kept(start, transfers, n - 1);
    }
}

/// How many of the first `n` transfers to look at so that all later ones in the
/// span are the last of their connection.
spec fn settled(transfers: Seq<Transfer>, a: int, b: int, n: int) -> int
    decreases n,
{
    if n <= 0 {
        0
    } else if in_span(transfers[n - 1], a, b) && !is_last_in(transfers, n - 1, a, b) {
        n
    } else {
        settled(transfers, a, b, n - 1)
    }
}

/// After the settled transfers nothing passes but the last ones.
proof fn lemma_settled(transfers: Seq<Transfer>, a: int, b: int, n: int)
    requires
        0 <= n <= transfers.len(),
        forall|i: int| 0 <= i < transfers.len() ==> (#[trigger] transfers[i]).bytes >= 0,
    ensures
        ({
            let m = settled(transfers, a, b, n);
            &&& 0 <= m <= n
            &&& m > 0 ==> in_span(transfers[m - 1], a, b) && !is_last_in(transfers, m - 1, a, b)
            &&& passed(transfers, a, b, n) - passed_last(transfers, a, b, n) <= passed(
                transfers,
                a,
                b,
                m,
            )
            &&& passed_last(transfers, a, b, n) >= 0
        }),
    decreases n,
{
    if n > 0 {
        assert(transfers[n - 1].bytes >= 0);
        lemma_settled(transfers, a, b, n - 1);
    }
}

proof fn lemma_last_bytes(
    transfers: Seq<Transfer>,
    a: int,
    b: int,
    n: int,
    connections: int,
    most: int,
)
    requires
        0 <= n <= transfers.len(),
        0 <= most,
        forall|i: int|
            0 <= i < transfers.len() ==> 0 <= (#[trigger] transfers[i]).bytes <= most && 0
                <= transfers[i].connection < connections,
    ensures
        last_connections(transfers, a, b, n).finite(),
        last_connections(transfers, a, b, n).subset_of(
            vstd::set_lib::set_int_range(0, connections),
        ),
        forall|c: int|
            #![trigger last_connections(transfers, a, b, n).contains(c)]
            last_connections(transfers, a, b, n).contains(c) ==> exists|i: int|
                0 <= i < n && is_last_in(transfers, i, a, b) && (#[trigger] transfers[i]).connection
                    == c,
        passed_last(transfers, a, b, n) <= last_connections(transfers, a, b, n).len() * most,
    decreases n,
{
    if n > 0 {
        lemma_last_bytes(transfers, a, b, n - 1, connections, most);
        let before = last_connections(transfers, a, b, n - 1);
        let t = transfers[n - 1];
        assert(0 <= t.bytes <= most && 0 <= t.connection < connections);
        if is_last_in(transfers, n - 1, a, b) {
            if before.contains(t.connection) {
                let i = choose|i: int|
                    0 <= i < n - 1 && is_last_in(transfers, i, a, b) && (
                    #[trigger] transfers[i]).connection == t.connection;
                assert(!in_span(transfers[n - 1], a, b));
            }
            let count = before.len();
            assert((count + 1) * most == count * most + most) by (nonlinear_arith);
        }
        assert forall|c: int|
            #![trigger last_connections(transfers, a, b, n).contains(c)]
            last_connections(transfers, a, b, n).contains(c) implies exists|i: int|
            0 <= i < n && is_last_in(transfers, i, a, b) && (#[trigger] transfers[i]).connection
                == c by {
            if before.contains(c) {
                let i = choose|i: int|
                    0 <= i < n - 1 && is_last_in(transfers, i, a, b) && (
                    #[trigger] transfers[i]).connection == c;
                assert(transfers[i].connection == c);
            } else {
                assert(transfers[n - 1].connection == c);
            }
        }
    }
}

/// If pauses are kept, what passes in any span of time, on all connections
/// together, is at most what the cap allows for that time, and the last
/// transfer of each connection in the span.
pub proof fn lemma_any_span(start: Account, transfers: Seq<Transfer>, a: int, b: int)
    requires
        start.cap > 0,
        forall|i: int| 0 <= i < transfers.len() ==> (#[trigger] transfers[i]).bytes >= 0,
        pauses_kept(start, transfers),
        a <= b < u128::MAX,
    ensures
        ({
            let n = transfers.len() as int;
            (passed(transfers, a, b, n) - passed_last(transfers, a, b, n)) * SECOND <= start.cap * (b
                - a)
        }),
{
    let n = transfers.len() as int;
    let cap = start.cap;
    let m = settled(transfers, a, b, n);
    let rest = passed(transfers, a, b, n) - passed_last(transfers, a, b, n);
    lemma_settled(transfers, a, b, n);
    if m > 0 {
        let j = choose|j: int|
            m - 1 < j < transfers.len() && (#[trigger] transfers[j]).connection == transfers[m
                - 1].connection && in_span(transfers[j], a, b);
        lemma_cap_kept(start, transfers, m - 1);
        let t = transfers[m - 1];
        let until = after(start, transfers, m).paid_until;
        assert(after(start, transfers, m - 1).transfer(t.bytes, t.at).1 == until - t.at);
        assert(transfers[j].at >= until);
        lemma_time_taken(start, transfers, a, b, m);
        let sum = passed(transfers, a, b, m);
        assert(rest * SECOND <= cap * (b - a)) by (nonlinear_arith)
            requires
                rest <= sum,
                sum == 0 || sum * SECOND <= cap * (until - a),
                until <= b,
                a <= b,
                cap > 0,
        ;
    } else {
        assert(rest * SECOND <= cap * (b - a)) by (nonlinear_arith)
            requires
                rest <= 0,
                a <= b,
                cap > 0,
        ;
    }
}

/// If pauses are kept on so many connections, and no transfer is larger than
/// `most`, what passes in any span of time is at most what the cap allows for
/// that time and one transfer on each connection.
pub proof fn lemma_cap_holds(
    start: Account,
    transfers: Seq<Transfer>,
    connections: int,
    most: int,
    a: int,
    b: int,
)
    requires
        start.cap > 0,
        0 <= connections,
        0 <= most,
        forall|i: int|
            0 <= i < transfers.len() ==> 0 <= (#[trigger] transfers[i]).bytes <= most && 0
                <= transfers[i].connection < connections,
        pauses_kept(start, transfers),
        a <= b < u128::MAX,
    ensures
        (passed(transfers, a, b, transfers.len() as int) - connections * most) * SECOND
            <= start.cap * (b - a),
{
    let n = transfers.len() as int;
    lemma_any_span(start, transfers, a, b);
    lemma_last_bytes(transfers, a, b, n, connections, most);
    let last = last_connections(transfers, a, b, n);
    let all = vstd::set_lib::set_int_range(0, connections);
    vstd::set_lib::lemma_int_range(0, connections);
    lemma_len_subset(last, all);
    let count = last.len() as int;
    let sum = passed(transfers, a, b, n);
    let late = passed_last(transfers, a, b, n);
    assert((sum - connections * most) * SECOND <= (sum - late) * SECOND) by (nonlinear_arith)
        requires
            late <= count * most,
            count <= connections,
            0 <= most,
            0 < SECOND,
    ;
}

/// A pause is as long as it must be and no longer: a transfer takes up the
/// least time under the cap, from when the time of the transfers before it is
/// over, or from now on if it is. Without a cap nobody pauses.
pub proof fn lemma_pause_is_least(a: Account, bytes: int, now: int)
    requires
        0 <= bytes,
        0 <= a.cap,
        0 <= a.paid_until,
        0 <= now,
        a.transfer(bytes, now).0.paid_until < u128::MAX,
    ensures
        a.transfer(bytes, now).0.cap == a.cap,
        a.cap == 0 ==> a.transfer(bytes, now) == (a, 0int),
        a.cap > 0 ==> {
            let (next, pause) = a.transfer(bytes, now);
            let from = if a.paid_until >= now {
                a.paid_until
            } else {
                now
            };
            let taken = next.paid_until - from;
            &&& now + pause == next.paid_until
            &&& 0 <= taken
            &&& bytes * 1_000_000_000 <= a.cap * taken
            &&& bytes > 0 ==> a.cap * (taken - 1) < bytes * 1_000_000_000
            &&& bytes == 0 ==> taken == 0
        },
{
    if a.cap > 0 {
        let amount = bytes * SECOND;
        let cap = a.cap;
        assert(0 <= amount) by (nonlinear_arith)
            requires
                amount == bytes * 1_000_000_000,
                0 <= bytes,
        ;
        lemma_ceiling(amount, cap);
        lemma_fundamental_div_mod(amount, cap);
        let w = amount / cap;
        let m = amount % cap;
        let taken = ceiling(amount, cap);
        if bytes > 0 {
            assert(cap * (taken - 1) < amount) by (nonlinear_arith)
                requires
                    amount == cap * w + m,
                    0 <= m < cap,
                    taken == w && m == 0 || taken == w + 1 && m > 0,
                    amount > 0,
            ;
        } else {
            assert(w == 0 && m == 0) by (nonlinear_arith)
                requires
                    0 == cap * w + m,
                    0 <= m < cap,
            ;
        }
    }
}

} // verus!
