use crate::timed::{timeline_wf, Timed, TimedStream};
use vstd::prelude::*;

verus! {

/// The pause before the message with index `i`: 100 ms before an even index, 300 ms before
/// an odd one.
pub open spec fn message_gap(i: int) -> int {
    if i % 2 == 0 {
        100
    } else {
        300
    }
}

/// The instant at which the message with index `i` is sent, counting from the producer's
/// start: the sum of the pauses before it and before every earlier message.
pub open spec fn message_instant(i: int) -> int
    decreases i,
{
    if i <= 0 {
        message_gap(0)
    } else {
        message_instant(i - 1) + message_gap(i)
    }
}

proof fn lemma_message_instant_bound(i: int)
    requires
        i >= 0,
    ensures
        100 <= message_instant(i) <= 300 * (i + 1),
    decreases i,
{
    if i > 0 {
        lemma_message_instant_bound(i - 1);
    }
}

/// The timeline of a producer that sends the messages `0..n` (each value is the message's
/// index), pausing before each as `message_gap` says, while its receiver lives until
/// `receiver_until`. A send at or after that instant fails, and the producer stops there; the
/// stream ends when the producer stops.
pub fn message_timeline(n: usize, receiver_until: u64) -> (r: TimedStream<usize>)
    requires
        300 * (n + 1) <= u64::MAX,
    ensures
        r.wf(),
        r.items@.len() <= n,
        forall|j: int|
            0 <= j < r.items@.len() ==> #[trigger] r.items@[j] == (Timed { at: message_instant(j) as u64, value: j as usize }),
        forall|j: int| 0 <= j < r.items@.len() ==> message_instant(j) < receiver_until,
        r.items@.len() < n ==> message_instant(r.items@.len() as int) >= receiver_until && r.end
            == message_instant(r.items@.len() as int),
        r.items@.len() == n && n > 0 ==> r.end == message_instant(n - 1),
        n == 0 ==> r.end == 0,
{
    let mut items: Vec<Timed<usize>> = Vec::new();
    let mut at: u64 = 0;
    let mut i: usize = 0;
    while i < n
        invariant
            i <= n,
            300 * (n + 1) <= u64::MAX,
            items@.len() == i,
            i == 0 ==> at == 0,
            i > 0 ==> at == message_instant(i - 1),
            forall|j: int|
                0 <= j < i ==> #[trigger] items@[j] == (Timed { at: message_instant(j) as u64, value: j as usize }),
            forall|j: int| 0 <= j < i ==> message_instant(j) < receiver_until,
            timeline_wf(items@, at),
        decreases n - i,
    {
        proof {
            lemma_message_instant_bound(i as int);
            assert(300 * (i + 1) <= 300 * (n + 1)) by (nonlinear_arith)
                requires i <= n;
        }
        let gap: u64 = if i % 2 == 0 {
            100
        } else {
            300
        };
        at = at + gap;
        assert(at == message_instant(i as int));
        if at >= receiver_until {
            return TimedStream { items, end: at };
        }
        items.push(Timed { at, value: i });
        i = i + 1;
    }
    TimedStream { items, end: at }
}

/// The timeline of a producer that counts from 1, sending count `k` at instant `k` (one
/// millisecond apart, from its start), while its receiver lives until `receiver_until`. The
/// first send at or after that instant fails and the producer stops there, which ends the
/// stream.
pub fn interval_timeline(receiver_until: u32) -> (r: TimedStream<u32>)
    ensures
        r.wf(),
        receiver_until >= 1 ==> r.items@.len() == receiver_until - 1,
        receiver_until == 0 ==> r.items@.len() == 0,
        forall|j: int|
            0 <= j < r.items@.len() ==> #[trigger] r.items@[j] == (Timed { at: (j + 1) as u64, value: (j + 1) as u32 }),
        r.end == if receiver_until >= 1 { receiver_until as u64 } else { 1 },
{
    let mut items: Vec<Timed<u32>> = Vec::new();
    let mut count: u32 = 0;
    loop
        invariant
            count < receiver_until || (count == 0 && receiver_until == 0),
            items@.len() == count,
            forall|j: int|
                0 <= j < count ==> #[trigger] items@[j] == (Timed { at: (j + 1) as u64, value: (j + 1) as u32 }),
        decreases receiver_until - count,
    {
        count = count + 1;
        if count >= receiver_until {
            let r = TimedStream { items, end: count as u64 };
            assert(timeline_wf(r.items@, r.end));
            return r;
        }
        items.push(Timed { at: count as u64, value: count });
    }
}

} // verus!
