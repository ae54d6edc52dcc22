use coop_async::channel::{Channel, Poll, SendError};
use coop_async::combine::{drive_join, drive_race, join, join_all, race, Either, Join, Race};
use coop_async::executor::{check_programs, run, Cancelled, Event, Executor, Output, Step, Tick};
use coop_async::timed::{merge, take, throttle, timeout, Elapsed, Timed, TimedStream};
use coop_async::timer::TimerQueue;

fn timed<T>(at: u64, value: T) -> Timed<T> {
    Timed { at, value }
}

fn stream<T>(items: Vec<(u64, T)>, end: u64) -> TimedStream<T> {
    TimedStream { items: items.into_iter().map(|(at, value)| Timed { at, value }).collect(), end }
}

fn ev(at: u64, task: usize, label: u64) -> Event {
    Event { at, task, what: Output::Emit(label) }
}

fn label(e: &Event) -> u64 {
    match e.what {
        Output::Emit(l) => l,
        _ => u64::MAX,
    }
}

#[test]
fn timer_queue_orders_by_deadline_then_registration() {
    let mut q = TimerQueue::new();
    assert_eq!(q.insert(50, 1), 0);
    assert_eq!(q.insert(20, 2), 1);
    assert_eq!(q.insert(50, 3), 2);
    assert_eq!(q.earliest(), Some(20));
    assert_eq!(q.pop_expired(19), Vec::<usize>::new());
    assert_eq!(q.pop_expired(49), vec![2]);
    assert_eq!(q.pop_expired(50), vec![1, 3]);
    assert_eq!(q.len(), 0);
    assert_eq!(q.earliest(), None);
}

#[test]
fn timer_queue_cancel_releases_entry() {
    let mut q = TimerQueue::new();
    let a = q.insert(10, 1);
    let b = q.insert(10, 2);
    assert!(q.cancel(a));
    assert!(!q.cancel(a));
    assert_eq!(q.pop_expired(10), vec![2]);
    assert!(!q.cancel(b));
}

#[test]
fn channel_fifo_then_close() {
    let mut c: Channel<&str> = Channel::new();
    assert_eq!(c.send("x"), Ok(None));
    assert_eq!(c.send("y"), Ok(None));
    assert_eq!(c.send("z"), Ok(None));
    assert_eq!(c.drop_sender(), None);
    assert!(c.is_closed());
    assert_eq!(c.poll_recv(0), Poll::Ready(Some("x")));
    assert_eq!(c.poll_recv(0), Poll::Ready(Some("y")));
    assert_eq!(c.poll_recv(0), Poll::Ready(Some("z")));
    assert_eq!(c.poll_recv(0), Poll::Ready(None));
    assert_eq!(c.poll_recv(0), Poll::Ready(None));
    assert_eq!(c.poll_recv(0), Poll::Ready(None));
}

#[test]
fn channel_wakes_parked_receiver() {
    let mut c: Channel<u32> = Channel::new();
    assert_eq!(c.poll_recv(7), Poll::Pending);
    assert_eq!(c.send(1), Ok(Some(7)));
    assert_eq!(c.send(2), Ok(None));
    assert_eq!(c.poll_recv(7), Poll::Ready(Some(1)));
    assert_eq!(c.poll_recv(7), Poll::Ready(Some(2)));
    assert_eq!(c.poll_recv(7), Poll::Pending);
    c.clone_sender();
    assert_eq!(c.drop_sender(), None);
    assert_eq!(c.drop_sender(), Some(7));
    assert_eq!(c.poll_recv(7), Poll::Ready(None));
}

#[test]
fn channel_send_without_receiver_fails() {
    let mut c: Channel<String> = Channel::new();
    c.drop_receiver();
    assert_eq!(c.send(String::from("lost")), Err(SendError(String::from("lost"))));
}

#[test]
fn throttle_spaces_immediate_items() {
    let s = stream(vec![(0, 'a'), (0, 'b'), (0, 'c')], 0);
    let r = throttle(s, 100);
    assert_eq!(r.items, vec![timed(0, 'a'), timed(100, 'b'), timed(200, 'c')]);
    assert_eq!(r.end, 300);
}

#[test]
fn throttle_keeps_late_items_on_time() {
    let s = stream(vec![(5, 1u32), (50, 2), (500, 3)], 600);
    let r = throttle(s, 100);
    assert_eq!(r.items, vec![timed(5, 1), timed(105, 2), timed(500, 3)]);
    assert_eq!(r.end, 600);
}

#[test]
fn timeout_reports_elapsed_and_keeps_items() {
    let mut items = Vec::new();
    let mut at = 0u64;
    for (i, m) in ["a", "b", "c", "d", "e", "f", "g", "h", "i", "j"].iter().enumerate() {
        at += if i % 2 == 0 { 100 } else { 300 };
        items.push((at, format!("Message: '{m} {i}'")));
    }
    let r = timeout(stream(items, 2000), 200);
    let got: Vec<String> = r
        .items
        .iter()
        .map(|t| match &t.value {
            Ok(m) => m.clone(),
            Err(Elapsed) => String::from("Elapsed"),
        })
        .collect();
    assert_eq!(
        got,
        vec![
            "Message: 'a 0'", "Elapsed", "Message: 'b 1'", "Message: 'c 2'", "Elapsed",
            "Message: 'd 3'", "Message: 'e 4'", "Elapsed", "Message: 'f 5'", "Message: 'g 6'",
            "Elapsed", "Message: 'h 7'", "Message: 'i 8'", "Elapsed", "Message: 'j 9'",
        ]
    );
    let times: Vec<u64> = r.items.iter().map(|t| t.at).collect();
    assert_eq!(
        times,
        vec![100, 300, 400, 500, 700, 800, 900, 1100, 1200, 1300, 1500, 1600, 1700, 1900, 2000]
    );
    assert_eq!(r.end, 2000);
}

#[test]
fn timeout_on_silent_stream_elapses_once() {
    let r = timeout(stream(Vec::<(u64, u8)>::new(), 1000), 200);
    assert_eq!(r.items, vec![timed(200, Err(Elapsed))]);
    assert_eq!(r.end, 1000);
    let r = timeout(stream(vec![(900, 1u8)], 900), 200);
    assert_eq!(r.items, vec![timed(200, Err(Elapsed)), timed(900, Ok(1))]);
}

#[test]
fn merge_interleaves_by_time_and_keeps_each_order() {
    let a = stream(vec![(0, "a0"), (300, "a1")], 300);
    let b = stream(vec![(0, "b0"), (0, "b1"), (100, "b2")], 100);
    let r = merge(a, b);
    assert_eq!(
        r.items,
        vec![timed(0, "a0"), timed(0, "b0"), timed(0, "b1"), timed(100, "b2"), timed(300, "a1")]
    );
    assert_eq!(r.end, 300);
}

#[test]
fn merge_alternates_on_ties() {
    let a = stream(vec![(0, 'a'), (0, 'A')], 0);
    let b = stream(vec![(0, 'b'), (0, 'B')], 5);
    let r = merge(a, b);
    let values: Vec<char> = r.items.iter().map(|t| t.value).collect();
    assert_eq!(values, vec!['a', 'b', 'A', 'B']);
    assert_eq!(r.end, 5);
}

#[test]
fn merge_of_empty_streams_is_done_when_both_are() {
    let r = merge(stream(Vec::<(u64, u8)>::new(), 40), stream(Vec::new(), 70));
    assert!(r.items.is_empty());
    assert_eq!(r.end, 70);
}

#[test]
fn take_stops_after_limit() {
    let s = || stream(vec![(10, 1u8), (20, 2), (30, 3), (40, 4), (50, 5)], 60);
    let r = take(s(), 2);
    assert_eq!(r.items, vec![timed(10, 1), timed(20, 2)]);
    assert_eq!(r.end, 20);
    let r = take(s(), 10);
    assert_eq!(r.items.len(), 5);
    assert_eq!(r.end, 60);
    let r = take(s(), 0);
    assert!(r.items.is_empty());
    assert_eq!(r.end, 0);
}

#[test]
fn join_and_race_of_timed_futures() {
    assert_eq!(join(timed(300, 'a'), timed(100, 2u8)), timed(300, ('a', 2)));
    assert_eq!(race(timed(300, 'a'), timed(100, 2u8)), timed(100, Either::Right(2)));
    assert_eq!(race(timed(100, 'a'), timed(100, 2u8)), timed(100, Either::Left('a')));
    let all = join_all(vec![timed(30, 'x'), timed(90, 'y'), timed(10, 'z')]);
    assert_eq!(all, timed(90, vec!['x', 'y', 'z']));
    assert_eq!(join_all(Vec::<Timed<u8>>::new()), timed(0, vec![]));
}

#[test]
fn join_polls_each_child_until_ready() {
    let r = drive_join(2, "a", 5, "b");
    assert_eq!(r.output, ("a", "b"));
    assert_eq!(r.rounds, 6);
    assert_eq!(r.polls_left, 3);
    assert_eq!(r.polls_right, 6);
    let mut j: Join<u8, u8> = Join::new();
    assert!(j.polls_left() && j.polls_right());
    j.complete_right(4);
    assert!(j.polls_left() && !j.polls_right());
    j.complete_left(3);
    assert_eq!(j.output(), Some((3, 4)));
}

#[test]
fn race_stops_polling_the_loser() {
    let r = drive_race(1, 'x', 3, 'y');
    assert_eq!(r.output, Either::Left('x'));
    assert_eq!(r.rounds, 2);
    assert_eq!(r.polls_left, 2);
    assert_eq!(r.polls_right, 1);
    let r = drive_race(4, 'x', 2, 'y');
    assert_eq!(r.output, Either::Right('y'));
    assert_eq!((r.rounds, r.polls_left, r.polls_right), (3, 3, 3));
    let r = drive_race(2, 'x', 2, 'y');
    assert_eq!(r.output, Either::Left('x'));
    assert_eq!((r.rounds, r.polls_left, r.polls_right), (3, 3, 2));
    let mut race: Race<u8, u8> = Race::new();
    race.offer_left(None);
    assert!(race.polls());
    race.offer_right(Some(9));
    assert!(!race.polls());
    assert_eq!(race.output(), Some(Either::Right(9)));
}

#[test]
fn sleeping_task_wakes_exactly_at_deadline() {
    let mut ex = Executor::new(vec![vec![Step::Sleep(10), Step::Emit(1)]]);
    assert_eq!(ex.tick(), Tick::Polled(0));
    assert_eq!(ex.now_ms(), 0);
    assert!(!ex.root_done());
    assert!(ex.events().is_empty());
    assert_eq!(ex.tick(), Tick::Advanced(10));
    assert_eq!(ex.now_ms(), 10);
    assert_eq!(ex.tick(), Tick::Polled(0));
    assert_eq!(ex.events(), &vec![ev(10, 0, 1)]);
    assert!(ex.root_done());
    assert_eq!(ex.tick(), Tick::Idle);
}

#[test]
fn spawned_task_interleaves_with_root() {
    let root = vec![
        Step::Spawn(1),
        Step::Emit(2),
        Step::Sleep(500),
        Step::Emit(2),
        Step::Sleep(500),
        Step::Emit(2),
        Step::Sleep(500),
        Step::Emit(2),
        Step::Sleep(500),
        Step::Await(1),
    ];
    let first = vec![Step::Sleep(500), Step::Emit(1)];
    let r = run(vec![root, first], 1000);
    assert!(r.root_done);
    assert_eq!(r.now, 2000);
    assert_eq!(
        r.log,
        vec![ev(0, 0, 2), ev(500, 0, 2), ev(500, 1, 1), ev(1000, 0, 2), ev(1500, 0, 2)]
    );
    assert_eq!(r.log.iter().filter(|e| label(e) == 1).count(), 1);
    assert_eq!(r.await_handle(1), Ok(()));
}

#[test]
fn yield_hands_control_to_the_next_ready_task() {
    let root = vec![Step::Spawn(1), Step::Emit(10), Step::Yield, Step::Emit(11), Step::Await(1)];
    let other = vec![Step::Emit(1), Step::Yield, Step::Emit(2)];
    let r = run(vec![root, other], 100);
    assert!(r.root_done);
    let labels: Vec<u64> = r.log.iter().map(label).collect();
    assert_eq!(labels, vec![10, 1, 11, 2]);
    assert_eq!(r.now, 0);
}

#[test]
fn root_finishing_drops_other_tasks() {
    let root = vec![Step::Spawn(1), Step::Sleep(100), Step::Emit(5)];
    let other = vec![Step::Sleep(1000), Step::Emit(6)];
    let r = run(vec![root, other], 100);
    assert!(r.root_done);
    assert_eq!(r.log, vec![ev(100, 0, 5)]);
    assert_eq!(r.await_handle(0), Ok(()));
    assert_eq!(r.await_handle(1), Err(Cancelled));
    assert_eq!(r.await_handle(7), Err(Cancelled));
}

#[test]
fn stalled_root_goes_idle() {
    let r = run(vec![vec![Step::Await(0)]], 100);
    assert!(!r.root_done);
    assert!(r.idle);
    let r = run(vec![vec![Step::Yield, Step::Yield, Step::Yield]], 2);
    assert!(!r.root_done);
    assert_eq!(r.ticks, 2);
}

#[test]
fn map_transforms_values_and_keeps_timing() {
    let s = stream(vec![(1, 1u32), (3, 2), (3, 3)], 9);
    let r = coop_async::timed::map(s, |count: u32| format!("Interval: {count}"));
    assert_eq!(
        r.items,
        vec![
            timed(1, String::from("Interval: 1")),
            timed(3, String::from("Interval: 2")),
            timed(3, String::from("Interval: 3")),
        ]
    );
    assert_eq!(r.end, 9);
}

#[test]
fn throttled_intervals_merged_with_messages() {
    let intervals: Vec<(u64, u32)> = (1..=6).map(|c| (c as u64, c)).collect();
    let intervals = throttle(coop_async::timed::map(stream(intervals, 6), |c: u32| format!("Interval: {c}")), 100);
    let times: Vec<u64> = intervals.items.iter().map(|t| t.at).collect();
    assert_eq!(times, vec![1, 101, 201, 301, 401, 501]);
    let messages = stream(vec![(100, String::from("Message: 'a'")), (400, String::from("Message: 'b'"))], 400);
    let merged = take(merge(messages, intervals), 5);
    let values: Vec<String> = merged.items.iter().map(|t| t.value.clone()).collect();
    assert_eq!(
        values,
        vec!["Interval: 1", "Message: 'a'", "Interval: 2", "Interval: 3", "Interval: 4"]
    );
    assert_eq!(merged.end, 301);
}

#[test]
fn await_of_unknown_handle_is_cancelled_not_swallowed() {
    let root = vec![Step::Await(5), Step::Emit(3)];
    let r = run(vec![root], 10);
    assert!(r.root_done);
    assert_eq!(
        r.log,
        vec![Event { at: 0, task: 0, what: Output::Cancelled(5) }, ev(0, 0, 3)]
    );
}

#[test]
fn spawn_of_missing_program_is_rejected_up_front() {
    assert!(check_programs(&vec![vec![Step::Spawn(1)], vec![Step::Emit(1)]]));
    assert!(!check_programs(&vec![vec![Step::Emit(1), Step::Spawn(2)], vec![]]));
}

#[test]
fn awaiting_task_is_woken_when_awaited_task_finishes() {
    let root = vec![Step::Spawn(1), Step::Await(1), Step::Emit(7)];
    let child = vec![Step::Sleep(30), Step::Emit(6)];
    let mut ex = Executor::new(vec![root, child]);
    assert_eq!(ex.tick(), Tick::Polled(0));
    assert_eq!(ex.tick(), Tick::Polled(1));
    assert_eq!(ex.tick(), Tick::Advanced(30));
    assert_eq!(ex.tick(), Tick::Polled(1));
    assert_eq!(ex.tick(), Tick::Polled(0));
    assert_eq!(ex.events(), &vec![ev(30, 1, 6), ev(30, 0, 7)]);
    assert!(ex.root_done());
}

#[test]
fn race_polls_first_child_then_second_each_round() {
    let r = drive_race(3, (), 4, ());
    assert_eq!(r.output, Either::Left(()));
    assert_eq!((r.polls_left, r.polls_right), (4, 3));
    assert_eq!(r.order, vec![true, false, true, false, true, false, true]);
    let r = drive_race(2, (), 1, ());
    assert_eq!(r.order, vec![true, false, true, false]);
}

#[test]
fn join_poll_order_skips_ready_children() {
    let r = drive_join(2, "a", 5, "b");
    assert_eq!(r.order, vec![true, false, true, false, true, false, false, false, false]);
}

#[test]
fn aborting_the_loser_releases_its_timer() {
    let root = vec![Step::Spawn(1), Step::Spawn(2), Step::Await(1), Step::Abort(2), Step::Emit(9)];
    let fast = vec![Step::Sleep(100), Step::Emit(1)];
    let slow = vec![Step::Sleep(500), Step::Emit(2)];
    let mut ex = Executor::new(vec![root.clone(), fast.clone(), slow.clone()]);
    let mut ticks = 0;
    while !ex.root_done() && ticks < 100 {
        ex.tick();
        ticks += 1;
    }
    assert_eq!(ex.events(), &vec![ev(100, 1, 1), ev(100, 0, 9)]);
    assert_eq!(ex.tick(), Tick::Idle);
    assert_eq!(ex.now_ms(), 100);
    let r = run(vec![root, fast, slow], 100);
    assert_eq!(r.await_handle(1), Ok(()));
    assert_eq!(r.await_handle(2), Err(Cancelled));
}

#[test]
fn awaiting_a_dropped_task_gives_cancelled() {
    let root = vec![Step::Spawn(1), Step::Abort(1), Step::Await(1), Step::Abort(0), Step::Emit(4)];
    let child = vec![Step::Emit(1)];
    let r = run(vec![root, child], 100);
    assert!(r.root_done);
    assert_eq!(r.log, vec![Event { at: 0, task: 0, what: Output::Cancelled(1) }, ev(0, 0, 4)]);
    assert_eq!(r.await_handle(1), Err(Cancelled));
}

#[test]
fn timer_queue_cancel_task_drops_all_its_entries() {
    let mut q = TimerQueue::new();
    q.insert(30, 4);
    q.insert(10, 5);
    q.insert(20, 4);
    q.cancel_task(4);
    assert_eq!(q.len(), 1);
    assert_eq!(q.pop_expired(100), vec![5]);
}

#[test]
fn message_passing_between_tasks() {
    let root = vec![
        Step::Open,
        Step::CloneSender(0),
        Step::Spawn(1),
        Step::Spawn(2),
        Step::Spawn(3),
        Step::Await(1),
        Step::Await(2),
        Step::Await(3),
    ];
    let mut first = Vec::new();
    let mut second = Vec::new();
    for k in 1..=4u64 {
        first.push(Step::Send(0, k));
        first.push(Step::Sleep(500));
        second.push(Step::Send(0, 10 + k));
        second.push(Step::Sleep(500));
    }
    first.push(Step::DropSender(0));
    second.push(Step::DropSender(0));
    let receiver = vec![Step::Recv(0); 9];
    let r = run(vec![root, first, receiver, second], 1000);
    assert!(r.root_done);
    let got: Vec<(u64, Output)> = r.log.iter().map(|e| (e.at, e.what)).collect();
    assert_eq!(
        got,
        vec![
            (0, Output::Received(1)),
            (0, Output::Received(11)),
            (500, Output::Received(2)),
            (500, Output::Received(12)),
            (1000, Output::Received(3)),
            (1000, Output::Received(13)),
            (1500, Output::Received(4)),
            (1500, Output::Received(14)),
            (2000, Output::Closed(0)),
        ]
    );
    assert!(r.log.iter().all(|e| e.task == 2));
}

#[test]
fn misused_channels_are_reported() {
    let root = vec![Step::Send(3, 1), Step::Open, Step::DropSender(0), Step::DropSender(0), Step::Recv(0)];
    let r = run(vec![root], 100);
    let got: Vec<Output> = r.log.iter().map(|e| e.what).collect();
    assert_eq!(got, vec![Output::BadChannel(3), Output::BadChannel(0), Output::Closed(0)]);
}

#[test]
fn waiting_awaiter_of_an_aborted_task_gets_cancelled() {
    let root = vec![Step::Spawn(1), Step::Spawn(2), Step::Await(1), Step::Emit(5)];
    let slow = vec![Step::Sleep(100), Step::Emit(1)];
    let killer = vec![Step::Abort(1)];
    let r = run(vec![root, slow, killer], 100);
    assert!(r.root_done);
    assert_eq!(r.log, vec![Event { at: 0, task: 0, what: Output::Cancelled(1) }, ev(0, 0, 5)]);
    assert_eq!(r.now, 0);
}

#[test]
fn aborted_receiver_is_not_woken_by_a_send() {
    let root = vec![Step::Open, Step::Spawn(1), Step::Spawn(2), Step::Await(2), Step::Send(0, 9), Step::Emit(3)];
    let receiver = vec![Step::Recv(0), Step::Emit(8)];
    let killer = vec![Step::Abort(1)];
    let mut ex = Executor::new(vec![root, receiver, killer]);
    let mut ticks = 0;
    while !ex.root_done() && ticks < 100 {
        ex.tick();
        ticks += 1;
    }
    assert_eq!(ex.events(), &vec![ev(0, 0, 3)]);
    assert_eq!(ex.tick(), Tick::Idle);
}
